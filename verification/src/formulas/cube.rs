use vstd::prelude::*;
use vstd::std_specs::iter::IteratorSpec;

use super::clause::{copy_literals, sort_literals, Clause};
use super::cnf::CNF;
use super::literal::Literal;
use super::semantics::{
    all_valid, clause_holds, cnf_holds, cube_holds, lemma_negate_all, lemma_same_literals_hold,
    negate_all, same_literals, sorted_by_code, Valuation,
};

verus! {

/// A conjunction of literals, kept sorted by the literals' order.
#[derive(Eq, PartialEq, Hash)]
pub struct Cube {
    literals: Vec<Literal>,
}

impl Cube {
    /// The cube's literals in order.
    pub closed spec fn view(&self) -> Seq<Literal> {
        self.literals@
    }

    /// A cube keeps its literals sorted, each naming a variable with a positive number.
    #[verifier::type_invariant]
    pub closed spec fn wf(self) -> bool {
        sorted_by_code(self.literals@) && all_valid(self.literals@)
    }

    /// What every cube keeps.
    pub fn check_wf(&self)
        ensures
            sorted_by_code(self.view()),
            all_valid(self.view()),
    {
        proof {
            use_type_invariant(self);
        }
    }

    /// Returns the cube made of the literals given, sorted.
    pub fn new(literals: &[Literal]) -> (r: Self)
        ensures
            sorted_by_code(r.view()),
            same_literals(r.view(), literals@),
    {
        Self { literals: sort_literals(literals) }
    }

    /// The number of literals.
    pub fn len(&self) -> (r: usize)
        ensures
            r == self.view().len(),
    {
        self.literals.len()
    }

    /// Whether the cube has no literals (the empty cube is true).
    pub fn is_empty(&self) -> (r: bool)
        ensures
            r == (self.view().len() == 0),
    {
        self.literals.len() == 0
    }

    /// An iterator over the literals in order.
    pub fn iter(&self) -> (r: std::slice::Iter<'_, Literal>)
        ensures
            r.remaining() == self.view().as_ref(),
    {
        self.literals.iter()
    }

    /// The literal at position `i`.
    pub fn get(&self, i: usize) -> (r: Literal)
        requires
            i < self.view().len(),
        ensures
            r == self.view()[i as int],
    {
        self.literals[i]
    }

    /// A copy of the cube.
    pub(crate) fn duplicate(&self) -> (r: Self)
        ensures
            r.view() == self.view(),
    {
        proof {
            use_type_invariant(self);
        }
        Self { literals: copy_literals(&self.literals) }
    }

    /// The clause of the negated literals: it holds exactly when the cube does not.
    pub fn negate(&self) -> (r: Clause)
        ensures
            sorted_by_code(r.view()),
            same_literals(r.view(), negate_all(self.view())),
            forall|a: Valuation| clause_holds(#[trigger] r.view(), a) == !cube_holds(self.view(), a),
    {
        let mut negated: Vec<Literal> = Vec::new();
        let mut i: usize = 0;
        while i < self.literals.len()
            invariant
                i <= self.literals.len(),
                negated@ == negate_all(self.literals@.take(i as int)),
            decreases self.literals.len() - i,
        {
            negated.push(self.literals[i].negated());
            i = i + 1;
            assert(negated@ =~= negate_all(self.literals@.take(i as int)));
        }
        assert(self.literals@.take(self.literals.len() as int) =~= self.literals@);
        let r = Clause::new(negated.as_slice());
        proof {
            assert forall|a: Valuation| clause_holds(#[trigger] r.view(), a) == !cube_holds(self.view(), a) by {
                lemma_same_literals_hold(r.view(), negate_all(self.view()), a);
                lemma_negate_all(self.view(), a);
            }
        }
        r
    }

    /// The CNF with one unit clause for each literal: it holds exactly when the cube does.
    pub fn to_cnf(&self) -> (r: CNF)
        ensures
            forall|a: Valuation| cnf_holds(#[trigger] r.view(), a) == cube_holds(self.view(), a),
            forall|c: Seq<Literal>| #[trigger] r.view().contains(c) <==> exists|i: int|
                0 <= i < self.view().len() && c == seq![self.view()[i]],
    {
        proof {
            use_type_invariant(self);
        }
        let mut cnf = CNF::new();
        let mut i: usize = 0;
        while i < self.literals.len()
            invariant
                i <= self.literals.len(),
                all_valid(self.literals@),
                self.view() == self.literals@,
                forall|c: Seq<Literal>| #[trigger] cnf.view().contains(c) <==> exists|j: int|
                    0 <= j < i && c == seq![self.view()[j]],
            decreases self.literals.len() - i,
        {
            let lit = self.literals[i];
            let unit = Clause::from_sorted(vec![lit]);
            assert(unit.view() =~= seq![lit]);
            cnf.add_clause(&unit);
            proof {
                assert forall|c: Seq<Literal>| #[trigger] cnf.view().contains(c) <==> exists|j: int|
                    0 <= j < i + 1 && c == seq![self.view()[j]] by {
                    if c == seq![lit] {
                        assert(c == seq![self.view()[i as int]]);
                    }
                }
            }
            i = i + 1;
        }
        proof {
            assert forall|a: Valuation| cnf_holds(#[trigger] cnf.view(), a) == cube_holds(self.view(), a) by {
                if cnf_holds(cnf.view(), a) {
                    assert forall|j: int| 0 <= j < self.view().len() implies super::semantics::literal_holds(
                        #[trigger] self.view()[j],
                        a,
                    ) by {
                        let c = seq![self.literals@[j]];
                        assert(cnf.view().contains(c));
                        assert(clause_holds(c, a));
                    }
                }
                if cube_holds(self.view(), a) {
                    assert forall|c: Seq<Literal>| #[trigger] cnf.view().contains(c) implies clause_holds(c, a) by {
                        let j = choose|j: int| 0 <= j < self.view().len() && c == seq![self.view()[j]];
                        assert(c[0] == self.literals@[j]);
                        assert(super::semantics::literal_holds(self.view()[j], a));
                    }
                }
            }
        }
        cnf
    }
}

impl Clone for Cube {
    fn clone(&self) -> (r: Self)
        ensures
            r.view() == self.view(),
    {
        self.duplicate()
    }
}

impl core::ops::Not for Cube {
    type Output = Clause;

    fn not(self) -> (r: Clause)
        ensures
            forall|a: Valuation| clause_holds(#[trigger] r.view(), a) == !cube_holds(self.view(), a),
    {
        self.negate()
    }
}

impl vstd::std_specs::ops::NotSpecImpl for Cube {
    open spec fn obeys_not_spec() -> bool {
        false
    }

    open spec fn not_req(self) -> bool {
        true
    }

    open spec fn not_spec(self) -> Clause {
        vstd::pervasive::arbitrary()
    }
}

} // verus!
