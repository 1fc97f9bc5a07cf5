use vstd::prelude::*;
use vstd::std_specs::iter::IteratorSpec;
use vstd::string::StringExecFns;

use super::cube::Cube;
use super::literal::Literal;
use super::semantics::{
    all_valid, clause_holds, cube_holds, lemma_negate_all, lemma_same_literals_hold, max_var,
    negate_all, same_literals, sorted_by_code, Valuation,
};
use crate::text::{append_decimal, decimal};

verus! {

/// A disjunction of literals, kept sorted by the literals' order.
#[derive(Eq, PartialEq, Hash, PartialOrd, Ord)]
pub struct Clause {
    literals: Vec<Literal>,
}

/// The DIMACS text of a literal: its variable number, with a leading `-` when negated.
pub open spec fn literal_text(l: Literal) -> Seq<char> {
    if l.neg() {
        seq!['-'] + decimal(l.var())
    } else {
        decimal(l.var())
    }
}

/// The DIMACS texts of literals separated by single spaces.
pub open spec fn literals_text(s: Seq<Literal>) -> Seq<char>
    decreases s.len(),
{
    if s.len() == 0 {
        seq![]
    } else if s.len() == 1 {
        literal_text(s[0])
    } else {
        literals_text(s.drop_last()) + seq![' '] + literal_text(s.last())
    }
}

/// The DIMACS line of a clause: its literals followed by ` 0`.
pub open spec fn clause_text(s: Seq<Literal>) -> Seq<char> {
    literals_text(s) + seq![' ', '0']
}

/// Returns the literals sorted by their order, keeping repeated literals.
pub fn sort_literals(literals: &[Literal]) -> (r: Vec<Literal>)
    ensures
        sorted_by_code(r@),
        same_literals(r@, literals@),
        all_valid(r@),
{
    broadcast use vstd::seq_lib::group_to_multiset_ensures;

    let mut sorted: Vec<Literal> = Vec::new();
    let mut i: usize = 0;
    while i < literals.len()
        invariant
            i <= literals.len(),
            sorted_by_code(sorted@),
            all_valid(sorted@),
            sorted@.to_multiset() == literals@.take(i as int).to_multiset(),
        decreases literals.len() - i,
    {
        let x = literals[i];
        let _ = x.get_number();
        let code = x.get_code();
        let mut p: usize = 0;
        while p < sorted.len() && sorted[p].get_code() <= code
            invariant
                p <= sorted.len(),
                code == x.code(),
                forall|k: int| 0 <= k < p ==> (#[trigger] sorted@[k]).code() <= x.code(),
            decreases sorted.len() - p,
        {
            p = p + 1;
        }
        let ghost old_sorted = sorted@;
        sorted.insert(p, x);
        proof {
            assert forall|a: int, b: int| 0 <= a <= b < sorted@.len() implies (
            #[trigger] sorted@[a]).code() <= (#[trigger] sorted@[b]).code() by {
                if a < p as int && b < p as int {
                    assert(sorted@[a] == old_sorted[a] && sorted@[b] == old_sorted[b]);
                } else if a < p as int && b == p as int {
                    assert(sorted@[a] == old_sorted[a]);
                } else if a < p as int {
                    assert(sorted@[a] == old_sorted[a] && sorted@[b] == old_sorted[b - 1]);
                } else if a == p as int && b > a {
                    assert(sorted@[b] == old_sorted[b - 1]);
                    assert(!(old_sorted[p as int].code() <= x.code()));
                } else if a > p as int {
                    assert(sorted@[a] == old_sorted[a - 1] && sorted@[b] == old_sorted[b - 1]);
                }
            }
            assert forall|k: int| 0 <= k < sorted@.len() implies (#[trigger] sorted@[k]).is_valid() by {
                if k < p as int {
                    assert(sorted@[k] == old_sorted[k]);
                } else if k > p as int {
                    assert(sorted@[k] == old_sorted[k - 1]);
                }
            }
            assert(sorted@ == old_sorted.insert(p as int, x));
            vstd::seq_lib::to_multiset_insert(old_sorted, p as int, x);
            assert(literals@.take(i + 1) =~= literals@.take(i as int).push(x));
            vstd::seq_lib::to_multiset_build(literals@.take(i as int), x);
        }
        i = i + 1;
    }
    assert(literals@.take(literals.len() as int) =~= literals@);
    sorted
}

/// Returns a copy of a vector of literals.
pub(crate) fn copy_literals(v: &Vec<Literal>) -> (r: Vec<Literal>)
    ensures
        r@ == v@,
{
    let mut r: Vec<Literal> = Vec::new();
    let mut i: usize = 0;
    while i < v.len()
        invariant
            i <= v.len(),
            r@ == v@.take(i as int),
        decreases v.len() - i,
    {
        r.push(v[i]);
        i = i + 1;
        assert(r@ =~= v@.take(i as int));
    }
    assert(v@.take(v.len() as int) =~= v@);
    r
}

/// Appends the DIMACS text of a literal.
pub(crate) fn append_literal_text(s: &mut String, l: &Literal)
    ensures
        final(s)@ == old(s)@ + literal_text(*l),
{
    if l.is_negated() {
        proof {
            reveal_strlit("-");
        }
        s.append("-");
    }
    append_decimal(s, l.get_number() as u64);
    assert(final(s)@ =~= old(s)@ + literal_text(*l));
}

/// Appends the DIMACS texts of literals separated by single spaces.
pub(crate) fn append_literals_text(s: &mut String, lits: &Vec<Literal>)
    ensures
        final(s)@ == old(s)@ + literals_text(lits@),
{
    let ghost start = s@;
    let mut i: usize = 0;
    while i < lits.len()
        invariant
            i <= lits.len(),
            s@ == start + literals_text(lits@.take(i as int)),
        decreases lits.len() - i,
    {
        let ghost before = s@;
        if i > 0 {
            proof {
                reveal_strlit(" ");
            }
            s.append(" ");
        }
        append_literal_text(s, &lits[i]);
        proof {
            let t = lits@.take(i + 1);
            assert(t.drop_last() =~= lits@.take(i as int));
            assert(t.last() == lits@[i as int]);
            if i == 0 {
                assert(literals_text(t) == literal_text(t[0]));
                assert(s@ =~= start + literals_text(t));
            } else {
                assert(s@ =~= start + literals_text(t));
            }
        }
        i = i + 1;
    }
    assert(lits@.take(lits.len() as int) =~= lits@);
}

impl Clause {
    /// The clause's literals in order.
    pub closed spec fn view(&self) -> Seq<Literal> {
        self.literals@
    }

    /// A clause keeps its literals sorted, each naming a variable with a positive number.
    #[verifier::type_invariant]
    pub closed spec fn wf(self) -> bool {
        sorted_by_code(self.literals@) && all_valid(self.literals@)
    }

    /// What every clause keeps.
    pub fn check_wf(&self)
        ensures
            sorted_by_code(self.view()),
            all_valid(self.view()),
    {
        proof {
            use_type_invariant(self);
        }
    }

    /// Whether the two clauses have the same literals in the same order.
    pub fn same_as(&self, other: &Clause) -> (r: bool)
        ensures
            r == (self.view() == other.view()),
    {
        if self.literals.len() != other.literals.len() {
            return false;
        }
        let mut i: usize = 0;
        while i < self.literals.len()
            invariant
                i <= self.literals@.len(),
                self.literals@.len() == other.literals@.len(),
                forall|j: int| 0 <= j < i ==> self.literals@[j] == other.literals@[j],
            decreases self.literals.len() - i,
        {
            if self.literals[i].get_code() != other.literals[i].get_code() {
                proof {
                    Literal::lemma_code_injective(self.literals@[i as int], other.literals@[i as int]);
                }
                return false;
            }
            proof {
                Literal::lemma_code_injective(self.literals@[i as int], other.literals@[i as int]);
            }
            i = i + 1;
        }
        assert(self.literals@ =~= other.literals@);
        true
    }

    /// Returns the clause made of the literals given, sorted.
    pub fn new(literals: &[Literal]) -> (r: Self)
        ensures
            sorted_by_code(r.view()),
            same_literals(r.view(), literals@),
    {
        Self { literals: sort_literals(literals) }
    }

    /// The clause with exactly the literals given, which are sorted already.
    pub(crate) fn from_sorted(literals: Vec<Literal>) -> (r: Self)
        requires
            sorted_by_code(literals@),
            all_valid(literals@),
        ensures
            r.view() == literals@,
    {
        Self { literals }
    }

    /// The number of literals.
    pub fn len(&self) -> (r: usize)
        ensures
            r == self.view().len(),
    {
        self.literals.len()
    }

    /// Whether the clause has no literals (the empty clause is false).
    pub fn is_empty(&self) -> (r: bool)
        ensures
            r == (self.view().len() == 0),
    {
        self.literals.len() == 0
    }

    /// An iterator over the literals in order.
    pub fn iter(&self) -> (r: std::slice::Iter<'_, Literal>)
        ensures
            r.remaining() == self.view().as_ref(),
    {
        self.literals.iter()
    }

    /// The literal at position `i`.
    pub fn get(&self, i: usize) -> (r: Literal)
        requires
            i < self.view().len(),
        ensures
            r == self.view()[i as int],
    {
        self.literals[i]
    }

    /// The largest variable number in the clause, 0 for the empty clause.
    pub fn get_highest_variable_number(&self) -> (r: u32)
        ensures
            r == max_var(self.view()),
    {
        let mut m: u32 = 0;
        let mut i: usize = 0;
        while i < self.literals.len()
            invariant
                i <= self.literals.len(),
                m == max_var(self.literals@.take(i as int)),
            decreases self.literals.len() - i,
        {
            let v = self.literals[i].get_number();
            proof {
                let t = self.literals@.take(i + 1);
                assert(t.drop_last() =~= self.literals@.take(i as int));
            }
            if v > m {
                m = v;
            }
            i = i + 1;
        }
        assert(self.literals@.take(self.literals.len() as int) =~= self.literals@);
        m
    }

    /// A copy of the clause.
    pub(crate) fn duplicate(&self) -> (r: Self)
        ensures
            r.view() == self.view(),
    {
        proof {
            use_type_invariant(self);
        }
        Self { literals: copy_literals(&self.literals) }
    }

    /// The cube of the negated literals: it holds exactly when the clause does not.
    pub fn negate(&self) -> (r: Cube)
        ensures
            sorted_by_code(r.view()),
            same_literals(r.view(), negate_all(self.view())),
            forall|a: Valuation| cube_holds(#[trigger] r.view(), a) == !clause_holds(self.view(), a),
    {
        let mut negated: Vec<Literal> = Vec::new();
        let mut i: usize = 0;
        while i < self.literals.len()
            invariant
                i <= self.literals.len(),
                negated@ == negate_all(self.literals@.take(i as int)),
            decreases self.literals.len() - i,
        {
            negated.push(self.literals[i].negated());
            i = i + 1;
            assert(negated@ =~= negate_all(self.literals@.take(i as int)));
        }
        assert(self.literals@.take(self.literals.len() as int) =~= self.literals@);
        let r = Cube::new(negated.as_slice());
        proof {
            assert forall|a: Valuation| cube_holds(#[trigger] r.view(), a) == !clause_holds(self.view(), a) by {
                lemma_same_literals_hold(r.view(), negate_all(self.view()), a);
                lemma_negate_all(self.view(), a);
            }
        }
        r
    }

    /// The CNF made of this clause alone.
    pub fn to_cnf(&self) -> (r: super::cnf::CNF)
        ensures
            r.view() == set![self.view()],
    {
        let mut r = super::cnf::CNF::new();
        r.add_clause(self);
        assert(r.view() =~= set![self.view()]);
        r
    }

    /// The clause in DIMACS notation: the literals separated by spaces, then ` 0`.
    pub fn to_string(&self) -> (r: String)
        ensures
            r@ == clause_text(self.view()),
    {
        let mut s = String::new();
        append_literals_text(&mut s, &self.literals);
        proof {
            reveal_strlit(" 0");
        }
        s.append(" 0");
        assert(s@ =~= clause_text(self.view()));
        s
    }
}

impl Clone for Clause {
    fn clone(&self) -> (r: Self)
        ensures
            r.view() == self.view(),
    {
        self.duplicate()
    }
}

impl core::ops::Not for Clause {
    type Output = Cube;

    fn not(self) -> (r: Cube)
        ensures
            forall|a: Valuation| cube_holds(#[trigger] r.view(), a) == !clause_holds(self.view(), a),
    {
        self.negate()
    }
}

impl vstd::std_specs::ops::NotSpecImpl for Clause {
    open spec fn obeys_not_spec() -> bool {
        false
    }

    open spec fn not_req(self) -> bool {
        true
    }

    open spec fn not_spec(self) -> Cube {
        vstd::pervasive::arbitrary()
    }
}

} // verus!
