//! A partial assignment of truth values to variables, as a SAT solver reports it.

use crate::formulas::literal::Literal;
use crate::formulas::semantics::{cnf_holds, satisfiable, Valuation};
use std::collections::HashSet;
use vstd::prelude::*;

verus! {

broadcast use vstd::std_specs::hash::group_hash_axioms;

/// A partial assignment: the variables set to true and those set to false.
#[derive(Debug, PartialEq, Eq)]
pub struct Assignment {
    true_variables: HashSet<u32>,
    false_variables: HashSet<u32>,
}

/// Whether a list of DIMACS literals holds the literal `x`.
pub open spec fn lists(vector: Seq<i32>, x: int) -> bool {
    exists|i: int| 0 <= i < vector.len() && vector[i] == x
}

impl Assignment {
    /// The variables set to true.
    pub closed spec fn trues(&self) -> Set<u32> {
        self.true_variables@
    }

    /// The variables set to false.
    pub closed spec fn falses(&self) -> Set<u32> {
        self.false_variables@
    }

    /// The value of a variable: true when it is among the true variables, else false when it
    /// is among the false ones, else none.
    pub open spec fn value(&self, variable: u32) -> Option<bool> {
        if self.trues().contains(variable) {
            Some(true)
        } else if self.falses().contains(variable) {
            Some(false)
        } else {
            None
        }
    }

    /// The assignment given by a list of DIMACS literals: a positive number sets its variable
    /// to true, a negative one sets the variable of its absolute value to false.
    pub fn from_dimacs_assignment(vector: &[i32]) -> (r: Self)
        requires
            forall|i: int| 0 <= i < vector@.len() ==> #[trigger] vector@[i] != 0 && vector@[i] != i32::MIN,
        ensures
            forall|x: u32| #[trigger] r.trues().contains(x) <==> lists(vector@, x as int),
            forall|x: u32| #[trigger] r.falses().contains(x) <==> lists(vector@, -(x as int)),
    {
        let mut true_variables: HashSet<u32> = HashSet::new();
        let mut false_variables: HashSet<u32> = HashSet::new();
        let mut i: usize = 0;
        while i < vector.len()
            invariant
                i <= vector@.len(),
                forall|i: int| 0 <= i < vector@.len() ==> #[trigger] vector@[i] != 0 && vector@[i] != i32::MIN,
                forall|x: u32| #[trigger] true_variables@.contains(x) <==> lists(vector@.subrange(0, i as int), x as int),
                forall|x: u32| #[trigger] false_variables@.contains(x) <==> lists(vector@.subrange(0, i as int), -(x as int)),
            decreases vector@.len() - i,
        {
            let var = vector[i];
            let ghost pre = vector@.subrange(0, i as int);
            let ghost post = vector@.subrange(0, i as int + 1);
            proof {
                assert(post =~= pre.push(var));
                assert forall|y: int| lists(post, y) <==> (lists(pre, y) || y == var) by {
                    if lists(post, y) {
                        let k = choose|k: int| 0 <= k < post.len() && post[k] == y;
                        if k < pre.len() {
                            assert(pre[k] == y);
                        }
                    }
                    if lists(pre, y) {
                        let k = choose|k: int| 0 <= k < pre.len() && pre[k] == y;
                        assert(post[k] == y);
                    }
                    if y == var {
                        assert(post[i as int] == y);
                    }
                }
            }
            if var < 0 {
                false_variables.insert((-var) as u32);
            } else {
                true_variables.insert(var as u32);
            }
            i = i + 1;
        }
        proof {
            assert(vector@.subrange(0, vector@.len() as int) =~= vector@);
        }
        Self { true_variables, false_variables }
    }

    /// The value of a variable.
    pub fn get_value(&self, variable: &u32) -> (r: Option<bool>)
        ensures
            r == self.value(*variable),
    {
        if self.true_variables.contains(variable) {
            Some(true)
        } else if self.false_variables.contains(variable) {
            Some(false)
        } else {
            None
        }
    }
}

/// The valuation that makes true exactly the variables the assignment sets to true.
pub open spec fn assignment_valuation(a: Assignment) -> Valuation {
    |x: nat| a.value(x as u32) == Some(true)
}

/// Whether the assignment gives a literal its value.
pub open spec fn assignment_makes_true(a: Assignment, l: Literal) -> bool {
    a.value(l.var() as u32) == Some(!l.neg())
}

/// Whether every clause has a literal that the assignment makes true.
pub open spec fn assignment_satisfies(a: Assignment, f: Set<Seq<Literal>>) -> bool {
    forall|c: Seq<Literal>|
        #[trigger] f.contains(c) ==> exists|i: int|
            0 <= i < c.len() && assignment_makes_true(a, #[trigger] c[i])
}

/// Whether the assignment gives a value to every variable that occurs in the CNF.
pub open spec fn assignment_covers(a: Assignment, f: Set<Seq<Literal>>) -> bool {
    forall|c: Seq<Literal>, i: int|
        #[trigger] f.contains(c) && 0 <= i < c.len() ==> a.value((#[trigger] c[i]).var() as u32) is Some
}

/// Whether the assignment gives a value to every variable from 1 up to each variable that
/// occurs in the CNF, so to every variable up to the largest.
pub open spec fn assignment_covers_up_to_max(a: Assignment, f: Set<Seq<Literal>>) -> bool {
    forall|c: Seq<Literal>, i: int, x: u32|
        #![trigger f.contains(c), c[i], a.value(x)]
        f.contains(c) && 0 <= i < c.len() && 1 <= x <= c[i].var() ==> a.value(x) is Some
}

/// An assignment that satisfies a CNF makes it hold under its valuation, so the CNF is
/// satisfiable.
pub proof fn lemma_assignment_satisfies(a: Assignment, f: Set<Seq<Literal>>)
    requires
        assignment_satisfies(a, f),
    ensures
        cnf_holds(f, assignment_valuation(a)),
        satisfiable(f),
{
    assert forall|c: Seq<Literal>| #[trigger] f.contains(c) implies crate::formulas::semantics::clause_holds(c, assignment_valuation(a)) by {
        let i = choose|i: int| 0 <= i < c.len() && assignment_makes_true(a, #[trigger] c[i]);
        assert(crate::formulas::semantics::literal_holds(c[i], assignment_valuation(a)));
    }
    let val = assignment_valuation(a);
    assert(cnf_holds(f, val));
}

} // verus!
