//! Questions about CNF formulas that a SAT solver answers.

use crate::formulas::literal::Literal;
use crate::formulas::semantics::{
    clause_holds, cnf_holds, cube_holds, entails, satisfiable, Valuation,
};
use crate::formulas::CNF;
use crate::solvers::sat::assignment::{
    assignment_makes_true, assignment_satisfies, assignment_valuation, lemma_assignment_satisfies,
    Assignment,
};
use crate::solvers::sat::{SatResponse, StatelessSatSolver};
use vstd::prelude::*;

verus! {

/// Functions that returns true iff a -> b: every assignment that makes `a` hold makes `b`
/// hold. Asks the SAT solver, for each clause of `b`, whether `a` and the negation of the
/// clause can hold together.
pub fn does_a_imply_b<T: StatelessSatSolver>(a: &CNF, b: &CNF) -> (r: bool)
    ensures
        r == entails(a@, b@),
{
    b.check_wf();
    let mut k: usize = 0;
    while k < b.list_len()
        invariant
            k <= b.clause_list().len(),
            forall|j: int, v: Valuation|
                0 <= j < k && #[trigger] cnf_holds(a@, v) ==> clause_holds(#[trigger] b.clause_list()[j].view(), v),
        decreases b.clause_list().len() - k,
    {
        b.check_wf();
        let c = b.get(k);
        let cube = c.negate();
        let mut cnf_to_solve = cube.to_cnf();
        let ghost cube_cnf = cnf_to_solve@;
        cnf_to_solve.append(a);
        proof {
            assert(b.clause_list()[k as int].view() == c.view());
            assert(b@.contains(c.view()));
        }
        let solver = T::default();
        match solver.solve_cnf(&cnf_to_solve) {
            SatResponse::Sat { assignment } => {
                proof {
                    lemma_assignment_satisfies(assignment, cnf_to_solve@);
                    let v = assignment_valuation(assignment);
                    assert forall|d: Seq<Literal>| #[trigger] a@.contains(d) implies clause_holds(d, v) by {
                        assert(cnf_to_solve@.contains(d));
                    }
                    assert(cnf_holds(a@, v));
                    assert forall|d: Seq<Literal>| #[trigger] cube_cnf.contains(d) implies clause_holds(d, v) by {
                        assert(cnf_to_solve@.contains(d));
                    }
                    assert(cnf_holds(cube_cnf, v));
                    assert(cube_holds(cube.view(), v));
                    assert(!clause_holds(c.view(), v));
                    assert(b@.contains(c.view()));
                    assert(!entails(a@, b@));
                }
                return false;
            },
            SatResponse::UnSat => {
                proof {
                    assert forall|v: Valuation| #[trigger] cnf_holds(a@, v) implies clause_holds(c.view(), v) by {
                        if !clause_holds(c.view(), v) {
                            assert(cube_holds(cube.view(), v));
                            assert(cnf_holds(cube_cnf, v));
                            assert forall|d: Seq<Literal>| #[trigger] cnf_to_solve@.contains(d) implies clause_holds(d, v) by {
                                if cube_cnf.contains(d) {
                                } else {
                                    assert(a@.contains(d));
                                }
                            }
                            assert(cnf_holds(cnf_to_solve@, v));
                        }
                    }
                }
            },
        }
        k = k + 1;
    }
    proof {
        assert forall|v: Valuation| cnf_holds(a@, v) implies #[trigger] cnf_holds(b@, v) by {
            assert forall|d: Seq<Literal>| #[trigger] b@.contains(d) implies clause_holds(d, v) by {
                let j = choose|j: int| 0 <= j < b.clause_list().len() && (#[trigger] b.clause_list()[j]).view() == d;
            }
        }
    }
    true
}

/// Whether `a` and `b` can hold together, as a SAT solver finds.
pub fn is_a_and_b_satisfiable<T: StatelessSatSolver>(a: &CNF, b: &CNF) -> (r: bool)
    ensures
        r == satisfiable(a@.union(b@)),
{
    let mut cnf_to_solve = a.duplicate();
    cnf_to_solve.append(b);
    let solver = T::default();
    match solver.solve_cnf(&cnf_to_solve) {
        SatResponse::Sat { assignment } => {
            proof {
                lemma_assignment_satisfies(assignment, cnf_to_solve@);
            }
            true
        },
        SatResponse::UnSat => false,
    }
}

/// Whether the assignment gives some literal of the clause its value.
pub open spec fn made_true(a: Assignment, c: Seq<Literal>) -> bool {
    exists|i: int| 0 <= i < c.len() && assignment_makes_true(a, #[trigger] c[i])
}

/// Whether every clause of the CNF has a literal to which the assignment gives its value (a
/// variable the assignment leaves open makes no literal true).
pub fn evaluate_assignment_on_cnf(cnf: &CNF, assignment: &Assignment) -> (r: bool)
    ensures
        r == assignment_satisfies(*assignment, cnf@),
{
    cnf.check_wf();
    let mut k: usize = 0;
    while k < cnf.list_len()
        invariant
            k <= cnf.clause_list().len(),
            forall|j: int| 0 <= j < k ==> made_true(*assignment, #[trigger] cnf.clause_list()[j].view()),
        decreases cnf.clause_list().len() - k,
    {
        cnf.check_wf();
        let c = cnf.get(k);
        let mut found = false;
        let mut i: usize = 0;
        while i < c.len() && !found
            invariant
                i <= c.view().len(),
                found ==> exists|t: int| 0 <= t < c.view().len() && assignment_makes_true(*assignment, #[trigger] c.view()[t]),
                !found ==> forall|t: int| 0 <= t < i ==> !assignment_makes_true(*assignment, #[trigger] c.view()[t]),
            decreases c.view().len() - i,
        {
            let l = c.get(i);
            if assignment.get_value(&l.get_number()) == Some(!l.is_negated()) {
                found = true;
            }
            i = i + 1;
        }
        proof {
            assert(cnf.clause_list()[k as int].view() == c.view());
        }
        if !found {
            proof {
                assert(cnf@.contains(c.view()));
            }
            return false;
        }
        proof {
            let t = choose|t: int| 0 <= t < c.view().len() && assignment_makes_true(*assignment, #[trigger] c.view()[t]);
            assert(assignment_makes_true(*assignment, cnf.clause_list()[k as int].view()[t]));
            assert(made_true(*assignment, cnf.clause_list()[k as int].view()));
        }
        k = k + 1;
    }
    proof {
        assert forall|d: Seq<Literal>| #[trigger] cnf@.contains(d) implies exists|i: int|
            0 <= i < d.len() && assignment_makes_true(*assignment, #[trigger] d[i]) by {
            let j = choose|j: int| 0 <= j < cnf.clause_list().len() && (#[trigger] cnf.clause_list()[j]).view() == d;
            assert(made_true(*assignment, cnf.clause_list()[j].view()));
        }
    }
    true
}

} // verus!
