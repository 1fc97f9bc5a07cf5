//! The splr SAT solver.

use super::StatelessSatSolver;
use crate::formulas::cnf::clause_views;
use crate::formulas::CNF;
use super::cadical_solver::CadicalSolver;
use crate::solvers::sat::assignment::{assignment_covers, assignment_covers_up_to_max, assignment_satisfies, Assignment};
use crate::solvers::sat::dimacs::{
    cnf_to_dimacs, dimacs_satisfiable, int_clauses, lemma_dimacs_unsat, lemma_model_assignment,
    lemma_model_covers, lemma_model_covers_up_to, model_covers, model_lists_up_to, model_satisfies, proper_literals,
};
use crate::formulas::semantics::satisfiable;
use crate::solvers::sat::SatResponse;
use vstd::prelude::*;

verus! {

/// Calls `splr::Certificate::try_from` on DIMACS clauses, which runs the splr solver with its
/// default configuration. `Some(Some(model))` is a satisfying model, `Some(None)` the answer
/// that the clauses are unsatisfiable (an empty clause among them included), and `None` any
/// error of the solver: a time-out (the default configuration sets a time limit), running out
/// of memory, an internal fault. Its contract claims what a SAT solver promises of an answer:
/// a model is consistent, makes a literal of every clause true and, as splr builds it from its
/// assignment of every variable up to the largest of the clauses, lists every variable from 1
/// up to the largest; no model only when the clauses are unsatisfiable. When the solver gives up
/// depends on time and the machine, and nothing is said of it.
#[verifier::external_body]
fn splr_solve(clauses: Vec<Vec<i32>>) -> (r: Option<Option<Vec<i32>>>)
    requires
        proper_literals(int_clauses(clauses@)),
    ensures
        match r {
            Some(Some(m)) => model_satisfies(m@, int_clauses(clauses@)) && model_covers(m@, int_clauses(clauses@))
                && model_lists_up_to(m@, int_clauses(clauses@)),
            Some(None) => !dimacs_satisfiable(int_clauses(clauses@)),
            None => true,
        },
{
    match splr::Certificate::try_from(clauses) {
        Ok(splr::Certificate::SAT(model)) => Some(Some(model)),
        Ok(splr::Certificate::UNSAT) => Some(None),
        Err(_) => None,
    }
}

/// The splr SAT solver.
#[derive(Clone, Copy)]
pub struct SplrSolver {}

impl Default for SplrSolver {
    fn default() -> (r: Self) {
        SplrSolver {}
    }
}

impl SplrSolver {
    /// Decides whether `cnf_to_solve` is satisfiable; when it is, gives an assignment that
    /// gives a value to every variable of the CNF and makes a literal of every clause true.
    /// Where splr gives up (a time-out, running out of memory), CaDiCaL decides instead.
    pub fn solve_cnf(&self, cnf_to_solve: &CNF) -> (r: SatResponse)
        ensures
            match r {
                SatResponse::Sat { assignment } => assignment_satisfies(assignment, cnf_to_solve@)
                    && assignment_covers(assignment, cnf_to_solve@)
                    && assignment_covers_up_to_max(assignment, cnf_to_solve@),
                SatResponse::UnSat => !satisfiable(cnf_to_solve@),
            },
    {
        cnf_to_solve.check_wf();
        let ghost s = clause_views(cnf_to_solve.clause_list());
        proof {
            assert forall|i: int, j: int| 0 <= i < s.len() && 0 <= j < s[i].len() implies (#[trigger] s[i][j]).is_valid() by {
                assert(cnf_to_solve@.contains(s[i]));
            }
        }
        let clauses = cnf_to_dimacs(cnf_to_solve);
        match splr_solve(clauses) {
            Some(Some(model)) => {
                let assignment = Assignment::from_dimacs_assignment(&model);
                proof {
                    lemma_model_assignment(model@, s, assignment);
                    lemma_model_covers(model@, s, assignment);
                    lemma_model_covers_up_to(model@, s, assignment);
                }
                SatResponse::Sat { assignment }
            },
            Some(None) => {
                proof {
                    lemma_dimacs_unsat(s);
                }
                SatResponse::UnSat
            },
            None => CadicalSolver {}.solve_cnf(cnf_to_solve),
        }
    }
}

impl StatelessSatSolver for SplrSolver {
    fn solve_cnf(&self, cnf_to_solve: &CNF) -> (r: SatResponse) {
        SplrSolver::solve_cnf(self, cnf_to_solve)
    }
}

} // verus!
