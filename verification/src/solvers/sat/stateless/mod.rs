//! SAT solvers that are called on a whole formula at a time and keep nothing between calls.

use super::assignment::{assignment_covers, assignment_satisfies};
use super::SatResponse;
use crate::formulas::semantics::satisfiable;
use crate::formulas::CNF;
use vstd::prelude::*;

pub mod cadical_solver;
pub mod splr_solver;
pub mod varisat_solver;

pub use cadical_solver::CadicalSolver;
pub use splr_solver::SplrSolver;
pub use varisat_solver::VarisatSolver;

verus! {

/// A SAT solver that answers for a whole CNF at a time.
pub trait StatelessSatSolver: Sized + Default {
    /// Decides whether `cnf_to_solve` is satisfiable; when it is, gives an assignment that
    /// gives a value to every variable of the CNF and makes a literal of every clause true.
    fn solve_cnf(&self, cnf_to_solve: &CNF) -> (r: SatResponse)
        ensures
            match r {
                SatResponse::Sat { assignment } => assignment_satisfies(assignment, cnf_to_solve@)
                    && assignment_covers(assignment, cnf_to_solve@),
                SatResponse::UnSat => !satisfiable(cnf_to_solve@),
            },
    ;
}

} // verus!
