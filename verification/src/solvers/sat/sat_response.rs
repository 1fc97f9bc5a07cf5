//! What a SAT solver answers.

use super::assignment::{assignment_satisfies, lemma_assignment_satisfies, Assignment};
use crate::formulas::literal::Literal;
use crate::formulas::semantics::satisfiable;
use vstd::prelude::*;

verus! {

/// The answer of a SAT solver: satisfiable, with an assignment that shows it, or
/// unsatisfiable.
#[derive(Debug, PartialEq, Eq)]
pub enum SatResponse {
    Sat { assignment: Assignment },
    UnSat,
}

/// Whether the response is a correct answer for the CNF: a satisfying assignment, or
/// unsatisfiable when no assignment satisfies it.
pub open spec fn response_answers(r: SatResponse, f: Set<Seq<Literal>>) -> bool {
    match r {
        SatResponse::Sat { assignment } => assignment_satisfies(assignment, f),
        SatResponse::UnSat => !satisfiable(f),
    }
}

/// Two correct answers for the same CNF agree on whether it is satisfiable, whichever solvers
/// gave them.
pub proof fn law_answers_agree(f: Set<Seq<Literal>>, r1: SatResponse, r2: SatResponse)
    requires
        response_answers(r1, f),
        response_answers(r2, f),
    ensures
        (r1 is Sat) == (r2 is Sat),
{
    if let SatResponse::Sat { assignment } = r1 {
        lemma_assignment_satisfies(assignment, f);
    }
    if let SatResponse::Sat { assignment } = r2 {
        lemma_assignment_satisfies(assignment, f);
    }
}

} // verus!
