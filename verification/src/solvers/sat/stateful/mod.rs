//! SAT solvers that keep their clauses between calls, and answer queries about them with a
//! temporary cube of assumptions and a temporary clause.

use super::assignment::assignment_satisfies;
use super::SatResponse;
use crate::formulas::literal::Literal;
use crate::formulas::semantics::{satisfiable, unit_clauses};
use crate::formulas::{Clause, Cube, CNF};
use vstd::prelude::*;

pub mod cadical_solver;

pub use cadical_solver::CaDiCalSolver;

verus! {

/// The temporary part of a query: a unit clause for each literal of the cube, and the extra
/// clause.
pub open spec fn temporary_clauses(cube: Option<&Cube>, clause: Option<&Clause>) -> Set<Seq<Literal>> {
    let units = match cube {
        Some(c) => unit_clauses(c@),
        None => Set::empty(),
    };
    match clause {
        Some(d) => units.insert(d@),
        None => units,
    }
}

/// Whether every variable in the clauses has a number below `n`.
pub open spec fn variables_below(f: Set<Seq<Literal>>, n: int) -> bool {
    forall|c: Seq<Literal>, i: int| #[trigger] f.contains(c) && 0 <= i < c.len() ==> (#[trigger] c[i]).var() < n
}

/// A SAT solver that keeps the clauses it is given, and decides their satisfiability under a
/// temporary cube and a temporary clause, which it does not keep.
pub trait StatefulSatSolver: Sized + Default {
    /// Whether the solver is in a state that its methods accept.
    spec fn ready(&self) -> bool;

    /// The clauses the solver holds.
    spec fn formula(&self) -> Set<Seq<Literal>>;

    /// How many of the solver's own variables are in use.
    spec fn used(&self) -> nat;

    /// Adds the clauses of `cnf` to the solver.
    fn add_cnf(&mut self, cnf: &CNF)
        requires
            old(self).ready(),
            variables_below(cnf@, i32::MAX - 2 - old(self).used()),
        ensures
            final(self).ready(),
            final(self).formula() == old(self).formula().union(cnf@),
            forall|n: int| 0 <= n && #[trigger] variables_below(cnf@, n) ==> final(self).used() <= old(self).used() + n + 1,
    ;

    /// Decides whether the solver's clauses, together with the literals of the cube and the
    /// extra clause, are satisfiable; when they are, gives an assignment that makes a literal
    /// of each of them true. The cube and the clause are not kept.
    fn solve(
        &mut self,
        temporary_extra_cube: Option<&Cube>,
        temporary_extra_clause: Option<&Clause>,
    ) -> (r: SatResponse)
        requires
            old(self).ready(),
            old(self).used() < i32::MAX - 3,
            variables_below(
                temporary_clauses(temporary_extra_cube, temporary_extra_clause),
                i32::MAX - 3 - old(self).used(),
            ),
        ensures
            final(self).ready(),
            final(self).formula() == old(self).formula(),
            forall|n: int| 0 <= n && #[trigger] variables_below(temporary_clauses(temporary_extra_cube, temporary_extra_clause), n)
                ==> final(self).used() <= old(self).used() + n + 2,
            match r {
                SatResponse::Sat { assignment } => assignment_satisfies(
                    assignment,
                    old(self).formula().union(temporary_clauses(temporary_extra_cube, temporary_extra_clause)),
                ),
                SatResponse::UnSat => !satisfiable(
                    old(self).formula().union(temporary_clauses(temporary_extra_cube, temporary_extra_clause)),
                ),
            },
    ;
}

} // verus!
