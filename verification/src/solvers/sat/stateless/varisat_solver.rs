//! The varisat SAT solver.

use super::StatelessSatSolver;
use super::cadical_solver::CadicalSolver;
use crate::formulas::cnf::clause_views;
use crate::formulas::semantics::{lemma_max_var, satisfiable};
use crate::formulas::CNF;
use crate::solvers::sat::assignment::{assignment_covers, assignment_satisfies, Assignment};
use crate::solvers::sat::dimacs::{
    cnf_to_dimacs, dimacs_of_list, dimacs_satisfiable, int_clauses, int_views, lemma_dimacs_unsat, lemma_model_covers, model_covers,
    lemma_model_assignment, model_satisfies,
};
use crate::solvers::sat::SatResponse;
use varisat::ExtendFormula;
use vstd::prelude::*;

verus! {

#[verifier::external_type_specification]
#[verifier::external_body]
pub struct ExVarisatSolver<'a>(varisat::Solver<'a>);

/// The clauses that a varisat solver holds, in DIMACS numbering.
pub uninterp spec fn varisat_formula(solver: varisat::Solver<'static>) -> Seq<Seq<int>>;

/// Whether the last search of a varisat solver found its clauses satisfiable.
pub uninterp spec fn varisat_found_model(solver: varisat::Solver<'static>) -> bool;

/// The largest variable number that varisat takes.
pub open spec fn varisat_max_var() -> int {
    268435456
}

/// Calls `varisat::Solver::new`, which gives a solver that holds no clauses.
#[verifier::external_body]
fn varisat_new() -> (s: varisat::Solver<'static>)
    ensures
        varisat_formula(s) == Seq::<Seq<int>>::empty(),
{
    varisat::Solver::new()
}

/// Calls `ExtendFormula::add_clause` on a varisat solver, with the literals made by
/// `varisat::Lit::from_dimacs` (which takes variables up to `varisat_max_var()`): the clause is
/// added to the solver's clauses.
#[verifier::external_body]
fn varisat_add_clause(s: &mut varisat::Solver<'static>, clause: &[i32])
    requires
        forall|j: int| 0 <= j < clause@.len() ==> #[trigger] clause@[j] != 0 && -varisat_max_var() <= clause@[j] <= varisat_max_var(),
    ensures
        varisat_formula(*final(s)) == varisat_formula(*old(s)).push(int_views(clause@)),
{
    let lits: Vec<varisat::Lit> = clause.iter().map(|x| varisat::Lit::from_dimacs(*x as isize)).collect();
    s.add_clause(&lits);
}

/// Calls `varisat::Solver::solve`, which decides whether the solver's clauses are
/// satisfiable and keeps them. Its contract claims that a negative answer means that they are
/// unsatisfiable, and that a positive one leaves a model to read. The solver returns an error
/// only when a proof writer fails or the search is interrupted, neither of which this library
/// sets up; such an error panics.
#[verifier::external_body]
fn varisat_solve(s: &mut varisat::Solver<'static>) -> (r: bool)
    ensures
        varisat_formula(*final(s)) == varisat_formula(*old(s)),
        r ==> varisat_found_model(*final(s)),
        !r ==> !dimacs_satisfiable(varisat_formula(*old(s))),
{
    s.solve().expect("the varisat SAT solver failed")
}

/// Calls `varisat::Solver::model` after a search that found the clauses satisfiable, with the
/// literals turned into DIMACS numbers by `Lit::to_dimacs`. Its contract claims that the model
/// is consistent, makes a literal of every clause true and, as varisat reads it from a search
/// that ended with every variable assigned, lists every variable of the clauses.
#[verifier::external_body]
fn varisat_model(s: &varisat::Solver<'static>) -> (r: Vec<i32>)
    requires
        varisat_found_model(*s),
    ensures
        model_satisfies(r@, varisat_formula(*s)),
        model_covers(r@, varisat_formula(*s)),
{
    s.model().expect("varisat gives a model after a satisfiable search").iter().map(|l| l.to_dimacs() as i32).collect()
}

/// The varisat SAT solver.
#[derive(Clone, Copy)]
pub struct VarisatSolver {}

impl Default for VarisatSolver {
    fn default() -> (r: Self) {
        VarisatSolver {}
    }
}

impl VarisatSolver {
    /// Decides whether `cnf_to_solve` is satisfiable; when it is, gives an assignment that
    /// gives a value to every variable of the CNF and makes a literal of every clause true. A CNF with a variable above the largest that
    /// varisat takes is decided by CaDiCaL instead.
    pub fn solve_cnf(&self, cnf_to_solve: &CNF) -> (r: SatResponse)
        ensures
            match r {
                SatResponse::Sat { assignment } => assignment_satisfies(assignment, cnf_to_solve@)
                    && assignment_covers(assignment, cnf_to_solve@),
                SatResponse::UnSat => !satisfiable(cnf_to_solve@),
            },
    {
        cnf_to_solve.check_wf();
        let max = cnf_to_solve.get_max_variable_number();
        if max as u64 > 268435456 {
            return CadicalSolver {}.solve_cnf(cnf_to_solve);
        }
        let ghost s = clause_views(cnf_to_solve.clause_list());
        proof {
            assert forall|i: int, j: int| 0 <= i < s.len() && 0 <= j < s[i].len() implies (#[trigger] s[i][j]).is_valid() && s[i][j].var() <= max by {
                assert(cnf_to_solve@.contains(s[i]));
                lemma_max_var(s[i]);
            }
        }
        let clauses = cnf_to_dimacs(cnf_to_solve);
        let ghost f = int_clauses(clauses@);
        let mut solver = varisat_new();
        let mut k: usize = 0;
        while k < clauses.len()
            invariant
                k <= clauses@.len(),
                f == int_clauses(clauses@),
                f == dimacs_of_list(s),
                max <= 268435456,
                forall|i: int, j: int| 0 <= i < s.len() && 0 <= j < s[i].len() ==> (#[trigger] s[i][j]).is_valid() && s[i][j].var() <= max,
                varisat_formula(solver) == f.subrange(0, k as int),
            decreases clauses@.len() - k,
        {
            proof {
                assert(s.len() == f.len());
                assert(f.len() == clauses@.len());
                assert(f[k as int] == crate::solvers::sat::dimacs::dimacs_clause(s[k as int]));
                assert(f[k as int] == int_views(clauses@[k as int]@));
                assert forall|j: int| 0 <= j < clauses@[k as int]@.len() implies #[trigger] clauses@[k as int]@[j] != 0
                    && -varisat_max_var() <= clauses@[k as int]@[j] <= varisat_max_var() by {
                    assert(f[k as int][j] == clauses@[k as int]@[j] as int);
                    assert(f[k as int][j] == crate::solvers::sat::dimacs::dimacs_literal(s[k as int][j]));
                    assert(s[k as int][j].var() <= max);
                }
            }
            varisat_add_clause(&mut solver, clauses[k].as_slice());
            proof {
                assert(varisat_formula(solver) =~= f.subrange(0, k + 1));
            }
            k = k + 1;
        }
        proof {
            assert(f.subrange(0, k as int) =~= f);
        }
        if varisat_solve(&mut solver) {
            let model = varisat_model(&solver);
            let assignment = Assignment::from_dimacs_assignment(&model);
            proof {
                lemma_model_assignment(model@, s, assignment);
                lemma_model_covers(model@, s, assignment);
            }
            SatResponse::Sat { assignment }
        } else {
            proof {
                lemma_dimacs_unsat(s);
            }
            SatResponse::UnSat
        }
    }
}

impl StatelessSatSolver for VarisatSolver {
    fn solve_cnf(&self, cnf_to_solve: &CNF) -> (r: SatResponse) {
        VarisatSolver::solve_cnf(self, cnf_to_solve)
    }
}

} // verus!
