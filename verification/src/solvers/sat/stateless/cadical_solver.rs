//! The CaDiCaL SAT solver, called afresh for each formula.

use super::StatelessSatSolver;
use crate::formulas::cnf::clause_views;
use crate::formulas::semantics::satisfiable;
use crate::formulas::CNF;
use crate::solvers::sat::assignment::{assignment_covers, assignment_covers_up_to_max, assignment_satisfies, lists, Assignment};
use crate::solvers::sat::dimacs::{
    clause_listed, cnf_to_dimacs, dimacs_satisfiable, int_clauses, int_views,
    lemma_dimacs_unsat, lemma_model_assignment, lemma_model_covers, lemma_model_covers_up_to, model_covers, model_lists_up_to, model_satisfies, proper_literals,
};
use crate::solvers::sat::SatResponse;
use vstd::prelude::*;

verus! {

/// A CaDiCaL solver, held where Verus does not look: its type carries a bound by a trait of
/// the cadical crate that Verus does not take.
#[verifier::external_body]
pub struct CadicalInstance {
    solver: cadical::Solver,
}

/// The clauses that a CaDiCaL solver holds, in DIMACS numbering.
pub uninterp spec fn cadical_formula(solver: CadicalInstance) -> Seq<Seq<int>>;

/// Whether the last search of a CaDiCaL solver found its clauses satisfiable.
pub uninterp spec fn cadical_found_model(solver: CadicalInstance) -> bool;

/// The value that the last solution of a CaDiCaL solver gives a variable.
pub uninterp spec fn cadical_model_value(solver: CadicalInstance, var: int) -> Option<bool>;

/// Whether the last solution of the solver gives some literal of the clause its value.
pub open spec fn solution_solves(s: CadicalInstance, c: Seq<int>) -> bool {
    exists|j: int|
        0 <= j < c.len() && cadical_model_value(s, if c[j] > 0 { c[j] } else { -c[j] }) == Some(#[trigger] c[j] > 0)
}

/// Calls `cadical::Solver::new`, which gives a solver that holds no clauses.
#[verifier::external_body]
pub(crate) fn cadical_new() -> (s: CadicalInstance)
    ensures
        cadical_formula(s) == Seq::<Seq<int>>::empty(),
{
    CadicalInstance { solver: cadical::Solver::new() }
}

/// Calls `cadical::Solver::add_clause`, which adds the clause to the solver's clauses (its
/// literals must be neither 0 nor `i32::MIN`).
#[verifier::external_body]
pub(crate) fn cadical_add_clause(s: &mut CadicalInstance, clause: &[i32])
    requires
        forall|j: int| 0 <= j < clause@.len() ==> #[trigger] clause@[j] != 0 && clause@[j] != i32::MIN,
    ensures
        cadical_formula(*final(s)) == cadical_formula(*old(s)).push(int_views(clause@)),
{
    s.solver.add_clause(clause.iter().copied());
}

/// Calls `cadical::Solver::solve`, which decides whether the solver's clauses are
/// satisfiable and keeps them. Its contract claims that a negative answer means that they are
/// unsatisfiable, and that after a positive one the solution gives every literal of some clause
/// its value, for each clause. The solver gives no answer only when it runs out of resources
/// or is terminated, which this library does not ask for; that case panics.
#[verifier::external_body]
pub(crate) fn cadical_solve(s: &mut CadicalInstance) -> (r: bool)
    ensures
        cadical_formula(*final(s)) == cadical_formula(*old(s)),
        r ==> cadical_found_model(*final(s)),
        r ==> forall|i: int| 0 <= i < cadical_formula(*final(s)).len() ==> solution_solves(*final(s), #[trigger] cadical_formula(*final(s))[i]),
        !r ==> !dimacs_satisfiable(cadical_formula(*old(s))),
{
    s.solver.solve().expect("the CaDiCaL SAT solver gave no answer")
}

/// The unit clauses of a list of assumed DIMACS literals.
pub open spec fn assumption_units(assumptions: Seq<i32>) -> Seq<Seq<int>> {
    Seq::new(assumptions.len(), |j: int| seq![assumptions[j] as int])
}

/// Calls `cadical::Solver::solve_with`, which decides whether the solver's clauses are
/// satisfiable under the assumed literals, and keeps the clauses (not the assumptions). Its
/// contract claims that a negative answer means that the clauses with a unit clause for each
/// assumption are unsatisfiable, and that after a positive one the solution gives every
/// literal of some clause its value, for each clause, and every assumed literal its value. The
/// solver gives no answer only when it runs out of resources or is terminated, which this
/// library does not ask for; that case panics.
#[verifier::external_body]
pub(crate) fn cadical_solve_with(s: &mut CadicalInstance, assumptions: &[i32]) -> (r: bool)
    requires
        forall|j: int| 0 <= j < assumptions@.len() ==> #[trigger] assumptions@[j] != 0 && assumptions@[j] != i32::MIN,
    ensures
        cadical_formula(*final(s)) == cadical_formula(*old(s)),
        r ==> cadical_found_model(*final(s)),
        r ==> forall|i: int| 0 <= i < cadical_formula(*final(s)).len() ==> solution_solves(*final(s), #[trigger] cadical_formula(*final(s))[i]),
        r ==> forall|j: int| 0 <= j < assumptions@.len() ==> solution_solves(*final(s), #[trigger] assumption_units(assumptions@)[j]),
        !r ==> !dimacs_satisfiable(cadical_formula(*old(s)) + assumption_units(assumptions@)),
{
    s.solver.solve_with(assumptions.iter().copied()).expect("the CaDiCaL SAT solver gave no answer")
}

/// Calls `cadical::Solver::max_variable`, the largest variable number of the solver's
/// clauses (or larger).
#[verifier::external_body]
pub(crate) fn cadical_max_variable(s: &CadicalInstance) -> (r: i32)
    ensures
        r >= 0,
        forall|i: int, j: int| 0 <= i < cadical_formula(*s).len() && 0 <= j < cadical_formula(*s)[i].len()
            ==> -r <= #[trigger] cadical_formula(*s)[i][j] <= r,
{
    s.solver.max_variable()
}

/// Calls `cadical::Solver::value` on a positive literal after a satisfiable search: the value
/// that the solution gives the variable.
#[verifier::external_body]
pub(crate) fn cadical_value(s: &CadicalInstance, var: i32) -> (r: Option<bool>)
    requires
        cadical_found_model(*s),
        var > 0,
    ensures
        r == cadical_model_value(*s, var as int),
{
    s.solver.value(var)
}

/// The CaDiCaL SAT solver, called afresh for each formula.
#[derive(Clone, Copy)]
pub struct CadicalSolver {}

impl Default for CadicalSolver {
    fn default() -> (r: Self) {
        CadicalSolver {}
    }
}

/// Reads the model of a solver after a satisfiable search: each variable up to the largest,
/// positive when the solution makes it true or leaves it open, negative when it makes it false.
pub(crate) fn cadical_model(s: &CadicalInstance) -> (r: Vec<i32>)
    requires
        cadical_found_model(*s),
        proper_literals(cadical_formula(*s)),
        forall|i: int| 0 <= i < cadical_formula(*s).len() ==> solution_solves(*s, #[trigger] cadical_formula(*s)[i]),
    ensures
        model_satisfies(r@, cadical_formula(*s)),
        model_covers(r@, cadical_formula(*s)),
        model_lists_up_to(r@, cadical_formula(*s)),
{
    let max = cadical_max_variable(s);
    let mut model: Vec<i32> = Vec::new();
    let mut v: i64 = 1;
    while v <= max as i64
        invariant
            1 <= v,
            v <= max + 1,
            max <= i32::MAX,
            max >= 0,
            cadical_found_model(*s),
            model@.len() == v - 1,
            forall|k: int| 0 <= k < model@.len() ==> #[trigger] model@[k] == (if cadical_model_value(*s, k + 1) == Some(false) { -(k + 1) } else { k + 1 }),
        decreases max + 1 - v,
    {
        let x = match cadical_value(s, v as i32) {
            Some(false) => -(v as i32),
            _ => v as i32,
        };
        model.push(x);
        v = v + 1;
    }
    proof {
        let m = model@;
        let f = cadical_formula(*s);
        assert forall|i: int, j: int| 0 <= i < m.len() && 0 <= j < m.len() implies #[trigger] m[i] != -#[trigger] m[j] by {
        }
        assert forall|i: int| 0 <= i < f.len() implies clause_listed(m, #[trigger] f[i]) by {
            assert(solution_solves(*s, f[i]));
            let j = choose|j: int|
                0 <= j < f[i].len() && cadical_model_value(*s, if f[i][j] > 0 { f[i][j] } else { -f[i][j] }) == Some(#[trigger] f[i][j] > 0);
            let x = f[i][j];
            let var = if x > 0 { x } else { -x };
            assert(-max <= x <= max);
            assert(m[var - 1] == x);
            assert(lists(m, f[i][j]));
        }
        assert forall|i: int, j: int| 0 <= i < f.len() && 0 <= j < f[i].len() implies lists(m, #[trigger] f[i][j]) || lists(m, -f[i][j]) by {
            let x = f[i][j];
            let var = if x > 0 { x } else { -x };
            assert(-max <= x <= max);
            assert(x != 0);
            assert(m[var - 1] == var || m[var - 1] == -var);
        }
        assert forall|i: int, j: int, x: int|
            #![trigger f[i][j], lists(m, x)]
            0 <= i < f.len() && 0 <= j < f[i].len() && 1 <= x <= (if f[i][j] > 0 { f[i][j] } else { -f[i][j] })
            implies lists(m, x) || lists(m, -x) by {
            assert(-max <= f[i][j] <= max);
            assert(m[x - 1] == x || m[x - 1] == -x);
        }
    }
    model
}

impl CadicalSolver {
    /// Decides whether `cnf_to_solve` is satisfiable; when it is, gives an assignment that
    /// gives a value to every variable of the CNF and makes a literal of every clause true.
    pub fn solve_cnf(&self, cnf_to_solve: &CNF) -> (r: SatResponse)
        ensures
            match r {
                SatResponse::Sat { assignment } => assignment_satisfies(assignment, cnf_to_solve@)
                    && assignment_covers(assignment, cnf_to_solve@)
                    && assignment_covers_up_to_max(assignment, cnf_to_solve@),
                SatResponse::UnSat => !satisfiable(cnf_to_solve@),
            },
    {
        cnf_to_solve.check_wf();
        let ghost s = clause_views(cnf_to_solve.clause_list());
        proof {
            assert forall|i: int, j: int| 0 <= i < s.len() && 0 <= j < s[i].len() implies (#[trigger] s[i][j]).is_valid() by {
                assert(cnf_to_solve@.contains(s[i]));
            }
        }
        let clauses = cnf_to_dimacs(cnf_to_solve);
        let ghost f = int_clauses(clauses@);
        let mut solver = cadical_new();
        let mut k: usize = 0;
        while k < clauses.len()
            invariant
                k <= clauses@.len(),
                f == int_clauses(clauses@),
                proper_literals(f),
                cadical_formula(solver) == f.subrange(0, k as int),
            decreases clauses@.len() - k,
        {
            proof {
                assert forall|j: int| 0 <= j < clauses@[k as int]@.len() implies #[trigger] clauses@[k as int]@[j] != 0
                    && clauses@[k as int]@[j] != i32::MIN by {
                    assert(f[k as int][j] == clauses@[k as int]@[j] as int);
                }
            }
            cadical_add_clause(&mut solver, clauses[k].as_slice());
            proof {
                assert(cadical_formula(solver) =~= f.subrange(0, k + 1));
            }
            k = k + 1;
        }
        proof {
            assert(f.subrange(0, k as int) =~= f);
        }
        if cadical_solve(&mut solver) {
            let model = cadical_model(&solver);
            let assignment = Assignment::from_dimacs_assignment(&model);
            proof {
                lemma_model_assignment(model@, s, assignment);
                lemma_model_covers(model@, s, assignment);
                lemma_model_covers_up_to(model@, s, assignment);
            }
            SatResponse::Sat { assignment }
        } else {
            proof {
                lemma_dimacs_unsat(s);
            }
            SatResponse::UnSat
        }
    }
}

impl StatelessSatSolver for CadicalSolver {
    fn solve_cnf(&self, cnf_to_solve: &CNF) -> (r: SatResponse) {
        CadicalSolver::solve_cnf(self, cnf_to_solve)
    }
}

} // verus!
