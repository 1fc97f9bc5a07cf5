//! The CaDiCaL SAT solver, kept alive between queries.

use super::{temporary_clauses, variables_below, StatefulSatSolver};
use crate::formulas::literal::Literal;
use crate::formulas::semantics::{
    all_valid, clause_holds, cnf_holds, lemma_max_var, literal_holds, max_var, satisfiable, unit_clauses,
    Valuation,
};
use crate::formulas::cnf::clause_views;
use crate::formulas::{Clause, Cube, CNF};
use crate::solvers::sat::assignment::{assignment_makes_true, assignment_satisfies, lists, Assignment};
use crate::solvers::sat::dimacs::{
    dimacs_clause_holds, dimacs_holds, dimacs_literal_holds, dimacs_satisfiable, int_views,
    proper_literals,
};
use crate::solvers::sat::stateless::cadical_solver::{
    assumption_units, cadical_add_clause, cadical_formula, cadical_found_model,
    cadical_model_value, cadical_new, cadical_solve_with, cadical_value, solution_solves,
    CadicalInstance,
};
use crate::solvers::sat::SatResponse;
use vstd::prelude::*;

verus! {

/// The CaDiCaL literal of a literal: the solver variable that the map gives its variable,
/// negative when the literal is negated.
pub open spec fn cadical_lit(m: Seq<i32>, l: Literal) -> int {
    if l.neg() {
        -(m[l.var() as int] as int)
    } else {
        m[l.var() as int] as int
    }
}

/// The CaDiCaL literals of a clause or cube.
pub open spec fn cadical_clause(m: Seq<i32>, c: Seq<Literal>) -> Seq<int> {
    c.map_values(|l: Literal| cadical_lit(m, l))
}

/// Whether the map gives a solver variable to every variable of the literals.
pub open spec fn mapped_vars(m: Seq<i32>, c: Seq<Literal>) -> bool {
    forall|i: int| 0 <= i < c.len() ==> (#[trigger] c[i]).var() < m.len()
}

/// Whether a clause of the CaDiCaL solver is the image of one of the clauses, or holds a
/// negated switched-off variable.
pub open spec fn accounted(g: Set<Seq<Literal>>, off: Set<int>, m: Seq<i32>, x: Seq<int>) -> bool {
    ||| exists|c: Seq<Literal>| #[trigger] g.contains(c) && x == cadical_clause(m, c)
    ||| exists|t: int| #[trigger] off.contains(t) && x.contains(-t)
}

/// The CaDiCaL SAT solver, kept alive between queries.
///
/// Variable `x` of the library's formulas is the solver's variable `cadical_literals[x]`. A
/// temporary clause is added with a fresh variable `v` as the clause with `-v`, solved under
/// the assumption `v`, and then switched off for good by the unit clause `-v`.
pub struct CaDiCalSolver {
    solver: CadicalInstance,
    cadical_literals: Vec<i32>,
    new_literal: i32,
    clauses: Ghost<Set<Seq<Literal>>>,
    switched_off: Ghost<Set<int>>,
}

/// Mapping through a longer map changes nothing for variables that the shorter one maps.
proof fn lemma_clause_in_longer_map(m: Seq<i32>, m2: Seq<i32>, c: Seq<Literal>)
    requires
        mapped_vars(m, c),
        m.len() <= m2.len(),
        m2.subrange(0, m.len() as int) == m,
    ensures
        cadical_clause(m2, c) == cadical_clause(m, c),
        mapped_vars(m2, c),
{
    assert forall|i: int| 0 <= i < c.len() implies #[trigger] cadical_clause(m2, c)[i] == cadical_clause(m, c)[i] by {
        assert(m2.subrange(0, m.len() as int)[c[i].var() as int] == m2[c[i].var() as int]);
    }
    assert(cadical_clause(m2, c) =~= cadical_clause(m, c));
}

impl CaDiCalSolver {
    /// The clauses the solver holds.
    pub closed spec fn view(&self) -> Set<Seq<Literal>> {
        self.clauses@
    }

    /// How many solver variables are in use.
    pub closed spec fn used_count(&self) -> nat {
        (self.new_literal - 1) as nat
    }

    /// The map is increasing, from 1 and below the next fresh variable.
    spec fn map_ok(&self) -> bool {
        let m = self.cadical_literals@;
        &&& 1 <= self.new_literal
        &&& m.len() == 0 ==> self.new_literal == 1
        &&& forall|i: int| 0 <= i < m.len() ==> i + 1 <= #[trigger] m[i] && m[i] < self.new_literal
        &&& forall|i: int, j: int| 0 <= i < j < m.len() ==> #[trigger] m[i] < #[trigger] m[j]
    }

    /// The map is increasing and below the next fresh variable, switched-off variables are
    /// outside it and switched off, every clause has its image in the solver, and every clause
    /// of the solver is such an image or is switched off.
    pub closed spec fn wf(&self) -> bool {
        let m = self.cadical_literals@;
        let f = cadical_formula(self.solver);
        &&& self.map_ok()
        &&& proper_literals(f)
        &&& forall|t: int| #[trigger] self.switched_off@.contains(t) ==> {
            &&& 1 <= t < self.new_literal
            &&& forall|i: int| 0 <= i < m.len() ==> m[i] != t
            &&& f.contains(seq![-t])
        }
        &&& forall|c: Seq<Literal>| #[trigger] self.clauses@.contains(c) ==> {
            &&& all_valid(c)
            &&& mapped_vars(m, c)
            &&& f.contains(cadical_clause(m, c))
        }
        &&& forall|k: int| 0 <= k < f.len() ==> accounted(self.clauses@, self.switched_off@, m, #[trigger] f[k])
    }

    /// Returns a solver variable that is not in use yet.
    fn new_lit(&mut self) -> (r: i32)
        requires
            old(self).new_literal < i32::MAX,
        ensures
            r == old(self).new_literal,
            final(self).new_literal == r + 1,
            final(self).solver == old(self).solver,
            final(self).cadical_literals == old(self).cadical_literals,
            final(self).clauses == old(self).clauses,
            final(self).switched_off == old(self).switched_off,
    {
        let result = self.new_literal;
        self.new_literal = self.new_literal + 1;
        result
    }

    /// The CaDiCaL literal of a literal whose variable is mapped.
    fn literal_to_cadical_literal(&self, literal: &Literal) -> (r: i32)
        requires
            self.map_ok(),
            literal.var() < self.cadical_literals@.len(),
        ensures
            r as int == cadical_lit(self.cadical_literals@, *literal),
            r != 0,
            r != i32::MIN,
    {
        let index: usize = literal.get_number() as usize;
        let cadical_literal = self.cadical_literals[index];
        assert(1 <= self.cadical_literals@[index as int]);
        if literal.is_negated() {
            -cadical_literal
        } else {
            cadical_literal
        }
    }

    /// The CaDiCaL literals of a clause whose variables are mapped.
    fn translate_clause_into_cadical_clause(&self, clause: &Clause) -> (r: Vec<i32>)
        requires
            self.map_ok(),
            mapped_vars(self.cadical_literals@, clause@),
        ensures
            int_views(r@) == cadical_clause(self.cadical_literals@, clause@),
            forall|j: int| 0 <= j < r@.len() ==> #[trigger] r@[j] != 0 && r@[j] != i32::MIN,
    {
        let mut result: Vec<i32> = Vec::with_capacity(clause.len());
        let mut i: usize = 0;
        while i < clause.len()
            invariant
                self.map_ok(),
                mapped_vars(self.cadical_literals@, clause@),
                i <= clause@.len(),
                result@.len() == i,
                forall|j: int| 0 <= j < i ==> #[trigger] result@[j] as int == cadical_lit(self.cadical_literals@, clause@[j]),
                forall|j: int| 0 <= j < result@.len() ==> #[trigger] result@[j] != 0 && result@[j] != i32::MIN,
            decreases clause@.len() - i,
        {
            let x = self.literal_to_cadical_literal(&clause.get(i));
            result.push(x);
            i = i + 1;
        }
        assert(int_views(result@) =~= cadical_clause(self.cadical_literals@, clause@));
        result
    }

    /// The CaDiCaL literals of a cube whose variables are mapped.
    fn translate_cube_into_cadical_cube(&self, cube: &Cube) -> (r: Vec<i32>)
        requires
            self.map_ok(),
            mapped_vars(self.cadical_literals@, cube@),
        ensures
            int_views(r@) == cadical_clause(self.cadical_literals@, cube@),
            forall|j: int| 0 <= j < r@.len() ==> #[trigger] r@[j] != 0 && r@[j] != i32::MIN,
    {
        let mut result: Vec<i32> = Vec::with_capacity(cube.len());
        let mut i: usize = 0;
        while i < cube.len()
            invariant
                self.map_ok(),
                mapped_vars(self.cadical_literals@, cube@),
                i <= cube@.len(),
                result@.len() == i,
                forall|j: int| 0 <= j < i ==> #[trigger] result@[j] as int == cadical_lit(self.cadical_literals@, cube@[j]),
                forall|j: int| 0 <= j < result@.len() ==> #[trigger] result@[j] != 0 && result@[j] != i32::MIN,
            decreases cube@.len() - i,
        {
            let x = self.literal_to_cadical_literal(&cube.get(i));
            result.push(x);
            i = i + 1;
        }
        assert(int_views(result@) =~= cadical_clause(self.cadical_literals@, cube@));
        result
    }

    /// Gives a fresh solver variable to every variable of `cnf` that has none yet.
    fn extend_cadical_literals_if_needed(&mut self, cnf: &CNF)
        requires
            old(self).wf(),
            variables_below(cnf@, i32::MAX - 2 - old(self).used_count() + old(self).cadical_literals@.len()),
        ensures
            final(self).wf(),
            final(self).solver == old(self).solver,
            final(self).clauses == old(self).clauses,
            final(self).switched_off == old(self).switched_off,
            old(self).cadical_literals@.len() <= final(self).cadical_literals@.len(),
            final(self).cadical_literals@.subrange(0, old(self).cadical_literals@.len() as int)
                == old(self).cadical_literals@,
            final(self).used_count() - old(self).used_count() == final(self).cadical_literals@.len()
                - old(self).cadical_literals@.len(),
            forall|n: int| 0 <= n && #[trigger] variables_below(cnf@, n) ==> final(self).cadical_literals@.len()
                <= old(self).cadical_literals@.len() + n + 1,
            forall|n: int| 1 <= n && #[trigger] variables_below(cnf@, n) ==> final(self).cadical_literals@.len()
                <= old(self).cadical_literals@.len() || final(self).cadical_literals@.len() <= n,
            forall|c: Seq<Literal>| #[trigger] cnf@.contains(c) ==> mapped_vars(final(self).cadical_literals@, c),
            final(self).cadical_literals@.len() >= 1,
    {
        let max_lit: usize = cnf.get_max_variable_number() as usize;
        let ghost old_m = self.cadical_literals@;
        proof {
            if max_lit > 0 {
                let c = choose|c: Seq<Literal>| #[trigger] cnf@.contains(c) && max_var(c) == max_lit;
                lemma_max_var(c);
                let i = choose|i: int| 0 <= i < c.len() && (#[trigger] c[i]).var() == max_var(c);
                assert(c[i].var() < i32::MAX - 2 - old(self).used_count() + old(self).cadical_literals@.len());
            }
            assert forall|n: int| 0 <= n && #[trigger] variables_below(cnf@, n) implies max_lit < n || max_lit == 0 by {
                if max_lit > 0 {
                    let c = choose|c: Seq<Literal>| #[trigger] cnf@.contains(c) && max_var(c) == max_lit;
                    lemma_max_var(c);
                    let i = choose|i: int| 0 <= i < c.len() && (#[trigger] c[i]).var() == max_var(c);
                }
            }
        }
        if max_lit >= self.cadical_literals.len() {
            self.cadical_literals.reserve(max_lit - self.cadical_literals.len() + 1);
            while max_lit >= self.cadical_literals.len()
                invariant
                    self.wf(),
                    self.solver == old(self).solver,
                    self.clauses == old(self).clauses,
                    self.switched_off == old(self).switched_off,
                    old_m == old(self).cadical_literals@,
                    old_m.len() <= self.cadical_literals@.len() <= max_lit + 1,
                    self.cadical_literals@.subrange(0, old_m.len() as int) == old_m,
                    self.used_count() - old(self).used_count() == self.cadical_literals@.len() - old_m.len(),
                    max_lit == 0 || max_lit < i32::MAX - 2 - old(self).used_count() + old_m.len(),
                decreases max_lit + 1 - self.cadical_literals@.len(),
            {
                let ghost m0 = self.cadical_literals@;
                proof {
                    if m0.len() > 0 {
                        assert(m0.len() <= m0[m0.len() - 1]);
                    }
                }
                let new_literal = self.new_lit();
                self.cadical_literals.push(new_literal);
                proof {
                    let m = self.cadical_literals@;
                    assert(m.subrange(0, m0.len() as int) =~= m0);
                    assert(m.subrange(0, old_m.len() as int) =~= old_m) by {
                        assert(m0.subrange(0, old_m.len() as int) == old_m);
                        assert forall|i: int| 0 <= i < old_m.len() implies m.subrange(0, old_m.len() as int)[i] == old_m[i] by {
                            assert(m0.subrange(0, old_m.len() as int)[i] == m0[i]);
                        }
                    }
                    let f = cadical_formula(self.solver);
                    assert forall|c: Seq<Literal>| #[trigger] self.clauses@.contains(c) implies {
                        &&& all_valid(c)
                        &&& mapped_vars(m, c)
                        &&& f.contains(cadical_clause(m, c))
                    } by {
                        lemma_clause_in_longer_map(m0, m, c);
                    }
                    assert forall|k: int| 0 <= k < f.len() implies accounted(self.clauses@, self.switched_off@, m, #[trigger] f[k]) by {
                        assert(accounted(self.clauses@, self.switched_off@, m0, f[k]));
                        if exists|c: Seq<Literal>| #[trigger] self.clauses@.contains(c) && f[k] == cadical_clause(m0, c) {
                            let c = choose|c: Seq<Literal>| #[trigger] self.clauses@.contains(c) && f[k] == cadical_clause(m0, c);
                            lemma_clause_in_longer_map(m0, m, c);
                        }
                    }
                }
            }
        }
        proof {
            let m = self.cadical_literals@;
            assert forall|c: Seq<Literal>| #[trigger] cnf@.contains(c) implies mapped_vars(m, c) by {
                lemma_max_var(c);
            }
        }
    }

    /// Reads the solution after a satisfiable search: for each variable from 1 up, its number
    /// when the solution makes its solver variable true or leaves it open, its negation when
    /// the solution makes it false.
    fn create_dimacs_assignment_from_cadical_model(&self, cadical_literals: &[i32]) -> (r: Vec<i32>)
        requires
            self.map_ok(),
            cadical_literals@ == self.cadical_literals@,
            cadical_found_model(self.solver),
        ensures
            r@.len() == (if cadical_literals@.len() == 0 { 0 } else { cadical_literals@.len() - 1 }),
            forall|k: int| 0 <= k < r@.len() ==> #[trigger] r@[k] == (if cadical_model_value(
                self.solver,
                cadical_literals@[k + 1] as int,
            ) == Some(false) {
                -(k + 1)
            } else {
                k + 1
            }),
    {
        let ghost m = cadical_literals@;
        let mut result: Vec<i32> = Vec::with_capacity(cadical_literals.len());
        if cadical_literals.len() == 0 {
            return result;
        }
        proof {
            assert(m.len() <= m[m.len() - 1]);
        }
        let mut i: usize = 1;
        while i < cadical_literals.len()
            invariant
                self.map_ok(),
                m == self.cadical_literals@,
                m == cadical_literals@,
                cadical_found_model(self.solver),
                1 <= i <= m.len(),
                m.len() < i32::MAX,
                result@.len() == i - 1,
                forall|k: int| 0 <= k < result@.len() ==> #[trigger] result@[k] == (if cadical_model_value(
                    self.solver,
                    m[k + 1] as int,
                ) == Some(false) {
                    -(k + 1)
                } else {
                    k + 1
                }),
            decreases m.len() - i,
        {
            let j: i32 = i as i32;
            let lit = cadical_literals[i];
            let x = match cadical_value(&self.solver, lit) {
                Some(v) => {
                    if v {
                        j
                    } else {
                        -j
                    }
                },
                None => j,
            };
            result.push(x);
            i = i + 1;
        }
        result
    }

    /// Solves the solver's clauses under assumptions that are CaDiCaL literals already.
    fn solve_under_already_translated_assumptions(&mut self, cadical_cube: &[i32]) -> (r: SatResponse)
        requires
            old(self).map_ok(),
            forall|j: int| 0 <= j < cadical_cube@.len() ==> #[trigger] cadical_cube@[j] != 0 && cadical_cube@[j] != i32::MIN,
        ensures
            final(self).cadical_literals == old(self).cadical_literals,
            final(self).new_literal == old(self).new_literal,
            final(self).clauses == old(self).clauses,
            final(self).switched_off == old(self).switched_off,
            cadical_formula(final(self).solver) == cadical_formula(old(self).solver),
            match r {
                SatResponse::Sat { assignment } => {
                    &&& forall|i: int| 0 <= i < cadical_formula(final(self).solver).len() ==> solution_solves(
                        final(self).solver,
                        #[trigger] cadical_formula(final(self).solver)[i],
                    )
                    &&& forall|j: int| 0 <= j < cadical_cube@.len() ==> solution_solves(
                        final(self).solver,
                        #[trigger] assumption_units(cadical_cube@)[j],
                    )
                    &&& forall|x: int| 1 <= x < final(self).cadical_literals@.len() ==> #[trigger] assignment.value(x as u32) == (if cadical_model_value(
                        final(self).solver,
                        final(self).cadical_literals@[x] as int,
                    ) == Some(false) {
                        Some(false)
                    } else {
                        Some(true)
                    })
                },
                SatResponse::UnSat => !dimacs_satisfiable(cadical_formula(old(self).solver) + assumption_units(cadical_cube@)),
            },
    {
        let sat_result = cadical_solve_with(&mut self.solver, cadical_cube);
        if sat_result {
            let result = self.create_dimacs_assignment_from_cadical_model(self.cadical_literals.as_slice());
            proof {
                let m = self.cadical_literals@;
                if m.len() > 0 {
                    assert(m.len() <= m[m.len() - 1]);
                }
                assert forall|k: int| 0 <= k < result@.len() implies #[trigger] result@[k] != 0 && result@[k] != i32::MIN by {}
            }
            let assignment = Assignment::from_dimacs_assignment(&result);
            proof {
                let m = self.cadical_literals@;
                if m.len() > 0 {
                    lemma_dimacs_model_values(result@, self.solver, m, assignment);
                }
            }
            SatResponse::Sat { assignment }
        } else {
            SatResponse::UnSat
        }
    }

    /// Solves under the literals of the cube, if any, as assumptions.
    fn solve_with_just_cube_assumptions(&mut self, cube: Option<&Cube>) -> (r: SatResponse)
        requires
            old(self).wf(),
            cube matches Some(c) ==> mapped_vars(old(self).cadical_literals@, c@),
        ensures
            final(self).wf(),
            final(self).view() == old(self).view(),
            final(self).used_count() == old(self).used_count(),
            final(self).cadical_literals == old(self).cadical_literals,
            match r {
                SatResponse::Sat { assignment } => assignment_satisfies(
                    assignment,
                    old(self).view().union(query_extras(cube_literals(cube), None)),
                ),
                SatResponse::UnSat => !satisfiable(old(self).view().union(query_extras(cube_literals(cube), None))),
            },
    {
        let v = match cube {
            Some(c) => {
                c.check_wf();
                self.translate_cube_into_cadical_cube(c)
            },
            None => Vec::new(),
        };
        let ghost s0 = *self;
        let ghost m = self.cadical_literals@;
        proof {
            assert(int_views(v@) =~= cadical_clause(m, cube_literals(cube)));
            assert(query_shape(cadical_formula(s0.solver), m, cube_literals(cube), None, s0.new_literal as int, cadical_formula(s0.solver), v@));
        }
        let result = self.solve_under_already_translated_assumptions(v.as_slice());
        proof {
            match &result {
                SatResponse::Sat { assignment } => {
                    lemma_model(s0, cube_literals(cube), None, cadical_formula(s0.solver), v@, self.solver, *assignment);
                },
                SatResponse::UnSat => {
                    lemma_no_model(s0, cube_literals(cube), None, cadical_formula(s0.solver), v@);
                },
            }
        }
        result
    }

    /// Solves with a temporary clause: the clause is added with the negation of a fresh
    /// variable, which is assumed along with the cube's literals and switched off afterwards.
    fn handle_temporary_extra_clause(&mut self, clause: &Clause, cube: Option<&Cube>) -> (r: SatResponse)
        requires
            old(self).wf(),
            old(self).new_literal < i32::MAX,
            old(self).cadical_literals@.len() >= 1,
            mapped_vars(old(self).cadical_literals@, clause@),
            cube matches Some(c) ==> mapped_vars(old(self).cadical_literals@, c@),
        ensures
            final(self).wf(),
            final(self).view() == old(self).view(),
            final(self).used_count() == old(self).used_count() + 1,
            final(self).cadical_literals == old(self).cadical_literals,
            match r {
                SatResponse::Sat { assignment } => assignment_satisfies(
                    assignment,
                    old(self).view().union(query_extras(cube_literals(cube), Some(clause@))),
                ),
                SatResponse::UnSat => !satisfiable(
                    old(self).view().union(query_extras(cube_literals(cube), Some(clause@))),
                ),
            },
    {
        clause.check_wf();
        let mut translated = self.translate_clause_into_cadical_clause(clause);
        let ghost s0 = *self;
        let ghost m = self.cadical_literals@;
        let ghost f0 = cadical_formula(self.solver);
        let some_new_variable = self.new_lit();
        translated.push(-some_new_variable);
        let ghost x = int_views(translated@);
        proof {
            assert(x =~= cadical_clause(m, clause@).push(-some_new_variable));
            assert forall|j: int| 0 <= j < translated@.len() implies #[trigger] translated@[j] != 0 && translated@[j] != i32::MIN by {}
        }
        cadical_add_clause(&mut self.solver, translated.as_slice());
        let mut assumptions: Vec<i32> = Vec::new();
        assumptions.push(some_new_variable);
        if let Some(c) = cube {
            c.check_wf();
            let mut translated_cube = self.translate_cube_into_cadical_cube(c);
            assumptions.append(&mut translated_cube);
        }
        let ghost f = cadical_formula(self.solver);
        proof {
            assert(int_views(assumptions@) =~= seq![some_new_variable as int] + cadical_clause(m, cube_literals(cube)));
            assert(f == f0.push(cadical_clause(m, clause@).push(-some_new_variable)));
            assert(query_shape(f0, m, cube_literals(cube), Some(clause@), s0.new_literal as int, f, assumptions@));
            assert forall|j: int| 0 <= j < assumptions@.len() implies #[trigger] assumptions@[j] != 0 && assumptions@[j] != i32::MIN by {
                if j > 0 {
                    assert(int_views(assumptions@)[j] == assumptions@[j] as int);
                }
            }
        }
        let result = self.solve_under_already_translated_assumptions(assumptions.as_slice());
        proof {
            match &result {
                SatResponse::Sat { assignment } => {
                    lemma_model(s0, cube_literals(cube), Some(clause@), f, assumptions@, self.solver, *assignment);
                },
                SatResponse::UnSat => {
                    lemma_no_model(s0, cube_literals(cube), Some(clause@), f, assumptions@);
                },
            }
        }
        let switch_off = -some_new_variable;
        let cancel: Vec<i32> = vec![switch_off];
        cadical_add_clause(&mut self.solver, cancel.as_slice());
        self.switched_off = Ghost(self.switched_off@.insert(some_new_variable as int));
        proof {
            let v = some_new_variable as int;
            let f2 = cadical_formula(self.solver);
            assert(int_views(cancel@) =~= seq![-v]);
            assert(f2 == f.push(seq![-v]));
            lemma_push_keeps(f0, cadical_clause(m, clause@).push(-v));
            lemma_push_keeps(f, seq![-v]);
            assert forall|t: int| #[trigger] self.switched_off@.contains(t) implies {
                &&& 1 <= t < self.new_literal
                &&& forall|i: int| 0 <= i < m.len() ==> m[i] != t
                &&& f2.contains(seq![-t])
            } by {
                if t != v {
                    assert(s0.switched_off@.contains(t));
                    assert(f0.contains(seq![-t]));
                    assert(f.contains(seq![-t]));
                }
            }
            assert forall|c: Seq<Literal>| #[trigger] self.clauses@.contains(c) implies f2.contains(cadical_clause(m, c)) by {
                assert(f0.contains(cadical_clause(m, c)));
                assert(f.contains(cadical_clause(m, c)));
            }
            assert forall|k: int| 0 <= k < f2.len() implies accounted(self.clauses@, self.switched_off@, m, #[trigger] f2[k]) by {
                if k < f0.len() {
                    assert(f2[k] == f0[k]);
                    lemma_accounted_more_off(self.clauses@, s0.switched_off@, self.switched_off@, m, f0[k]);
                } else if k == f0.len() {
                    let y = cadical_clause(m, clause@).push(-v);
                    assert(f2[k] == y);
                    assert(y[y.len() - 1] == -v);
                    assert(f2[k].contains(-v));
                    assert(self.switched_off@.contains(v));
                } else {
                    assert(f2[k] == seq![-v]);
                    assert(f2[k][0] == -v);
                    assert(self.switched_off@.contains(v));
                }
            }
            assert forall|i: int, j: int| 0 <= i < f2.len() && 0 <= j < f2[i].len() implies #[trigger] f2[i][j] != 0 && i32::MIN < f2[i][j] <= i32::MAX by {
                if i < f0.len() {
                    assert(f2[i] == f0[i]);
                } else if i == f0.len() {
                    assert(f2[i] == x);
                    assert(x[j] == translated@[j] as int);
                }
            }
        }
        result
    }

    /// Decides whether the solver's clauses, together with the literals of the cube and the
    /// extra clause, are satisfiable; when they are, gives an assignment that makes a literal
    /// of each of them true. The cube and the clause are not kept.
    pub fn solve(
        &mut self,
        temporary_extra_cube: Option<&Cube>,
        temporary_extra_clause: Option<&Clause>,
    ) -> (r: SatResponse)
        requires
            old(self).wf(),
            old(self).used_count() < i32::MAX - 3,
            variables_below(
                temporary_clauses(temporary_extra_cube, temporary_extra_clause),
                i32::MAX - 3 - old(self).used_count(),
            ),
        ensures
            final(self).wf(),
            final(self).view() == old(self).view(),
            forall|n: int| 0 <= n && #[trigger] variables_below(temporary_clauses(temporary_extra_cube, temporary_extra_clause), n)
                ==> final(self).used_count() <= old(self).used_count() + n + 2,
            match r {
                SatResponse::Sat { assignment } => assignment_satisfies(
                    assignment,
                    old(self).view().union(temporary_clauses(temporary_extra_cube, temporary_extra_clause)),
                ),
                SatResponse::UnSat => !satisfiable(
                    old(self).view().union(temporary_clauses(temporary_extra_cube, temporary_extra_clause)),
                ),
            },
    {
        let ghost temp = temporary_clauses(temporary_extra_cube, temporary_extra_clause);
        let ghost bound = i32::MAX - 3 - old(self).used_count();
        let ghost len0 = self.cadical_literals@.len();
        let ghost used0 = self.used_count();
        proof {
            let extra = match temporary_extra_clause {
                Some(d) => Some(d@),
                None => None,
            };
            assert(unit_clauses(Seq::<Literal>::empty()) =~= Set::<Seq<Literal>>::empty());
            assert(temp =~= query_extras(cube_literals(temporary_extra_cube), extra));
            assert forall|i: int| 0 <= i < cube_literals(temporary_extra_cube).len() implies temp.contains(
                seq![#[trigger] cube_literals(temporary_extra_cube)[i]],
            ) by {
                assert(unit_clauses(cube_literals(temporary_extra_cube)).contains(seq![cube_literals(temporary_extra_cube)[i]]));
            }
        }
        if let Some(cube) = temporary_extra_cube {
            let cnf = cube.to_cnf();
            proof {
                assert forall|c: Seq<Literal>, i: int| #[trigger] cnf@.contains(c) && 0 <= i < c.len() implies (#[trigger] c[i]).var()
                    < i32::MAX - 2 - self.used_count() + self.cadical_literals@.len() by {
                    let k = choose|k: int| 0 <= k < cube@.len() && c == seq![cube@[k]];
                    assert(temp.contains(seq![cube@[k]]));
                    assert(c[i] == cube@[k]);
                }
            }
            self.extend_cadical_literals_if_needed(&cnf);
            proof {
                assert forall|k: int| 0 <= k < cube@.len() implies (#[trigger] cube@[k]).var() < self.cadical_literals@.len() by {
                    assert(cnf@.contains(seq![cube@[k]]));
                    assert(mapped_vars(self.cadical_literals@, seq![cube@[k]]));
                    assert(seq![cube@[k]][0] == cube@[k]);
                }
                assert forall|n: int| 1 <= n && #[trigger] variables_below(temp, n) implies self.cadical_literals@.len() <= len0
                    || self.cadical_literals@.len() <= n by {
                    assert forall|c: Seq<Literal>, i: int| #[trigger] cnf@.contains(c) && 0 <= i < c.len() implies (#[trigger] c[i]).var() < n by {
                        let k = choose|k: int| 0 <= k < cube@.len() && c == seq![cube@[k]];
                        assert(temp.contains(seq![cube@[k]]));
                        assert(c[i] == cube@[k]);
                    }
                    assert(variables_below(cnf@, n));
                }
            }
        }
        let ghost len1 = self.cadical_literals@.len();
        if let Some(clause) = temporary_extra_clause {
            let cnf = clause.to_cnf();
            proof {
                assert(temp.contains(clause@));
                assert forall|c: Seq<Literal>, i: int| #[trigger] cnf@.contains(c) && 0 <= i < c.len() implies (#[trigger] c[i]).var()
                    < i32::MAX - 2 - self.used_count() + self.cadical_literals@.len() by {
                    assert(c == clause@);
                }
            }
            let ghost m1 = self.cadical_literals@;
            self.extend_cadical_literals_if_needed(&cnf);
            proof {
                assert(cnf@.contains(clause@));
                if let Some(cube) = temporary_extra_cube {
                    assert forall|k: int| 0 <= k < cube@.len() implies (#[trigger] cube@[k]).var() < self.cadical_literals@.len() by {
                        assert(cube@[k].var() < m1.len());
                    }
                }
                assert forall|n: int| 1 <= n && #[trigger] variables_below(temp, n) implies self.cadical_literals@.len() <= len1
                    || self.cadical_literals@.len() <= n by {
                    assert(variables_below(cnf@, n));
                }
            }
        }
        proof {
            assert(self.used_count() - used0 == self.cadical_literals@.len() - len0);
            assert(1 <= bound);
            assert(variables_below(temp, bound));
            assert(self.cadical_literals@.len() <= len0 || self.cadical_literals@.len() <= bound);
            assert forall|n: int| 0 <= n && #[trigger] variables_below(temp, n) implies self.cadical_literals@.len() <= len0 + n + 1 by {
                let n1 = if n >= 1 { n } else { 1 };
                assert(variables_below(temp, n1));
            }
        }
        match temporary_extra_clause {
            None => self.solve_with_just_cube_assumptions(temporary_extra_cube),
            Some(extra_clause) => self.handle_temporary_extra_clause(extra_clause, temporary_extra_cube),
        }
    }

    /// Adds the clauses of `cnf` to the solver.
    pub fn add_cnf(&mut self, cnf: &CNF)
        requires
            old(self).wf(),
            variables_below(cnf@, i32::MAX - 2 - old(self).used_count()),
        ensures
            final(self).wf(),
            final(self).view() == old(self).view().union(cnf@),
            forall|n: int| 0 <= n && #[trigger] variables_below(cnf@, n) ==> final(self).used_count() <= old(self).used_count() + n + 1,
    {
        proof {
            lemma_variables_below_more(cnf@, i32::MAX - 2 - old(self).used_count(), i32::MAX - 2 - old(self).used_count() + old(self).cadical_literals@.len());
        }
        self.extend_cadical_literals_if_needed(cnf);
        cnf.check_wf();
        proof {
            assert(clause_views(cnf.clause_list().take(0)).to_set() =~= Set::<Seq<Literal>>::empty());
            assert(self.clauses@ =~= old(self).view().union(Set::<Seq<Literal>>::empty()));
        }
        let mut i: usize = 0;
        while i < cnf.list_len()
            invariant
                self.wf(),
                i <= cnf.clause_list().len(),
                self.used_count() == old(self).used_count() + self.cadical_literals@.len() - old(self).cadical_literals@.len(),
                old(self).cadical_literals@.len() <= self.cadical_literals@.len(),
                forall|n: int| 0 <= n && #[trigger] variables_below(cnf@, n) ==> self.cadical_literals@.len()
                    <= old(self).cadical_literals@.len() + n + 1,
                forall|c: Seq<Literal>| #[trigger] cnf@.contains(c) ==> mapped_vars(self.cadical_literals@, c) && all_valid(c),
                cnf@ == clause_views(cnf.clause_list()).to_set(),
                self.clauses@ == old(self).view().union(clause_views(cnf.clause_list().take(i as int)).to_set()),
            decreases cnf.clause_list().len() - i,
        {
            let clause = cnf.get(i);
            proof {
                assert(clause_views(cnf.clause_list())[i as int] == clause@);
                assert(cnf@.contains(clause@));
            }
            let translated = self.translate_clause_into_cadical_clause(clause);
            let ghost f0 = cadical_formula(self.solver);
            let ghost g0 = self.clauses@;
            let ghost m = self.cadical_literals@;
            cadical_add_clause(&mut self.solver, translated.as_slice());
            self.clauses = Ghost(self.clauses@.insert(clause@));
            proof {
                let f = cadical_formula(self.solver);
                let x = cadical_clause(m, clause@);
                assert(f == f0.push(x));
                lemma_push_keeps(f0, x);
                assert(f[f0.len() as int] == x);
                assert forall|k: int| 0 <= k < f.len() implies accounted(self.clauses@, self.switched_off@, m, #[trigger] f[k]) by {
                    if k < f0.len() {
                        assert(f[k] == f0[k]);
                        lemma_accounted_grow(g0, self.clauses@, self.switched_off@, m, f0[k]);
                    } else {
                        assert(self.clauses@.contains(clause@));
                    }
                }
                assert forall|t: int| #[trigger] self.switched_off@.contains(t) implies f.contains(seq![-t]) by {
                    assert(f0.contains(seq![-t]));
                }
                assert forall|c: Seq<Literal>| #[trigger] self.clauses@.contains(c) implies f.contains(cadical_clause(m, c)) by {
                    if c != clause@ {
                        assert(g0.contains(c));
                        assert(f0.contains(cadical_clause(m, c)));
                    }
                }
                let t = cnf.clause_list().take(i + 1);
                assert(clause_views(t) =~= clause_views(cnf.clause_list().take(i as int)).push(clause@));
                clause_views(cnf.clause_list().take(i as int)).lemma_push_to_set_commute(clause@);
                assert(self.clauses@ =~= old(self).view().union(clause_views(t).to_set()));
            }
            i = i + 1;
        }
        proof {
            assert(cnf.clause_list().take(i as int) =~= cnf.clause_list());
        }
    }
}

impl Default for CaDiCalSolver {
    /// A solver that holds no clauses.
    fn default() -> (r: Self)
        ensures
            r.wf(),
            r.view() == Set::<Seq<Literal>>::empty(),
            r.used_count() == 0,
    {
        Self {
            solver: cadical_new(),
            cadical_literals: Vec::new(),
            new_literal: 1,
            clauses: Ghost(Set::empty()),
            switched_off: Ghost(Set::empty()),
        }
    }
}

impl StatefulSatSolver for CaDiCalSolver {
    open spec fn ready(&self) -> bool {
        self.wf()
    }

    open spec fn formula(&self) -> Set<Seq<Literal>> {
        self.view()
    }

    open spec fn used(&self) -> nat {
        self.used_count()
    }

    fn add_cnf(&mut self, cnf: &CNF) {
        CaDiCalSolver::add_cnf(self, cnf)
    }

    fn solve(
        &mut self,
        temporary_extra_cube: Option<&Cube>,
        temporary_extra_clause: Option<&Clause>,
    ) -> (r: SatResponse) {
        CaDiCalSolver::solve(self, temporary_extra_cube, temporary_extra_clause)
    }
}

/// The extra clauses of a query: the unit clauses of the cube, and the extra clause.
pub open spec fn query_extras(cube: Seq<Literal>, extra: Option<Seq<Literal>>) -> Set<Seq<Literal>> {
    match extra {
        Some(d) => unit_clauses(cube).insert(d),
        None => unit_clauses(cube),
    }
}

/// The solver's clauses and assumptions for a query: without an extra clause, the solver's
/// clauses and the cube; with one, also the extra clause with the negated fresh variable `v`,
/// which is assumed first.
pub open spec fn query_shape(
    base: Seq<Seq<int>>,
    m: Seq<i32>,
    cube: Seq<Literal>,
    extra: Option<Seq<Literal>>,
    v: int,
    f: Seq<Seq<int>>,
    a: Seq<i32>,
) -> bool {
    match extra {
        Some(d) => {
            &&& f == base.push(cadical_clause(m, d).push(-v))
            &&& int_views(a) == seq![v] + cadical_clause(m, cube)
        },
        None => {
            &&& f == base
            &&& int_views(a) == cadical_clause(m, cube)
        },
    }
}

/// The valuation of the solver's variables that gives a mapped variable the value of the
/// library variable it stands for, and makes only `v` true among the others.
pub open spec fn lifted(sigma: Valuation, m: Seq<i32>, v: int) -> Valuation {
    |x: nat|
        if exists|i: int| 0 <= i < m.len() && m[i] == x {
            sigma((choose|i: int| 0 <= i < m.len() && m[i] == x) as nat)
        } else {
            x == v
        }
}

/// Under the lifted valuation, the CaDiCaL literal of a mapped literal holds exactly when the
/// literal does.
proof fn lemma_lifted_literal(sigma: Valuation, m: Seq<i32>, v: int, l: Literal)
    requires
        l.var() < m.len(),
        forall|i: int| 0 <= i < m.len() ==> 1 <= #[trigger] m[i],
        forall|i: int, j: int| 0 <= i < j < m.len() ==> #[trigger] m[i] < #[trigger] m[j],
    ensures
        dimacs_literal_holds(cadical_lit(m, l), lifted(sigma, m, v)) == literal_holds(l, sigma),
{
    let x = m[l.var() as int];
    assert(1 <= x);
    assert(exists|i: int| 0 <= i < m.len() && m[i] == x as nat) by {
        assert(m[l.var() as int] == x as nat);
    }
    let i = choose|i: int| 0 <= i < m.len() && m[i] == x as nat;
    if i < l.var() {
        assert(m[i] < m[l.var() as int]);
    } else if i > l.var() {
        assert(m[l.var() as int] < m[i]);
    }
    assert(lifted(sigma, m, v)(x as nat) == sigma(l.var()));
}

/// Under the lifted valuation, a variable outside the map is true only if it is `v`.
proof fn lemma_lifted_other(sigma: Valuation, m: Seq<i32>, v: int, t: int)
    requires
        t >= 1,
        forall|i: int| 0 <= i < m.len() ==> m[i] != t,
    ensures
        lifted(sigma, m, v)(t as nat) == (t == v),
{
    assert(!exists|i: int| 0 <= i < m.len() && m[i] == t as nat);
}

/// Where the assumptions of a query put the fresh variable and the cube's literals.
proof fn lemma_assumptions(a: Seq<i32>, m: Seq<i32>, cube: Seq<Literal>, extra: bool, v: int)
    requires
        extra ==> int_views(a) == seq![v] + cadical_clause(m, cube),
        !extra ==> int_views(a) == cadical_clause(m, cube),
    ensures
        a.len() == cube.len() + (if extra { 1int } else { 0int }),
        extra ==> a[0] as int == v,
        extra ==> forall|i: int| 0 <= i < cube.len() ==> #[trigger] a[i + 1] as int == cadical_lit(m, cube[i]),
        !extra ==> forall|i: int| 0 <= i < cube.len() ==> #[trigger] a[i] as int == cadical_lit(m, cube[i]),
{
    assert(int_views(a).len() == a.len());
    assert forall|i: int| 0 <= i < cube.len() implies (if extra { a[i + 1] } else { a[i] }) as int == cadical_lit(m, cube[i]) by {
        let j = if extra { i + 1 } else { i };
        assert(int_views(a)[j] == a[j] as int);
        if extra {
            assert((seq![v] + cadical_clause(m, cube))[j] == cadical_clause(m, cube)[i]);
        }
    }
    if extra {
        assert(int_views(a)[0] == a[0] as int);
        assert((seq![v] + cadical_clause(m, cube))[0] == v);
    }
}

/// When the solver finds no model for a query, the library's query is unsatisfiable.
proof fn lemma_no_model(
    s: CaDiCalSolver,
    cube: Seq<Literal>,
    extra: Option<Seq<Literal>>,
    f: Seq<Seq<int>>,
    a: Seq<i32>,
)
    requires
        s.wf(),
        mapped_vars(s.cadical_literals@, cube),
        extra matches Some(d) ==> mapped_vars(s.cadical_literals@, d),
        query_shape(cadical_formula(s.solver), s.cadical_literals@, cube, extra, s.new_literal as int, f, a),
        !dimacs_satisfiable(f + assumption_units(a)),
    ensures
        !satisfiable(s.view().union(query_extras(cube, extra))),
{
    let q = s.view().union(query_extras(cube, extra));
    let m = s.cadical_literals@;
    let base = cadical_formula(s.solver);
    let v = s.new_literal as int;
    lemma_assumptions(a, m, cube, extra is Some, v);
    if satisfiable(q) {
        let sigma = choose|sg: Valuation| cnf_holds(q, sg);
        let tau = lifted(sigma, m, v);
        let fa = f + assumption_units(a);
        assert forall|l: Literal| l.var() < m.len() implies dimacs_literal_holds(#[trigger] cadical_lit(m, l), tau)
            == literal_holds(l, sigma) by {
            lemma_lifted_literal(sigma, m, v, l);
        }
        assert forall|c: Seq<Literal>| #[trigger] q.contains(c) && mapped_vars(m, c) implies dimacs_clause_holds(
            cadical_clause(m, c),
            tau,
        ) by {
            assert(clause_holds(c, sigma));
            let i = choose|i: int| 0 <= i < c.len() && literal_holds(#[trigger] c[i], sigma);
            assert(cadical_clause(m, c)[i] == cadical_lit(m, c[i]));
        }
        assert forall|k: int| 0 <= k < fa.len() implies dimacs_clause_holds(#[trigger] fa[k], tau) by {
            if k < base.len() {
                assert(fa[k] == base[k]);
                assert(accounted(s.view(), s.switched_off@, m, base[k]));
                if exists|c: Seq<Literal>| #[trigger] s.view().contains(c) && base[k] == cadical_clause(m, c) {
                    let c = choose|c: Seq<Literal>| #[trigger] s.view().contains(c) && base[k] == cadical_clause(m, c);
                    assert(q.contains(c));
                } else {
                    let t = choose|t: int| #[trigger] s.switched_off@.contains(t) && base[k].contains(-t);
                    let j = choose|j: int| 0 <= j < base[k].len() && base[k][j] == -t;
                    lemma_lifted_other(sigma, m, v, t);
                    assert(dimacs_literal_holds(base[k][j], tau));
                }
            } else if k < f.len() {
                let d = extra->0;
                assert(fa[k] == cadical_clause(m, d).push(-v));
                assert(q.contains(d));
                assert(clause_holds(d, sigma));
                let i = choose|i: int| 0 <= i < d.len() && literal_holds(#[trigger] d[i], sigma);
                assert(fa[k][i] == cadical_lit(m, d[i]));
            } else {
                let j = k - f.len();
                assert(fa[k] == seq![a[j] as int]);
                if extra is Some && j == 0 {
                    lemma_lifted_other(sigma, m, v, v);
                    assert(dimacs_literal_holds(fa[k][0], tau));
                } else {
                    let i = if extra is Some { j - 1 } else { j };
                    assert((if extra is Some { a[i + 1] } else { a[i] }) as int == cadical_lit(m, cube[i]));
                    assert(unit_clauses(cube).contains(seq![cube[i]])) by {
                        assert(seq![cube[i]] == seq![cube[i]]);
                    }
                    assert(q.contains(seq![cube[i]]));
                    assert(clause_holds(seq![cube[i]], sigma));
                    assert(literal_holds(cube[i], sigma)) by {
                        let w = choose|w: int| 0 <= w < 1 && literal_holds(#[trigger] seq![cube[i]][w], sigma);
                    }
                    assert(dimacs_literal_holds(fa[k][0], tau));
                }
            }
        }
        assert(dimacs_holds(fa, tau));
    }
}

/// A literal whose solver variable the solution gives the literal's value is made true by an
/// assignment that agrees with the solution on that variable.
proof fn lemma_solved_literal(mid: CadicalInstance, m: Seq<i32>, asg: Assignment, l: Literal)
    requires
        1 <= l.var() < m.len(),
        1 <= m[l.var() as int],
        asg.value(l.var() as u32) == (if cadical_model_value(mid, m[l.var() as int] as int) == Some(false) {
            Some(false)
        } else {
            Some(true)
        }),
        cadical_model_value(mid, m[l.var() as int] as int) == Some(!l.neg()),
    ensures
        assignment_makes_true(asg, l),
{
}

/// When the solver finds a model for a query, the assignment read from it satisfies the
/// library's query.
proof fn lemma_model(
    s: CaDiCalSolver,
    cube: Seq<Literal>,
    extra: Option<Seq<Literal>>,
    f: Seq<Seq<int>>,
    a: Seq<i32>,
    mid: CadicalInstance,
    asg: Assignment,
)
    requires
        s.wf(),
        mapped_vars(s.cadical_literals@, cube),
        all_valid(cube),
        extra matches Some(d) ==> mapped_vars(s.cadical_literals@, d) && all_valid(d),
        query_shape(cadical_formula(s.solver), s.cadical_literals@, cube, extra, s.new_literal as int, f, a),
        forall|i: int| 0 <= i < f.len() ==> solution_solves(mid, #[trigger] f[i]),
        forall|j: int| 0 <= j < a.len() ==> solution_solves(mid, #[trigger] assumption_units(a)[j]),
        forall|x: int| 1 <= x < s.cadical_literals@.len() ==> #[trigger] asg.value(x as u32) == (if cadical_model_value(
            mid,
            s.cadical_literals@[x] as int,
        ) == Some(false) {
            Some(false)
        } else {
            Some(true)
        }),
    ensures
        assignment_satisfies(asg, s.view().union(query_extras(cube, extra))),
{
    let q = s.view().union(query_extras(cube, extra));
    let m = s.cadical_literals@;
    let base = cadical_formula(s.solver);
    let v = s.new_literal as int;
    lemma_assumptions(a, m, cube, extra is Some, v);
    assert forall|c: Seq<Literal>, x: Seq<int>, j: int|
        mapped_vars(m, c) && all_valid(c) && x == cadical_clause(m, c) && 0 <= j < c.len()
            && cadical_model_value(mid, if #[trigger] x[j] > 0 { x[j] } else { -x[j] }) == Some(x[j] > 0)
        implies assignment_makes_true(asg, #[trigger] c[j]) by {
        assert(x[j] == cadical_lit(m, c[j]));
        assert(c[j].is_valid());
        assert(1 <= m[c[j].var() as int]);
        assert(asg.value(c[j].var() as u32) == (if cadical_model_value(mid, m[c[j].var() as int] as int) == Some(false) {
            Some(false)
        } else {
            Some(true)
        })) by {
            assert(1 <= (c[j].var() as int) < m.len());
        }
        lemma_solved_literal(mid, m, asg, c[j]);
    }
    assert forall|c: Seq<Literal>| #[trigger] q.contains(c) implies exists|i: int|
        0 <= i < c.len() && assignment_makes_true(asg, #[trigger] c[i]) by {
        if s.view().contains(c) {
            assert(base.contains(cadical_clause(m, c)));
            let k = choose|k: int| 0 <= k < base.len() && base[k] == cadical_clause(m, c);
            assert(f[k] == base[k]);
            assert(solution_solves(mid, f[k]));
            let x = cadical_clause(m, c);
            let j = choose|j: int| 0 <= j < x.len() && cadical_model_value(mid, if x[j] > 0 { x[j] } else { -x[j] }) == Some(#[trigger] x[j] > 0);
            assert(assignment_makes_true(asg, c[j]));
        } else if extra is Some && c == extra->0 {
            let d = extra->0;
            let k = base.len() as int;
            let x = cadical_clause(m, d).push(-v);
            assert(f[k] == x);
            assert(solution_solves(mid, f[k]));
            let j = choose|j: int| 0 <= j < x.len() && cadical_model_value(mid, if x[j] > 0 { x[j] } else { -x[j] }) == Some(#[trigger] x[j] > 0);
            assert(solution_solves(mid, assumption_units(a)[0]));
            assert(assumption_units(a)[0] == seq![v]);
            if j == d.len() {
                assert(x[j] == -v);
                assert(cadical_model_value(mid, v) == Some(false));
                let w = choose|w: int| 0 <= w < 1 && cadical_model_value(mid, if seq![v][w] > 0 { seq![v][w] } else { -seq![v][w] }) == Some(#[trigger] seq![v][w] > 0);
                assert(false);
            }
            assert(cadical_clause(m, d)[j] == x[j]);
            assert(assignment_makes_true(asg, c[j]));
        } else {
            assert(unit_clauses(cube).contains(c));
            let i = choose|i: int| 0 <= i < cube.len() && c == seq![cube[i]];
            let j = if extra is Some { i + 1 } else { i };
            assert(a[j] as int == cadical_lit(m, cube[i]));
            assert(solution_solves(mid, assumption_units(a)[j]));
            let y = assumption_units(a)[j];
            assert(y == seq![cadical_lit(m, cube[i])]);
            let w = choose|w: int| 0 <= w < y.len() && cadical_model_value(mid, if y[w] > 0 { y[w] } else { -y[w] }) == Some(#[trigger] y[w] > 0);
            let x = cadical_clause(m, c);
            assert(x[0] == y[0]);
            assert(c[0] == cube[i]);
            assert(assignment_makes_true(asg, c[0]));
        }
    }
}

/// The assignment read from the list of DIMACS literals that the solution gives.
proof fn lemma_dimacs_model_values(r: Seq<i32>, mid: CadicalInstance, m: Seq<i32>, asg: Assignment)
    requires
        m.len() >= 1,
        r.len() == m.len() - 1,
        m.len() <= i32::MAX,
        forall|k: int| 0 <= k < r.len() ==> #[trigger] r[k] == (if cadical_model_value(mid, m[k + 1] as int) == Some(false) {
            -(k + 1)
        } else {
            k + 1
        }),
        forall|x: u32| #[trigger] asg.trues().contains(x) <==> lists(r, x as int),
        forall|x: u32| #[trigger] asg.falses().contains(x) <==> lists(r, -(x as int)),
    ensures
        forall|x: int| 1 <= x < m.len() ==> #[trigger] asg.value(x as u32) == (if cadical_model_value(mid, m[x] as int) == Some(false) {
            Some(false)
        } else {
            Some(true)
        }),
{
    assert forall|x: int| 1 <= x < m.len() implies #[trigger] asg.value(x as u32) == (if cadical_model_value(mid, m[x] as int) == Some(false) {
        Some(false)
    } else {
        Some(true)
    }) by {
        assert((x as u32) as int == x);
        if cadical_model_value(mid, m[x] as int) == Some(false) {
            assert(r[x - 1] == -x);
            assert(lists(r, -x));
            if lists(r, x) {
                let k = choose|k: int| 0 <= k < r.len() && r[k] == x;
            }
        } else {
            assert(r[x - 1] == x);
            assert(lists(r, x));
        }
    }
}

/// The literals of a cube, none for no cube.
pub open spec fn cube_literals(cube: Option<&Cube>) -> Seq<Literal> {
    match cube {
        Some(c) => c@,
        None => Seq::empty(),
    }
}

/// A clause accounted for with some switched-off variables is accounted for with more.
proof fn lemma_accounted_more_off(g: Set<Seq<Literal>>, off: Set<int>, off2: Set<int>, m: Seq<i32>, x: Seq<int>)
    requires
        accounted(g, off, m, x),
        off.subset_of(off2),
    ensures
        accounted(g, off2, m, x),
{
    if exists|t: int| #[trigger] off.contains(t) && x.contains(-t) {
        let t = choose|t: int| #[trigger] off.contains(t) && x.contains(-t);
        assert(off2.contains(t));
    }
}

/// A bound on the variables is also a bound for any larger number.
proof fn lemma_variables_below_more(f: Set<Seq<Literal>>, n: int, n2: int)
    requires
        variables_below(f, n),
        n <= n2,
    ensures
        variables_below(f, n2),
{
}

/// Pushing a clause keeps the clauses already there.
proof fn lemma_push_keeps(f: Seq<Seq<int>>, x: Seq<int>)
    ensures
        forall|y: Seq<int>| f.contains(y) ==> #[trigger] f.push(x).contains(y),
        f.push(x).contains(x),
{
    assert forall|y: Seq<int>| f.contains(y) implies #[trigger] f.push(x).contains(y) by {
        let k = choose|k: int| 0 <= k < f.len() && f[k] == y;
        assert(f.push(x)[k] == y);
    }
    assert(f.push(x)[f.len() as int] == x);
}

/// A clause accounted for by some clauses is accounted for by more of them.
proof fn lemma_accounted_grow(g: Set<Seq<Literal>>, g2: Set<Seq<Literal>>, off: Set<int>, m: Seq<i32>, x: Seq<int>)
    requires
        accounted(g, off, m, x),
        g.subset_of(g2),
    ensures
        accounted(g2, off, m, x),
{
    if exists|c: Seq<Literal>| #[trigger] g.contains(c) && x == cadical_clause(m, c) {
        let c = choose|c: Seq<Literal>| #[trigger] g.contains(c) && x == cadical_clause(m, c);
        assert(g2.contains(c));
    }
}

} // verus!
