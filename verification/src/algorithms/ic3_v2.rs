//! IC3, after Bradley, "SAT-Based Model Checking without Unrolling" (VMCAI 2011).
//!
//! Frame `F_k` is the clauses learnt for it together with the initial states (`k == 0`) or the
//! safety property (`k >= 1`). Each SAT query is stated over these formulas. The answer of
//! `prove` is checked before it is given: an invariant by `check_invariant`, a counterexample by
//! the bounded model checking formula of its depth.

use crate::algorithms::bmc::{bmc_formula, not_p0, unrolled_transitions};
use crate::algorithms::pdr::{
    blocking, confirm_counterexample, count_after_many, ctx_search_stuck, cube_chain, cube_fits, cube_step, no_ctx_between, lemma_negation_unique, lemma_state_cube_fits, obligations,
    obligations_new, obligations_pop, obligations_push, pdr_fits, shuffle_literals,
};
use crate::formulas::literal::{max_variable_number, Literal, VariableType};
use crate::formulas::semantics::{
    clause_holds, cnf_holds, lemma_same_literals_hold, literal_holds, negate_all, same_literals, satisfiable,
    sorted_by_code, unit_clauses, Valuation,
};
use crate::models::finite_state_transition_system::features::{law_extracted_state_holds, lemma_bump_zero};
use crate::formulas::semantics::all_valid;
use crate::formulas::{Clause, Cube, CNF};
use crate::models::finite_state_transition_system::features::{
    bad_formula, bump_cnf, bump_fits, bump_literals, cnf_bump_fits, invariant_verdict, state_literals_of, InvariantError,
};
use crate::models::finite_state_transition_system::getting::safety_clauses;
use crate::models::finite_state_transition_system::construction::not;
use crate::models::finite_state_transition_system::{FiniteStateTransitionSystem, FstsView};
use crate::solvers::sat::assignment::{assignment_satisfies, assignment_valuation, lemma_assignment_satisfies, Assignment};
use crate::solvers::sat::{SatResponse, StatelessSatSolver};
use vstd::prelude::*;

verus! {

/// What the search found.
pub enum IC3V2Result {
    /// The system is safe: the invariant covers the initial states, is kept by every step and
    /// holds in no unsafe state.
    Proof { invariant: CNF },
    /// An unsafe state is reached from an initial state in `depth` steps.
    CTX { depth: VariableType },
}

/// The safe states, with the wires of the properties.
pub open spec fn p0_formula(v: FstsView) -> Set<Seq<Literal>> {
    v.translation.union(safety_clauses(v))
}

/// The clause sets of the frames.
pub open spec fn clause_frames(c: Seq<CNF>) -> Seq<Set<Seq<Literal>>> {
    c.map_values(|x: CNF| x@)
}

/// Frame `F_k`: its learnt clauses, with the initial states for `k == 0` and the safety
/// property after.
pub open spec fn ic3_frame(v: FstsView, cv: Seq<Set<Seq<Literal>>>, k: int) -> Set<Seq<Literal>> {
    cv[k].union(if k == 0 { v.initial } else { p0_formula(v) })
}

/// `F_i`, a step, and the cube in the next state.
pub open spec fn step_query(v: FstsView, cv: Seq<Set<Seq<Literal>>>, i: int, cube: Seq<Literal>) -> Set<Seq<Literal>> {
    ic3_frame(v, cv, i).union(v.transition).union(unit_clauses(bump_literals(cube, v.max_var)))
}

/// `F_i`, a step, and an unsafe next state.
pub open spec fn bad_step_query(v: FstsView, cv: Seq<Set<Seq<Literal>>>, i: int) -> Set<Seq<Literal>> {
    ic3_frame(v, cv, i).union(v.transition).union(bump_cnf(bad_formula(v), v.max_var))
}

/// `e` is the cube of the negated literals of the clause `d`, sorted.
pub open spec fn negated_cube(d: Seq<Literal>, e: Seq<Literal>) -> bool {
    sorted_by_code(e) && same_literals(e, negate_all(d))
}

/// Whether a cube meets the initial states: no literal of it contradicts a unit clause of them.
pub open spec fn meets_initial(v: FstsView, e: Seq<Literal>) -> bool {
    !exists|i: int| 0 <= i < e.len() && v.initial.contains(seq![not(#[trigger] e[i])])
}

/// Each frame of `new` holds every learnt clause of the same frame of `old`.
pub open spec fn frames_grow(old: Seq<Set<Seq<Literal>>>, new: Seq<Set<Seq<Literal>>>) -> bool {
    &&& new.len() == old.len()
    &&& forall|i: int, c: Seq<Literal>| 0 <= i < old.len() && #[trigger] old[i].contains(c) ==> new[i].contains(c)
}

/// Frame `j` holds no state of the cube.
pub open spec fn ic3_blocked(v: FstsView, cv: Seq<Set<Seq<Literal>>>, j: int, cube: Seq<Literal>) -> bool {
    !satisfiable(ic3_frame(v, cv, j).union(unit_clauses(cube)))
}

/// Some initial state steps into a state of the cube.
pub open spec fn initial_step_into(v: FstsView, c: Seq<Literal>) -> bool {
    satisfiable(v.initial.union(v.transition).union(unit_clauses(bump_literals(c, v.max_var))))
}

/// A state of the cube steps into an unsafe state.
pub open spec fn bad_step(v: FstsView, c: Seq<Literal>) -> bool {
    satisfiable(v.transition.union(unit_clauses(c)).union(bump_cnf(bad_formula(v), v.max_var)))
}

/// A chain of cubes leads from a state that an initial state steps into to a state of `target`.
pub open spec fn reaches_after_step(v: FstsView, target: Seq<Literal>) -> bool {
    exists|chain: Seq<Seq<Literal>>| chain.len() >= 1 && initial_step_into(v, chain[0]) && cube_chain(v, chain)
        && #[trigger] chain.last() == target
}

/// A formula holds wherever a formula that contains it holds.
proof fn lemma_sat_subset(small: Set<Seq<Literal>>, big: Set<Seq<Literal>>)
    requires
        small.subset_of(big),
        satisfiable(big),
    ensures
        satisfiable(small),
{
    let a = choose|a: Valuation| cnf_holds(big, a);
    assert forall|c: Seq<Literal>| #[trigger] small.contains(c) implies clause_holds(c, a) by {
        assert(big.contains(c));
    }
    assert(cnf_holds(small, a));
}

/// A frame that holds a clause made of negated literals of a cube holds no state of the cube.
proof fn lemma_clause_blocks(v: FstsView, cv: Seq<Set<Seq<Literal>>>, j: int, c: Seq<Literal>, cube: Seq<Literal>)
    requires
        0 <= j < cv.len(),
        cv[j].contains(c),
        forall|l: Literal| c.contains(l) ==> negate_all(cube).contains(l),
    ensures
        ic3_blocked(v, cv, j, cube),
{
    broadcast use Literal::lemma_negate;

    let q = ic3_frame(v, cv, j).union(unit_clauses(cube));
    if satisfiable(q) {
        let a = choose|a: Valuation| cnf_holds(q, a);
        assert(q.contains(c));
        let i = choose|i: int| 0 <= i < c.len() && literal_holds(#[trigger] c[i], a);
        assert(c.contains(c[i]));
        assert(negate_all(cube).contains(c[i]));
        let m = choose|m: int| 0 <= m < negate_all(cube).len() && negate_all(cube)[m] == c[i];
        assert(negate_all(cube)[m] == Literal::spec_negate(cube[m]));
        assert(unit_clauses(cube).contains(seq![cube[m]]));
        assert(q.contains(seq![cube[m]]));
        assert(clause_holds(seq![cube[m]], a));
        assert(seq![cube[m]][0] == cube[m]);
    }
}

/// A frame that holds no state of a cube keeps doing so when it learns clauses.
proof fn lemma_blocked_grows(v: FstsView, old: Seq<Set<Seq<Literal>>>, new: Seq<Set<Seq<Literal>>>, j: int, cube: Seq<Literal>)
    requires
        frames_grow(old, new),
        0 <= j < old.len(),
        ic3_blocked(v, old, j, cube),
    ensures
        ic3_blocked(v, new, j, cube),
{
    let small = ic3_frame(v, old, j).union(unit_clauses(cube));
    let big = ic3_frame(v, new, j).union(unit_clauses(cube));
    assert forall|c: Seq<Literal>| #[trigger] small.contains(c) implies big.contains(c) by {
        if old[j].contains(c) {
            assert(new[j].contains(c));
        }
    }
    if satisfiable(big) {
        lemma_sat_subset(small, big);
    }
}

/// A state read from a solution of a formula that holds a step into `s` leads to `s` in one
/// step.
proof fn lemma_state_step(v: FstsView, q: Set<Seq<Literal>>, p: Seq<Literal>, s: Seq<Literal>, a: Assignment)
    requires
        v.transition.subset_of(q),
        unit_clauses(bump_literals(s, v.max_var)).subset_of(q),
        assignment_satisfies(a, q),
        same_literals(p, state_literals_of(v, a)),
        forall|j: int| 0 <= j < v.state_vars.len() ==> #[trigger] v.state_vars[j] <= max_variable_number(),
    ensures
        cube_step(v, p, s),
{
    let val = assignment_valuation(a);
    lemma_assignment_satisfies(a, q);
    law_extracted_state_holds(v, a);
    lemma_same_literals_hold(p, state_literals_of(v, a), val);
    let step = v.transition.union(unit_clauses(p)).union(unit_clauses(bump_literals(s, v.max_var)));
    assert forall|c: Seq<Literal>| #[trigger] step.contains(c) implies clause_holds(c, val) by {
        if unit_clauses(p).contains(c) {
            let k = choose|k: int| 0 <= k < p.len() && c == seq![p[k]];
            assert(c[0] == p[k]);
        } else {
            assert(q.contains(c));
        }
    }
    assert(cnf_holds(step, val));
}

/// A state read from a solution of a formula that holds a step into an unsafe state steps into
/// an unsafe state.
proof fn lemma_state_bad_step(v: FstsView, q: Set<Seq<Literal>>, p: Seq<Literal>, a: Assignment)
    requires
        v.transition.subset_of(q),
        bump_cnf(bad_formula(v), v.max_var).subset_of(q),
        assignment_satisfies(a, q),
        same_literals(p, state_literals_of(v, a)),
        forall|j: int| 0 <= j < v.state_vars.len() ==> #[trigger] v.state_vars[j] <= max_variable_number(),
    ensures
        bad_step(v, p),
{
    let val = assignment_valuation(a);
    lemma_assignment_satisfies(a, q);
    law_extracted_state_holds(v, a);
    lemma_same_literals_hold(p, state_literals_of(v, a), val);
    let step = v.transition.union(unit_clauses(p)).union(bump_cnf(bad_formula(v), v.max_var));
    assert forall|c: Seq<Literal>| #[trigger] step.contains(c) implies clause_holds(c, val) by {
        if unit_clauses(p).contains(c) {
            let k = choose|k: int| 0 <= k < p.len() && c == seq![p[k]];
            assert(c[0] == p[k]);
        } else {
            assert(q.contains(c));
        }
    }
    assert(cnf_holds(step, val));
}

/// The formula is that of a frame from 1 on with as many learnt clauses as the next frame.
pub open spec fn is_equal_frame(v: FstsView, cv: Seq<Set<Seq<Literal>>>, f: Set<Seq<Literal>>) -> bool {
    exists|i: int| 1 <= i && i + 1 < cv.len() && #[trigger] cv[i].len() == cv[i + 1].len() && f == ic3_frame(v, cv, i)
}

/// The bounded model checking formula of `depth` is satisfiable, and it is the first such from
/// some depth on.
pub open spec fn first_ctx_from_some_depth(v: FstsView, depth: int) -> bool {
    satisfiable(bmc_formula(v, depth as nat)) && exists|found: int| 0 <= found <= depth && #[trigger] no_ctx_between(v, found, depth)
}

/// The room that the search needs: that of PDR, and the unsafety clause in the next copy of
/// the variables.
pub open spec fn ic3_fits(v: FstsView) -> bool {
    pdr_fits(v) && bump_fits(v.unsafety, v.max_var)
}

/// The negation of a literal names the same variable.
proof fn lemma_negated_fits(v: FstsView, d: Seq<Literal>, e: Seq<Literal>)
    requires
        same_literals(e, negate_all(d)),
        cube_fits(v, d),
    ensures
        cube_fits(v, e),
{
    broadcast use Literal::lemma_negate;

    lemma_same_literals_hold(e, negate_all(d), |x: nat| true);
    assert forall|k: int| 0 <= k < e.len() implies (#[trigger] e[k]).var() <= v.max_var by {
        assert(e.contains(e[k]));
        assert(negate_all(d).contains(e[k]));
        let m = choose|m: int| 0 <= m < negate_all(d).len() && negate_all(d)[m] == e[k];
        assert(negate_all(d)[m] == Literal::spec_negate(d[m]));
    }
}

/// The IC3 search on a system, with a SAT solver for its queries.
pub struct IC3V2<T: StatelessSatSolver> {
    clauses: Vec<CNF>,
    fin_state: FiniteStateTransitionSystem,
    solver: T,
    verbose: bool,
    rounds: u64,
}

impl<T: StatelessSatSolver> IC3V2<T> {
    /// The system searched.
    pub closed spec fn system(&self) -> FstsView {
        self.fin_state@
    }

    /// The learnt clauses of the frames.
    pub closed spec fn frames(&self) -> Seq<Set<Seq<Literal>>> {
        clause_frames(self.clauses@)
    }

    /// The verbose flag the search was made with (the library itself prints nothing).
    pub closed spec fn is_verbose(&self) -> bool {
        self.verbose
    }

    /// How many rounds the searches have taken, kept at `u64::MAX` once there.
    pub closed spec fn rounds_taken(&self) -> u64 {
        self.rounds
    }

    /// How many rounds the searches have taken, kept at `u64::MAX` once there.
    pub fn rounds(&self) -> (r: u64)
        ensures
            r == self.rounds_taken(),
    {
        self.rounds
    }

    /// The verbose flag the search was made with.
    pub fn verbose(&self) -> (r: bool)
        ensures
            r == self.is_verbose(),
    {
        self.verbose
    }

    /// What the search keeps: the room it needs, and learnt clauses over the state variables.
    pub open spec fn wf(&self) -> bool {
        &&& ic3_fits(self.system())
        &&& self.frames().len() <= usize::MAX
        &&& forall|k: int, c: Seq<Literal>| 0 <= k < self.frames().len() && #[trigger] self.frames()[k].contains(c)
            ==> cube_fits(self.system(), c)
    }

    /// A search on the system; no frame is made yet.
    pub fn new(fin_state: &FiniteStateTransitionSystem, verbose: bool) -> (r: Self)
        requires
            ic3_fits(fin_state@),
        ensures
            r.system() == fin_state@,
            r.frames() == Seq::<Set<Seq<Literal>>>::empty(),
            r.is_verbose() == verbose,
            r.rounds_taken() == 0,
            r.wf(),
    {
        let r = Self { clauses: Vec::new(), fin_state: fin_state.clone(), solver: T::default(), verbose, rounds: 0 };
        assert(r.frames() =~= Seq::<Set<Seq<Literal>>>::empty());
        r
    }

    /// Whether the formula is satisfiable.
    fn sat_call(&self, q: &CNF) -> (r: bool)
        ensures
            r == satisfiable(q@),
    {
        match self.solver.solve_cnf(q) {
            SatResponse::Sat { assignment } => {
                proof {
                    lemma_assignment_satisfies(assignment, q@);
                }
                true
            },
            SatResponse::UnSat => false,
        }
    }

    /// The state cube of a solution of the formula, or none when it is unsatisfiable.
    fn sat_call_state(&self, q: &CNF) -> (r: Option<Cube>)
        requires
            self.wf(),
        ensures
            match r {
                None => !satisfiable(q@),
                Some(c) => cube_fits(self.system(), c@) && exists|a: Assignment|
                    assignment_satisfies(a, q@) && same_literals(c@, #[trigger] state_literals_of(self.system(), a)),
            },
    {
        self.fin_state.check_wf();
        match self.solver.solve_cnf(q) {
            SatResponse::Sat { assignment } => {
                let c = self.fin_state.extract_state_from_assignment(&assignment);
                proof {
                    lemma_state_cube_fits(self.system(), assignment, c@);
                }
                Some(c)
            },
            SatResponse::UnSat => None,
        }
    }

    /// Adds a clause to frame `index`.
    fn add_clause_to_clauses(&mut self, index: usize, clause: &Clause)
        requires
            old(self).wf(),
            index < old(self).frames().len(),
            cube_fits(old(self).system(), clause@),
        ensures
            final(self).wf(),
            final(self).system() == old(self).system(),
            final(self).is_verbose() == old(self).is_verbose(),
            final(self).frames() == old(self).frames().update(index as int, old(self).frames()[index as int].insert(clause@)),
    {
        let ghost cv = self.frames();
        let mut frame = CNF::new();
        self.clauses.set_and_swap(index, &mut frame);
        frame.add_clause(clause);
        self.clauses.set(index, frame);
        proof {
            assert(self.frames() =~= cv.update(index as int, cv[index as int].insert(clause@)));
        }
    }

    /// The formula of frame `k`.
    fn get_fk(&self, k: usize) -> (r: CNF)
        requires
            k < self.frames().len(),
        ensures
            r@ == ic3_frame(self.system(), self.frames(), k as int),
    {
        let mut fk = self.clauses[k].clone();
        if k == 0 {
            fk.append(&self.fin_state.get_initial_relation());
        } else {
            fk.append(&self.fin_state.get_state_to_safety_translation());
            fk.append(&self.fin_state.get_safety_property());
            assert(fk@ =~= ic3_frame(self.system(), self.frames(), k as int));
        }
        fk
    }

    /// Adds an empty frame after the last.
    fn push_extra_frame_to_clauses(&mut self)
        requires
            old(self).wf(),
        ensures
            final(self).wf(),
            final(self).system() == old(self).system(),
            final(self).is_verbose() == old(self).is_verbose(),
            final(self).frames() == old(self).frames().push(Set::<Seq<Literal>>::empty()),
    {
        let ghost cv = self.frames();
        self.clauses.push(CNF::new());
        let _ = self.clauses.len();
        proof {
            assert(self.frames() =~= cv.push(Set::<Seq<Literal>>::empty()));
        }
    }

    /// The unsafe states in the next copy of the variables.
    fn not_p1(&self) -> (r: CNF)
        requires
            self.wf(),
        ensures
            r@ == bump_cnf(bad_formula(self.system()), self.system().max_var),
    {
        self.fin_state.check_wf();
        let mut not_p0 = self.fin_state.get_unsafety_property();
        not_p0.append(&self.fin_state.get_state_to_safety_translation());
        assert(not_p0@ =~= bad_formula(self.system()));
        self.fin_state.add_tags_to_relation(&not_p0, 1)
    }

    /// Whether an initial state is unsafe.
    fn is_bad_reached_in_0_steps(&self) -> (r: bool)
        ensures
            r == satisfiable(self.system().initial.union(bad_formula(self.system()))),
    {
        let mut q = self.fin_state.get_initial_relation();
        q.append(&self.fin_state.get_unsafety_property());
        q.append(&self.fin_state.get_state_to_safety_translation());
        assert(q@ =~= self.system().initial.union(bad_formula(self.system())));
        self.sat_call(&q)
    }

    /// Whether a state of frame `i` reaches an unsafe state in one step; gives such a state.
    fn is_bad_reachable_in_1_step_from_fi(&self, i: usize) -> (r: Option<Cube>)
        requires
            self.wf(),
            i < self.frames().len(),
        ensures
            match r {
                None => !satisfiable(bad_step_query(self.system(), self.frames(), i as int)),
                Some(c) => cube_fits(self.system(), c@) && exists|a: Assignment|
                    assignment_satisfies(a, bad_step_query(self.system(), self.frames(), i as int))
                        && same_literals(c@, #[trigger] state_literals_of(self.system(), a)),
            },
    {
        let mut q = self.get_fk(i);
        q.append(&self.fin_state.get_transition_relation());
        q.append(&self.not_p1());
        assert(q@ =~= bad_step_query(self.system(), self.frames(), i as int));
        self.sat_call_state(&q)
    }

    /// The cube in the next copy of the variables, as unit clauses.
    fn next_units(&self, s: &Cube) -> (r: CNF)
        requires
            self.wf(),
            cube_fits(self.system(), s@),
        ensures
            r@ == unit_clauses(bump_literals(s@, self.system().max_var)),
    {
        self.fin_state.check_wf();
        proof {
            assert forall|k: int| 0 <= k < s@.len() implies (#[trigger] s@[k]).var() + self.system().max_var * 1 <= max_variable_number() by {
                assert(s@[k].var() <= self.system().max_var);
            }
        }
        let next = self.fin_state.add_tags_to_cube(s, 1);
        let r = next.to_cnf();
        assert(r@ =~= unit_clauses(bump_literals(s@, self.system().max_var)));
        r
    }

    /// Whether a state of frame `i` outside the cube reaches the cube in one step.
    fn is_fi_and_t_and_not_s_and_s_tag_sat(&self, i: usize, s: &Cube) -> (r: bool)
        requires
            self.wf(),
            i < self.frames().len(),
            cube_fits(self.system(), s@),
        ensures
            r == satisfiable(step_query(self.system(), self.frames(), i as int, s@).union(blocking(s@))),
    {
        let mut q = self.get_fk(i);
        q.append(&self.fin_state.get_transition_relation());
        q.append(&self.next_units(s));
        let negation = s.negate();
        let ghost before = q@;
        q.add_clause(&negation);
        proof {
            assert forall|c: Seq<Literal>| #[trigger] blocking(s@).contains(c) implies c == negation@ by {
                lemma_negation_unique(s@, c, negation@);
            }
            assert(q@ =~= step_query(self.system(), self.frames(), i as int, s@).union(blocking(s@)));
        }
        self.sat_call(&q)
    }

    /// Whether a state of frame `i` reaches the cube in one step; gives such a state.
    fn solve_fi_and_t_and_s_tag(&self, i: usize, s: &Cube) -> (r: Option<Cube>)
        requires
            self.wf(),
            i < self.frames().len(),
            cube_fits(self.system(), s@),
        ensures
            match r {
                None => !satisfiable(step_query(self.system(), self.frames(), i as int, s@)),
                Some(c) => cube_fits(self.system(), c@) && exists|a: Assignment|
                    assignment_satisfies(a, step_query(self.system(), self.frames(), i as int, s@))
                        && same_literals(c@, #[trigger] state_literals_of(self.system(), a)),
            },
    {
        let mut q = self.get_fk(i);
        q.append(&self.fin_state.get_transition_relation());
        q.append(&self.next_units(s));
        assert(q@ =~= step_query(self.system(), self.frames(), i as int, s@));
        self.sat_call_state(&q)
    }

    /// Whether a state of frame `i` reaches the cube in one step.
    fn is_cube_reachable_in_1_step_from_fi(&self, i: usize, cube: &Cube) -> (r: bool)
        requires
            self.wf(),
            i < self.frames().len(),
            cube_fits(self.system(), cube@),
        ensures
            r == satisfiable(step_query(self.system(), self.frames(), i as int, cube@)),
    {
        let mut q = self.get_fk(i);
        q.append(&self.fin_state.get_transition_relation());
        q.append(&self.next_units(cube));
        assert(q@ =~= step_query(self.system(), self.frames(), i as int, cube@));
        self.sat_call(&q)
    }

    /// Whether the clause is inductive relative to frame `i`: its negation meets no initial
    /// state, and no state of `F_i` where it holds steps to a state where it does not.
    fn is_clause_inductive_relative_to_fi(&self, d: &Clause, i: usize) -> (r: bool)
        requires
            self.wf(),
            i < self.frames().len(),
            cube_fits(self.system(), d@),
        ensures
            forall|e: Seq<Literal>| #[trigger] negated_cube(d@, e) ==> r == (!meets_initial(self.system(), e)
                && !satisfiable(ic3_frame(self.system(), self.frames(), i as int).insert(d@).union(self.system().transition)
                    .union(unit_clauses(bump_literals(e, self.system().max_var))))),
    {
        let negation = d.negate();
        proof {
            lemma_negated_fits(self.system(), d@, negation@);
            assert forall|e: Seq<Literal>| #[trigger] negated_cube(d@, e) implies e == negation@ by {
                lemma_sorted_same_unique_negation(d@, e, negation@);
            }
        }
        if self.fin_state.is_cube_initial(&negation) {
            return false;
        }
        let mut q = self.get_fk(i);
        q.add_clause(d);
        q.append(&self.fin_state.get_transition_relation());
        q.append(&self.next_units(&negation));
        assert(q@ =~= ic3_frame(self.system(), self.frames(), i as int).insert(d@).union(self.system().transition)
            .union(unit_clauses(bump_literals(negation@, self.system().max_var))));
        !self.sat_call(&q)
    }

    /// Drops literals of the negation of `s`, in a random order, as long as what is left is
    /// inductive relative to frame `i`.
    fn get_subclause_of_not_s_that_is_inductive_relative_to_fi(&self, s: &Cube, i: usize) -> (r: Clause)
        requires
            self.wf(),
            i < self.frames().len(),
            cube_fits(self.system(), s@),
        ensures
            forall|l: Literal| r@.contains(l) ==> negate_all(s@).contains(l),
            cube_fits(self.system(), r@),
    {
        let c = s.negate();
        proof {
            lemma_negated_fits(self.system(), s@, c@);
            lemma_same_literals_hold(c@, negate_all(s@), |x: nat| true);
        }
        let mut copied: Vec<Literal> = Vec::new();
        let mut n: usize = 0;
        while n < c.len()
            invariant
                n <= c@.len(),
                copied@ == c@.take(n as int),
            decreases c@.len() - n,
        {
            copied.push(c.get(n));
            n = n + 1;
            assert(copied@ =~= c@.take(n as int));
        }
        assert(copied@ =~= c@);
        let mut literals = shuffle_literals(copied);
        proof {
            assert(same_literals(literals@, c@));
            lemma_same_literals_hold(literals@, c@, |x: nat| true);
        }
        let mut j: usize = 0;
        while j < literals.len()
            invariant
                self.wf(),
                i < self.frames().len(),
                j <= literals@.len(),
                forall|l: Literal| literals@.contains(l) ==> negate_all(s@).contains(l),
                forall|l: Literal| literals@.contains(l) ==> c@.contains(l),
                cube_fits(self.system(), c@),
            decreases literals@.len() - j,
        {
            let ghost before = literals@;
            assert(forall|l: Literal| before.contains(l) ==> c@.contains(l) && negate_all(s@).contains(l));
            let removed = literals.remove(j);
            proof {
                assert forall|l: Literal| literals@.contains(l) implies c@.contains(l) && negate_all(s@).contains(l) by {
                    let k = choose|k: int| 0 <= k < literals@.len() && literals@[k] == l;
                    if k < j {
                        assert(before[k] == l);
                    } else {
                        assert(before[k + 1] == l);
                    }
                    assert(before.contains(l));
                }
            }
            let d = Clause::new(literals.as_slice());
            proof {
                lemma_same_literals_hold(d@, literals@, |x: nat| true);
                assert forall|k: int| 0 <= k < d@.len() implies (#[trigger] d@[k]).var() <= self.system().max_var by {
                    assert(d@.contains(d@[k]));
                    assert(c@.contains(d@[k]));
                    let m = choose|m: int| 0 <= m < c@.len() && c@[m] == d@[k];
                }
            }
            if self.is_clause_inductive_relative_to_fi(&d, i) {
                continue;
            }
            literals.insert(j, removed);
            proof {
                assert(literals@ =~= before);
            }
            j = j + 1;
        }
        let r = Clause::new(literals.as_slice());
        proof {
            lemma_same_literals_hold(r@, literals@, |x: nat| true);
            assert forall|k: int| 0 <= k < r@.len() implies (#[trigger] r@[k]).var() <= self.system().max_var by {
                assert(r@.contains(r@[k]));
                assert(c@.contains(r@[k]));
                let m = choose|m: int| 0 <= m < c@.len() && c@[m] == r@[k];
            }
        }
        r
    }

    /// Learns a clause that blocks `s` and adds it to frames 1 up to `i + 1`.
    fn generate_clause(&mut self, s: &Cube, i: usize, _k: usize)
        requires
            old(self).wf(),
            i + 1 < old(self).frames().len(),
            cube_fits(old(self).system(), s@),
        ensures
            final(self).wf(),
            final(self).system() == old(self).system(),
            final(self).is_verbose() == old(self).is_verbose(),
            final(self).frames().len() == old(self).frames().len(),
            frames_grow(old(self).frames(), final(self).frames()),
            forall|j: int| 1 <= j <= i + 1 ==> #[trigger] ic3_blocked(final(self).system(), final(self).frames(), j, s@),
    {
        let c = self.get_subclause_of_not_s_that_is_inductive_relative_to_fi(s, i);
        let mut j: usize = 1;
        while j <= i + 1
            invariant
                1 <= j <= i + 2,
                i + 1 < self.frames().len(),
                self.wf(),
                self.system() == old(self).system(),
                self.is_verbose() == old(self).is_verbose(),
                self.frames().len() == old(self).frames().len(),
                frames_grow(old(self).frames(), self.frames()),
                cube_fits(self.system(), c@),
                forall|jj: int| 1 <= jj < j ==> #[trigger] self.frames()[jj].contains(c@),
            decreases i + 2 - j,
        {
            self.add_clause_to_clauses(j, &c);
            j = j + 1;
        }
        proof {
            assert forall|jj: int| 1 <= jj <= i + 1 implies #[trigger] ic3_blocked(self.system(), self.frames(), jj, s@) by {
                lemma_clause_blocks(self.system(), self.frames(), jj, c@, s@);
            }
        }
    }

    /// Finds the highest frame, from `min + 1` up to `k`, relative to which the negation of `s`
    /// can be made inductive, and learns a clause there; none when `s` is reached in one step
    /// from an initial state (checked when `min` is negative).
    fn inductively_generalize(&mut self, s: &Cube, min: isize, k: usize) -> (r: Option<usize>)
        requires
            old(self).wf(),
            k + 1 < old(self).frames().len(),
            cube_fits(old(self).system(), s@),
            k < isize::MAX,
            min <= k,
        ensures
            final(self).wf(),
            final(self).system() == old(self).system(),
            final(self).is_verbose() == old(self).is_verbose(),
            final(self).frames().len() == old(self).frames().len(),
            frames_grow(old(self).frames(), final(self).frames()),
            match r {
                Some(n) => n <= k && forall|j: int| 1 <= j <= n + 1 ==> #[trigger] ic3_blocked(final(self).system(), final(self).frames(), j, s@),
                None => min < 0 && satisfiable(step_query(old(self).system(), old(self).frames(), 0, s@).union(blocking(s@)))
                    && initial_step_into(old(self).system(), s@),
            },
    {
        if min < 0 && self.is_fi_and_t_and_not_s_and_s_tag_sat(0, s) {
            proof {
                let v = self.system();
                let small = v.initial.union(v.transition).union(unit_clauses(bump_literals(s@, v.max_var)));
                let big = step_query(v, self.frames(), 0, s@).union(blocking(s@));
                assert(small.subset_of(big));
                lemma_sat_subset(small, big);
            }
            return None;
        }
        let start: usize = if min + 1 > 1 { (min + 1) as usize } else { 1 };
        let mut i: usize = start;
        while i <= k
            invariant
                1 <= i <= k + 1,
                k + 1 < self.frames().len(),
                self.wf(),
                self.system() == old(self).system(),
                self.is_verbose() == old(self).is_verbose(),
                self.frames().len() == old(self).frames().len(),
                frames_grow(old(self).frames(), self.frames()),
                cube_fits(self.system(), s@),
            decreases k + 1 - i,
        {
            if self.is_fi_and_t_and_not_s_and_s_tag_sat(i, s) {
                self.generate_clause(s, i - 1, k);
                return Some(i - 1);
            }
            i = i + 1;
        }
        self.generate_clause(s, k, k);
        Some(k)
    }

    /// Blocks `s0` from frame `n0` on, and every predecessor found on the way, up to frame
    /// `k`: true when all are blocked (then no frame from 1 to `k` holds a state of `s0`), false
    /// when a predecessor that an initial state steps into is found (then a chain of cubes leads
    /// from it to `s0`), none when the budget of rounds runs out first.
    fn push_generalization(&mut self, s0: Cube, n0: usize, k: usize, budget: &mut u64) -> (r: Option<bool>)
        requires
            old(self).wf(),
            k + 1 < old(self).frames().len(),
            1 <= n0 <= k + 1,
            k < isize::MAX,
            cube_fits(old(self).system(), s0@),
            forall|j: int| 1 <= j < n0 ==> #[trigger] ic3_blocked(old(self).system(), old(self).frames(), j, s0@),
        ensures
            final(self).wf(),
            final(self).system() == old(self).system(),
            final(self).is_verbose() == old(self).is_verbose(),
            final(self).frames().len() == old(self).frames().len(),
            frames_grow(old(self).frames(), final(self).frames()),
            *final(budget) <= *old(budget),
            r == Some(true) ==> forall|j: int| 1 <= j <= k ==> #[trigger] ic3_blocked(final(self).system(), final(self).frames(), j, s0@),
            r == Some(false) ==> reaches_after_step(old(self).system(), s0@),
            r is None ==> *final(budget) == 0,
    {
        self.fin_state.check_wf();
        let ghost target = s0@;
        let ghost mut chains: Seq<Seq<Seq<Literal>>> = seq![seq![target]];
        let ghost mut wit: (usize, usize) = (n0, 0);
        let mut store: Vec<Cube> = Vec::new();
        store.push(s0.clone());
        let mut q = obligations_new();
        obligations_push(&mut q, (n0, 0), usize::MAX - n0);
        loop
            invariant
                target == s0@,
                self.wf(),
                k + 1 < self.frames().len(),
                k < isize::MAX,
                self.system() == old(self).system(),
                self.is_verbose() == old(self).is_verbose(),
                self.frames().len() == old(self).frames().len(),
                frames_grow(old(self).frames(), self.frames()),
                *budget <= *old(budget),
                forall|j: int| 0 <= j < self.system().state_vars.len() ==> #[trigger] self.system().state_vars[j] <= max_variable_number(),
                forall|m: int| 0 <= m < store@.len() ==> cube_fits(self.system(), #[trigger] store@[m]@),
                forall|item: (usize, usize)| #[trigger] obligations(q).contains_key(item) ==> 1 <= item.0 <= k + 1 && item.1 < store@.len()
                    && obligations(q)[item] == usize::MAX - item.0,
                obligations(q).contains_key(wit),
                store@[wit.1 as int]@ == target,
                forall|j: int| 1 <= j < wit.0 ==> #[trigger] ic3_blocked(self.system(), self.frames(), j, target),
                chains.len() == store@.len(),
                forall|m: int| 0 <= m < chains.len() ==> (#[trigger] chains[m]).len() >= 1 && chains[m][0] == store@[m]@
                    && chains[m].last() == target && cube_chain(self.system(), chains[m]),
            decreases *budget,
        {
            if *budget == 0 {
                return None;
            }
            *budget = *budget - 1;
            let ghost q_before = obligations(q);
            let ghost frames_before = self.frames();
            let (n, id) = match obligations_pop(&mut q) {
                None => {
                    proof {
                        assert(Map::<(usize, usize), usize>::empty().contains_key(wit));
                    }
                    return Some(true);
                },
                Some((item, _)) => item,
            };
            let ghost was_witness = (n, id) == wit;
            proof {
                if !was_witness {
                    assert(q_before[wit] <= q_before[(n, id)]);
                    assert(n <= wit.0);
                    assert(obligations(q).contains_key(wit));
                }
            }
            if n > k {
                return Some(true);
            }
            let s = store[id].clone();
            match self.solve_fi_and_t_and_s_tag(n, &s) {
                Some(p) => {
                    proof {
                        let v = self.system();
                        let a = choose|a: Assignment| assignment_satisfies(a, step_query(v, self.frames(), n as int, s@))
                            && same_literals(p@, #[trigger] state_literals_of(v, a));
                        lemma_state_step(v, step_query(v, self.frames(), n as int, s@), p@, s@, a);
                    }
                    let ig = self.inductively_generalize(&p, n as isize - 2, k);
                    let ghost p_chain = seq![p@] + chains[id as int];
                    proof {
                        let old_chain = chains[id as int];
                        assert forall|m: int| 0 <= m < p_chain.len() - 1 implies cube_step(self.system(), #[trigger] p_chain[m], p_chain[m + 1]) by {
                            if m > 0 {
                                assert(p_chain[m] == old_chain[m - 1]);
                                assert(p_chain[m + 1] == old_chain[m]);
                            }
                        }
                        assert(p_chain.last() == old_chain.last());
                    }
                    match ig {
                        None => {
                            proof {
                                assert(p_chain.last() == s0@);
                                assert(p_chain[0] == p@);
                                assert(reaches_after_step(old(self).system(), s0@));
                            }
                            return Some(false);
                        },
                        Some(m) => {
                            let s_id = store.len();
                            store.push(s);
                            obligations_push(&mut q, (n, s_id), usize::MAX - n);
                            let p_id = store.len();
                            store.push(p);
                            obligations_push(&mut q, (m + 1, p_id), usize::MAX - (m + 1));
                            proof {
                                chains = chains.push(chains[id as int]).push(p_chain);
                                if was_witness {
                                    wit = (n, s_id);
                                }
                                assert forall|j: int| 1 <= j < wit.0 implies #[trigger] ic3_blocked(self.system(), self.frames(), j, target) by {
                                    lemma_blocked_grows(self.system(), frames_before, self.frames(), j, target);
                                }
                            }
                        },
                    }
                },
                None => {
                    match self.inductively_generalize(&s, n as isize, k) {
                        None => {
                            return Some(false);
                        },
                        Some(m) => {
                            let s_id = store.len();
                            store.push(s);
                            obligations_push(&mut q, (m + 1, s_id), usize::MAX - (m + 1));
                            proof {
                                chains = chains.push(chains[id as int]);
                                if was_witness {
                                    wit = ((m + 1) as usize, s_id);
                                } else {
                                    assert forall|j: int| 1 <= j < wit.0 implies #[trigger] ic3_blocked(self.system(), self.frames(), j, target) by {
                                        lemma_blocked_grows(self.system(), frames_before, self.frames(), j, target);
                                    }
                                }
                            }
                        },
                    }
                },
            }
        }
    }

    /// Blocks every state of frame `k` that reaches an unsafe state in one step: true when
    /// all are blocked, false when a counterexample is found, none when the budget runs out.
    fn strengthen(&mut self, k: usize, budget: &mut u64) -> (r: Option<bool>)
        requires
            old(self).wf(),
            1 <= k,
            k + 1 < old(self).frames().len(),
            k < isize::MAX,
        ensures
            final(self).wf(),
            final(self).system() == old(self).system(),
            final(self).is_verbose() == old(self).is_verbose(),
            final(self).frames().len() == old(self).frames().len(),
            frames_grow(old(self).frames(), final(self).frames()),
            *final(budget) <= *old(budget),
            r == Some(true) ==> !satisfiable(bad_step_query(final(self).system(), final(self).frames(), k as int)),
            r == Some(false) ==> exists|c: Seq<Literal>| #[trigger] bad_step(old(self).system(), c) && reaches_after_step(old(self).system(), c),
            r is None ==> *final(budget) == 0,
    {
        self.fin_state.check_wf();
        loop
            invariant
                forall|j: int| 0 <= j < self.system().state_vars.len() ==> #[trigger] self.system().state_vars[j] <= max_variable_number(),
                self.wf(),
                1 <= k,
                k + 1 < self.frames().len(),
                k < isize::MAX,
                self.system() == old(self).system(),
                self.is_verbose() == old(self).is_verbose(),
                self.frames().len() == old(self).frames().len(),
                frames_grow(old(self).frames(), self.frames()),
                *budget <= *old(budget),
            decreases *budget,
        {
            if *budget == 0 {
                return None;
            }
            *budget = *budget - 1;
            match self.is_bad_reachable_in_1_step_from_fi(k) {
                None => {
                    return Some(true);
                },
                Some(s) => {
                    proof {
                        let v = self.system();
                        let q = bad_step_query(v, self.frames(), k as int);
                        let a = choose|a: Assignment| assignment_satisfies(a, q)
                            && same_literals(s@, #[trigger] state_literals_of(v, a));
                        lemma_state_bad_step(v, q, s@, a);
                    }
                    match self.inductively_generalize(&s, k as isize - 2, k) {
                        None => {
                            proof {
                                let chain = seq![s@];
                                assert(chain.last() == s@);
                                assert(cube_chain(self.system(), chain));
                                assert(reaches_after_step(old(self).system(), s@));
                            }
                            return Some(false);
                        },
                        Some(n) => {
                            let ghost sv = s@;
                            match self.push_generalization(s, n + 1, k, budget) {
                                None => {
                                    return None;
                                },
                                Some(false) => {
                                    assert(bad_step(old(self).system(), sv));
                                    return Some(false);
                                },
                                Some(true) => {},
                            }
                        },
                    }
                },
            }
        }
    }

    /// Copies each clause of frames 1 up to `k` to the next frame when the next frame keeps it
    /// too: no state of the frame steps to a state where it does not hold.
    fn propagate_clauses(&mut self, k: usize)
        requires
            old(self).wf(),
            k + 1 < old(self).frames().len(),
        ensures
            final(self).wf(),
            final(self).system() == old(self).system(),
            final(self).is_verbose() == old(self).is_verbose(),
            final(self).frames().len() == old(self).frames().len(),
            frames_grow(old(self).frames(), final(self).frames()),
    {
        let mut i: usize = 1;
        while i <= k
            invariant
                1 <= i <= k + 1,
                k + 1 < self.frames().len(),
                self.wf(),
                self.system() == old(self).system(),
                self.is_verbose() == old(self).is_verbose(),
                self.frames().len() == old(self).frames().len(),
                frames_grow(old(self).frames(), self.frames()),
            decreases k + 1 - i,
        {
            let snapshot = self.clauses[i].clone();
            snapshot.check_wf();
            let ghost fi = self.frames()[i as int];
            assert(snapshot@ == fi);
            let mut idx: usize = 0;
            while idx < snapshot.list_len()
                invariant
                    1 <= i <= k,
                    k + 1 < self.frames().len(),
                    self.wf(),
                    self.system() == old(self).system(),
                    self.is_verbose() == old(self).is_verbose(),
                    self.frames().len() == old(self).frames().len(),
                    frames_grow(old(self).frames(), self.frames()),
                    forall|c: Seq<Literal>| #[trigger] snapshot@.contains(c) ==> cube_fits(self.system(), c),
                    forall|c: Seq<Literal>| #[trigger] snapshot@.contains(c) <==> exists|j: int|
                        0 <= j < snapshot.clause_list().len() && (#[trigger] snapshot.clause_list()[j]).view() == c,
                decreases snapshot.clause_list().len() - idx,
            {
                let c = snapshot.get(idx);
                assert(snapshot@.contains(c@));
                let negation = c.negate();
                proof {
                    lemma_negated_fits(self.system(), c@, negation@);
                }
                if !self.is_cube_reachable_in_1_step_from_fi(i, &negation) {
                    self.add_clause_to_clauses(i + 1, c);
                }
                idx = idx + 1;
            }
            i = i + 1;
        }
    }

    /// The counterexample that strengthening found at frame `k >= 1`, checked as
    /// `confirm_counterexample` does.
    fn counterexample_from(&self, k: usize, budget: &mut u64) -> (r: Option<IC3V2Result>)
        requires
            1 <= k,
        ensures
            *final(budget) <= *old(budget),
            match r {
                Some(IC3V2Result::Proof { .. }) => false,
                Some(IC3V2Result::CTX { depth: d }) => satisfiable(bmc_formula(self.system(), d as nat))
                    && no_ctx_between(self.system(), k as int, d as int) && k <= d,
                None => *final(budget) == 0 || ctx_search_stuck(self.system(), k as int),
            },
    {
        match confirm_counterexample::<T>(&self.fin_state, k, budget) {
            Some(d) => Some(IC3V2Result::CTX { depth: d }),
            None => None,
        }
    }

    /// The search, taking one round of the budget for each frame and each blocking step: checks
    /// the initial states and one step, then for each `k` blocks the states of frame `k` that
    /// reach an unsafe state, pushes learnt clauses forward, and stops when two frames hold the
    /// same number of clauses.
    fn search(&mut self, budget: &mut u64) -> (r: Option<IC3V2Result>)
        requires
            old(self).wf(),
        ensures
            final(self).system() == old(self).system(),
            *final(budget) <= *old(budget),
            match r {
                Some(IC3V2Result::Proof { invariant }) => invariant_verdict(old(self).system(), invariant@) == Ok::<(), InvariantError>(())
                    && is_equal_frame(final(self).system(), final(self).frames(), invariant@),
                Some(IC3V2Result::CTX { depth }) => first_ctx_from_some_depth(old(self).system(), depth as int),
                None => *final(budget) == 0 || final(self).frames().len() + 2 >= isize::MAX || exists|found: int| #[trigger] ctx_search_stuck(old(self).system(), found),
            },
            (r matches Some(IC3V2Result::CTX { depth }) && depth == 0) <==> satisfiable(
                old(self).system().initial.union(bad_formula(old(self).system())),
            ),
            (r matches Some(IC3V2Result::CTX { depth }) && depth == 1) <==> (!satisfiable(
                old(self).system().initial.union(bad_formula(old(self).system())),
            ) && satisfiable(bmc_formula(old(self).system(), 1))),
    {
        self.fin_state.check_wf();
        let transition = self.fin_state.get_transition_relation();
        transition.check_wf();
        let mut bad = self.fin_state.get_unsafety_property();
        bad.append(&self.fin_state.get_state_to_safety_translation());
        bad.check_wf();
        proof {
            assert(bad@ =~= bad_formula(self.system()));
            lemma_bmc_first_depths(self.system());
        }
        self.clauses = Vec::new();
        assert(self.frames() =~= Seq::<Set<Seq<Literal>>>::empty());
        if self.is_bad_reached_in_0_steps() {
            proof {
                assert(no_ctx_between(old(self).system(), 0, 0));
            }
            return Some(IC3V2Result::CTX { depth: 0 });
        }
        self.push_extra_frame_to_clauses();
        self.push_extra_frame_to_clauses();
        let one_step = self.is_bad_reachable_in_1_step_from_fi(0);
        proof {
            assert(self.frames()[0] =~= Set::<Seq<Literal>>::empty());
            assert(bad_step_query(self.system(), self.frames(), 0) =~= bmc_formula(self.system(), 1));
        }
        if one_step.is_some() {
            proof {
                assert(no_ctx_between(old(self).system(), 1, 1));
                let q = bad_step_query(self.system(), self.frames(), 0);
                let c = one_step.unwrap();
                let a = choose|a: Assignment| assignment_satisfies(a, q) && same_literals(c@, #[trigger] state_literals_of(self.system(), a));
                lemma_assignment_satisfies(a, q);
                assert(satisfiable(bmc_formula(old(self).system(), 1)));
                assert(!satisfiable(old(self).system().initial.union(bad_formula(old(self).system()))));
            }
            return Some(IC3V2Result::CTX { depth: 1 });
        }
        let mut k: usize = 1;
        while *budget > 0
            invariant
                self.wf(),
                1 <= k,
                self.frames().len() == k + 1,
                self.system() == old(self).system(),
                self.system().max_var < max_variable_number(),
                *budget <= *old(budget),
                !satisfiable(old(self).system().initial.union(bad_formula(old(self).system()))),
                !satisfiable(bmc_formula(old(self).system(), 1)),
            decreases *budget,
        {
            *budget = *budget - 1;
            if k >= (isize::MAX as usize) - 2 {
                return None;
            }
            self.push_extra_frame_to_clauses();
            match self.strengthen(k, budget) {
                None => {
                    return None;
                },
                Some(false) => {
                    return self.counterexample_from(k, budget);
                },
                Some(true) => {},
            }
            self.propagate_clauses(k);
            let mut i: usize = 1;
            while i <= k
                invariant
                    self.wf(),
                    1 <= i <= k + 1,
                    self.frames().len() == k + 2,
                    self.system() == old(self).system(),
                    self.system().max_var < max_variable_number(),
                    !satisfiable(old(self).system().initial.union(bad_formula(old(self).system()))),
                    !satisfiable(bmc_formula(old(self).system(), 1)),
                    *budget <= *old(budget),
                decreases k + 1 - i,
            {
                if self.clauses[i].len() == self.clauses[i + 1].len() {
                    let candidate = self.get_fk(i);
                    proof {
                        lemma_frame_fits(self.system(), self.frames(), i as int);
                        assert(self.frames()[i as int] == self.clauses@[i as int]@);
                        assert(self.frames()[i + 1] == self.clauses@[i + 1]@);
                    }
                    if self.fin_state.check_invariant::<T>(&candidate).is_ok() {
                        return Some(IC3V2Result::Proof { invariant: candidate });
                    }
                }
                i = i + 1;
            }
            k = k + 1;
        }
        None
    }

    /// Runs the search (see `search`) with the given budget of rounds, and adds the rounds it
    /// took to the count of rounds. Depth 0 is reported exactly when an initial state is unsafe,
    /// depth 1 exactly when none is but one step reaches an unsafe state; a larger depth is the
    /// first from the frame where blocking failed whose bounded model checking formula is
    /// satisfiable. An invariant is given only after `check_invariant` accepted it, and it is
    /// the formula of a frame with as many clauses as the next. None only when the budget ran
    /// out, the frames ran out of `isize`, or that first depth cannot be asked for.
    pub fn prove_with_budget(&mut self, budget: &mut u64) -> (r: Option<IC3V2Result>)
        requires
            old(self).wf(),
        ensures
            final(self).system() == old(self).system(),
            *final(budget) <= *old(budget),
            final(self).rounds_taken() == count_after_many(old(self).rounds_taken(), (*old(budget) - *final(budget)) as u64),
            match r {
                Some(IC3V2Result::Proof { invariant }) => invariant_verdict(old(self).system(), invariant@) == Ok::<(), InvariantError>(())
                    && is_equal_frame(final(self).system(), final(self).frames(), invariant@),
                Some(IC3V2Result::CTX { depth }) => first_ctx_from_some_depth(old(self).system(), depth as int),
                None => *final(budget) == 0 || final(self).frames().len() + 2 >= isize::MAX || exists|found: int| #[trigger] ctx_search_stuck(old(self).system(), found),
            },
            (r matches Some(IC3V2Result::CTX { depth }) && depth == 0) <==> satisfiable(
                old(self).system().initial.union(bad_formula(old(self).system())),
            ),
            (r matches Some(IC3V2Result::CTX { depth }) && depth == 1) <==> (!satisfiable(
                old(self).system().initial.union(bad_formula(old(self).system())),
            ) && satisfiable(bmc_formula(old(self).system(), 1))),
    {
        let start = *budget;
        let before = self.rounds;
        let r = self.search(budget);
        let ghost searched = self.frames();
        let ghost system = self.system();
        let used = start - *budget;
        self.rounds = if before <= 0xffff_ffff_ffff_ffff - used {
            before + used
        } else {
            0xffff_ffff_ffff_ffff
        };
        assert(self.frames() == searched);
        assert(self.system() == system);
        r
    }

    /// Runs the search with a budget of `u64::MAX` rounds (see `prove_with_budget`).
    pub fn prove(&mut self) -> (r: Option<IC3V2Result>)
        requires
            old(self).wf(),
        ensures
            final(self).system() == old(self).system(),
            match r {
                Some(IC3V2Result::Proof { invariant }) => invariant_verdict(old(self).system(), invariant@) == Ok::<(), InvariantError>(())
                    && is_equal_frame(final(self).system(), final(self).frames(), invariant@),
                Some(IC3V2Result::CTX { depth }) => first_ctx_from_some_depth(old(self).system(), depth as int),
                None => final(self).rounds_taken() == u64::MAX || final(self).frames().len() + 2 >= isize::MAX || exists|found: int| #[trigger] ctx_search_stuck(old(self).system(), found),
            },
            (r matches Some(IC3V2Result::CTX { depth }) && depth == 0) <==> satisfiable(
                old(self).system().initial.union(bad_formula(old(self).system())),
            ),
            (r matches Some(IC3V2Result::CTX { depth }) && depth == 1) <==> (!satisfiable(
                old(self).system().initial.union(bad_formula(old(self).system())),
            ) && satisfiable(bmc_formula(old(self).system(), 1))),
    {
        let mut budget: u64 = 0xffff_ffff_ffff_ffff;
        self.prove_with_budget(&mut budget)
    }
}

/// The bounded model checking formulas of depths 0 and 1: the initial states and an unsafe
/// state; the initial states, a step and an unsafe next state.
proof fn lemma_bmc_first_depths(v: FstsView)
    requires
        forall|c: Seq<Literal>| #[trigger] bad_formula(v).contains(c) ==> all_valid(c),
        forall|c: Seq<Literal>| #[trigger] v.transition.contains(c) ==> all_valid(c),
    ensures
        bmc_formula(v, 0) == v.initial.union(bad_formula(v)),
        bmc_formula(v, 1) == v.initial.union(v.transition).union(bump_cnf(bad_formula(v), v.max_var)),
{
    reveal_with_fuel(unrolled_transitions, 2);
    assert(v.max_var * 0 == 0);
    assert(v.max_var * ((1 - 1) as nat) == 0);
    assert(not_p0(v) =~= bad_formula(v));
    lemma_bump_zero(bad_formula(v));
    lemma_bump_zero(v.transition);
    assert(unrolled_transitions(v, 0) =~= Set::<Seq<Literal>>::empty());
    assert(unrolled_transitions(v, 1) =~= v.transition);
    assert(bmc_formula(v, 0) =~= v.initial.union(bad_formula(v)));
    assert(v.max_var * 1 == v.max_var);
    assert(bmc_formula(v, 1) =~= v.initial.union(v.transition).union(bump_cnf(bad_formula(v), v.max_var)));
}

/// The frames after the first stay literals when moved to the next copy of the variables.
proof fn lemma_frame_fits(v: FstsView, cv: Seq<Set<Seq<Literal>>>, k: int)
    requires
        1 <= k < cv.len(),
        ic3_fits(v),
        forall|c: Seq<Literal>| #[trigger] cv[k].contains(c) ==> cube_fits(v, c),
    ensures
        cnf_bump_fits(ic3_frame(v, cv, k), v.max_var),
{
    broadcast use Literal::lemma_negate;

    assert forall|c: Seq<Literal>| #[trigger] ic3_frame(v, cv, k).contains(c) implies bump_fits(c, v.max_var) by {
        if cv[k].contains(c) {
            assert(cube_fits(v, c));
        } else if v.translation.contains(c) {
        } else {
            assert(safety_clauses(v).contains(c));
            let i = choose|i: int| 0 <= i < v.unsafety.len() && c == seq![not(v.unsafety[i])];
            assert(c[0] == not(v.unsafety[i]));
            assert(v.unsafety[i].var() + v.max_var <= max_variable_number());
        }
    }
}

/// Two sorted cubes of the negated literals of one clause are the same.
proof fn lemma_sorted_same_unique_negation(d: Seq<Literal>, e1: Seq<Literal>, e2: Seq<Literal>)
    requires
        negated_cube(d, e1),
        sorted_by_code(e2),
        same_literals(e2, negate_all(d)),
    ensures
        e1 == e2,
{
    crate::formulas::semantics::lemma_sorted_same_unique(e1, e2);
}

} // verus!
