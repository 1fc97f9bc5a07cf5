//! Property directed reachability (PDR), after Een, Mishchenko and Brayton, "Efficient
//! implementation of property directed reachability" (FMCAD 2011).
//!
//! The frames `F_1 .. F_N, F_inf` hold blocked cubes; the frame formula `R_i` (for `i >= 1`) is
//! the conjunction of the negations of the cubes of `F_i` and every later frame, and `R_0` is
//! the initial states. Each SAT query of the algorithm is stated over these formulas. The
//! answer of `prove` is checked before it is given: an invariant by `check_invariant`, a
//! counterexample by the bounded model checking formula of its depth.

use crate::algorithms::bmc::{bmc_formula, unrolling_fits, BMC};
use crate::formulas::literal::{max_variable_number, Literal, VariableType};
use crate::formulas::semantics::{
    lemma_sorted_same_unique, negate_all, same_literals, satisfiable, sorted_by_code, unit_clauses,
};
use crate::formulas::{Cube, CNF};
use crate::models::finite_state_transition_system::features::{
    bad_formula, bump_literals, cnf_bump_fits, invariant_verdict, state_literals_of, InvariantError,
};
use crate::models::finite_state_transition_system::{FiniteStateTransitionSystem, FstsView};
use crate::formulas::semantics::{
    clause_holds, cnf_holds, lemma_negate_all, lemma_same_literals_hold, literal_holds, Valuation,
};
use crate::solvers::sat::assignment::{assignment_satisfies, assignment_valuation, lemma_assignment_satisfies, Assignment};
use crate::models::finite_state_transition_system::features::law_extracted_state_holds;
use crate::solvers::sat::{SatResponse, StatelessSatSolver};
use rand::seq::SliceRandom;
use vstd::prelude::*;

verus! {

/// What the search found.
pub enum PDRResult {
    /// The system is safe: the invariant covers the initial states, is kept by every step and
    /// holds in no unsafe state.
    Proof { invariant: CNF },
    /// An unsafe state is reached from an initial state in `depth` steps.
    CTX { depth: VariableType },
}

/// The frame of a cube: none, the last frame (blocked for good), or frame `i` (`At(i)`).
#[derive(Clone, Copy, PartialEq, Eq, Structural)]
pub enum Frame {
    Null,
    Inf,
    At(usize),
}

/// A cube together with its frame.
pub struct TCube {
    pub cube: Cube,
    pub frame: Frame,
}

/// Which query `z_solve_relative` asks, and what it returns when the query is satisfiable.
#[derive(Clone, Copy, PartialEq, Eq, Structural)]
pub enum SolveRelativeParam {
    /// Whether the cube is inductive relative to the frame; no predecessor is returned.
    DoNotExtractModel,
    /// The same query; a predecessor state is returned when there is one.
    ExtractModel,
    /// Whether the frame reaches the cube in one step, without assuming that the cube does not
    /// hold before the step.
    NoInd,
}

/// The literal views of a list of cubes.
pub open spec fn cube_views(cubes: Seq<Cube>) -> Seq<Seq<Literal>> {
    cubes.map_values(|c: Cube| c@)
}

/// The literal views of the frames.
pub open spec fn frames_view(f: Seq<Vec<Cube>>) -> Seq<Seq<Seq<Literal>>> {
    f.map_values(|v: Vec<Cube>| cube_views(v@))
}

/// `clause` is the negation of `cube`: its negated literals, sorted.
pub open spec fn negation_of(cube: Seq<Literal>, clause: Seq<Literal>) -> bool {
    sorted_by_code(clause) && same_literals(clause, negate_all(cube))
}

/// The clause that blocks a cube, as a one-clause formula.
pub open spec fn blocking(cube: Seq<Literal>) -> Set<Seq<Literal>> {
    Set::new(|c: Seq<Literal>| negation_of(cube, c))
}

/// The clauses that block the cubes of frame `i` and every later frame.
pub open spec fn blocking_clauses(fv: Seq<Seq<Seq<Literal>>>, i: int) -> Set<Seq<Literal>> {
    Set::new(|c: Seq<Literal>| exists|d: int, j: int| i <= d < fv.len() && 0 <= j < fv[d].len() && #[trigger] negation_of(fv[d][j], c))
}

/// The frame formula `R_i`: the initial states for `i == 0`, else the clauses that block the
/// cubes of frame `i` and every later frame.
pub open spec fn frame_formula(v: FstsView, fv: Seq<Seq<Seq<Literal>>>, i: int) -> Set<Seq<Literal>> {
    if i == 0 {
        v.initial
    } else {
        blocking_clauses(fv, i)
    }
}

/// The query for a bad state in the last frame: `R_N` and an unsafe state.
pub open spec fn bad_query(v: FstsView, fv: Seq<Seq<Seq<Literal>>>) -> Set<Seq<Literal>> {
    frame_formula(v, fv, fv.len() - 2).union(bad_formula(v))
}

/// The query whether a frame holds a state of a cube: `R_i` and the cube.
pub open spec fn blocked_query(v: FstsView, fv: Seq<Seq<Seq<Literal>>>, i: int, cube: Seq<Literal>) -> Set<Seq<Literal>> {
    frame_formula(v, fv, i).union(unit_clauses(cube))
}

/// The query of `z_solve_relative` for a cube in frame `i`: `R_{i-1}`, a step, the cube in the
/// next state, and (unless `ind` is false) the cube's negation in the state before.
pub open spec fn relative_query(v: FstsView, fv: Seq<Seq<Seq<Literal>>>, i: int, cube: Seq<Literal>, ind: bool) -> Set<Seq<Literal>> {
    let base = frame_formula(v, fv, i - 1).union(v.transition).union(unit_clauses(bump_literals(cube, v.max_var)));
    if ind {
        base.union(blocking(cube))
    } else {
        base
    }
}

/// Every literal of the cube names a state variable number of the system at most.
pub open spec fn cube_fits(v: FstsView, c: Seq<Literal>) -> bool {
    forall|i: int| 0 <= i < c.len() ==> (#[trigger] c[i]).var() <= v.max_var
}

/// The room that the search needs: a second copy of the variables, and the wires of the
/// properties in it.
pub open spec fn pdr_fits(v: FstsView) -> bool {
    &&& 2 * v.max_var <= max_variable_number()
    &&& cnf_bump_fits(v.translation, v.max_var)
}

/// Two negations of one cube are the same clause.
pub proof fn lemma_negation_unique(cube: Seq<Literal>, c1: Seq<Literal>, c2: Seq<Literal>)
    requires
        negation_of(cube, c1),
        negation_of(cube, c2),
    ensures
        c1 == c2,
{
    lemma_sorted_same_unique(c1, c2);
}

/// A cube with the literals of a state read from an assignment names state variables only.
pub proof fn lemma_state_cube_fits(v: FstsView, a: Assignment, c: Seq<Literal>)
    requires
        same_literals(c, state_literals_of(v, a)),
        forall|j: int| 0 <= j < v.state_vars.len() ==> 1 <= #[trigger] v.state_vars[j] <= v.max_var,
        v.max_var < max_variable_number(),
    ensures
        cube_fits(v, c),
{
    broadcast use Literal::lemma_make;

    let s = state_literals_of(v, a);
    lemma_same_literals_hold(c, s, |x: nat| true);
    assert forall|i: int| 0 <= i < c.len() implies (#[trigger] c[i]).var() <= v.max_var by {
        assert(c.contains(c[i]));
        assert(s.contains(c[i]));
        let j = choose|j: int| 0 <= j < s.len() && s[j] == c[i];
        assert(s[j] == Literal::spec_make(v.state_vars[j] as nat, a.value(v.state_vars[j]) != Some(true)));
    }
}

/// Every literal of `c1` is a literal of `c2`: the cube `c2` implies the cube `c1`.
pub open spec fn subsumed_by(c1: Seq<Literal>, c2: Seq<Literal>) -> bool {
    forall|l: Literal| c1.contains(l) ==> c2.contains(l)
}

/// `new` holds exactly the cubes of `old` that `cube` does not subsume, and is shorter when
/// `cube` subsumes one of them.
pub open spec fn filtered_frame(old: Seq<Seq<Literal>>, new: Seq<Seq<Literal>>, cube: Seq<Literal>) -> bool {
    &&& forall|x: Seq<Literal>| new.contains(x) <==> (old.contains(x) && !subsumed_by(cube, x))
    &&& new.len() <= old.len()
    &&& (exists|j: int| 0 <= j < old.len() && #[trigger] subsumed_by(cube, old[j])) ==> new.len() < old.len()
}

/// When a cube of frame `d >= i` is subsumed by `cube`, `R_i` holds in no state of `cube`.
pub proof fn lemma_subsumed_blocked(v: FstsView, fv: Seq<Seq<Seq<Literal>>>, i: int, d: int, j: int, cube: Seq<Literal>, neg: Seq<Literal>)
    requires
        1 <= i <= d < fv.len(),
        0 <= j < fv[d].len(),
        subsumed_by(fv[d][j], cube),
        negation_of(fv[d][j], neg),
    ensures
        !satisfiable(blocked_query(v, fv, i, cube)),
{
    let q = blocked_query(v, fv, i, cube);
    if satisfiable(q) {
        let a = choose|a: Valuation| cnf_holds(q, a);
        assert(blocking_clauses(fv, i).contains(neg));
        assert(q.contains(neg));
        assert(clause_holds(neg, a));
        lemma_same_literals_hold(neg, negate_all(fv[d][j]), a);
        lemma_negate_all(fv[d][j], a);
        let k = choose|k: int| 0 <= k < fv[d][j].len() && !literal_holds(#[trigger] fv[d][j][k], a);
        assert(fv[d][j].contains(fv[d][j][k]));
        assert(cube.contains(fv[d][j][k]));
        let m = choose|m: int| 0 <= m < cube.len() && cube[m] == fv[d][j][k];
        assert(unit_clauses(cube).contains(seq![cube[m]]));
        assert(q.contains(seq![cube[m]]));
        assert(clause_holds(seq![cube[m]], a));
        assert(seq![cube[m]][0] == cube[m]);
    }
}

/// Calls `rand::seq::SliceRandom::shuffle` with the thread's random number generator
/// (`rand::rng`): the literals come back in an order that depends on chance, each as often as
/// it was given.
#[verifier::external_body]
pub(crate) fn shuffle_literals(literals: Vec<Literal>) -> (r: Vec<Literal>)
    ensures
        r@.to_multiset() == literals@.to_multiset(),
{
    let mut literals = literals;
    literals.shuffle(&mut rand::rng());
    literals
}

/// The proof obligations of a blocking round, held where Verus does not look: items are
/// pairs (frame, number of the obligation's cube), each with a priority.
#[verifier::external_body]
pub struct ObligationQueue {
    queue: priority_queue::PriorityQueue<(usize, usize), usize>,
}

/// The items of the queue, each with its priority.
pub uninterp spec fn obligations(q: ObligationQueue) -> Map<(usize, usize), usize>;

/// Calls `priority_queue::PriorityQueue::new`: a queue with no items.
#[verifier::external_body]
pub(crate) fn obligations_new() -> (r: ObligationQueue)
    ensures
        obligations(r) =~= Map::empty(),
{
    ObligationQueue { queue: priority_queue::PriorityQueue::new() }
}

/// Calls `priority_queue::PriorityQueue::push` with an item that the queue does not hold: the
/// item is added with its priority.
#[verifier::external_body]
pub(crate) fn obligations_push(q: &mut ObligationQueue, item: (usize, usize), priority: usize)
    requires
        !obligations(*old(q)).contains_key(item),
    ensures
        obligations(*final(q)) == obligations(*old(q)).insert(item, priority),
{
    q.queue.push(item, priority);
}

/// Calls `priority_queue::PriorityQueue::pop`: none when the queue is empty; else an item of
/// the greatest priority (which one, among equals, the crate leaves open), with its priority,
/// removed from the queue.
#[verifier::external_body]
pub(crate) fn obligations_pop(q: &mut ObligationQueue) -> (r: Option<((usize, usize), usize)>)
    ensures
        match r {
            None => obligations(*old(q)) =~= Map::empty() && obligations(*final(q)) == obligations(*old(q)),
            Some((item, priority)) => {
                &&& obligations(*old(q)).contains_key(item)
                &&& obligations(*old(q))[item] == priority
                &&& forall|other: (usize, usize)| #[trigger] obligations(*old(q)).contains_key(other) ==> obligations(*old(q))[other] <= priority
                &&& obligations(*final(q)) == obligations(*old(q)).remove(item)
            },
        },
{
    q.queue.pop()
}

/// A sequence with an element pushed holds exactly the old elements and the new one.
proof fn lemma_push_contains<A>(s: Seq<A>, y: A, x: A)
    ensures
        s.push(y).contains(x) <==> (s.contains(x) || x == y),
{
    if s.push(y).contains(x) {
        let i = choose|i: int| 0 <= i < s.push(y).len() && s.push(y)[i] == x;
        if i < s.len() {
            assert(s[i] == x);
        }
    }
    if s.contains(x) {
        let i = choose|i: int| 0 <= i < s.len() && s[i] == x;
        assert(s.push(y)[i] == x);
    }
    if x == y {
        assert(s.push(y)[s.len() as int] == x);
    }
}

/// The clauses that block cubes over the state variables stay literals when moved to the next
/// copy of the variables.
pub proof fn lemma_blocking_fits(v: FstsView, fv: Seq<Seq<Seq<Literal>>>, i: int)
    requires
        1 <= i,
        pdr_fits(v),
        forall|d: int, j: int| 0 <= d < fv.len() && 0 <= j < fv[d].len() ==> cube_fits(v, #[trigger] fv[d][j]),
    ensures
        cnf_bump_fits(frame_formula(v, fv, i), v.max_var),
{
    broadcast use Literal::lemma_negate;

    assert forall|c: Seq<Literal>| #[trigger] frame_formula(v, fv, i).contains(c) implies crate::models::finite_state_transition_system::features::bump_fits(c, v.max_var) by {
        let (d, j) = choose|d: int, j: int| i <= d < fv.len() && 0 <= j < fv[d].len() && #[trigger] negation_of(fv[d][j], c);
        let cube = fv[d][j];
        assert(cube_fits(v, cube));
        lemma_same_literals_hold(c, negate_all(cube), |x: nat| true);
        assert forall|k: int| 0 <= k < c.len() implies (#[trigger] c[k]).var() + v.max_var <= max_variable_number() by {
            assert(c.contains(c[k]));
            assert(negate_all(cube).contains(c[k]));
            let m = choose|m: int| 0 <= m < negate_all(cube).len() && negate_all(cube)[m] == c[k];
            assert(negate_all(cube)[m] == Literal::spec_negate(cube[m]));
            assert(cube[m].var() <= v.max_var);
        }
    }
}

/// Every depth from `from` up to (not including) `to` has an unsatisfiable bounded model
/// checking formula.
pub open spec fn no_ctx_between(v: FstsView, from: int, to: int) -> bool {
    forall|e: int| from <= e < to ==> !satisfiable(#[trigger] bmc_formula(v, e as nat))
}

/// Why the search for the first satisfiable depth from `from` can stop without one: the depth
/// does not fit in a `u32`; a depth whose unrolling does not fit in the literals comes before any
/// satisfiable one; or no depth up to `u32::MAX` is satisfiable.
pub open spec fn ctx_search_stuck(v: FstsView, from: int) -> bool {
    ||| from > u32::MAX
    ||| exists|d: int| from <= d <= u32::MAX && !#[trigger] unrolling_fits(v, d as nat) && no_ctx_between(v, from, d)
    ||| no_ctx_between(v, from, u32::MAX + 1)
}

/// Checks a counterexample found from depth `depth`: asks for the bounded model checking
/// formula of `depth`, then of each depth after it, while the budget lasts; gives the first
/// depth whose formula is satisfiable. Each depth takes one from the budget.
pub(crate) fn confirm_counterexample<T: StatelessSatSolver>(fin_state: &FiniteStateTransitionSystem, depth: usize, budget: &mut u64) -> (r: Option<u32>)
    ensures
        match r {
            Some(d) => depth <= d && satisfiable(bmc_formula(fin_state@, d as nat)) && no_ctx_between(fin_state@, depth as int, d as int),
            None => *final(budget) == 0 || ctx_search_stuck(fin_state@, depth as int),
        },
        *final(budget) <= *old(budget),
{
    if depth > 0xffff_ffff {
        return None;
    }
    let mut d: u32 = depth as u32;
    let bmc = BMC::<T>::new(false);
    let solver = T::default();
    loop
        invariant
            *budget <= *old(budget),
            depth <= d,
            no_ctx_between(fin_state@, depth as int, d as int),
        decreases *budget,
    {
        if *budget == 0 {
            return None;
        }
        *budget = *budget - 1;
        match bmc.unrolled_formula(fin_state, d) {
            None => {
                proof {
                    let dd = d as int;
                    assert(!unrolling_fits(fin_state@, dd as nat));
                    assert(depth <= dd <= u32::MAX && !unrolling_fits(fin_state@, dd as nat) && no_ctx_between(fin_state@, depth as int, dd));
                    assert(ctx_search_stuck(fin_state@, depth as int));
                }
                return None;
            },
            Some(formula) => {
                match solver.solve_cnf(&formula) {
                    SatResponse::Sat { assignment } => {
                        proof {
                            lemma_assignment_satisfies(assignment, formula@);
                        }
                        return Some(d);
                    },
                    SatResponse::UnSat => {
                        assert(!satisfiable(bmc_formula(fin_state@, d as nat)));
                        if d == 0xffff_ffff {
                            assert(no_ctx_between(fin_state@, depth as int, u32::MAX + 1));
                            return None;
                        }
                        d = d + 1;
                    },
                }
            },
        }
    }
}

/// Every frame formula from frame 1 on of `new` implies that of `old`: the frames got no weaker.
pub open spec fn frames_stronger(v: FstsView, new: Seq<Seq<Seq<Literal>>>, old: Seq<Seq<Seq<Literal>>>) -> bool {
    forall|i: int, a: Valuation| 1 <= i < old.len() && #[trigger] cnf_holds(frame_formula(v, new, i), a)
        ==> cnf_holds(frame_formula(v, old, i), a)
}

/// A clause that blocks a cube holds exactly where the cube does not.
proof fn lemma_negation_holds(cube: Seq<Literal>, c: Seq<Literal>, a: Valuation)
    requires
        negation_of(cube, c),
    ensures
        clause_holds(c, a) == !crate::formulas::semantics::cube_holds(cube, a),
{
    lemma_same_literals_hold(c, negate_all(cube), a);
    lemma_negate_all(cube, a);
}

/// Adding a blocked cube (whose blocking clause is `neg`) and removing the cubes it subsumes
/// makes no frame formula weaker.
proof fn lemma_add_blocked_stronger(v: FstsView, old: Seq<Seq<Seq<Literal>>>, new: Seq<Seq<Seq<Literal>>>, cube: Seq<Literal>, neg: Seq<Literal>, k: int)
    requires
        1 <= k < old.len(),
        new.len() == old.len(),
        negation_of(cube, neg),
        forall|d: int| 0 <= d < old.len() && (d == 0 || d > k) ==> #[trigger] new[d] == old[d],
        forall|d: int| 1 <= d < k ==> filtered_frame(old[d], #[trigger] new[d], cube),
        new[k] == new[k].drop_last().push(cube),
        filtered_frame(old[k], new[k].drop_last(), cube),
    ensures
        frames_stronger(v, new, old),
{
    assert forall|i: int, a: Valuation| 1 <= i < old.len() && #[trigger] cnf_holds(frame_formula(v, new, i), a)
        implies cnf_holds(frame_formula(v, old, i), a) by {
        assert forall|c: Seq<Literal>| #[trigger] frame_formula(v, old, i).contains(c) implies clause_holds(c, a) by {
            let (d, j) = choose|d: int, j: int| i <= d < old.len() && 0 <= j < old[d].len() && #[trigger] negation_of(old[d][j], c);
            let x = old[d][j];
            assert(old[d].contains(x));
            let kept = if d == k { new[k].drop_last() } else { new[d] };
            if d > k {
                assert(new[d] == old[d]);
                assert(frame_formula(v, new, i).contains(c));
            } else if !subsumed_by(cube, x) {
                assert(kept.contains(x));
                let m = choose|m: int| 0 <= m < kept.len() && kept[m] == x;
                if d == k {
                    assert(new[k][m] == x);
                } else {
                    assert(new[d][m] == x);
                }
                assert(frame_formula(v, new, i).contains(c));
            } else {
                assert(new[k][new[k].len() - 1] == cube);
                assert(negation_of(new[k][new[k].len() - 1], neg));
                assert(frame_formula(v, new, i).contains(neg));
                assert(clause_holds(neg, a));
                lemma_negation_holds(cube, neg, a);
                let q = choose|q: int| 0 <= q < cube.len() && !literal_holds(#[trigger] cube[q], a);
                assert(cube.contains(cube[q]));
                assert(x.contains(cube[q]));
                let r = choose|r: int| 0 <= r < x.len() && x[r] == cube[q];
                lemma_negation_holds(x, c, a);
            }
        }
    }
}

/// A cube that a frame holds no state of stays so when the frames get no weaker.
pub proof fn lemma_blocked_stays(v: FstsView, old: Seq<Seq<Seq<Literal>>>, new: Seq<Seq<Seq<Literal>>>, i: int, cube: Seq<Literal>)
    requires
        1 <= i < old.len(),
        frames_stronger(v, new, old),
        !satisfiable(blocked_query(v, old, i, cube)),
    ensures
        !satisfiable(blocked_query(v, new, i, cube)),
{
    if satisfiable(blocked_query(v, new, i, cube)) {
        let a = choose|a: Valuation| cnf_holds(blocked_query(v, new, i, cube), a);
        assert forall|c: Seq<Literal>| #[trigger] frame_formula(v, new, i).contains(c) implies clause_holds(c, a) by {
            assert(blocked_query(v, new, i, cube).contains(c));
        }
        assert(cnf_holds(frame_formula(v, new, i), a));
        assert(cnf_holds(frame_formula(v, old, i), a));
        assert forall|c: Seq<Literal>| #[trigger] blocked_query(v, old, i, cube).contains(c) implies clause_holds(c, a) by {
            if !frame_formula(v, old, i).contains(c) {
                assert(unit_clauses(cube).contains(c));
                assert(blocked_query(v, new, i, cube).contains(c));
            }
        }
        assert(cnf_holds(blocked_query(v, old, i, cube), a));
        assert(satisfiable(blocked_query(v, old, i, cube)));
    }
}

/// A frame that holds no state of a cube holds no state of a cube that implies it.
pub proof fn lemma_blocked_subcube(v: FstsView, fv: Seq<Seq<Seq<Literal>>>, i: int, sub: Seq<Literal>, cube: Seq<Literal>)
    requires
        subsumed_by(sub, cube),
        !satisfiable(blocked_query(v, fv, i, sub)),
    ensures
        !satisfiable(blocked_query(v, fv, i, cube)),
{
    if satisfiable(blocked_query(v, fv, i, cube)) {
        let a = choose|a: Valuation| cnf_holds(blocked_query(v, fv, i, cube), a);
        assert forall|c: Seq<Literal>| #[trigger] blocked_query(v, fv, i, sub).contains(c) implies clause_holds(c, a) by {
            if unit_clauses(sub).contains(c) {
                let k = choose|k: int| 0 <= k < sub.len() && c == seq![sub[k]];
                assert(sub.contains(sub[k]));
                assert(cube.contains(sub[k]));
                let m = choose|m: int| 0 <= m < cube.len() && cube[m] == sub[k];
                assert(unit_clauses(cube).contains(seq![cube[m]]));
                assert(blocked_query(v, fv, i, cube).contains(c));
            } else {
                assert(blocked_query(v, fv, i, cube).contains(c));
            }
        }
        assert(cnf_holds(blocked_query(v, fv, i, sub), a));
    }
}

/// One step leads from a state of `c1` to a state of `c2`: the transition relation with `c1`
/// in the current copy of the variables and `c2` in the next copy is satisfiable.
pub open spec fn cube_step(v: FstsView, c1: Seq<Literal>, c2: Seq<Literal>) -> bool {
    satisfiable(v.transition.union(unit_clauses(c1)).union(unit_clauses(bump_literals(c2, v.max_var))))
}

/// Each cube of the chain leads to the next in one step.
pub open spec fn cube_chain(v: FstsView, chain: Seq<Seq<Literal>>) -> bool {
    forall|k: int| 0 <= k < chain.len() - 1 ==> cube_step(v, #[trigger] chain[k], chain[k + 1])
}

/// Some initial state is a state of the cube.
pub open spec fn meets_initial_states(v: FstsView, c: Seq<Literal>) -> bool {
    satisfiable(v.initial.union(unit_clauses(c)))
}

/// A chain of cubes leads from an initial state to a state of `target`.
pub open spec fn reaches(v: FstsView, target: Seq<Literal>) -> bool {
    exists|chain: Seq<Seq<Literal>>| chain.len() >= 1 && meets_initial_states(v, chain[0]) && cube_chain(v, chain)
        && #[trigger] chain.last() == target
}

/// A cube that holds under a valuation makes each of its unit clauses hold.
proof fn lemma_units_hold(c: Seq<Literal>, a: Valuation)
    requires
        crate::formulas::semantics::cube_holds(c, a),
    ensures
        cnf_holds(unit_clauses(c), a),
{
    assert forall|u: Seq<Literal>| #[trigger] unit_clauses(c).contains(u) implies clause_holds(u, a) by {
        let k = choose|k: int| 0 <= k < c.len() && u == seq![c[k]];
        assert(u[0] == c[k]);
    }
}

/// A predecessor read from a solution of the relative query of `s` in frame `f` leads to `s` in
/// one step, and is an initial state when `f` is 1.
proof fn lemma_predecessor_step(v: FstsView, fv: Seq<Seq<Seq<Literal>>>, f: int, s: Seq<Literal>, z: Seq<Literal>, a: Assignment)
    requires
        assignment_satisfies(a, relative_query(v, fv, f, s, true)),
        same_literals(z, state_literals_of(v, a)),
        forall|j: int| 0 <= j < v.state_vars.len() ==> #[trigger] v.state_vars[j] <= max_variable_number(),
    ensures
        cube_step(v, z, s),
        f == 1 ==> meets_initial_states(v, z),
{
    let q = relative_query(v, fv, f, s, true);
    let val = assignment_valuation(a);
    lemma_assignment_satisfies(a, q);
    law_extracted_state_holds(v, a);
    lemma_same_literals_hold(z, state_literals_of(v, a), val);
    lemma_units_hold(z, val);
    let step = v.transition.union(unit_clauses(z)).union(unit_clauses(bump_literals(s, v.max_var)));
    assert forall|c: Seq<Literal>| #[trigger] step.contains(c) implies clause_holds(c, val) by {
        if !unit_clauses(z).contains(c) {
            assert(q.contains(c));
        }
    }
    assert(cnf_holds(step, val));
    if f == 1 {
        let init = v.initial.union(unit_clauses(z));
        assert forall|c: Seq<Literal>| #[trigger] init.contains(c) implies clause_holds(c, val) by {
            if !unit_clauses(z).contains(c) {
                assert(q.contains(c));
            }
        }
        assert(cnf_holds(init, val));
    }
}

/// A state read from a solution of a formula that holds the initial states is initial.
proof fn lemma_state_meets_initial(v: FstsView, q: Set<Seq<Literal>>, c: Seq<Literal>, a: Assignment)
    requires
        v.initial.subset_of(q),
        assignment_satisfies(a, q),
        same_literals(c, state_literals_of(v, a)),
        forall|j: int| 0 <= j < v.state_vars.len() ==> #[trigger] v.state_vars[j] <= max_variable_number(),
    ensures
        meets_initial_states(v, c),
{
    let val = assignment_valuation(a);
    lemma_assignment_satisfies(a, q);
    law_extracted_state_holds(v, a);
    lemma_same_literals_hold(c, state_literals_of(v, a), val);
    lemma_units_hold(c, val);
    let init = v.initial.union(unit_clauses(c));
    assert forall|x: Seq<Literal>| #[trigger] init.contains(x) implies clause_holds(x, val) by {
        if !unit_clauses(c).contains(x) {
            assert(q.contains(x));
        }
    }
    assert(cnf_holds(init, val));
}

/// How many SAT queries of each kind the search asked (each count stops at `u64::MAX`).
#[derive(Clone, Copy)]
pub struct SatCallCounts {
    pub get_bad_cube: u64,
    pub is_blocked: u64,
    pub solve_relative_do_not_extract_model: u64,
    pub solve_relative_no_ind: u64,
    pub solve_relative_extract_model: u64,
}

/// A count after one more event, kept at `u64::MAX` once there.
pub open spec fn count_after(c: u64) -> u64 {
    if c < u64::MAX {
        (c + 1) as u64
    } else {
        c
    }
}

/// A count after `n` more events, kept at `u64::MAX` once there.
pub open spec fn count_after_many(c: u64, n: u64) -> u64 {
    if c + n <= u64::MAX {
        (c + n) as u64
    } else {
        u64::MAX
    }
}

/// The counts after one more query of `z_solve_relative` with `p`.
pub open spec fn relative_counted(c: SatCallCounts, p: SolveRelativeParam) -> SatCallCounts {
    match p {
        SolveRelativeParam::DoNotExtractModel => SatCallCounts {
            solve_relative_do_not_extract_model: count_after(c.solve_relative_do_not_extract_model),
            ..c
        },
        SolveRelativeParam::NoInd => SatCallCounts { solve_relative_no_ind: count_after(c.solve_relative_no_ind), ..c },
        SolveRelativeParam::ExtractModel => SatCallCounts {
            solve_relative_extract_model: count_after(c.solve_relative_extract_model),
            ..c
        },
    }
}

/// One more event on a count, kept at `u64::MAX` once there.
fn next_count(c: u64) -> (r: u64)
    ensures
        r == count_after(c),
{
    if c < 0xffff_ffff_ffff_ffff {
        c + 1
    } else {
        c
    }
}

/// The PDR search on a system, with a SAT solver for its queries.
pub struct PDR<T: StatelessSatSolver> {
    f: Vec<Vec<Cube>>,
    fin_state: FiniteStateTransitionSystem,
    solver: T,
    verbose: bool,
    sat_calls: SatCallCounts,
    rounds: u64,
}

impl<T: StatelessSatSolver> PDR<T> {
    /// The system searched.
    pub closed spec fn system(&self) -> FstsView {
        self.fin_state@
    }

    /// The frames, as literal views of their cubes (frame 0 is kept empty; the last is `F_inf`).
    pub closed spec fn frames(&self) -> Seq<Seq<Seq<Literal>>> {
        frames_view(self.f@)
    }

    /// The verbose flag the search was made with (the library itself prints nothing).
    pub closed spec fn is_verbose(&self) -> bool {
        self.verbose
    }

    /// How many SAT queries of each kind the search has asked.
    pub closed spec fn call_counts(&self) -> SatCallCounts {
        self.sat_calls
    }

    /// How many SAT queries of each kind the search has asked.
    pub fn sat_call_counts(&self) -> (r: SatCallCounts)
        ensures
            r == self.call_counts(),
    {
        self.sat_calls
    }

    /// How many rounds the searches have taken, kept at `u64::MAX` once there.
    pub closed spec fn rounds_taken(&self) -> u64 {
        self.rounds
    }

    /// How many rounds the searches have taken, kept at `u64::MAX` once there.
    pub fn rounds(&self) -> (r: u64)
        ensures
            r == self.rounds_taken(),
    {
        self.rounds
    }

    /// The verbose flag the search was made with.
    pub fn verbose(&self) -> (r: bool)
        ensures
            r == self.is_verbose(),
    {
        self.verbose
    }

    /// What the search keeps: the room it needs, and cubes over the state variables.
    pub open spec fn wf(&self) -> bool {
        &&& pdr_fits(self.system())
        &&& forall|d: int, j: int| 0 <= d < self.frames().len() && 0 <= j < self.frames()[d].len()
            ==> cube_fits(self.system(), #[trigger] self.frames()[d][j])
    }

    /// A search on the system; no frame is made yet, and frame 0 stands for the initial states.
    pub fn new(fin_state: &FiniteStateTransitionSystem, verbose: bool) -> (r: Self)
        requires
            pdr_fits(fin_state@),
        ensures
            r.system() == fin_state@,
            frame_formula(r.system(), r.frames(), 0) == fin_state@.initial,
            r.frames() == Seq::<Seq<Seq<Literal>>>::empty(),
            r.is_verbose() == verbose,
            r.call_counts() == (SatCallCounts {
                get_bad_cube: 0,
                is_blocked: 0,
                solve_relative_do_not_extract_model: 0,
                solve_relative_no_ind: 0,
                solve_relative_extract_model: 0,
            }),
            r.rounds_taken() == 0,
            r.wf(),
    {
        let sat_calls = SatCallCounts {
            get_bad_cube: 0,
            is_blocked: 0,
            solve_relative_do_not_extract_model: 0,
            solve_relative_no_ind: 0,
            solve_relative_extract_model: 0,
        };
        let r = Self { f: Vec::new(), fin_state: fin_state.clone(), solver: T::default(), verbose, sat_calls, rounds: 0 };
        assert(r.frames() =~= Seq::<Seq<Seq<Literal>>>::empty());
        r
    }

    /// The frame formula `R_i`.
    fn get_r_i(&self, i: usize) -> (r: CNF)
        requires
            i < self.frames().len(),
        ensures
            r@ == frame_formula(self.system(), self.frames(), i as int),
    {
        if i == 0 {
            return self.fin_state.get_initial_relation();
        }
        let ghost fv = self.frames();
        let mut r = CNF::new();
        let mut d: usize = i;
        while d < self.f.len()
            invariant
                i <= d <= self.f@.len(),
                fv == self.frames(),
                fv.len() == self.f@.len(),
                r@ == Set::new(|c: Seq<Literal>| exists|dd: int, j: int| i <= dd < d && 0 <= j < fv[dd].len() && #[trigger] negation_of(fv[dd][j], c)),
            decreases self.f@.len() - d,
        {
            let frame = &self.f[d];
            let mut j: usize = 0;
            while j < frame.len()
                invariant
                    i <= d < self.f@.len(),
                    fv == self.frames(),
                    fv.len() == self.f@.len(),
                    *frame == self.f@[d as int],
                    j <= frame@.len(),
                    r@ == Set::new(|c: Seq<Literal>| exists|dd: int, jj: int|
                        ((i <= dd < d && 0 <= jj < fv[dd].len()) || (dd == d && 0 <= jj < j)) && #[trigger] negation_of(fv[dd][jj], c)),
                decreases frame@.len() - j,
            {
                let clause = frame[j].negate();
                let ghost old_r = r@;
                r.add_clause(&clause);
                proof {
                    assert(fv[d as int] == cube_views(frame@));
                    assert(fv[d as int][j as int] == frame@[j as int]@);
                    assert(negation_of(fv[d as int][j as int], clause@));
                    let next = Set::new(|c: Seq<Literal>| exists|dd: int, jj: int|
                        ((i <= dd < d && 0 <= jj < fv[dd].len()) || (dd == d && 0 <= jj < j + 1)) && #[trigger] negation_of(fv[dd][jj], c));
                    assert forall|c: Seq<Literal>| #[trigger] next.contains(c) implies r@.contains(c) by {
                        let (dd, jj) = choose|dd: int, jj: int|
                            ((i <= dd < d && 0 <= jj < fv[dd].len()) || (dd == d && 0 <= jj < j + 1)) && #[trigger] negation_of(fv[dd][jj], c);
                        if dd == d && jj == j {
                            lemma_negation_unique(fv[dd][jj], c, clause@);
                        } else {
                            assert(old_r.contains(c));
                        }
                    }
                    assert(r@ =~= next);
                }
                j = j + 1;
            }
            proof {
                assert(fv[d as int].len() == frame@.len());
                let next = Set::new(|c: Seq<Literal>| exists|dd: int, j: int| i <= dd < d + 1 && 0 <= j < fv[dd].len() && #[trigger] negation_of(fv[dd][j], c));
                assert(r@ =~= next);
            }
            d = d + 1;
        }
        proof {
            assert(r@ =~= blocking_clauses(fv, i as int));
        }
        r
    }

    /// Looks for a state in the last frame before `F_inf` that is unsafe; gives the cube of such
    /// a state, or none when there is none.
    fn z_get_bad_cube(&mut self) -> (r: Option<Cube>)
        requires
            old(self).wf(),
            old(self).frames().len() >= 2,
        ensures
            final(self).system() == old(self).system(),
            final(self).frames() == old(self).frames(),
            final(self).is_verbose() == old(self).is_verbose(),
            final(self).rounds_taken() == old(self).rounds_taken(),
            final(self).call_counts() == (SatCallCounts { get_bad_cube: count_after(old(self).call_counts().get_bad_cube), ..old(self).call_counts() }),
            match r {
                None => !satisfiable(bad_query(old(self).system(), old(self).frames())),
                Some(c) => cube_fits(old(self).system(), c@) && exists|a: Assignment|
                    assignment_satisfies(a, bad_query(old(self).system(), old(self).frames()))
                        && same_literals(c@, #[trigger] state_literals_of(old(self).system(), a)),
            },
    {
        self.sat_calls.get_bad_cube = next_count(self.sat_calls.get_bad_cube);
        self.fin_state.check_wf();
        let n = self.f.len() - 2;
        let mut q = self.get_r_i(n);
        q.append(&self.fin_state.get_unsafety_property());
        q.append(&self.fin_state.get_state_to_safety_translation());
        assert(q@ =~= bad_query(self.system(), self.frames()));
        match self.solver.solve_cnf(&q) {
            SatResponse::Sat { assignment } => {
                let c = self.fin_state.extract_state_from_assignment(&assignment);
                proof {
                    lemma_state_cube_fits(self.system(), assignment, c@);
                }
                Some(c)
            },
            SatResponse::UnSat => None,
        }
    }

    /// Whether frame `i` holds no state of the cube: `R_i` and the cube are unsatisfiable.
    fn z_is_blocked(&mut self, s: &TCube) -> (r: bool)
        requires
            s.frame matches Frame::At(i) && i < old(self).frames().len(),
        ensures
            final(self).system() == old(self).system(),
            final(self).frames() == old(self).frames(),
            final(self).is_verbose() == old(self).is_verbose(),
            final(self).rounds_taken() == old(self).rounds_taken(),
            final(self).call_counts() == (SatCallCounts { is_blocked: count_after(old(self).call_counts().is_blocked), ..old(self).call_counts() }),
            r == !satisfiable(blocked_query(old(self).system(), old(self).frames(), s.frame->At_0 as int, s.cube@)),
    {
        self.sat_calls.is_blocked = next_count(self.sat_calls.is_blocked);
        let i = match s.frame {
            Frame::At(i) => i,
            _ => 0,
        };
        let mut q = self.get_r_i(i);
        q.append(&s.cube.to_cnf());
        assert(q@ =~= blocked_query(self.system(), self.frames(), i as int, s.cube@));
        match self.solver.solve_cnf(&q) {
            SatResponse::Sat { assignment } => {
                proof {
                    lemma_assignment_satisfies(assignment, q@);
                }
                false
            },
            SatResponse::UnSat => true,
        }
    }

    /// Whether a cube in frame `i` can be reached in one step from `R_{i-1}` (from outside the
    /// cube, unless the query is `NoInd`). When it cannot, gives the cube and its frame back;
    /// when it can, gives frame `Null`, with a predecessor state for `ExtractModel` and an empty
    /// cube otherwise.
    fn z_solve_relative(&mut self, s: &TCube, params: SolveRelativeParam) -> (r: TCube)
        requires
            old(self).wf(),
            s.frame matches Frame::At(i) && 1 <= i < old(self).frames().len(),
            cube_fits(old(self).system(), s.cube@),
        ensures
            final(self).system() == old(self).system(),
            final(self).frames() == old(self).frames(),
            final(self).is_verbose() == old(self).is_verbose(),
            final(self).rounds_taken() == old(self).rounds_taken(),
            final(self).call_counts() == relative_counted(old(self).call_counts(), params),
            !satisfiable(relative_query(old(self).system(), old(self).frames(), s.frame->At_0 as int, s.cube@, params != SolveRelativeParam::NoInd))
                ==> r.frame == s.frame && r.cube@ == s.cube@,
            satisfiable(relative_query(old(self).system(), old(self).frames(), s.frame->At_0 as int, s.cube@, params != SolveRelativeParam::NoInd))
                ==> r.frame == Frame::Null,
            satisfiable(relative_query(old(self).system(), old(self).frames(), s.frame->At_0 as int, s.cube@, params != SolveRelativeParam::NoInd))
                && params != SolveRelativeParam::ExtractModel ==> r.cube@.len() == 0,
            params == SolveRelativeParam::ExtractModel && r.frame == Frame::Null ==> exists|a: Assignment|
                assignment_satisfies(a, relative_query(old(self).system(), old(self).frames(), s.frame->At_0 as int, s.cube@, true))
                    && same_literals(r.cube@, #[trigger] state_literals_of(old(self).system(), a)),
            cube_fits(old(self).system(), r.cube@),
    {
        match params {
            SolveRelativeParam::DoNotExtractModel => {
                self.sat_calls.solve_relative_do_not_extract_model = next_count(self.sat_calls.solve_relative_do_not_extract_model);
            },
            SolveRelativeParam::NoInd => {
                self.sat_calls.solve_relative_no_ind = next_count(self.sat_calls.solve_relative_no_ind);
            },
            SolveRelativeParam::ExtractModel => {
                self.sat_calls.solve_relative_extract_model = next_count(self.sat_calls.solve_relative_extract_model);
            },
        }
        self.fin_state.check_wf();
        s.cube.check_wf();
        let ghost v = self.system();
        let i = match s.frame {
            Frame::At(i) => i,
            _ => 1,
        };
        let ind = params != SolveRelativeParam::NoInd;
        let mut q = self.get_r_i(i - 1);
        q.append(&self.fin_state.get_transition_relation());
        proof {
            assert forall|k: int| 0 <= k < s.cube@.len() implies (#[trigger] s.cube@[k]).var() + v.max_var * 1 <= max_variable_number() by {
                assert(s.cube@[k].var() <= v.max_var);
            }
        }
        let next = self.fin_state.add_tags_to_cube(&s.cube, 1);
        let next_units = next.to_cnf();
        assert(next_units@ =~= unit_clauses(bump_literals(s.cube@, v.max_var)));
        q.append(&next_units);
        if ind {
            let negation = s.cube.negate();
            let ghost before = q@;
            q.add_clause(&negation);
            proof {
                assert forall|c: Seq<Literal>| #[trigger] blocking(s.cube@).contains(c) implies c == negation@ by {
                    lemma_negation_unique(s.cube@, c, negation@);
                }
                assert(q@ =~= before.union(blocking(s.cube@)));
            }
        }
        assert(q@ =~= relative_query(v, self.frames(), i as int, s.cube@, ind));
        match self.solver.solve_cnf(&q) {
            SatResponse::Sat { assignment } => {
                proof {
                    lemma_assignment_satisfies(assignment, q@);
                }
                if params == SolveRelativeParam::ExtractModel {
                    let c = self.fin_state.extract_state_from_assignment(&assignment);
                    proof {
                        lemma_state_cube_fits(v, assignment, c@);
                    }
                    TCube { cube: c, frame: Frame::Null }
                } else {
                    let empty: [Literal; 0] = [];
                    let c = Cube::new(&empty);
                    proof {
                        broadcast use vstd::seq_lib::group_to_multiset_ensures;
                        assert(empty@ =~= Seq::<Literal>::empty());
                        assert(c@.len() == c@.to_multiset().len());
                        assert(empty@.len() == empty@.to_multiset().len());
                    }
                    TCube { cube: c, frame: Frame::Null }
                }
            },
            SatResponse::UnSat => TCube { cube: s.cube.clone(), frame: s.frame },
        }
    }

    /// Whether every literal of `c1` is a literal of `c2`.
    fn subsumes(&self, c1: &Cube, c2: &Cube) -> (r: bool)
        ensures
            r == subsumed_by(c1@, c2@),
    {
        let mut i: usize = 0;
        while i < c1.len()
            invariant
                i <= c1@.len(),
                forall|k: int| 0 <= k < i ==> c2@.contains(#[trigger] c1@[k]),
            decreases c1@.len() - i,
        {
            let l = c1.get(i);
            let mut found = false;
            let mut j: usize = 0;
            while j < c2.len()
                invariant
                    j <= c2@.len(),
                    l == c1@[i as int],
                    found ==> c2@.contains(l),
                    !found ==> forall|m: int| 0 <= m < j ==> #[trigger] c2@[m] != l,
                decreases c2@.len() - j,
            {
                if c2.get(j) == l {
                    found = true;
                }
                j = j + 1;
            }
            if !found {
                assert(c1@.contains(l));
                return false;
            }
            i = i + 1;
        }
        proof {
            assert forall|l: Literal| c1@.contains(l) implies c2@.contains(l) by {
                let k = choose|k: int| 0 <= k < c1@.len() && c1@[k] == l;
            }
        }
        true
    }

    /// Whether frame `i` holds no state of the cube: first by looking for a cube of frame `i` or
    /// a later frame that the cube implies, then by asking the SAT solver.
    fn is_blocked(&mut self, s: &TCube) -> (r: bool)
        requires
            s.frame matches Frame::At(i) && 1 <= i < old(self).frames().len(),
        ensures
            final(self).system() == old(self).system(),
            final(self).frames() == old(self).frames(),
            final(self).is_verbose() == old(self).is_verbose(),
            final(self).rounds_taken() == old(self).rounds_taken(),
            final(self).call_counts() == old(self).call_counts() || final(self).call_counts() == (SatCallCounts {
                is_blocked: count_after(old(self).call_counts().is_blocked),
                ..old(self).call_counts()
            }),
            r == !satisfiable(blocked_query(old(self).system(), old(self).frames(), s.frame->At_0 as int, s.cube@)),
    {
        let ghost fv = self.frames();
        let sf = match s.frame {
            Frame::At(i) => i,
            _ => 1,
        };
        let mut d: usize = sf;
        while d < self.f.len()
            invariant
                sf <= d <= self.f@.len(),
                fv == self.frames(),
                fv.len() == self.f@.len(),
                s.frame == Frame::At(sf),
                1 <= sf,
            decreases self.f@.len() - d,
        {
            let frame = &self.f[d];
            let mut j: usize = 0;
            while j < frame.len()
                invariant
                    sf <= d < self.f@.len(),
                    fv == self.frames(),
                    fv.len() == self.f@.len(),
                    *frame == self.f@[d as int],
                    j <= frame@.len(),
                    s.frame == Frame::At(sf),
                    1 <= sf,
                decreases frame@.len() - j,
            {
                if self.subsumes(&frame[j], &s.cube) {
                    let neg = frame[j].negate();
                    proof {
                        assert(fv[d as int] == cube_views(frame@));
                        assert(fv[d as int][j as int] == frame@[j as int]@);
                        lemma_subsumed_blocked(self.system(), fv, sf as int, d as int, j as int, s.cube@, neg@);
                    }
                    return true;
                }
                j = j + 1;
            }
            d = d + 1;
        }
        self.z_is_blocked(s)
    }

    /// The cubes of the frame that `cube` does not subsume, copied in order.
    fn kept_cubes(&self, frame: &Vec<Cube>, cube: &Cube) -> (r: Vec<Cube>)
        requires
            forall|j: int| 0 <= j < frame@.len() ==> cube_fits(self.system(), #[trigger] frame@[j]@),
        ensures
            filtered_frame(cube_views(frame@), cube_views(r@), cube@),
            forall|j: int| 0 <= j < r@.len() ==> cube_fits(self.system(), #[trigger] r@[j]@),
    {
        let ghost old = cube_views(frame@);
        let mut kept: Vec<Cube> = Vec::new();
        let mut j: usize = 0;
        while j < frame.len()
            invariant
                j <= frame@.len(),
                old == cube_views(frame@),
                forall|x: Seq<Literal>| #[trigger] cube_views(kept@).contains(x) <==> (old.take(j as int).contains(x) && !subsumed_by(cube@, x)),
                kept@.len() <= j,
                (exists|m: int| 0 <= m < j && #[trigger] subsumed_by(cube@, old[m])) ==> kept@.len() < j,
                forall|m: int| 0 <= m < frame@.len() ==> cube_fits(self.system(), #[trigger] frame@[m]@),
                forall|m: int| 0 <= m < kept@.len() ==> cube_fits(self.system(), #[trigger] kept@[m]@),
            decreases frame@.len() - j,
        {
            let ghost before = cube_views(kept@);
            assert(old[j as int] == frame@[j as int]@);
            assert(old.take(j + 1) =~= old.take(j as int).push(old[j as int]));
            proof {
                assert forall|x: Seq<Literal>| #[trigger] old.take(j + 1).contains(x) <==> (old.take(j as int).contains(x) || x == old[j as int]) by {
                    lemma_push_contains(old.take(j as int), old[j as int], x);
                }
            }
            let sub = self.subsumes(cube, &frame[j]);
            if !sub {
                kept.push(frame[j].clone());
                proof {
                    assert(cube_views(kept@) =~= before.push(old[j as int]));
                    assert forall|x: Seq<Literal>| #[trigger] cube_views(kept@).contains(x) <==> (before.contains(x) || x == old[j as int]) by {
                        lemma_push_contains(before, old[j as int], x);
                    }
                }
            } else {
                proof {
                    assert(cube_views(kept@) =~= before);
                }
            }
            proof {
                assert(sub == subsumed_by(cube@, old[j as int]));
                assert forall|x: Seq<Literal>| #[trigger] cube_views(kept@).contains(x) <==> (old.take(j + 1).contains(x) && !subsumed_by(cube@, x)) by {
                    assert(old.take(j + 1).contains(x) <==> (old.take(j as int).contains(x) || x == old[j as int]));
                }
            }
            j = j + 1;
        }
        proof {
            assert(old.take(j as int) =~= old);
            assert forall|x: Seq<Literal>| #[trigger] cube_views(kept@).contains(x) <==> (old.contains(x) && !subsumed_by(cube@, x)) by {
                assert(old.take(j as int).contains(x) == old.contains(x));
            }
        }
        kept
    }

    /// Adds a blocked cube to frame `min(i, depth + 1)`, and removes from frames 1 up to that one
    /// every cube that it subsumes.
    fn add_blocked_cube(&mut self, s: &TCube)
        requires
            old(self).wf(),
            old(self).frames().len() >= 2,
            s.frame matches Frame::At(i) && 1 <= i,
            cube_fits(old(self).system(), s.cube@),
        ensures
            final(self).wf(),
            final(self).system() == old(self).system(),
            final(self).is_verbose() == old(self).is_verbose(),
            final(self).frames().len() == old(self).frames().len(),
            ({
                let k = if s.frame->At_0 < old(self).frames().len() - 1 { s.frame->At_0 as int } else { old(self).frames().len() - 1 };
                &&& forall|d: int| 0 <= d < old(self).frames().len() && (d == 0 || d > k) ==> #[trigger] final(self).frames()[d] == old(self).frames()[d]
                &&& forall|d: int| 1 <= d < k ==> filtered_frame(old(self).frames()[d], #[trigger] final(self).frames()[d], s.cube@)
                &&& final(self).frames()[k] == final(self).frames()[k].drop_last().push(s.cube@)
                &&& filtered_frame(old(self).frames()[k], final(self).frames()[k].drop_last(), s.cube@)
                &&& forall|d: int| 1 <= d <= k ==> !satisfiable(#[trigger] blocked_query(old(self).system(), final(self).frames(), d, s.cube@))
            }),
            frames_stronger(old(self).system(), final(self).frames(), old(self).frames()),
    {
        let ghost fv = self.frames();
        let neg = s.cube.negate();
        let sf = match s.frame {
            Frame::At(i) => i,
            _ => 1,
        };
        let last = self.f.len() - 1;
        let k = if sf < last { sf } else { last };
        assert(fv.len() <= usize::MAX);
        let mut d: usize = 1;
        while d <= k
            invariant
                1 <= d <= k + 1,
                k <= last,
                last == self.f@.len() - 1,
                fv.len() == self.f@.len(),
                fv.len() <= usize::MAX,
                self.frames().len() == fv.len(),
                pdr_fits(self.system()),
                cube_fits(self.system(), s.cube@),
                self.system() == old(self).system(),
                self.is_verbose() == old(self).is_verbose(),
                fv == old(self).frames(),
                forall|dd: int, j: int| 0 <= dd < self.frames().len() && 0 <= j < self.frames()[dd].len()
                    ==> cube_fits(self.system(), #[trigger] self.frames()[dd][j]),
                forall|dd: int| 0 <= dd < fv.len() && (dd == 0 || dd >= d) ==> #[trigger] self.frames()[dd] == fv[dd],
                forall|dd: int| 1 <= dd < d && dd != k ==> filtered_frame(fv[dd], #[trigger] self.frames()[dd], s.cube@),
                d > k ==> self.frames()[k as int] == self.frames()[k as int].drop_last().push(s.cube@),
                d > k ==> filtered_frame(fv[k as int], self.frames()[k as int].drop_last(), s.cube@),
            decreases k + 1 - d,
        {
            proof {
                assert(self.frames()[d as int] == cube_views(self.f@[d as int]@));
                assert forall|j: int| 0 <= j < self.f@[d as int]@.len() implies cube_fits(self.system(), #[trigger] self.f@[d as int]@[j]@) by {
                    assert(self.frames()[d as int][j] == self.f@[d as int]@[j]@);
                }
            }
            let mut kept = self.kept_cubes(&self.f[d], &s.cube);
            let ghost filtered = cube_views(kept@);
            if d == k {
                kept.push(s.cube.clone());
                proof {
                    assert(cube_views(kept@) =~= filtered.push(s.cube@));
                    assert(cube_views(kept@).drop_last() =~= filtered);
                }
            }
            let ghost pre = self.f@;
            self.f.set(d, kept);
            proof {
                assert(self.frames() =~= frames_view(pre).update(d as int, cube_views(kept@)));
                assert forall|dd: int, j: int| 0 <= dd < self.frames().len() && 0 <= j < self.frames()[dd].len()
                    implies cube_fits(self.system(), #[trigger] self.frames()[dd][j]) by {
                    if dd == d {
                        assert(self.frames()[dd][j] == kept@[j]@);
                    } else {
                        assert(self.frames()[dd] == frames_view(pre)[dd]);
                    }
                }
            }
            d = d + 1;
        }
        proof {
            let nf = self.frames();
            let kk = k as int;
            assert(negation_of(s.cube@, neg@));
            lemma_add_blocked_stronger(self.system(), fv, nf, s.cube@, neg@, kk);
            assert(nf[kk][nf[kk].len() - 1] == s.cube@);
            assert(subsumed_by(s.cube@, s.cube@));
            assert forall|d: int| 1 <= d <= kk implies !satisfiable(#[trigger] blocked_query(self.system(), nf, d, s.cube@)) by {
                lemma_subsumed_blocked(self.system(), nf, d, kk, nf[kk].len() - 1, s.cube@, neg@);
            }
        }
    }

    /// Adds an empty frame before `F_inf`.
    fn new_frame(&mut self)
        requires
            old(self).wf(),
            old(self).frames().len() >= 1,
        ensures
            final(self).wf(),
            final(self).system() == old(self).system(),
            final(self).is_verbose() == old(self).is_verbose(),
            final(self).frames() == old(self).frames().drop_last().push(Seq::<Seq<Literal>>::empty()).push(old(self).frames().last()),
    {
        let ghost fv = self.frames();
        let ghost pre = self.f@;
        let inf = self.f.pop().unwrap();
        self.f.push(Vec::new());
        self.f.push(inf);
        proof {
            assert(self.f@.len() == pre.len() + 1);
            assert(cube_views(Seq::<Cube>::empty()) =~= Seq::<Seq<Literal>>::empty());
            let expected = fv.drop_last().push(Seq::<Seq<Literal>>::empty()).push(fv.last());
            assert forall|i: int| 0 <= i < expected.len() implies #[trigger] self.frames()[i] == expected[i] by {
                if i < fv.len() - 1 {
                    assert(self.f@[i] == pre[i]);
                } else if i == fv.len() - 1 {
                    assert(self.f@[i]@ == Seq::<Cube>::empty());
                } else {
                    assert(self.f@[i] == pre[fv.len() - 1]);
                }
            }
            assert(self.frames() =~= expected);
        }
    }

    /// Drops literals of a cube, in a random order, as long as what is left is not initial and
    /// stays inductive relative to the cube's frame.
    fn generalize(&mut self, s: &TCube) -> (r: TCube)
        requires
            old(self).wf(),
            s.frame matches Frame::At(i) && 1 <= i < old(self).frames().len(),
            cube_fits(old(self).system(), s.cube@),
        ensures
            final(self).system() == old(self).system(),
            final(self).frames() == old(self).frames(),
            final(self).is_verbose() == old(self).is_verbose(),
            final(self).rounds_taken() == old(self).rounds_taken(),
            r.frame == s.frame,
            subsumed_by(r.cube@, s.cube@),
            cube_fits(old(self).system(), r.cube@),
    {
        broadcast use vstd::seq_lib::group_to_multiset_ensures;

        let mut copied: Vec<Literal> = Vec::new();
        let mut i: usize = 0;
        while i < s.cube.len()
            invariant
                i <= s.cube@.len(),
                copied@ == s.cube@.take(i as int),
            decreases s.cube@.len() - i,
        {
            copied.push(s.cube.get(i));
            i = i + 1;
            assert(copied@ =~= s.cube@.take(i as int));
        }
        assert(copied@ =~= s.cube@);
        let ghost given = copied@;
        let mut literals = shuffle_literals(copied);
        proof {
            assert(same_literals(literals@, s.cube@));
            lemma_same_literals_hold(literals@, s.cube@, |x: nat| true);
        }
        let mut j: usize = 0;
        while j < literals.len()
            invariant
                self.wf(),
                self.system() == old(self).system(),
                self.frames() == old(self).frames(),
                self.is_verbose() == old(self).is_verbose(),
                self.rounds_taken() == old(self).rounds_taken(),
                s.frame matches Frame::At(i) && 1 <= i < self.frames().len(),
                cube_fits(self.system(), s.cube@),
                j <= literals@.len(),
                forall|l: Literal| literals@.contains(l) ==> s.cube@.contains(l),
            decreases literals@.len() - j,
        {
            let ghost before = literals@;
            assert(forall|l: Literal| before.contains(l) ==> s.cube@.contains(l));
            let removed = literals.remove(j);
            proof {
                assert forall|l: Literal| literals@.contains(l) implies s.cube@.contains(l) by {
                    let k = choose|k: int| 0 <= k < literals@.len() && literals@[k] == l;
                    if k < j {
                        assert(before[k] == l);
                    } else {
                        assert(before[k + 1] == l);
                    }
                    assert(before.contains(l));
                }
            }
            let t = TCube { cube: Cube::new(literals.as_slice()), frame: s.frame };
            proof {
                lemma_same_literals_hold(t.cube@, literals@, |x: nat| true);
                assert forall|k: int| 0 <= k < t.cube@.len() implies (#[trigger] t.cube@[k]).var() <= self.system().max_var by {
                    assert(t.cube@.contains(t.cube@[k]));
                    assert(literals@.contains(t.cube@[k]));
                    assert(s.cube@.contains(t.cube@[k]));
                    let m = choose|m: int| 0 <= m < s.cube@.len() && s.cube@[m] == t.cube@[k];
                }
            }
            if !self.fin_state.is_cube_initial(&t.cube) {
                let check = self.z_solve_relative(&t, SolveRelativeParam::DoNotExtractModel);
                if check.frame != Frame::Null {
                    continue;
                }
            }
            literals.insert(j, removed);
            proof {
                assert(literals@ =~= before);
            }
            j = j + 1;
        }
        let cube = Cube::new(literals.as_slice());
        proof {
            lemma_same_literals_hold(cube@, literals@, |x: nat| true);
            assert forall|k: int| 0 <= k < cube@.len() implies (#[trigger] cube@[k]).var() <= self.system().max_var by {
                assert(cube@.contains(cube@[k]));
                assert(s.cube@.contains(cube@[k]));
                let m = choose|m: int| 0 <= m < s.cube@.len() && s.cube@[m] == cube@[k];
            }
        }
        TCube { cube, frame: s.frame }
    }

    /// Pushes each cube of frames 1 up to `depth - 1` to the next frame when the next frame
    /// blocks it too; gives the first frame that is left empty, whose formula is then an
    /// inductive invariant, or none.
    fn propagate_blocked_cubes(&mut self) -> (r: Option<usize>)
        requires
            old(self).wf(),
            old(self).frames().len() >= 2,
        ensures
            final(self).wf(),
            final(self).system() == old(self).system(),
            final(self).is_verbose() == old(self).is_verbose(),
            final(self).frames().len() == old(self).frames().len(),
            match r {
                Some(k) => 1 <= k < final(self).frames().len() - 2 && final(self).frames()[k as int].len() == 0,
                None => true,
            },
    {
        let ghost n = self.frames().len();
        let total = self.f.len();
        assert(self.f@.len() == n);
        let mut k: usize = 1;
        while k < self.f.len() - 2
            invariant
                1 <= k,
                self.wf(),
                n == old(self).frames().len(),
                n <= usize::MAX,
                self.frames().len() == n,
                self.f@.len() == n,
                n >= 2,
                self.system() == old(self).system(),
                self.is_verbose() == old(self).is_verbose(),
            decreases n - k,
        {
            let mut idx: usize = 0;
            assert(self.f@.len() == n);
            while idx < self.f[k].len()
                invariant
                    1 <= k,
                    k + 2 < n,
                    n == old(self).frames().len(),
                    n <= usize::MAX,
                    self.wf(),
                    self.frames().len() == n,
                    self.f@.len() == n,
                    self.system() == old(self).system(),
                    self.is_verbose() == old(self).is_verbose(),
                decreases self.frames()[k as int].len(), self.frames()[k as int].len() - idx,
            {
                assert(self.frames()[k as int] == cube_views(self.f@[k as int]@));
                let c = self.f[k][idx].clone();
                let ghost fk = self.frames()[k as int];
                proof {
                    assert(fk == cube_views(self.f@[k as int]@));
                    assert(fk[idx as int] == c@);
                    assert(cube_fits(self.system(), fk[idx as int]));
                }
                let t = self.z_solve_relative(&TCube { cube: c, frame: Frame::At(k + 1) }, SolveRelativeParam::NoInd);
                if t.frame != Frame::Null {
                    self.add_blocked_cube(&t);
                    proof {
                        assert(subsumed_by(t.cube@, fk[idx as int]));
                        assert(filtered_frame(fk, self.frames()[k as int], t.cube@));
                        assert(self.frames()[k as int].len() < fk.len());
                    }
                } else {
                    idx = idx + 1;
                }
            }
            if self.f[k].len() == 0 {
                proof {
                    assert(self.frames()[k as int] == cube_views(self.f@[k as int]@));
                }
                return Some(k);
            }
            k = k + 1;
        }
        None
    }

    /// Blocks a bad cube of frame `depth`, and every cube found on the way that reaches it:
    /// true when all are blocked (frame `depth` then holds no state of the bad cube), false when
    /// a cube of frame 0 reaches it (a chain of cubes then leads from an initial state to the
    /// bad cube), none when the budget of rounds runs out first. Each round takes one from the
    /// budget.
    fn rec_block_cube(&mut self, s0: TCube, budget: &mut u64) -> (r: Option<bool>)
        requires
            old(self).wf(),
            old(self).frames().len() >= 2,
            s0.frame matches Frame::At(d) && d + 2 == old(self).frames().len(),
            old(self).frames().len() == 2 ==> meets_initial_states(old(self).system(), s0.cube@),
            cube_fits(old(self).system(), s0.cube@),
        ensures
            final(self).wf(),
            final(self).system() == old(self).system(),
            final(self).is_verbose() == old(self).is_verbose(),
            final(self).frames().len() == old(self).frames().len(),
            *final(budget) <= *old(budget),
            r == Some(true) ==> !satisfiable(blocked_query(final(self).system(), final(self).frames(), old(self).frames().len() - 2, s0.cube@)),
            r == Some(false) ==> reaches(old(self).system(), s0.cube@),
            r is None ==> *final(budget) == 0,
    {
        self.fin_state.check_wf();
        let ghost n = self.frames().len();
        let ghost bad = s0.cube@;
        let ghost mut chains: Seq<Seq<Seq<Literal>>> = seq![seq![bad]];
        let total = self.f.len();
        let depth = total - 2;
        let mut store: Vec<Cube> = Vec::new();
        store.push(s0.cube.clone());
        let mut q = obligations_new();
        obligations_push(&mut q, (depth, 0), usize::MAX - depth);
        assert(obligations(q).contains_key((depth, 0)));
        loop
            invariant
                bad == s0.cube@,
                forall|j: int| 0 <= j < self.system().state_vars.len() ==> #[trigger] self.system().state_vars[j] <= max_variable_number(),
                chains.len() == store@.len(),
                forall|k: int| 0 <= k < chains.len() ==> (#[trigger] chains[k]).len() >= 1 && chains[k][0] == store@[k]@
                    && chains[k].last() == bad && cube_chain(self.system(), chains[k]),
                forall|item: (usize, usize)| #[trigger] obligations(q).contains_key(item) && item.0 == 0
                    ==> meets_initial_states(self.system(), store@[item.1 as int]@),
                self.wf(),
                self.frames().len() == n,
                n == old(self).frames().len(),
                n == total,
                depth + 2 == total,
                self.system() == old(self).system(),
                self.is_verbose() == old(self).is_verbose(),
                *budget <= *old(budget),
                forall|k: int| 0 <= k < store@.len() ==> cube_fits(self.system(), #[trigger] store@[k]@),
                forall|item: (usize, usize)| #[trigger] obligations(q).contains_key(item) ==> item.0 <= depth && item.1 < store@.len(),
                (exists|item: (usize, usize)| #[trigger] obligations(q).contains_key(item) && item.0 == depth && store@[item.1 as int]@ == bad)
                    || (depth >= 1 && !satisfiable(blocked_query(self.system(), self.frames(), depth as int, bad))),
            decreases *budget,
        {
            if *budget == 0 {
                return None;
            }
            *budget = *budget - 1;
            let ghost q_before = obligations(q);
            let ghost frames_before = self.frames();
            let popped = obligations_pop(&mut q);
            let (s_frame, id) = match popped {
                None => {
                    proof {
                        if exists|item: (usize, usize)| #[trigger] q_before.contains_key(item) && item.0 == depth && store@[item.1 as int]@ == bad {
                            let item = choose|item: (usize, usize)| #[trigger] q_before.contains_key(item) && item.0 == depth && store@[item.1 as int]@ == bad;
                            assert(Map::<(usize, usize), usize>::empty().contains_key(item));
                        }
                        assert(depth >= 1 && !satisfiable(blocked_query(self.system(), self.frames(), depth as int, bad)));
                        assert(depth as int == old(self).frames().len() - 2);
                        assert(bad == s0.cube@);
                    }
                    return Some(true);
                },
                Some((item, _)) => item,
            };
            let ghost was_witness = s_frame == depth && store@[id as int]@ == bad;
            let ghost q_after_pop = obligations(q);
            let ghost store_before = store@;
            let ghost witness_left = exists|item: (usize, usize)| #[trigger] q_after_pop.contains_key(item) && item.0 == depth && store@[item.1 as int]@ == bad;
            proof {
                if !was_witness && exists|item: (usize, usize)| #[trigger] q_before.contains_key(item) && item.0 == depth && store@[item.1 as int]@ == bad {
                    let w = choose|item: (usize, usize)| #[trigger] q_before.contains_key(item) && item.0 == depth && store@[item.1 as int]@ == bad;
                    assert(w != (s_frame, id));
                    assert(q_after_pop.contains_key(w));
                }
                assert(was_witness || witness_left || (depth >= 1 && !satisfiable(blocked_query(self.system(), frames_before, depth as int, bad))));
            }
            if s_frame == 0 {
                proof {
                    let chain = chains[id as int];
                    assert(meets_initial_states(self.system(), chain[0]));
                    assert(chain.last() == bad);
                }
                return Some(false);
            }
            let s = TCube { cube: store[id].clone(), frame: Frame::At(s_frame) };
            let ghost frames_at_query = self.frames();
            let blocked = self.is_blocked(&s);
            if !blocked {
                let z = self.z_solve_relative(&s, SolveRelativeParam::ExtractModel);
                if z.frame != Frame::Null {
                    let mut z = self.generalize(&z);
                    let mut z_frame = s_frame;
                    while z_frame + 1 < depth
                        invariant
                            self.wf(),
                            self.system() == old(self).system(),
                            self.is_verbose() == old(self).is_verbose(),
                            self.frames() == frames_before,
                            self.frames().len() == n,
                            n == total,
                            depth + 2 == total,
                            1 <= s_frame <= z_frame <= depth,
                            z.frame == Frame::At(z_frame),
                            cube_fits(self.system(), z.cube@),
                            subsumed_by(z.cube@, s.cube@),
                        decreases depth - z_frame,
                    {
                        let next = TCube { cube: z.cube.clone(), frame: Frame::At(z_frame + 1) };
                        let potential = self.z_solve_relative(&next, SolveRelativeParam::DoNotExtractModel);
                        if potential.frame == Frame::Null {
                            break;
                        }
                        z = potential;
                        z_frame = z_frame + 1;
                    }
                    self.add_blocked_cube(&z);
                    proof {
                        let nf = self.frames();
                        if depth >= 1 && !satisfiable(blocked_query(self.system(), frames_before, depth as int, bad)) {
                            lemma_blocked_stays(self.system(), frames_before, nf, depth as int, bad);
                        }
                        if was_witness {
                            let kk = if z_frame < n - 1 { z_frame as int } else { n - 1 };
                            assert(1 <= depth <= kk);
                            assert(!satisfiable(blocked_query(self.system(), nf, depth as int, z.cube@)));
                            lemma_blocked_subcube(self.system(), nf, depth as int, z.cube@, bad);
                        }
                    }
                    if s_frame < depth {
                        let new_id = store.len();
                        store.push(s.cube);
                        proof {
                            chains = chains.push(chains[id as int]);
                        }
                        obligations_push(&mut q, (s_frame + 1, new_id), usize::MAX - (s_frame + 1));
                    }
                } else {
                    proof {
                        let a = choose|a: Assignment|
                            assignment_satisfies(a, relative_query(self.system(), frames_at_query, s_frame as int, s.cube@, true))
                                && same_literals(z.cube@, #[trigger] state_literals_of(self.system(), a));
                        lemma_predecessor_step(self.system(), frames_at_query, s_frame as int, s.cube@, z.cube@, a);
                        let old_chain = chains[id as int];
                        let new_chain = seq![z.cube@] + old_chain;
                        assert forall|k: int| 0 <= k < new_chain.len() - 1 implies cube_step(self.system(), #[trigger] new_chain[k], new_chain[k + 1]) by {
                            if k > 0 {
                                assert(new_chain[k] == old_chain[k - 1]);
                                assert(new_chain[k + 1] == old_chain[k]);
                            }
                        }
                        assert(new_chain.last() == old_chain.last());
                        chains = chains.push(new_chain);
                    }
                    let z_id = store.len();
                    store.push(z.cube);
                    obligations_push(&mut q, (s_frame - 1, z_id), usize::MAX - (s_frame - 1));
                    proof {
                        chains = chains.push(chains[id as int]);
                    }
                    let s_id = store.len();
                    store.push(s.cube);
                    obligations_push(&mut q, (s_frame, s_id), usize::MAX - s_frame);
                    proof {
                        assert(obligations(q).contains_key((s_frame, s_id)));
                        assert(store@[s_id as int]@ == s.cube@);
                    }
                }
            }
            proof {
                assert(forall|k: int| 0 <= k < store_before.len() ==> store@[k] == store_before[k]);
                if witness_left {
                    let w = choose|item: (usize, usize)| #[trigger] q_after_pop.contains_key(item) && item.0 == depth && store_before[item.1 as int]@ == bad;
                    assert(obligations(q).contains_key(w));
                    assert(store@[w.1 as int]@ == bad);
                } else if was_witness {
                    if blocked {
                        assert(s.cube@ == bad);
                    }
                } else {
                    if self.frames() == frames_before {
                    }
                }
            }
        }
    }

    /// The counterexample that blocking found from `depth`, checked as `confirm_counterexample`
    /// does.
    fn counterexample_from(&self, depth: usize, budget: &mut u64) -> (r: Option<PDRResult>)
        ensures
            *final(budget) <= *old(budget),
            match r {
                Some(PDRResult::Proof { .. }) => false,
                Some(PDRResult::CTX { depth: d }) => satisfiable(bmc_formula(self.system(), d as nat))
                    && no_ctx_between(self.system(), depth as int, d as int) && depth <= d,
                None => *final(budget) == 0 || ctx_search_stuck(self.system(), depth as int),
            },
    {
        let confirmed = confirm_counterexample::<T>(&self.fin_state, depth, budget);
        proof {
            match confirmed {
                Some(d) => {
                    let found = depth as int;
                    assert(no_ctx_between(self.system(), found, d as int));
                },
                None => {
                    if *budget != 0 {
                        assert(ctx_search_stuck(self.system(), depth as int));
                    }
                },
            }
        }
        match confirmed {
            Some(d) => {
                let r = PDRResult::CTX { depth: d };
                proof {
                    assert(satisfiable(bmc_formula(self.system(), d as nat)));
                    let found = depth as int;
                    assert(0 <= found <= d);
                    assert(no_ctx_between(self.system(), found, d as int));
                }
                Some(r)
            },
            None => None,
        }
    }

    /// The search, from frames `F_0` and `F_inf`, taking one round of the budget for each bad
    /// state looked for and each blocking or checking step.
    #[verifier::spinoff_prover]
    fn search(&mut self, budget: &mut u64) -> (r: Option<PDRResult>)
        requires
            old(self).wf(),
        ensures
            final(self).system() == old(self).system(),
            *final(budget) <= *old(budget),
            match r {
                Some(PDRResult::Proof { invariant }) => {
                    &&& invariant_verdict(old(self).system(), invariant@) == Ok::<(), InvariantError>(())
                    &&& exists|i: int| 1 <= i < final(self).frames().len() - 2 && #[trigger] final(self).frames()[i].len() == 0
                        && invariant@ == frame_formula(final(self).system(), final(self).frames(), i)
                },
                Some(PDRResult::CTX { depth }) => satisfiable(bmc_formula(old(self).system(), depth as nat))
                    && exists|found: int| 0 <= found <= depth && #[trigger] no_ctx_between(old(self).system(), found, depth as int),
                None => *final(budget) == 0 || exists|found: int| #[trigger] ctx_search_stuck(old(self).system(), found),
            },
    {
        self.fin_state.check_wf();
        let mut frames: Vec<Vec<Cube>> = Vec::new();
        frames.push(Vec::new());
        frames.push(Vec::new());
        self.f = frames;
        proof {
            assert forall|d: int, j: int| 0 <= d < self.frames().len() && 0 <= j < self.frames()[d].len()
                implies cube_fits(self.system(), #[trigger] self.frames()[d][j]) by {
                assert(self.f@[d]@.len() == 0);
            }
        }
        while *budget > 0
            invariant
                self.wf(),
                self.frames().len() >= 2,
                self.system() == old(self).system(),
                self.system().max_var < max_variable_number(),
                forall|j: int| 0 <= j < self.system().state_vars.len() ==> 1 <= #[trigger] self.system().state_vars[j] <= self.system().max_var,
                *budget <= *old(budget),
            decreases *budget,
        {
            *budget = *budget - 1;
            match self.z_get_bad_cube() {
                Some(c) => {
                    let depth = self.f.len() - 2;
                    proof {
                        if depth == 0 {
                            let q = bad_query(self.system(), self.frames());
                            let a = choose|a: Assignment| assignment_satisfies(a, q)
                                && same_literals(c@, #[trigger] state_literals_of(self.system(), a));
                            lemma_state_meets_initial(self.system(), q, c@, a);
                        }
                    }
                    match self.rec_block_cube(TCube { cube: c, frame: Frame::At(depth) }, budget) {
                        None => {
                            return None;
                        },
                        Some(true) => {},
                        Some(false) => {
                            return self.counterexample_from(depth, budget);
                        },
                    }
                },
                None => {
                    self.new_frame();
                    match self.propagate_blocked_cubes() {
                        Some(i) => {
                            let candidate = self.get_r_i(i);
                            proof {
                                lemma_blocking_fits(self.system(), self.frames(), i as int);
                            }
                            if self.fin_state.check_invariant::<T>(&candidate).is_ok() {
                                assert(self.frames()[i as int].len() == 0);
                                return Some(PDRResult::Proof { invariant: candidate });
                            }
                        },
                        None => {},
                    }
                },
            }
        }
        None
    }

    /// Runs the search (see `search`) with the given budget of rounds, and adds the rounds it
    /// took to the count of rounds. An invariant is given only after `check_invariant` accepted
    /// it, and it is the formula of a frame left empty; a counterexample only at the first depth
    /// from the one where blocking failed whose bounded model checking formula is satisfiable.
    /// None only when the budget ran out, or when that first depth cannot be asked for.
    pub fn prove_with_budget(&mut self, budget: &mut u64) -> (r: Option<PDRResult>)
        requires
            old(self).wf(),
        ensures
            final(self).system() == old(self).system(),
            *final(budget) <= *old(budget),
            final(self).rounds_taken() == count_after_many(old(self).rounds_taken(), (*old(budget) - *final(budget)) as u64),
            match r {
                Some(PDRResult::Proof { invariant }) => {
                    &&& invariant_verdict(old(self).system(), invariant@) == Ok::<(), InvariantError>(())
                    &&& exists|i: int| 1 <= i < final(self).frames().len() - 2 && #[trigger] final(self).frames()[i].len() == 0
                        && invariant@ == frame_formula(final(self).system(), final(self).frames(), i)
                },
                Some(PDRResult::CTX { depth }) => satisfiable(bmc_formula(old(self).system(), depth as nat))
                    && exists|found: int| 0 <= found <= depth && #[trigger] no_ctx_between(old(self).system(), found, depth as int),
                None => *final(budget) == 0 || exists|found: int| #[trigger] ctx_search_stuck(old(self).system(), found),
            },
    {
        let start = *budget;
        let before = self.rounds;
        let r = self.search(budget);
        let ghost searched = self.frames();
        let ghost system = self.system();
        let used = start - *budget;
        self.rounds = if before <= 0xffff_ffff_ffff_ffff - used {
            before + used
        } else {
            0xffff_ffff_ffff_ffff
        };
        assert(self.frames() == searched);
        assert(self.system() == system);
        r
    }

    /// Runs the search with a budget of `u64::MAX` rounds (see `prove_with_budget`). None only
    /// when all those rounds were taken, or when the first satisfiable depth of a counterexample
    /// cannot be asked for.
    pub fn prove(&mut self) -> (r: Option<PDRResult>)
        requires
            old(self).wf(),
        ensures
            final(self).system() == old(self).system(),
            match r {
                Some(PDRResult::Proof { invariant }) => {
                    &&& invariant_verdict(old(self).system(), invariant@) == Ok::<(), InvariantError>(())
                    &&& exists|i: int| 1 <= i < final(self).frames().len() - 2 && #[trigger] final(self).frames()[i].len() == 0
                        && invariant@ == frame_formula(final(self).system(), final(self).frames(), i)
                },
                Some(PDRResult::CTX { depth }) => satisfiable(bmc_formula(old(self).system(), depth as nat))
                    && exists|found: int| 0 <= found <= depth && #[trigger] no_ctx_between(old(self).system(), found, depth as int),
                None => final(self).rounds_taken() == u64::MAX || exists|found: int| #[trigger] ctx_search_stuck(old(self).system(), found),
            },
    {
        let mut budget: u64 = 0xffff_ffff_ffff_ffff;
        self.prove_with_budget(&mut budget)
    }
}

} // verus!
