//! Bounded model checking: the formulas that say that an unsafe state is reached in a given
//! number of steps, and the decisions of the search over the depths.

use crate::formulas::literal::{Literal, VariableType};
use crate::formulas::CNF;
use crate::models::finite_state_transition_system::features::{
    bad_formula, bump_cnf, bump_fits, bump_literals, cnf_bump_fits, init_formula, invariant_verdict,
    step_formula, InvariantError,
};
use crate::models::finite_state_transition_system::{FiniteStateTransitionSystem, FstsView};
use crate::formulas::cnf::is_max_var_of;
use crate::formulas::literal::max_variable_number;
use crate::formulas::semantics::{
    all_valid, clause_holds, cnf_holds, lemma_max_var, literal_holds, max_var, satisfiable, Valuation,
};
use crate::solvers::sat::assignment::assignment_satisfies;
use crate::solvers::sat::sat_response::response_answers;
use crate::solvers::sat::{Assignment, SatResponse, StatelessSatSolver};
use vstd::prelude::*;

verus! {

/// What a bounded search finds.
pub enum BMCResult {
    /// No unsafe state is reached in up to `depth_reached` steps (-1 when not even the initial
    /// states were checked).
    NoCTX { depth_reached: i32 },
    /// An unsafe state is reached in `depth` steps; the assignment gives the states and inputs
    /// of the counterexample.
    CTX { assignment: Assignment, depth: VariableType },
}

/// What happened to the SAT call of one depth.
pub enum BmcEvent {
    /// The time ran out before the answer came.
    TimeOut,
    /// The SAT solver answered.
    Answer(SatResponse),
}

/// What the search does next.
pub enum BmcStep {
    /// The search is over.
    Done(BMCResult),
    /// The search goes on at this depth.
    Next(u32),
}

/// The transition relation unrolled `n` times: copy `d` relates state `d` to state `d + 1`.
pub open spec fn unrolled_transitions(v: FstsView, n: nat) -> Set<Seq<Literal>>
    decreases n,
{
    if n == 0 {
        Set::empty()
    } else {
        unrolled_transitions(v, (n - 1) as nat).union(bump_cnf(v.transition, v.max_var * ((n - 1) as nat)))
    }
}

/// The unsafe states, with the wires of the properties.
pub open spec fn not_p0(v: FstsView) -> Set<Seq<Literal>> {
    set![v.unsafety].union(v.translation)
}

/// The formula that holds when an initial state reaches an unsafe state in `depth` steps.
pub open spec fn bmc_formula(v: FstsView, depth: nat) -> Set<Seq<Literal>> {
    v.initial.union(unrolled_transitions(v, depth)).union(bump_cnf(not_p0(v), v.max_var * depth))
}

/// Whether the copies of the formulas up to copy `depth` fit in the literals.
pub open spec fn unrolling_fits(v: FstsView, depth: nat) -> bool {
    &&& v.max_var * depth <= u32::MAX
    &&& cnf_bump_fits(v.transition, v.max_var * depth)
    &&& cnf_bump_fits(not_p0(v), v.max_var * depth)
}

/// What fits when moved up by `k` also fits when moved up by less.
pub(crate) proof fn lemma_fits_less(f: Set<Seq<Literal>>, k: nat, k2: nat)
    requires
        cnf_bump_fits(f, k),
        k2 <= k,
    ensures
        cnf_bump_fits(f, k2),
{
    assert forall|c: Seq<Literal>| #[trigger] f.contains(c) implies bump_fits(c, k2) by {
        assert(bump_fits(c, k));
    }
}

/// The decision of the search after the event of one depth.
pub open spec fn bmc_step(depth: u32, search_depth_limit: u32, event: BmcEvent) -> BmcStep {
    match event {
        BmcEvent::TimeOut => BmcStep::Done(BMCResult::NoCTX { depth_reached: (depth - 1) as i32 }),
        BmcEvent::Answer(SatResponse::Sat { assignment }) => BmcStep::Done(BMCResult::CTX { assignment, depth }),
        BmcEvent::Answer(SatResponse::UnSat) => if depth >= search_depth_limit {
            BmcStep::Done(BMCResult::NoCTX { depth_reached: search_depth_limit as i32 })
        } else {
            BmcStep::Next((depth + 1) as u32)
        },
    }
}

/// Whether the event of depth `depth` is a time-out or a correct answer for the formula of that
/// depth.
pub open spec fn event_is_correct(v: FstsView, depth: nat, event: BmcEvent) -> bool {
    match event {
        BmcEvent::TimeOut => true,
        BmcEvent::Answer(r) => response_answers(r, bmc_formula(v, depth)),
    }
}

/// A search that went on through depths `0..n` and then made its decision at depth `n`, on
/// correct answers, decides rightly: a counterexample found at depth `n` reaches an unsafe state
/// in `n` steps and none is reached in fewer; when it ends without one, no unsafe state is
/// reached in up to `depth_reached` steps; when it goes on, none is reached in up to `n` steps.
pub proof fn law_bmc_search(v: FstsView, search_depth_limit: u32, events: Seq<BmcEvent>, n: nat)
    requires
        n <= search_depth_limit <= i32::MAX,
        events.len() == n + 1,
        forall|d: int| 0 <= d < n ==> bmc_step(d as u32, search_depth_limit, #[trigger] events[d]) == BmcStep::Next((d + 1) as u32),
        forall|d: int| 0 <= d <= n ==> event_is_correct(v, d as nat, #[trigger] events[d]),
    ensures
        forall|j: nat| j < n ==> !satisfiable(#[trigger] bmc_formula(v, j)),
        match bmc_step(n as u32, search_depth_limit, events[n as int]) {
            BmcStep::Done(BMCResult::CTX { assignment, depth }) => {
                &&& depth == n
                &&& assignment_satisfies(assignment, bmc_formula(v, n))
            },
            BmcStep::Done(BMCResult::NoCTX { depth_reached }) => forall|j: nat| j <= depth_reached ==> !satisfiable(
                #[trigger] bmc_formula(v, j),
            ),
            BmcStep::Next(_) => !satisfiable(bmc_formula(v, n)),
        },
{
    assert forall|j: nat| j < n implies !satisfiable(#[trigger] bmc_formula(v, j)) by {
        assert(bmc_step(j as u32, search_depth_limit, events[j as int]) == BmcStep::Next((j + 1) as u32));
        assert(event_is_correct(v, j, events[j as int]));
        match events[j as int] {
            BmcEvent::TimeOut => {},
            BmcEvent::Answer(r) => {
                match r {
                    SatResponse::Sat { assignment } => {},
                    SatResponse::UnSat => {},
                }
            },
        }
    }
    assert(event_is_correct(v, n, events[n as int]));
}

/// Moving up by `k` fits when the largest variable moved up by `k` does.
proof fn lemma_fits(f: Set<Seq<Literal>>, m: nat, k: nat)
    requires
        is_max_var_of(f, m),
        forall|c: Seq<Literal>| #[trigger] f.contains(c) ==> all_valid(c),
        m == 0 || m + k <= max_variable_number(),
    ensures
        cnf_bump_fits(f, k),
{
    assert forall|c: Seq<Literal>| #[trigger] f.contains(c) implies bump_fits(c, k) by {
        lemma_max_var(c);
        if m == 0 {
            assert forall|i: int| 0 <= i < c.len() implies (#[trigger] c[i]).var() + k <= max_variable_number() by {
                assert(c[i].var() <= max_var(c));
                assert(all_valid(c));
                assert(c[i].is_valid());
            }
        }
    }
}

/// Moving up by `k` does not fit when the largest variable moved up by `k` does not.
proof fn lemma_not_fits(f: Set<Seq<Literal>>, m: nat, k: nat)
    requires
        is_max_var_of(f, m),
        m > 0,
        m + k > max_variable_number(),
    ensures
        !cnf_bump_fits(f, k),
{
    let c = choose|c: Seq<Literal>| #[trigger] f.contains(c) && max_var(c) == m;
    lemma_max_var(c);
    let i = choose|i: int| 0 <= i < c.len() && (#[trigger] c[i]).var() == max_var(c);
    assert(!bump_fits(c, k));
    assert(f.contains(c));
}

/// The wires of the properties in every copy of the state from 0 up to `depth`.
pub open spec fn wires_up_to(v: FstsView, depth: nat) -> Set<Seq<Literal>>
    decreases depth,
{
    let copy = bump_cnf(v.translation, v.max_var * depth);
    if depth == 0 {
        copy
    } else {
        wires_up_to(v, (depth - 1) as nat).union(copy)
    }
}

/// The valuation that reads variable `x` where `a` has variable `x + k`.
pub open spec fn shifted(a: Valuation, k: nat) -> Valuation {
    |x: nat| a(x + k)
}

/// A CNF moved up by `k` holds under a valuation exactly when the CNF holds under the
/// valuation read `k` variables up.
pub(crate) proof fn lemma_holds_moved_up(f: Set<Seq<Literal>>, k: nat, a: Valuation)
    requires
        cnf_bump_fits(f, k),
    ensures
        cnf_holds(bump_cnf(f, k), a) == cnf_holds(f, shifted(a, k)),
{
    assert forall|c: Seq<Literal>| #[trigger] f.contains(c) implies clause_holds(bump_literals(c, k), a) == clause_holds(
        c,
        shifted(a, k),
    ) by {
        assert(bump_fits(c, k));
        assert forall|i: int| 0 <= i < c.len() implies literal_holds(#[trigger] bump_literals(c, k)[i], a) == literal_holds(
            c[i],
            shifted(a, k),
        ) by {
            Literal::lemma_make(c[i].var() + k, c[i].neg());
        }
        if clause_holds(bump_literals(c, k), a) {
            let i = choose|i: int| 0 <= i < c.len() && literal_holds(#[trigger] bump_literals(c, k)[i], a);
            assert(literal_holds(c[i], shifted(a, k)));
        }
        if clause_holds(c, shifted(a, k)) {
            let i = choose|i: int| 0 <= i < c.len() && literal_holds(#[trigger] c[i], shifted(a, k));
            assert(literal_holds(bump_literals(c, k)[i], a));
        }
    }
    if cnf_holds(bump_cnf(f, k), a) {
        assert forall|c: Seq<Literal>| #[trigger] f.contains(c) implies clause_holds(c, shifted(a, k)) by {
            assert(bump_cnf(f, k).contains(bump_literals(c, k)));
        }
    }
    if cnf_holds(f, shifted(a, k)) {
        assert forall|c: Seq<Literal>| #[trigger] bump_cnf(f, k).contains(c) implies clause_holds(c, a) by {
            let c0 = choose|c0: Seq<Literal>| f.contains(c0) && bump_literals(c0, k) == c;
        }
    }
}

/// Copy `i` of the transition relation is among the first `n` copies when `i < n`.
pub(crate) proof fn lemma_unrolled_has_copy(v: FstsView, n: nat, i: nat)
    requires
        i < n,
    ensures
        bump_cnf(v.transition, v.max_var * i).subset_of(unrolled_transitions(v, n)),
    decreases n,
{
    if i < n - 1 {
        lemma_unrolled_has_copy(v, (n - 1) as nat, i);
    }
}

/// Copy `i` of the wires is among the copies up to `n` when `i <= n`.
pub(crate) proof fn lemma_wires_have_copy(v: FstsView, n: nat, i: nat)
    requires
        i <= n,
    ensures
        bump_cnf(v.translation, v.max_var * i).subset_of(wires_up_to(v, n)),
    decreases n,
{
    if i < n {
        lemma_wires_have_copy(v, (n - 1) as nat, i);
    }
}

/// A CNF holds wherever a larger one does.
pub(crate) proof fn lemma_holds_subset(f: Set<Seq<Literal>>, g: Set<Seq<Literal>>, a: Valuation)
    requires
        f.subset_of(g),
        cnf_holds(g, a),
    ensures
        cnf_holds(f, a),
{
    assert forall|c: Seq<Literal>| #[trigger] f.contains(c) implies clause_holds(c, a) by {
        assert(g.contains(c));
    }
}

/// Along a trace that satisfies the formula of depth `depth` with the wires set, an invariant
/// that `check_invariant` accepts holds in state `i`.
proof fn lemma_invariant_along_trace(v: FstsView, inv: Set<Seq<Literal>>, depth: nat, a: Valuation, i: nat)
    requires
        invariant_verdict(v, inv) == Ok::<(), InvariantError>(()),
        cnf_bump_fits(v.transition, v.max_var * depth),
        cnf_bump_fits(v.translation, v.max_var * depth),
        cnf_bump_fits(inv, v.max_var * depth),
        cnf_holds(bmc_formula(v, depth).union(wires_up_to(v, depth)), a),
        i <= depth,
    ensures
        cnf_holds(bump_cnf(inv, v.max_var * i), a),
    decreases i,
{
    let m = v.max_var;
    let q = bmc_formula(v, depth).union(wires_up_to(v, depth));
    let w = wires_up_to(v, depth);
    assert(m * i <= m * depth) by (nonlinear_arith)
        requires
            i <= depth,
    ;
    assert(w.subset_of(q));
    lemma_holds_subset(w, q, a);
    assert(unrolled_transitions(v, depth).subset_of(q));
    lemma_holds_subset(unrolled_transitions(v, depth), q, a);
    if i == 0 {
        assert(m * i == 0);
        assert(shifted(a, 0) =~= a);
        lemma_holds_subset(v.initial, q, a);
        lemma_wires_have_copy(v, depth, 0);
        assert(m * 0 == 0);
        lemma_holds_subset(bump_cnf(v.translation, 0), w, a);
        lemma_fits_less(v.translation, m * depth, 0);
        lemma_holds_moved_up(v.translation, 0, a);
        assert(cnf_holds(init_formula(v), a));
        lemma_fits_less(inv, m * depth, 0);
        lemma_holds_moved_up(inv, 0, a);
    } else {
        let j = (i - 1) as nat;
        lemma_invariant_along_trace(v, inv, depth, a, j);
        let k = m * j;
        let b = shifted(a, k);
        assert(m * i == k + m) by (nonlinear_arith)
            requires
                i == j + 1,
                k == m * j,
        ;
        assert(k <= m * depth) by (nonlinear_arith)
            requires
                j <= depth,
                k == m * j,
        ;
        assert(m <= m * depth) by (nonlinear_arith)
            requires
                1 <= depth,
        ;
        // the state of copy j, with the next one, satisfies the step formula
        lemma_unrolled_has_copy(v, depth, j);
        lemma_holds_subset(bump_cnf(v.transition, k), unrolled_transitions(v, depth), a);
        lemma_fits_less(v.transition, m * depth, k);
        lemma_holds_moved_up(v.transition, k, a);
        lemma_fits_less(inv, m * depth, k);
        lemma_holds_moved_up(inv, k, a);
        lemma_wires_have_copy(v, depth, j);
        lemma_holds_subset(bump_cnf(v.translation, k), w, a);
        lemma_fits_less(v.translation, m * depth, k);
        lemma_holds_moved_up(v.translation, k, a);
        lemma_wires_have_copy(v, depth, i);
        lemma_holds_subset(bump_cnf(v.translation, m * i), w, a);
        lemma_fits_less(v.translation, m * depth, m * i);
        lemma_holds_moved_up(v.translation, m * i, a);
        assert(shifted(b, m) =~= shifted(a, m * i));
        lemma_fits_less(v.translation, m * depth, m);
        lemma_holds_moved_up(v.translation, m, b);
        assert(cnf_holds(step_formula(v, inv), b));
        assert(cnf_holds(bump_cnf(inv, m), b));
        lemma_fits_less(inv, m * depth, m);
        lemma_holds_moved_up(inv, m, b);
        lemma_fits_less(inv, m * depth, m * i);
        lemma_holds_moved_up(inv, m * i, a);
    }
}

/// An invariant that `check_invariant` accepts excludes every counterexample: no trace goes
/// from an initial state through `depth` steps to an unsafe state with the wires of the
/// properties set in each of its states.
pub proof fn law_invariant_excludes_counterexamples(v: FstsView, inv: Set<Seq<Literal>>, depth: nat)
    requires
        invariant_verdict(v, inv) == Ok::<(), InvariantError>(()),
        cnf_bump_fits(v.transition, v.max_var * depth),
        cnf_bump_fits(v.translation, v.max_var * depth),
        cnf_bump_fits(inv, v.max_var * depth),
        cnf_bump_fits(set![v.unsafety], v.max_var * depth),
    ensures
        !satisfiable(bmc_formula(v, depth).union(wires_up_to(v, depth))),
{
    let m = v.max_var;
    let q = bmc_formula(v, depth).union(wires_up_to(v, depth));
    if satisfiable(q) {
        let a = choose|a: Valuation| cnf_holds(q, a);
        lemma_invariant_along_trace(v, inv, depth, a, depth);
        // the last state is unsafe, which the invariant excludes
        let b = shifted(a, m * depth);
        lemma_holds_subset(bump_cnf(not_p0(v), m * depth), q, a);
        assert(cnf_bump_fits(not_p0(v), m * depth)) by {
            assert forall|c: Seq<Literal>| #[trigger] not_p0(v).contains(c) implies bump_fits(c, m * depth) by {
                if c != v.unsafety {
                    assert(v.translation.contains(c));
                } else {
                    assert(set![v.unsafety].contains(c));
                }
            }
        }
        lemma_holds_moved_up(not_p0(v), m * depth, a);
        lemma_holds_moved_up(inv, m * depth, a);
        assert(cnf_holds(inv.union(bad_formula(v)), b));
    }
}

/// A bounded model checker that asks a SAT solver of type `T`.
pub struct BMC<T: StatelessSatSolver> {
    verbose: bool,
    solver: T,
}

impl<T: StatelessSatSolver> BMC<T> {
    /// A checker; `verbose` asks the search to report each depth.
    pub fn new(verbose: bool) -> (r: Self)
        ensures
            r.is_verbose() == verbose,
    {
        Self { solver: T::default(), verbose }
    }

    /// Whether the search reports each depth.
    pub closed spec fn is_verbose(&self) -> bool {
        self.verbose
    }

    /// Whether the search reports each depth.
    pub fn verbose(&self) -> (r: bool)
        ensures
            r == self.is_verbose(),
    {
        self.verbose
    }

    /// The solver that the checker asks.
    pub closed spec fn solver_of(&self) -> T {
        self.solver
    }

    /// The solver that the checker asks.
    pub fn solver(&self) -> (r: &T)
        ensures
            *r == self.solver_of(),
    {
        &self.solver
    }

    /// The formula of depth `depth`: the initial states, `depth` copies of the transition
    /// relation and the unsafe states in copy `depth`; none when the copies do not fit in the
    /// literals.
    pub fn unrolled_formula(&self, fin_state: &FiniteStateTransitionSystem, depth: u32) -> (r: Option<CNF>)
        ensures
            match r {
                Some(formula) => unrolling_fits(fin_state.view(), depth as nat) && formula@ == bmc_formula(
                    fin_state.view(),
                    depth as nat,
                ),
                None => !unrolling_fits(fin_state.view(), depth as nat),
            },
    {
        let ghost v = fin_state.view();
        let mut not_p = fin_state.get_unsafety_property();
        not_p.append(&fin_state.get_state_to_safety_translation());
        let tr = fin_state.get_transition_relation();
        let max = fin_state.get_max_literal_number();
        let tr_max = tr.get_max_variable_number();
        let not_p_max = not_p.get_max_variable_number();
        tr.check_wf();
        not_p.check_wf();
        assert(max as u64 * depth as u64 <= 0xffff_ffff * 0xffff_ffff) by (nonlinear_arith)
            requires
                max <= 0xffff_ffff,
                depth <= 0xffff_ffff,
        ;
        let copies: u64 = max as u64 * depth as u64;
        assert(copies == v.max_var * depth);
        if copies > 0xffff_ffff || (tr_max > 0 && tr_max as u64 + copies > 0x7fff_ffff) || (not_p_max > 0
            && not_p_max as u64 + copies > 0x7fff_ffff) {
            proof {
                let k: nat = v.max_var * (depth as nat);
                assert(k == copies);
                if copies <= 0xffff_ffff {
                    if tr_max > 0 && tr_max as u64 + copies > 0x7fff_ffff {
                        lemma_not_fits(v.transition, tr_max as nat, k);
                    } else {
                        lemma_not_fits(not_p0(v), not_p_max as nat, k);
                    }

                }
            }
            return None;
        }
        proof {
            lemma_fits(v.transition, tr_max as nat, v.max_var * (depth as nat));
            lemma_fits(not_p0(v), not_p_max as nat, v.max_var * (depth as nat));
        }
        let mut formula = fin_state.get_initial_relation();
        let mut d: u32 = 0;
        proof {
            assert(formula@.union(unrolled_transitions(v, 0)) =~= formula@);
        }
        while d < depth
            invariant
                d <= depth,
                v == fin_state.view(),
                unrolling_fits(v, depth as nat),
                tr@ == v.transition,
                not_p@ == not_p0(v),
                formula@ == v.initial.union(unrolled_transitions(v, d as nat)),
            decreases depth - d,
        {
            proof {
                assert(v.max_var * d <= v.max_var * depth) by (nonlinear_arith)
                    requires
                        d <= depth,
                ;
                lemma_fits_less(v.transition, v.max_var * (depth as nat), v.max_var * (d as nat));
            }
            let copy = fin_state.add_tags_to_relation(&tr, d);
            formula.append(&copy);
            proof {
                assert(formula@ =~= v.initial.union(unrolled_transitions(v, (d + 1) as nat)));
            }
            d = d + 1;
        }
        let last = fin_state.add_tags_to_relation(&not_p, depth);
        formula.append(&last);
        Some(formula)
    }

    /// What the search does after the event of depth `depth`: a counterexample ends it, a
    /// time-out ends it with the depth before, and an unsatisfiable formula moves on to the next
    /// depth or, at the limit, ends it with the limit.
    pub fn step(&self, depth: u32, search_depth_limit: u32, event: BmcEvent) -> (r: BmcStep)
        requires
            depth <= search_depth_limit,
            search_depth_limit <= i32::MAX,
        ensures
            r == bmc_step(depth, search_depth_limit, event),
    {
        match event {
            BmcEvent::TimeOut => BmcStep::Done(BMCResult::NoCTX { depth_reached: depth as i32 - 1 }),
            BmcEvent::Answer(SatResponse::Sat { assignment }) => BmcStep::Done(
                BMCResult::CTX { assignment, depth },
            ),
            BmcEvent::Answer(SatResponse::UnSat) => {
                if depth >= search_depth_limit {
                    BmcStep::Done(BMCResult::NoCTX { depth_reached: search_depth_limit as i32 })
                } else {
                    BmcStep::Next(depth + 1)
                }
            },
        }
    }
}

} // verus!
