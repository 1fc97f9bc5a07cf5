//! What an invariant that `check_invariant` accepts says about bounded model checking: no
//! formula of any depth is satisfiable, because a trace can always be given wires that agree
//! with its latches and inputs.

use super::bmc::{
    bmc_formula, law_invariant_excludes_counterexamples, lemma_fits_less, lemma_holds_moved_up,
    lemma_holds_subset, lemma_unrolled_has_copy, not_p0, shifted, unrolled_transitions,
    wires_up_to,
};
use crate::formulas::literal::Literal;
use crate::formulas::semantics::{clause_holds, cnf_holds, lemma_same_literals_hold, same_literals, satisfiable, Valuation};
use crate::models::and_inverter_graph::getting::{and_path, in_cone, var_of_some};
use crate::models::and_inverter_graph::AigView;
use crate::models::finite_state_transition_system::clause_forms;
use crate::models::finite_state_transition_system::construction::{
    aig_literal, cone_lists, convertible, initial_lists, latch_initial, latch_inputs, latch_update,
    latch_update_lists, system_of, unsafe_literals, watched_literals,
};
use crate::models::finite_state_transition_system::features::{
    bump_cnf, cnf_bump_fits, invariant_verdict, InvariantError,
};
use crate::models::finite_state_transition_system::wires::{
    agree_on_nodes, is_gate, lemma_clause_agree, lemma_cone_lists_hold,
    lemma_cone_values, lemma_consistent_agree, lemma_repaired_consistent, repaired,
};
use crate::models::finite_state_transition_system::FstsView;
use vstd::prelude::*;

verus! {

broadcast use Literal::lemma_make, Literal::lemma_negate;

/// Whether variable `x` is, in copy `i` (up to `d`), the variable of an and gate.
pub open spec fn in_gate_window(a: AigView, d: nat, x: nat, i: nat) -> bool {
    &&& i <= d
    &&& a.max_var * i < x
    &&& x <= a.max_var * i + a.max_var
    &&& is_gate(a, x - a.max_var * i)
}

/// The valuation that gives the and gates of every copy up to `d` the values of their inputs
/// in that copy, and every other variable its value under `alpha`.
pub open spec fn stitched(a: AigView, alpha: Valuation, d: nat) -> Valuation {
    |x: nat|
        if exists|i: nat| in_gate_window(a, d, x, i) {
            let i = choose|i: nat| in_gate_window(a, d, x, i);
            repaired(a, shifted(alpha, a.max_var * i))((x - a.max_var * i) as nat)
        } else {
            alpha(x)
        }
}

/// A variable lies in one copy only.
proof fn lemma_window_unique(m: nat, x: nat, i: nat, j: nat)
    requires
        m * i < x <= m * i + m,
        m * j < x <= m * j + m,
    ensures
        i == j,
{
    if i < j {
        assert(m * i + m <= m * j) by (nonlinear_arith)
            requires
                i < j,
        ;
    }
    if j < i {
        assert(m * j + m <= m * i) by (nonlinear_arith)
            requires
                j < i,
        ;
    }
}

/// The stitched valuation at variable `y` of copy `i`.
proof fn lemma_stitched_at(a: AigView, alpha: Valuation, d: nat, i: nat, y: nat)
    requires
        1 <= y <= a.max_var,
    ensures
        stitched(a, alpha, d)(a.max_var * i + y) == (if i <= d && is_gate(a, y as int) {
            repaired(a, shifted(alpha, a.max_var * i))(y)
        } else {
            alpha(a.max_var * i + y)
        }),
{
    let m = a.max_var;
    let x: nat = m * i + y;
    if exists|j: nat| in_gate_window(a, d, x, j) {
        let j = choose|j: nat| in_gate_window(a, d, x, j);
        lemma_window_unique(m, x, i, j);
    }
    if i <= d && is_gate(a, y as int) {
        assert(in_gate_window(a, d, x, i));
    }
}

/// In every copy up to `d`, the stitched valuation is the repaired valuation of that copy.
proof fn lemma_copy_repaired(a: AigView, alpha: Valuation, d: nat, i: nat)
    requires
        i <= d,
    ensures
        agree_on_nodes(a, shifted(stitched(a, alpha, d), a.max_var * i), repaired(a, shifted(alpha, a.max_var * i))),
{
    let m = a.max_var;
    assert forall|y: nat| 1 <= y <= m implies #[trigger] shifted(stitched(a, alpha, d), m * i)(y) == repaired(
        a,
        shifted(alpha, m * i),
    )(y) by {
        lemma_stitched_at(a, alpha, d, i, y);
        assert(y + m * i == m * i + y);
    }
}

/// The wires of every copy up to `d` hold under the stitched valuation.
proof fn lemma_stitched_wires(a: AigView, b: bool, v: FstsView, alpha: Valuation, d: nat, i: nat)
    requires
        system_of(a, b, v),
        i <= d,
    ensures
        cnf_holds(v.translation, shifted(stitched(a, alpha, d), v.max_var * i)),
{
    let w = watched_literals(a, b);
    let rep = repaired(a, shifted(alpha, v.max_var * i));
    lemma_copy_repaired(a, alpha, d, i);
    lemma_repaired_consistent(a, shifted(alpha, v.max_var * i), w);
    lemma_consistent_agree(a, w, rep, shifted(stitched(a, alpha, d), v.max_var * i));
    lemma_cone_lists_hold(a, w, shifted(stitched(a, alpha, d), v.max_var * i));
}

/// The literals of the system's unsafe states name, for each bad-state property, the variable
/// of a watched literal.
proof fn lemma_unsafe_vars(a: AigView, b: bool, l: Literal)
    requires
        a.well_formed(),
        convertible(a, b),
        unsafe_literals(a, b).contains(l),
    ensures
        1 <= l.var() <= a.max_var,
        var_of_some(watched_literals(a, b), l.var() as int),
{
    let xs = a.bad + (if b {
        a.outputs
    } else {
        Seq::empty()
    });
    let k = choose|k: int| 0 <= k < unsafe_literals(a, b).len() && unsafe_literals(a, b)[k] == l;
    assert(unsafe_literals(a, b)[k] == aig_literal(xs[k]));
    let x = xs[k];
    if k < a.bad.len() {
        assert(x == a.bad[k]);
        assert(a.literal_ok(a.bad[k]));
    } else {
        assert(x == a.outputs[k - a.bad.len()]);
        assert(a.literal_ok(a.outputs[k - a.bad.len()]));
    }
    assert(x >= 2);
    Literal::lemma_make(x / 2, x % 2 == 1);
    assert(watched_literals(a, b) =~= xs) by {
        assert(a.constraints =~= Seq::<nat>::empty());
    }
    assert(watched_literals(a, b)[k] / 2 == l.var());
}

/// Copy `i` (below `d`) of the transition relation holds under the stitched valuation when it
/// holds under `alpha`: the next latches are untouched, and the gates that the transition
/// relation constrains already have the values of their inputs.
proof fn lemma_stitched_transition(a: AigView, b: bool, v: FstsView, alpha: Valuation, d: nat, i: nat)
    requires
        system_of(a, b, v),
        i < d,
        cnf_holds(v.transition, shifted(alpha, v.max_var * i)),
    ensures
        cnf_holds(v.transition, shifted(stitched(a, alpha, d), v.max_var * i)),
{
    let m = v.max_var;
    let sg = shifted(alpha, m * i);
    let st = stitched(a, alpha, d);
    let sg2 = shifted(st, m * i);
    let li = latch_inputs(a);
    let cone = clause_forms(cone_lists(a, li));
    let updates = clause_forms(latch_update_lists(a));
    lemma_holds_subset(cone, v.transition, sg);
    lemma_holds_subset(updates, v.transition, sg);
    lemma_cone_lists_hold(a, li, sg);
    lemma_copy_repaired(a, alpha, d, i);
    lemma_repaired_consistent(a, sg, li);
    lemma_consistent_agree(a, li, repaired(a, sg), sg2);
    lemma_cone_lists_hold(a, li, sg2);
    assert(m * (i + 1) == m * i + m) by (nonlinear_arith);
    assert forall|c: Seq<Literal>| #[trigger] updates.contains(c) implies clause_holds(c, sg2) by {
        let l = choose|l: Seq<Literal>| #[trigger] latch_update_lists(a).contains(l) && same_literals(c, l);
        let j = choose|j: int| 0 <= j < a.num_latches && #[trigger] latch_update(a, j).contains(l);
        let k = 1 + a.num_inputs + j;
        assert(a.node_ok(k));
        let n = a.nodes[k];
        let lv = n.lit / 2;
        assert(lv == k);
        assert(!is_gate(a, k));
        assert(a.literal_ok(n.latch_input));
        lemma_same_literals_hold(c, l, sg);
        assert forall|q: int| 0 <= q < c.len() implies sg(#[trigger] c[q].var()) == sg2(c[q].var()) by {
            assert(c.contains(c[q]));
            assert(l.contains(c[q]));
            let after = Literal::spec_make(lv + m, false);
            Literal::lemma_make(lv + m, false);
            if c[q].var() == lv + m {
                lemma_stitched_at(a, alpha, d, i + 1, lv);
                assert(lv + m + m * i == m * (i + 1) + lv);
            } else {
                let x = n.latch_input;
                assert(x >= 2);
                Literal::lemma_make(x / 2, x % 2 == 1);
                assert(c[q].var() == x / 2);
                let y = (x / 2) as int;
                assert(1 <= y <= m);
                if is_gate(a, y) {
                    assert(li[j] == x);
                    assert(var_of_some(li, y));
                    assert(and_path(a, seq![y]));
                    assert(in_cone(a, li, y)) by {
                        assert(seq![y][0] == y);
                        assert(seq![y].last() == y);
                    }
                    lemma_cone_values(a, li, sg, y);
                }
            }
        }
        lemma_clause_agree(c, sg, sg2);
    }
}

/// The transition relation unrolled `n` times holds when each of its copies does.
proof fn lemma_unrolled_holds(v: FstsView, n: nat, s: Valuation)
    requires
        forall|i: nat| i < n ==> #[trigger] cnf_holds(bump_cnf(v.transition, v.max_var * i), s),
    ensures
        cnf_holds(unrolled_transitions(v, n), s),
    decreases n,
{
    if n > 0 {
        lemma_unrolled_holds(v, (n - 1) as nat, s);
        assert(cnf_holds(bump_cnf(v.transition, v.max_var * ((n - 1) as nat)), s));
    }
}

/// The wires of every copy up to `n` hold when those of each copy do.
proof fn lemma_wires_up_to_hold(v: FstsView, n: nat, s: Valuation)
    requires
        forall|i: nat| i <= n ==> #[trigger] cnf_holds(bump_cnf(v.translation, v.max_var * i), s),
    ensures
        cnf_holds(wires_up_to(v, n), s),
    decreases n,
{
    if n > 0 {
        lemma_wires_up_to_hold(v, (n - 1) as nat, s);
    }
    assert(cnf_holds(bump_cnf(v.translation, v.max_var * n), s));
}

/// A valuation that satisfies the formula of depth `d` still does once the wires of every copy
/// are given the values of their inputs, and then the wires hold in every copy.
proof fn lemma_set_wires(a: AigView, b: bool, v: FstsView, alpha: Valuation, d: nat)
    requires
        system_of(a, b, v),
        cnf_bump_fits(v.transition, v.max_var * d),
        cnf_bump_fits(v.translation, v.max_var * d),
        cnf_bump_fits(set![v.unsafety], v.max_var * d),
        cnf_holds(bmc_formula(v, d), alpha),
    ensures
        cnf_holds(bmc_formula(v, d).union(wires_up_to(v, d)), stitched(a, alpha, d)),
{
    let m = v.max_var;
    let st = stitched(a, alpha, d);
    let q = bmc_formula(v, d);
    // the initial states: only latches, which are untouched
    lemma_holds_subset(v.initial, q, alpha);
    assert forall|c: Seq<Literal>| #[trigger] v.initial.contains(c) implies clause_holds(c, st) by {
        let l = choose|l: Seq<Literal>| #[trigger] initial_lists(a).contains(l) && same_literals(c, l);
        let j = choose|j: int| 0 <= j < a.num_latches && #[trigger] latch_initial(a, j) == Some(l);
        let k = 1 + a.num_inputs + j;
        assert(a.node_ok(k));
        assert(!is_gate(a, k));
        lemma_same_literals_hold(c, l, alpha);
        assert forall|r: int| 0 <= r < c.len() implies alpha(#[trigger] c[r].var()) == st(c[r].var()) by {
            assert(c.contains(c[r]));
            assert(l.contains(c[r]));
            let x = a.nodes[k].lit;
            Literal::lemma_make(x / 2, x % 2 == 1);
            Literal::lemma_negate(aig_literal(x));
            assert(c[r].var() == k);
            lemma_stitched_at(a, alpha, d, 0, k as nat);
            assert(m * 0 + k == k);
        }
        lemma_clause_agree(c, alpha, st);
    }
    // the copies of the transition relation
    assert forall|i: nat| i < d implies #[trigger] cnf_holds(bump_cnf(v.transition, m * i), st) by {
        assert(m * i <= m * d) by (nonlinear_arith)
            requires
                i <= d,
        ;
        lemma_unrolled_has_copy(v, d, i);
        assert(unrolled_transitions(v, d).subset_of(q));
        lemma_holds_subset(unrolled_transitions(v, d), q, alpha);
        lemma_holds_subset(bump_cnf(v.transition, m * i), unrolled_transitions(v, d), alpha);
        lemma_fits_less(v.transition, m * d, m * i);
        lemma_holds_moved_up(v.transition, m * i, alpha);
        lemma_stitched_transition(a, b, v, alpha, d, i);
        lemma_holds_moved_up(v.transition, m * i, st);
    }
    lemma_unrolled_holds(v, d, st);
    // the wires of every copy
    assert forall|i: nat| i <= d implies #[trigger] cnf_holds(bump_cnf(v.translation, m * i), st) by {
        assert(m * i <= m * d) by (nonlinear_arith)
            requires
                i <= d,
        ;
        lemma_stitched_wires(a, b, v, alpha, d, i);
        lemma_fits_less(v.translation, m * d, m * i);
        lemma_holds_moved_up(v.translation, m * i, st);
    }
    lemma_wires_up_to_hold(v, d, st);
    // the unsafe state of the last copy: its gates are wires that already had their values
    let sg = shifted(alpha, m * d);
    let sg2 = shifted(st, m * d);
    assert(cnf_bump_fits(not_p0(v), m * d)) by {
        assert forall|c: Seq<Literal>| #[trigger] not_p0(v).contains(c) implies crate::models::finite_state_transition_system::features::bump_fits(c, m * d) by {
            if c != v.unsafety {
                assert(v.translation.contains(c));
            } else {
                assert(set![v.unsafety].contains(c));
            }
        }
    }
    lemma_holds_subset(bump_cnf(not_p0(v), m * d), q, alpha);
    lemma_holds_moved_up(not_p0(v), m * d, alpha);
    lemma_holds_subset(v.translation, not_p0(v), sg);
    let w = watched_literals(a, b);
    lemma_cone_lists_hold(a, w, sg);
    lemma_copy_repaired(a, alpha, d, d);
    assert(clause_holds(v.unsafety, sg2)) by {
        assert(not_p0(v).contains(v.unsafety));
        assert(clause_holds(v.unsafety, sg));
        lemma_same_literals_hold(v.unsafety, unsafe_literals(a, b), sg);
        assert forall|r: int| 0 <= r < v.unsafety.len() implies sg(#[trigger] v.unsafety[r].var()) == sg2(v.unsafety[r].var()) by {
            assert(v.unsafety.contains(v.unsafety[r]));
            assert(unsafe_literals(a, b).contains(v.unsafety[r]));
            lemma_unsafe_vars(a, b, v.unsafety[r]);
            let y = v.unsafety[r].var() as int;
            if is_gate(a, y) {
                assert(in_cone(a, w, y)) by {
                    assert(and_path(a, seq![y]));
                    assert(seq![y][0] == y);
                    assert(seq![y].last() == y);
                }
                lemma_cone_values(a, w, sg, y);
            }
        }
        lemma_clause_agree(v.unsafety, sg, sg2);
    }
    lemma_stitched_wires(a, b, v, alpha, d, d);
    assert(cnf_holds(not_p0(v), sg2));
    lemma_holds_moved_up(not_p0(v), m * d, st);
}

/// For the transition system of a graph, an invariant that `check_invariant` accepts leaves
/// bounded model checking nothing to find: the formula of every depth is unsatisfiable.
pub proof fn law_accepted_invariant_refutes_bmc(
    a: AigView,
    assume_output_is_bad: bool,
    v: FstsView,
    inv: Set<Seq<Literal>>,
    depth: nat,
)
    requires
        system_of(a, assume_output_is_bad, v),
        invariant_verdict(v, inv) == Ok::<(), InvariantError>(()),
        cnf_bump_fits(v.transition, v.max_var * depth),
        cnf_bump_fits(v.translation, v.max_var * depth),
        cnf_bump_fits(inv, v.max_var * depth),
        cnf_bump_fits(set![v.unsafety], v.max_var * depth),
    ensures
        !satisfiable(bmc_formula(v, depth)),
{
    law_invariant_excludes_counterexamples(v, inv, depth);
    if satisfiable(bmc_formula(v, depth)) {
        let alpha = choose|alpha: Valuation| cnf_holds(bmc_formula(v, depth), alpha);
        lemma_set_wires(a, assume_output_is_bad, v, alpha, depth);
        assert(satisfiable(bmc_formula(v, depth).union(wires_up_to(v, depth))));
    }
}

} // verus!
