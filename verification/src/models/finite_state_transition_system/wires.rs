//! The wires of a graph as functions of its inputs and latches: the values that the clauses
//! of its and gates force, and the valuation that gives every and gate the value of its inputs.

use super::clause_forms;
use super::construction::{
    aig_literal, and_gate_lists, cone_lists, initial_lists, latch_initial, latch_inputs,
    latch_update, latch_update_lists, not, system_of,
};
use super::FstsView;
use crate::formulas::literal::{max_variable_number, Literal};
use crate::formulas::semantics::{
    clause_holds, cnf_holds, lemma_same_literals_hold, literal_holds, same_literals,
    sorted_by_code, Valuation,
};
use crate::models::and_inverter_graph::aig_node::AIGNodeType;
use crate::models::and_inverter_graph::getting::{and_child, and_path, and_triple, cone_gates, in_cone};
use crate::models::and_inverter_graph::AigView;
use vstd::prelude::*;
use vstd::relations::{sorted_by, total_ordering};

verus! {

broadcast use Literal::lemma_make, Literal::lemma_negate;

/// Whether variable `x` is the output of an and gate.
pub open spec fn is_gate(a: AigView, x: int) -> bool {
    0 <= x < a.nodes.len() && a.nodes[x].node_type == AIGNodeType::And
}

/// The value of an AIG literal under a valuation: 0 is false, 1 is true, and any other literal
/// the value of its variable, flipped when the literal is odd.
pub open spec fn aig_value(s: Valuation, x: nat) -> bool {
    if x == 0 {
        false
    } else if x == 1 {
        true
    } else {
        s((x / 2) as nat) != (x % 2 == 1)
    }
}

/// The value of variable `k` when every and gate takes the value of its inputs, and every other
/// variable its value under `b`.
pub open spec fn gate_value(a: AigView, b: Valuation, k: int) -> bool
    decreases k,
{
    if is_gate(a, k) && k >= 1 {
        let n = a.nodes[k];
        let v0 = if n.rhs0 < 2 {
            n.rhs0 == 1
        } else if n.rhs0 / 2 < k {
            gate_value(a, b, (n.rhs0 / 2) as int) != (n.rhs0 % 2 == 1)
        } else {
            false
        };
        let v1 = if n.rhs1 < 2 {
            n.rhs1 == 1
        } else if n.rhs1 / 2 < k {
            gate_value(a, b, (n.rhs1 / 2) as int) != (n.rhs1 % 2 == 1)
        } else {
            false
        };
        v0 && v1
    } else {
        b(k as nat)
    }
}

/// The valuation that gives every and gate the value of its inputs, and every other variable
/// its value under `b`.
pub open spec fn repaired(a: AigView, b: Valuation) -> Valuation {
    |x: nat| gate_value(a, b, x as int)
}

/// An and gate of a well-formed graph takes, in the repaired valuation, the conjunction of the
/// values of its inputs there.
proof fn lemma_repaired_gate(a: AigView, b: Valuation, k: int)
    requires
        a.well_formed(),
        is_gate(a, k),
    ensures
        repaired(a, b)(k as nat) == (aig_value(repaired(a, b), a.nodes[k].rhs0) && aig_value(
            repaired(a, b),
            a.nodes[k].rhs1,
        )),
{
    assert(a.node_ok(k));
    let n = a.nodes[k];
    assert(k >= 1);
    assert(n.rhs0 < 2 * k);
}

/// An AIG literal of a variable that fits is made true by a valuation exactly when its value
/// there is true.
proof fn lemma_aig_literal_holds(s: Valuation, x: nat)
    requires
        x >= 2,
        x / 2 <= max_variable_number(),
    ensures
        literal_holds(aig_literal(x), s) == aig_value(s, x),
        literal_holds(not(aig_literal(x)), s) == !aig_value(s, x),
{
    Literal::lemma_make(x / 2, x % 2 == 1);
    Literal::lemma_negate(aig_literal(x));
}

/// The clauses of an and gate hold under a valuation exactly when its output has the
/// conjunction of the values of its inputs.
proof fn lemma_gate_lists(a: AigView, k: int, s: Valuation)
    requires
        a.well_formed(),
        a.max_var <= max_variable_number(),
        is_gate(a, k),
    ensures
        (forall|l: Seq<Literal>| #[trigger] and_gate_lists(and_triple(a, k)).contains(l) ==> clause_holds(l, s))
            <==> (s(k as nat) == (aig_value(s, a.nodes[k].rhs0) && aig_value(s, a.nodes[k].rhs1))),
{
    assert(a.node_ok(k));
    let n = a.nodes[k];
    let t = and_triple(a, k);
    let out = aig_literal(t.0);
    assert(t.0 == 2 * k);
    lemma_aig_literal_holds(s, t.0);
    assert(aig_value(s, t.0) == s(k as nat));
    if t.1 >= 2 {
        assert(t.1 / 2 <= a.max_var);
        lemma_aig_literal_holds(s, t.1);
    }
    if t.2 >= 2 {
        assert(t.2 / 2 <= a.max_var);
        lemma_aig_literal_holds(s, t.2);
    }
    let lists = and_gate_lists(t);
    let all = forall|l: Seq<Literal>| #[trigger] lists.contains(l) ==> clause_holds(l, s);
    let rel = s(k as nat) == (aig_value(s, n.rhs0) && aig_value(s, n.rhs1));
    let in0 = aig_literal(t.1);
    let in1 = aig_literal(t.2);
    if t.1 == 0 || t.2 == 0 {
        assert(lists == set![seq![not(out)]]);
        assert(clause_holds(seq![not(out)], s) == literal_holds(not(out), s)) by {
            if literal_holds(not(out), s) {
                assert(literal_holds(seq![not(out)][0], s));
            }
        }
        if all {
            assert(lists.contains(seq![not(out)]));
        }
    } else if t.1 == 1 && t.2 == 1 {
        assert(lists == set![seq![out]]);
        assert(clause_holds(seq![out], s) == literal_holds(out, s)) by {
            if literal_holds(out, s) {
                assert(literal_holds(seq![out][0], s));
            }
        }
        if all {
            assert(lists.contains(seq![out]));
        }
    } else if t.1 == 1 {
        let c1 = seq![not(in1), out];
        let c2 = seq![in1, not(out)];
        assert(lists == set![c1, c2]);
        assert(clause_holds(c1, s) == (literal_holds(not(in1), s) || literal_holds(out, s))) by {
            if literal_holds(not(in1), s) {
                assert(literal_holds(c1[0], s));
            }
            if literal_holds(out, s) {
                assert(literal_holds(c1[1], s));
            }
        }
        assert(clause_holds(c2, s) == (literal_holds(in1, s) || literal_holds(not(out), s))) by {
            if literal_holds(in1, s) {
                assert(literal_holds(c2[0], s));
            }
            if literal_holds(not(out), s) {
                assert(literal_holds(c2[1], s));
            }
        }
        if all {
            assert(lists.contains(c1));
            assert(lists.contains(c2));
        }
    } else if t.2 == 1 {
        let c1 = seq![not(in0), out];
        let c2 = seq![in0, not(out)];
        assert(lists == set![c1, c2]);
        assert(clause_holds(c1, s) == (literal_holds(not(in0), s) || literal_holds(out, s))) by {
            if literal_holds(not(in0), s) {
                assert(literal_holds(c1[0], s));
            }
            if literal_holds(out, s) {
                assert(literal_holds(c1[1], s));
            }
        }
        assert(clause_holds(c2, s) == (literal_holds(in0, s) || literal_holds(not(out), s))) by {
            if literal_holds(in0, s) {
                assert(literal_holds(c2[0], s));
            }
            if literal_holds(not(out), s) {
                assert(literal_holds(c2[1], s));
            }
        }
        if all {
            assert(lists.contains(c1));
            assert(lists.contains(c2));
        }
    } else {
        let c1 = seq![not(out), in0];
        let c2 = seq![not(out), in1];
        let c3 = seq![out, not(in0), not(in1)];
        assert(lists == set![c1, c2, c3]);
        assert(clause_holds(c1, s) == (literal_holds(not(out), s) || literal_holds(in0, s))) by {
            if literal_holds(not(out), s) {
                assert(literal_holds(c1[0], s));
            }
            if literal_holds(in0, s) {
                assert(literal_holds(c1[1], s));
            }
        }
        assert(clause_holds(c2, s) == (literal_holds(not(out), s) || literal_holds(in1, s))) by {
            if literal_holds(not(out), s) {
                assert(literal_holds(c2[0], s));
            }
            if literal_holds(in1, s) {
                assert(literal_holds(c2[1], s));
            }
        }
        assert(clause_holds(c3, s) == (literal_holds(out, s) || literal_holds(not(in0), s) || literal_holds(not(in1), s))) by {
            if literal_holds(out, s) {
                assert(literal_holds(c3[0], s));
            }
            if literal_holds(not(in0), s) {
                assert(literal_holds(c3[1], s));
            }
            if literal_holds(not(in1), s) {
                assert(literal_holds(c3[2], s));
            }
        }
        if all {
            assert(lists.contains(c1));
            assert(lists.contains(c2));
            assert(lists.contains(c3));
        }
    }
}

/// The order of literals by their order keys.
pub open spec fn code_leq() -> spec_fn(Literal, Literal) -> bool {
    |x: Literal, y: Literal| x.code() <= y.code()
}

/// Every list of literals has a sorted arrangement.
pub proof fn lemma_sorted_form(l: Seq<Literal>) -> (c: Seq<Literal>)
    ensures
        sorted_by_code(c),
        same_literals(c, l),
{
    broadcast use Literal::lemma_code_injective;

    let leq = code_leq();
    assert(total_ordering(leq)) by {
        assert forall|x: Literal, y: Literal| #[trigger] leq(x, y) && #[trigger] leq(y, x) implies x == y by {
            Literal::lemma_code_injective(x, y);
        }
    }
    l.lemma_sort_by_ensures(leq);
    let c = l.sort_by(leq);
    assert(sorted_by(c, leq));
    assert forall|i: int, j: int| 0 <= i <= j < c.len() implies (#[trigger] c[i]).code() <= (#[trigger] c[j]).code() by {
        if i < j {
            assert(leq(c[i], c[j]));
        }
    }
    c
}

/// The sorted forms of some lists hold under a valuation exactly when every list does.
pub proof fn lemma_forms_hold(lists: Set<Seq<Literal>>, s: Valuation)
    ensures
        cnf_holds(clause_forms(lists), s) <==> forall|l: Seq<Literal>| #[trigger] lists.contains(l) ==> clause_holds(l, s),
{
    if cnf_holds(clause_forms(lists), s) {
        assert forall|l: Seq<Literal>| #[trigger] lists.contains(l) implies clause_holds(l, s) by {
            let c = lemma_sorted_form(l);
            assert(clause_forms(lists).contains(c));
            lemma_same_literals_hold(c, l, s);
        }
    }
    if forall|l: Seq<Literal>| #[trigger] lists.contains(l) ==> clause_holds(l, s) {
        assert forall|c: Seq<Literal>| #[trigger] clause_forms(lists).contains(c) implies clause_holds(c, s) by {
            let l = choose|l: Seq<Literal>| #[trigger] lists.contains(l) && same_literals(c, l);
            lemma_same_literals_hold(c, l, s);
        }
    }
}

/// The inputs of an and gate in the cone of some literals are in that cone too.
pub proof fn lemma_cone_closed(a: AigView, lits: Seq<nat>, x: int, c: int)
    requires
        in_cone(a, lits, x),
        and_child(a, x, c),
    ensures
        in_cone(a, lits, c),
{
    let p = choose|p: Seq<int>| and_path(a, p) && crate::models::and_inverter_graph::getting::var_of_some(lits, p[0]) && #[trigger] p.last() == x;
    let q = p.push(c);
    assert(q.drop_last() =~= p);
    assert(q[q.len() - 2] == x);
    assert(q[0] == p[0]);
    assert(and_path(a, q));
}

/// Whether every and gate in the cone of the literals has, under the valuation, the conjunction
/// of the values of its inputs.
pub open spec fn cone_consistent(a: AigView, lits: Seq<nat>, s: Valuation) -> bool {
    forall|x: int|
        is_gate(a, x) && in_cone(a, lits, x) ==> #[trigger] s(x as nat) == (aig_value(s, a.nodes[x].rhs0) && aig_value(
            s,
            a.nodes[x].rhs1,
        ))
}

/// Under a valuation where the gates of a cone have the values of their inputs, those gates
/// already have their repaired values.
pub proof fn lemma_cone_values(a: AigView, lits: Seq<nat>, s: Valuation, x: int)
    requires
        a.well_formed(),
        cone_consistent(a, lits, s),
        is_gate(a, x),
        in_cone(a, lits, x),
    ensures
        s(x as nat) == repaired(a, s)(x as nat),
    decreases x,
{
    assert(a.node_ok(x));
    let n = a.nodes[x];
    lemma_repaired_gate(a, s, x);
    assert(s(x as nat) == (aig_value(s, n.rhs0) && aig_value(s, n.rhs1)));
    assert forall|r: nat| (r == n.rhs0 || r == n.rhs1) implies aig_value(s, r) == aig_value(repaired(a, s), r) by {
        if r >= 2 {
            let c = (r / 2) as int;
            assert(c < x);
            if is_gate(a, c) {
                assert(and_child(a, x, c));
                lemma_cone_closed(a, lits, x, c);
                lemma_cone_values(a, lits, s, c);
            } else {
                assert(repaired(a, s)(c as nat) == gate_value(a, s, c));
            }
        }
    }
}

/// The repaired valuation gives every and gate the conjunction of the values of its inputs.
pub proof fn lemma_repaired_consistent(a: AigView, b: Valuation, lits: Seq<nat>)
    requires
        a.well_formed(),
    ensures
        cone_consistent(a, lits, repaired(a, b)),
{
    assert forall|x: int| is_gate(a, x) && in_cone(a, lits, x) implies #[trigger] repaired(a, b)(x as nat) == (aig_value(
        repaired(a, b),
        a.nodes[x].rhs0,
    ) && aig_value(repaired(a, b), a.nodes[x].rhs1)) by {
        lemma_repaired_gate(a, b, x);
    }
}

/// The sorted clauses of the gates in the cone of the literals hold under a valuation exactly
/// when those gates have, under it, the conjunction of the values of their inputs.
pub proof fn lemma_cone_lists_hold(a: AigView, lits: Seq<nat>, s: Valuation)
    requires
        a.well_formed(),
        a.max_var <= max_variable_number(),
    ensures
        cnf_holds(clause_forms(cone_lists(a, lits)), s) == cone_consistent(a, lits, s),
{
    lemma_forms_hold(cone_lists(a, lits), s);
    if cnf_holds(clause_forms(cone_lists(a, lits)), s) {
        assert forall|x: int| is_gate(a, x) && in_cone(a, lits, x) implies #[trigger] s(x as nat) == (aig_value(
            s,
            a.nodes[x].rhs0,
        ) && aig_value(s, a.nodes[x].rhs1)) by {
            assert(cone_gates(a, lits).contains(and_triple(a, x)));
            assert forall|l: Seq<Literal>| #[trigger] and_gate_lists(and_triple(a, x)).contains(l) implies clause_holds(l, s) by {
                assert(cone_lists(a, lits).contains(l));
            }
            lemma_gate_lists(a, x, s);
        }
    }
    if cone_consistent(a, lits, s) {
        assert forall|l: Seq<Literal>| #[trigger] cone_lists(a, lits).contains(l) implies clause_holds(l, s) by {
            let t = choose|t: (nat, nat, nat)| #[trigger] cone_gates(a, lits).contains(t) && and_gate_lists(t).contains(l);
            let x = choose|x: int|
                0 <= x < a.nodes.len() && in_cone(a, lits, x) && a.nodes[x].node_type == AIGNodeType::And && t
                    == #[trigger] and_triple(a, x);
            lemma_gate_lists(a, x, s);
        }
    }
}

/// Whether two valuations agree on the variables of the graph's nodes after the constant.
pub open spec fn agree_on_nodes(a: AigView, s1: Valuation, s2: Valuation) -> bool {
    forall|y: nat| 1 <= y <= a.max_var ==> #[trigger] s1(y) == s2(y)
}

/// Whether the gates of a cone have the values of their inputs depends only on the values of
/// the graph's variables.
pub proof fn lemma_consistent_agree(a: AigView, lits: Seq<nat>, s1: Valuation, s2: Valuation)
    requires
        a.well_formed(),
        agree_on_nodes(a, s1, s2),
        cone_consistent(a, lits, s1),
    ensures
        cone_consistent(a, lits, s2),
{
    assert forall|x: int| is_gate(a, x) && in_cone(a, lits, x) implies #[trigger] s2(x as nat) == (aig_value(
        s2,
        a.nodes[x].rhs0,
    ) && aig_value(s2, a.nodes[x].rhs1)) by {
        assert(a.node_ok(x));
        assert(s1(x as nat) == s2(x as nat));
        let n = a.nodes[x];
        if n.rhs0 >= 2 {
            assert(s1((n.rhs0 / 2) as nat) == s2((n.rhs0 / 2) as nat));
        }
        if n.rhs1 >= 2 {
            assert(s1((n.rhs1 / 2) as nat) == s2((n.rhs1 / 2) as nat));
        }
    }
}

/// A clause whose variables two valuations agree on holds under one exactly when it holds
/// under the other.
pub proof fn lemma_clause_agree(c: Seq<Literal>, s1: Valuation, s2: Valuation)
    requires
        forall|k: int| 0 <= k < c.len() ==> s1(#[trigger] c[k].var()) == s2(c[k].var()),
    ensures
        clause_holds(c, s1) == clause_holds(c, s2),
{
    if clause_holds(c, s1) {
        let k = choose|k: int| 0 <= k < c.len() && literal_holds(#[trigger] c[k], s1);
        assert(literal_holds(c[k], s2));
    }
    if clause_holds(c, s2) {
        let k = choose|k: int| 0 <= k < c.len() && literal_holds(#[trigger] c[k], s2);
        assert(literal_holds(c[k], s1));
    }
}

/// A clause of one or two literals holds exactly when one of them does.
proof fn lemma_short_clause_holds(c: Seq<Literal>, s: Valuation)
    requires
        1 <= c.len() <= 2,
    ensures
        clause_holds(c, s) == (literal_holds(c[0], s) || (c.len() == 2 && literal_holds(c[1], s))),
{
    if clause_holds(c, s) {
        let i = choose|i: int| 0 <= i < c.len() && literal_holds(#[trigger] c[i], s);
    }
}

/// In every initial state of the system of a graph, a latch with reset value 1 is true and a
/// latch with reset value 0 is false.
pub proof fn law_initial_states_reset_latches(a: AigView, b: bool, v: FstsView, s: Valuation, j: int)
    requires
        system_of(a, b, v),
        cnf_holds(v.initial, s),
        0 <= j < a.num_latches,
        a.nodes[1 + a.num_inputs + j].latch_reset == 0 || a.nodes[1 + a.num_inputs + j].latch_reset == 1,
    ensures
        s((1 + a.num_inputs + j) as nat) == (a.nodes[1 + a.num_inputs + j].latch_reset == 1),
{
    let k = 1 + a.num_inputs + j;
    assert(a.node_ok(k));
    let n = a.nodes[k];
    let l = latch_initial(a, j).unwrap();
    assert(initial_lists(a).contains(l));
    lemma_forms_hold(initial_lists(a), s);
    assert(clause_holds(l, s));
    Literal::lemma_make(k as nat, false);
    Literal::spec_make(k as nat, false).lemma_negate();
    if n.latch_reset == 0 {
        lemma_short_clause_holds(seq![not(aig_literal(n.lit))], s);
    } else {
        lemma_short_clause_holds(seq![aig_literal(n.lit)], s);
    }
}

/// Whether a valuation gives every latch with a reset value that value (1 true, 0 false).
pub open spec fn reset_values_hold(a: AigView, s: Valuation) -> bool {
    forall|j: int|
        0 <= j < a.num_latches && (a.nodes[1 + a.num_inputs + j].latch_reset == 0
            || a.nodes[1 + a.num_inputs + j].latch_reset == 1) ==> s((1 + a.num_inputs + j) as nat)
            == (#[trigger] a.nodes[1 + a.num_inputs + j].latch_reset == 1)
}

/// The initial states of the system of a graph are exactly the valuations that give every
/// latch with a reset value that value: latches without one, and all other variables, are free.
pub proof fn law_initial_states_are_reset_values(a: AigView, b: bool, v: FstsView, s: Valuation)
    requires
        system_of(a, b, v),
    ensures
        cnf_holds(v.initial, s) <==> reset_values_hold(a, s),
{
    if cnf_holds(v.initial, s) {
        assert forall|j: int|
            0 <= j < a.num_latches && (a.nodes[1 + a.num_inputs + j].latch_reset == 0
                || a.nodes[1 + a.num_inputs + j].latch_reset == 1) implies s((1 + a.num_inputs + j) as nat)
            == (#[trigger] a.nodes[1 + a.num_inputs + j].latch_reset == 1) by {
            law_initial_states_reset_latches(a, b, v, s, j);
        }
    }
    if reset_values_hold(a, s) {
        lemma_forms_hold(initial_lists(a), s);
        assert forall|l: Seq<Literal>| #[trigger] initial_lists(a).contains(l) implies clause_holds(l, s) by {
            let j = choose|j: int| 0 <= j < a.num_latches && #[trigger] latch_initial(a, j) == Some(l);
            let k = 1 + a.num_inputs + j;
            assert(a.node_ok(k));
            let n = a.nodes[k];
            Literal::lemma_make(k as nat, false);
            Literal::spec_make(k as nat, false).lemma_negate();
            assert(n.latch_reset == 0 || n.latch_reset == 1);
            lemma_short_clause_holds(l, s);
        }
    }
}

/// In every valuation that satisfies the transition relation of the system of a graph, the
/// next-state copy of each latch (its variable moved up by `max_var`) has the value that the
/// latch's next-state literal has in the current state: 0 is false, 1 is true, and any other
/// literal the value of its variable, flipped when the literal is odd.
pub proof fn law_transition_follows_next_state_literals(a: AigView, b: bool, v: FstsView, s: Valuation, j: int)
    requires
        system_of(a, b, v),
        cnf_holds(v.transition, s),
        0 <= j < a.num_latches,
    ensures
        s((1 + a.num_inputs + j + a.max_var) as nat) == aig_value(s, a.nodes[1 + a.num_inputs + j].latch_input),
{
    let k = 1 + a.num_inputs + j;
    assert(a.node_ok(k));
    let n = a.nodes[k];
    let x = n.latch_input;
    let after = Literal::spec_make(n.lit / 2 + a.max_var, false);
    Literal::lemma_make(n.lit / 2 + a.max_var, false);
    after.lemma_negate();
    lemma_forms_hold(latch_update_lists(a), s);
    assert(cnf_holds(clause_forms(latch_update_lists(a)), s)) by {
        assert forall|c: Seq<Literal>| #[trigger] clause_forms(latch_update_lists(a)).contains(c) implies clause_holds(c, s) by {
            assert(v.transition.contains(c));
        }
    }
    assert(n.lit / 2 == k);
    assert(after.var() == k + a.max_var);
    assert(!after.neg());
    if x == 0 {
        assert(latch_update(a, j).contains(seq![not(after)]));
        assert(latch_update_lists(a).contains(seq![not(after)]));
        lemma_short_clause_holds(seq![not(after)], s);
    } else if x == 1 {
        assert(latch_update(a, j).contains(seq![after]));
        assert(latch_update_lists(a).contains(seq![after]));
        lemma_short_clause_holds(seq![after], s);
    } else {
        let i = aig_literal(x);
        assert(latch_update(a, j).contains(seq![not(after), i]));
        assert(latch_update(a, j).contains(seq![after, not(i)]));
        assert(latch_update_lists(a).contains(seq![not(after), i]));
        assert(latch_update_lists(a).contains(seq![after, not(i)]));
        lemma_short_clause_holds(seq![not(after), i], s);
        lemma_short_clause_holds(seq![after, not(i)], s);
        lemma_aig_literal_holds(s, x);
    }
}

/// Whether the next-state copy of every latch has, under a valuation, the value of the latch's
/// next-state literal.
pub open spec fn next_values_hold(a: AigView, s: Valuation) -> bool {
    forall|j: int|
        0 <= j < a.num_latches ==> s((1 + a.num_inputs + j + a.max_var) as nat) == aig_value(
            s,
            #[trigger] a.nodes[1 + a.num_inputs + j].latch_input,
        )
}

/// The transition relation of the system of a graph holds under a valuation exactly when the
/// next-state copy of every latch has the value of its next-state literal, and every and gate
/// that those literals read has the conjunction of the values of its inputs.
pub proof fn law_transition_is_next_values(a: AigView, b: bool, v: FstsView, s: Valuation)
    requires
        system_of(a, b, v),
    ensures
        cnf_holds(v.transition, s) <==> (next_values_hold(a, s) && cone_consistent(a, latch_inputs(a), s)),
{
    lemma_cone_lists_hold(a, latch_inputs(a), s);
    lemma_forms_hold(latch_update_lists(a), s);
    if cnf_holds(v.transition, s) {
        assert forall|j: int| 0 <= j < a.num_latches implies s((1 + a.num_inputs + j + a.max_var) as nat)
            == aig_value(s, #[trigger] a.nodes[1 + a.num_inputs + j].latch_input) by {
            law_transition_follows_next_state_literals(a, b, v, s, j);
        }
        assert(cnf_holds(clause_forms(cone_lists(a, latch_inputs(a))), s)) by {
            assert forall|c: Seq<Literal>| #[trigger] clause_forms(cone_lists(a, latch_inputs(a))).contains(c) implies clause_holds(c, s) by {
                assert(v.transition.contains(c));
            }
        }
    }
    if next_values_hold(a, s) && cone_consistent(a, latch_inputs(a), s) {
        assert forall|l: Seq<Literal>| #[trigger] latch_update_lists(a).contains(l) implies clause_holds(l, s) by {
            let j = choose|j: int| 0 <= j < a.num_latches && #[trigger] latch_update(a, j).contains(l);
            let k = 1 + a.num_inputs + j;
            assert(a.node_ok(k));
            let n = a.nodes[k];
            let x = n.latch_input;
            let after = Literal::spec_make(n.lit / 2 + a.max_var, false);
            Literal::lemma_make(n.lit / 2 + a.max_var, false);
            after.lemma_negate();
            assert(n.lit / 2 == k);
            assert(s((k + a.max_var) as nat) == aig_value(s, x));
            lemma_short_clause_holds(l, s);
            if x >= 2 {
                lemma_aig_literal_holds(s, x);
            }
        }
        assert(cnf_holds(v.transition, s));
    }
}

} // verus!
