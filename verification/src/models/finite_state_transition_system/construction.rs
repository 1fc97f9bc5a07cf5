//! Building a finite state transition system from an And-Inverter Graph.

use super::{add_literal_list, clause_forms, FiniteStateTransitionSystem, FstsView};
use crate::formulas::literal::{max_variable_number, Literal};
use crate::formulas::semantics::{same_literals, sorted_by_code};
use crate::formulas::{Clause, CNF};
use crate::models::and_inverter_graph::getting::{cone_gates, triple_views};
use crate::models::and_inverter_graph::{nat_views, AigView, AndInverterGraph};
use vstd::prelude::*;

verus! {

broadcast use Literal::lemma_make, Literal::lemma_negate, Literal::lemma_code_injective;

/// The literal that an AIG literal names: the variable of half its value, negated when it is
/// odd.
pub open spec fn aig_literal(x: nat) -> Literal {
    Literal::spec_make(x / 2, x % 2 == 1)
}

/// The negation of a literal.
pub open spec fn not(l: Literal) -> Literal {
    Literal::spec_negate(l)
}

/// The literal lists that define the output of an and gate `(lhs, rhs0, rhs1)` from its
/// inputs, where an input 0 is false and 1 is true.
pub open spec fn and_gate_lists(t: (nat, nat, nat)) -> Set<Seq<Literal>> {
    let out = aig_literal(t.0);
    let in0 = aig_literal(t.1);
    let in1 = aig_literal(t.2);
    if t.1 == 0 || t.2 == 0 {
        set![seq![not(out)]]
    } else if t.1 == 1 && t.2 == 1 {
        set![seq![out]]
    } else if t.1 == 1 {
        set![seq![not(in1), out], seq![in1, not(out)]]
    } else if t.2 == 1 {
        set![seq![not(in0), out], seq![in0, not(out)]]
    } else {
        set![seq![not(out), in0], seq![not(out), in1], seq![out, not(in0), not(in1)]]
    }
}

/// The lists of the and gates in the cone of influence of the literals.
pub open spec fn cone_lists(v: AigView, lits: Seq<nat>) -> Set<Seq<Literal>> {
    Set::new(
        |l: Seq<Literal>|
            exists|t: (nat, nat, nat)| #[trigger] cone_gates(v, lits).contains(t) && and_gate_lists(t).contains(l),
    )
}

/// The lists of the first `n` and gates of a list of triples.
pub open spec fn triples_lists(s: Seq<(nat, nat, nat)>, n: int) -> Set<Seq<Literal>> {
    Set::new(|l: Seq<Literal>| exists|k: int| 0 <= k < n && #[trigger] and_gate_lists(s[k]).contains(l))
}

/// The literal that an AIG literal names.
fn literal_of_aig(x: usize) -> (r: Literal)
    requires
        2 <= x,
        x / 2 <= max_variable_number(),
    ensures
        r == aig_literal(x as nat),
{
    let l = Literal::new((x / 2) as u32).negate_if_true(x % 2 == 1);
    proof {
        Literal::lemma_code(l);
        Literal::lemma_make((x / 2) as nat, x % 2 == 1);
    }
    l
}

/// Adds the clauses of the and gate `(lhs, rhs0, rhs1)` to `cnf`, whose clauses are the forms
/// of `done`.
fn add_gate(cnf: &mut CNF, lhs: usize, rhs0: usize, rhs1: usize, Ghost(done): Ghost<Set<Seq<Literal>>>)
    requires
        old(cnf)@ == clause_forms(done),
        lhs % 2 == 0,
        2 <= lhs,
        rhs1 <= rhs0 < lhs,
        lhs / 2 <= max_variable_number(),
    ensures
        final(cnf)@ == clause_forms(done.union(and_gate_lists((lhs as nat, rhs0 as nat, rhs1 as nat)))),
{
    let ghost t = (lhs as nat, rhs0 as nat, rhs1 as nat);
    let out = literal_of_aig(lhs);
    if rhs0 == 0 || rhs1 == 0 {
        let l1 = [out.negated()];
        add_literal_list(cnf, &l1, Ghost(done));
        proof {
            assert(l1@ == seq![not(out)]);
            assert(done.insert(l1@) =~= done.union(and_gate_lists(t)));
        }
    } else if rhs0 == 1 && rhs1 == 1 {
        let l1 = [out];
        add_literal_list(cnf, &l1, Ghost(done));
        proof {
            assert(l1@ == seq![out]);
            assert(done.insert(l1@) =~= done.union(and_gate_lists(t)));
        }
    } else if rhs0 == 1 {
        let in1 = literal_of_aig(rhs1);
        let l1 = [in1.negated(), out];
        let l2 = [in1, out.negated()];
        add_literal_list(cnf, &l1, Ghost(done));
        add_literal_list(cnf, &l2, Ghost(done.insert(l1@)));
        proof {
            assert(l1@ == seq![not(in1), out]);
            assert(l2@ == seq![in1, not(out)]);
            assert(done.insert(l1@).insert(l2@) =~= done.union(and_gate_lists(t)));
        }
    } else if rhs1 == 1 {
        let in0 = literal_of_aig(rhs0);
        let l1 = [in0.negated(), out];
        let l2 = [in0, out.negated()];
        add_literal_list(cnf, &l1, Ghost(done));
        add_literal_list(cnf, &l2, Ghost(done.insert(l1@)));
        proof {
            assert(l1@ == seq![not(in0), out]);
            assert(l2@ == seq![in0, not(out)]);
            assert(done.insert(l1@).insert(l2@) =~= done.union(and_gate_lists(t)));
        }
    } else {
        let in0 = literal_of_aig(rhs0);
        let in1 = literal_of_aig(rhs1);
        let l1 = [out.negated(), in0];
        let l2 = [out.negated(), in1];
        let l3 = [out, in0.negated(), in1.negated()];
        add_literal_list(cnf, &l1, Ghost(done));
        add_literal_list(cnf, &l2, Ghost(done.insert(l1@)));
        add_literal_list(cnf, &l3, Ghost(done.insert(l1@).insert(l2@)));
        proof {
            assert(l1@ == seq![not(out), in0]);
            assert(l2@ == seq![not(out), in1]);
            assert(l3@ == seq![out, not(in0), not(in1)]);
            assert(done.insert(l1@).insert(l2@).insert(l3@) =~= done.union(and_gate_lists(t)));
        }
    }
}

/// The CNF that gives the and gates in the cone of influence of `wires` their values.
fn gates_cnf(aig: &AndInverterGraph, wires: &[usize]) -> (r: CNF)
    requires
        aig.view().max_var <= max_variable_number(),
        forall|j: int| 0 <= j < wires@.len() ==> aig.view().literal_ok(#[trigger] wires@[j] as nat),
    ensures
        r@ == clause_forms(cone_lists(aig.view(), nat_views(wires@))),
{
    aig.check_wf();
    let ghost v = aig.view();
    let and_info = aig.get_and_information_in_cone_of_influence(wires);
    let ghost tv = triple_views(and_info@);
    let mut cnf = CNF::new();
    let mut k: usize = 0;
    proof {
        assert(triples_lists(tv, 0) =~= Set::<Seq<Literal>>::empty());
        assert(clause_forms(Set::<Seq<Literal>>::empty()) =~= Set::<Seq<Literal>>::empty());
        assert(cnf@ =~= Set::<Seq<Literal>>::empty());
    }
    while k < and_info.len()
        invariant
            k <= and_info@.len(),
            tv == triple_views(and_info@),
            v == aig.view(),
            v.well_formed(),
            v.max_var <= max_variable_number(),
            tv.to_set() == cone_gates(v, nat_views(wires@)),
            cnf@ == clause_forms(triples_lists(tv, k as int)),
        decreases and_info@.len() - k,
    {
        proof {
            assert(tv[k as int] == (and_info@[k as int].0 as nat, and_info@[k as int].1 as nat, and_info@[k as int].2 as nat));
        }
        let (lhs, rhs0, rhs1) = and_info[k];
        let ghost t = tv[k as int];
        proof {
            assert(tv.contains(t));
            assert(cone_gates(v, nat_views(wires@)).contains(t));
        }
        let ghost done = triples_lists(tv, k as int);
        proof {
            let x = choose|x: int|
                0 <= x < v.nodes.len() && crate::models::and_inverter_graph::getting::in_cone(v, nat_views(wires@), x)
                    && v.nodes[x].node_type == crate::models::and_inverter_graph::AIGNodeType::And && t
                    == #[trigger] crate::models::and_inverter_graph::getting::and_triple(v, x);
            assert(v.node_ok(x));
        }
        add_gate(&mut cnf, lhs, rhs0, rhs1, Ghost(done));
        proof {
            assert(done.union(and_gate_lists(t)) =~= triples_lists(tv, k + 1)) by {
                assert forall|l: Seq<Literal>| #[trigger] triples_lists(tv, k + 1).contains(l) implies done.union(and_gate_lists(t)).contains(l) by {
                    let j = choose|j: int| 0 <= j < k + 1 && #[trigger] and_gate_lists(tv[j]).contains(l);
                    if j < k {
                        assert(done.contains(l));
                    }
                }
            }
        }
        k = k + 1;
    }
    proof {
        assert(triples_lists(tv, k as int) =~= cone_lists(v, nat_views(wires@))) by {
            assert forall|l: Seq<Literal>| #[trigger] cone_lists(v, nat_views(wires@)).contains(l) implies triples_lists(tv, k as int).contains(l) by {
                let t = choose|t: (nat, nat, nat)| #[trigger] cone_gates(v, nat_views(wires@)).contains(t) && and_gate_lists(t).contains(l);
                assert(tv.to_set().contains(t));
                let j = choose|j: int| 0 <= j < tv.len() && tv[j] == t;
                assert(and_gate_lists(tv[j]).contains(l));
            }
            assert forall|l: Seq<Literal>| #[trigger] triples_lists(tv, k as int).contains(l) implies cone_lists(v, nat_views(wires@)).contains(l) by {
                let j = choose|j: int| 0 <= j < k && #[trigger] and_gate_lists(tv[j]).contains(l);
                assert(tv.to_set().contains(tv[j]));
                assert(cone_gates(v, nat_views(wires@)).contains(tv[j]));
            }
        }
    }
    cnf
}

/// The unit clause that latch `j` starts with, if it has a reset value.
pub open spec fn latch_initial(v: AigView, j: int) -> Option<Seq<Literal>> {
    let n = v.nodes[1 + v.num_inputs + j];
    if n.latch_reset == n.lit {
        None
    } else if n.latch_reset == 0 {
        Some(seq![not(aig_literal(n.lit))])
    } else {
        Some(seq![aig_literal(n.lit)])
    }
}

/// The unit lists of the latches that have a reset value.
pub open spec fn initial_lists(v: AigView) -> Set<Seq<Literal>> {
    Set::new(|l: Seq<Literal>| exists|j: int| 0 <= j < v.num_latches && #[trigger] latch_initial(v, j) == Some(l))
}

/// The lists that make the next-state variable of latch `j` (its variable moved up by
/// `max_var`) equal to its next-state literal.
pub open spec fn latch_update(v: AigView, j: int) -> Set<Seq<Literal>> {
    let n = v.nodes[1 + v.num_inputs + j];
    let after = Literal::spec_make(n.lit / 2 + v.max_var, false);
    if n.latch_input == 0 {
        set![seq![not(after)]]
    } else if n.latch_input == 1 {
        set![seq![after]]
    } else {
        let i = aig_literal(n.latch_input);
        set![seq![not(after), i], seq![after, not(i)]]
    }
}

/// The update lists of all latches.
pub open spec fn latch_update_lists(v: AigView) -> Set<Seq<Literal>> {
    Set::new(|l: Seq<Literal>| exists|j: int| 0 <= j < v.num_latches && #[trigger] latch_update(v, j).contains(l))
}

/// The next-state literals of the latches.
pub open spec fn latch_inputs(v: AigView) -> Seq<nat> {
    Seq::new(v.num_latches, |j: int| v.nodes[1 + v.num_inputs + j].latch_input)
}

/// The literals whose values the properties need: the bad-state properties, the invariant
/// constraints and, when the outputs count as bad, the outputs.
pub open spec fn watched_literals(v: AigView, assume_output_is_bad: bool) -> Seq<nat> {
    v.bad + v.constraints + (if assume_output_is_bad {
        v.outputs
    } else {
        Seq::empty()
    })
}

/// The literals of the unsafe states: the bad-state properties and, when the outputs count as
/// bad, the outputs.
pub open spec fn unsafe_literals(v: AigView, assume_output_is_bad: bool) -> Seq<Literal> {
    (v.bad + (if assume_output_is_bad {
        v.outputs
    } else {
        Seq::empty()
    })).map_values(|x: nat| aig_literal(x))
}

/// Whether a graph can be turned into a transition system: it has no invariant constraints,
/// every literal of a state and of the next state fits in a literal, and no bad-state property
/// (nor output, when outputs count as bad) is a constant.
pub open spec fn convertible(v: AigView, assume_output_is_bad: bool) -> bool {
    &&& v.constraints.len() == 0
    &&& v.max_var < max_variable_number()
    &&& (v.num_latches == 0 || v.max_var + v.num_inputs + v.num_latches <= max_variable_number())
    &&& forall|i: int| 0 <= i < v.bad.len() ==> #[trigger] v.bad[i] >= 2
    &&& assume_output_is_bad ==> forall|i: int| 0 <= i < v.outputs.len() ==> #[trigger] v.outputs[i] >= 2
}

/// Whether the system is the one that `from_aig` makes of the graph.
pub open spec fn system_of(a: AigView, assume_output_is_bad: bool, v: FstsView) -> bool {
    &&& a.well_formed()
    &&& convertible(a, assume_output_is_bad)
    &&& v.initial == clause_forms(initial_lists(a))
    &&& v.transition == clause_forms(latch_update_lists(a)).union(clause_forms(cone_lists(a, latch_inputs(a))))
    &&& v.translation == clause_forms(cone_lists(a, watched_literals(a, assume_output_is_bad)))
    &&& same_literals(v.unsafety, unsafe_literals(a, assume_output_is_bad))
    &&& v.max_var == a.max_var
}

/// The CNF of the unit clauses of the latches that have a reset value.
fn initial_cnf(aig: &AndInverterGraph) -> (r: CNF)
    requires
        aig.view().max_var <= max_variable_number(),
    ensures
        r@ == clause_forms(initial_lists(aig.view())),
{
    aig.check_wf();
    let ghost v = aig.view();
    let latch_info = aig.get_latch_information();
    let mut cnf = CNF::new();
    let mut j: usize = 0;
    proof {
        assert(clause_forms(Set::<Seq<Literal>>::empty()) =~= Set::<Seq<Literal>>::empty());
        assert(cnf@ =~= Set::<Seq<Literal>>::empty());
    }
    let ghost mut done: Set<Seq<Literal>> = Set::empty();
    while j < latch_info.len()
        invariant
            j <= latch_info@.len(),
            v == aig.view(),
            v.well_formed(),
            v.max_var <= max_variable_number(),
            crate::models::and_inverter_graph::getting::triple_views(latch_info@) == crate::models::and_inverter_graph::getting::latch_triples(v),
            done == Set::new(|l: Seq<Literal>| exists|i: int| 0 <= i < j && #[trigger] latch_initial(v, i) == Some(l)),
            cnf@ == clause_forms(done),
        decreases latch_info@.len() - j,
    {
        let (latch_literal, _, latch_reset) = latch_info[j];
        proof {
            assert(crate::models::and_inverter_graph::getting::triple_views(latch_info@).len() == latch_info@.len());
            assert(latch_info@.len() == v.num_latches);
            assert(crate::models::and_inverter_graph::getting::triple_views(latch_info@)[j as int] == crate::models::and_inverter_graph::getting::latch_triples(v)[j as int]);
            assert(v.node_ok(1 + v.num_inputs + j));
        }
        let ghost next = Set::new(|l: Seq<Literal>| exists|i: int| 0 <= i < j + 1 && #[trigger] latch_initial(v, i) == Some(l));
        if latch_reset != latch_literal {
            let lit = literal_of_aig(latch_literal);
            let unit = if latch_reset == 0 {
                [lit.negated()]
            } else {
                [lit]
            };
            add_literal_list(&mut cnf, &unit, Ghost(done));
            proof {
                assert(latch_initial(v, j as int) == Some(unit@));
                assert(done.insert(unit@) =~= next);
                done = next;
            }
        } else {
            proof {
                assert(done =~= next);
                done = next;
            }
        }
        j = j + 1;
    }
    proof {
        assert(crate::models::and_inverter_graph::getting::triple_views(latch_info@).len() == latch_info@.len());
        assert(done =~= initial_lists(v));
    }
    cnf
}

/// The update lists of the first `j + 1` latches are those of the first `j` and those of
/// latch `j`.
proof fn lemma_next_updates(v: AigView, j: int, done: Set<Seq<Literal>>, next: Set<Seq<Literal>>)
    requires
        0 <= j,
        done == Set::new(|l: Seq<Literal>| exists|i: int| 0 <= i < j && #[trigger] latch_update(v, i).contains(l)),
        next == Set::new(|l: Seq<Literal>| exists|i: int| 0 <= i < j + 1 && #[trigger] latch_update(v, i).contains(l)),
    ensures
        next == done.union(latch_update(v, j)),
{
    assert forall|l: Seq<Literal>| #[trigger] next.contains(l) implies done.union(latch_update(v, j)).contains(l) by {
        let i = choose|i: int| 0 <= i < j + 1 && #[trigger] latch_update(v, i).contains(l);
        if i < j {
            assert(done.contains(l));
        }
    }
    assert forall|l: Seq<Literal>| #[trigger] done.union(latch_update(v, j)).contains(l) implies next.contains(l) by {
        if done.contains(l) {
            let i = choose|i: int| 0 <= i < j && #[trigger] latch_update(v, i).contains(l);
            assert(0 <= i < j + 1 && latch_update(v, i).contains(l));
        } else {
            assert(latch_update(v, j).contains(l));
        }
    }
    assert(next =~= done.union(latch_update(v, j)));
}

/// The CNF of the latch updates, and of the and gates that the next-state literals depend on.
fn transition_cnf(aig: &AndInverterGraph) -> (r: CNF)
    requires
        convertible(aig.view(), false),
    ensures
        r@ == clause_forms(latch_update_lists(aig.view())).union(
            clause_forms(cone_lists(aig.view(), latch_inputs(aig.view()))),
        ),
{
    aig.check_wf();
    let ghost v = aig.view();
    let max = aig.get_highest_variable_number();
    let latch_info = aig.get_latch_information();
    let mut cnf = CNF::new();
    let mut wires: Vec<usize> = Vec::new();
    let mut j: usize = 0;
    proof {
        assert(clause_forms(Set::<Seq<Literal>>::empty()) =~= Set::<Seq<Literal>>::empty());
        assert(cnf@ =~= Set::<Seq<Literal>>::empty());
        assert(crate::models::and_inverter_graph::getting::triple_views(latch_info@).len() == latch_info@.len());
    }
    let ghost mut done: Set<Seq<Literal>> = Set::empty();
    while j < latch_info.len()
        invariant
            j <= latch_info@.len(),
            latch_info@.len() == v.num_latches,
            v == aig.view(),
            v.well_formed(),
            convertible(v, false),
            max == v.max_var,
            crate::models::and_inverter_graph::getting::triple_views(latch_info@) == crate::models::and_inverter_graph::getting::latch_triples(v),
            done == Set::new(|l: Seq<Literal>| exists|i: int| 0 <= i < j && #[trigger] latch_update(v, i).contains(l)),
            cnf@ == clause_forms(done),
            nat_views(wires@) == latch_inputs(v).subrange(0, j as int),
        decreases latch_info@.len() - j,
    {
        let (latch_literal, latch_input, _) = latch_info[j];
        proof {
            assert(crate::models::and_inverter_graph::getting::triple_views(latch_info@)[j as int] == crate::models::and_inverter_graph::getting::latch_triples(v)[j as int]);
            assert(v.node_ok(1 + v.num_inputs + j));
        }
        let after = Literal::new((latch_literal / 2) as u32 + max as u32);
        proof {
            Literal::lemma_code(after);
            Literal::lemma_make((latch_literal / 2 + max) as nat, false);
            assert(after == Literal::spec_make((latch_literal / 2 + max) as nat, false));
        }
        let ghost pre_wires = wires@;
        wires.push(latch_input);
        proof {
            crate::models::and_inverter_graph::lemma_nat_views_push(pre_wires, latch_input);
            assert(nat_views(wires@) =~= latch_inputs(v).subrange(0, j + 1));
        }
        let ghost next = Set::new(|l: Seq<Literal>| exists|i: int| 0 <= i < j + 1 && #[trigger] latch_update(v, i).contains(l));
        if latch_input == 0 {
            let l1 = [after.negated()];
            add_literal_list(&mut cnf, &l1, Ghost(done));
            proof {
                assert(l1@ == seq![not(after)]);
                assert(latch_update(v, j as int) == set![l1@]);
                lemma_next_updates(v, j as int, done, next);
                assert(done.insert(l1@) =~= next);
                done = next;
            }
        } else if latch_input == 1 {
            let l1 = [after];
            add_literal_list(&mut cnf, &l1, Ghost(done));
            proof {
                assert(l1@ == seq![after]);
                assert(latch_update(v, j as int) == set![l1@]);
                lemma_next_updates(v, j as int, done, next);
                assert(done.insert(l1@) =~= next);
                done = next;
            }
        } else {
            let i = literal_of_aig(latch_input);
            let l1 = [after.negated(), i];
            let l2 = [after, i.negated()];
            add_literal_list(&mut cnf, &l1, Ghost(done));
            add_literal_list(&mut cnf, &l2, Ghost(done.insert(l1@)));
            proof {
                assert(l1@ == seq![not(after), i]);
                assert(l2@ == seq![after, not(i)]);
                assert(latch_update(v, j as int) == set![l1@, l2@]);
                lemma_next_updates(v, j as int, done, next);
                assert(done.insert(l1@).insert(l2@) =~= next);
                done = next;
            }
        }
        j = j + 1;
    }
    proof {
        assert(done =~= latch_update_lists(v));
        assert(latch_inputs(v).subrange(0, j as int) =~= latch_inputs(v));
        assert forall|k: int| 0 <= k < wires@.len() implies v.literal_ok(#[trigger] wires@[k] as nat) by {
            assert(nat_views(wires@)[k] == latch_inputs(v)[k]);
            assert(v.node_ok(1 + v.num_inputs + k));
        }
    }
    let gates = gates_cnf(aig, wires.as_slice());
    cnf.append(&gates);
    cnf
}

/// The literals whose values the properties need.
fn watched_wires(aig: &AndInverterGraph, assume_output_is_bad: bool) -> (r: Vec<usize>)
    ensures
        nat_views(r@) == watched_literals(aig.view(), assume_output_is_bad),
{
    let mut wires = aig.get_bad_information();
    let mut constraints = aig.get_constraints_information();
    let ghost w1 = wires@;
    let ghost w2 = constraints@;
    wires.append(&mut constraints);
    proof {
        assert(nat_views(wires@) =~= nat_views(w1) + nat_views(w2));
    }
    if assume_output_is_bad {
        let mut outputs = aig.get_output_information();
        let ghost w3 = wires@;
        let ghost w4 = outputs@;
        wires.append(&mut outputs);
        proof {
            assert(nat_views(wires@) =~= nat_views(w3) + nat_views(w4));
        }
    }
    proof {
        assert(nat_views(wires@) =~= watched_literals(aig.view(), assume_output_is_bad));
    }
    wires
}

/// The CNF of the and gates that the properties depend on.
fn translation_cnf(aig: &AndInverterGraph, assume_output_is_bad: bool) -> (r: CNF)
    requires
        aig.view().max_var <= max_variable_number(),
    ensures
        r@ == clause_forms(cone_lists(aig.view(), watched_literals(aig.view(), assume_output_is_bad))),
{
    aig.check_wf();
    let wires = watched_wires(aig, assume_output_is_bad);
    proof {
        let v = aig.view();
        assert forall|k: int| 0 <= k < wires@.len() implies v.literal_ok(#[trigger] wires@[k] as nat) by {
            let w = watched_literals(v, assume_output_is_bad);
            assert(nat_views(wires@)[k] == w[k]);
            assert(nat_views(wires@).len() == wires@.len());
            if k < v.bad.len() {
                assert(w[k] == v.bad[k]);
            } else if k < v.bad.len() + v.constraints.len() {
                assert(w[k] == v.constraints[k - v.bad.len()]);
            } else {
                assert(assume_output_is_bad);
                assert(w[k] == v.outputs[k - v.bad.len() - v.constraints.len()]);
            }
        }
    }
    gates_cnf(aig, wires.as_slice())
}

/// The clause of the unsafe states.
fn unsafety_clause(aig: &AndInverterGraph, assume_output_is_bad: bool) -> (r: Clause)
    requires
        convertible(aig.view(), assume_output_is_bad),
    ensures
        sorted_by_code(r@),
        same_literals(r@, unsafe_literals(aig.view(), assume_output_is_bad)),
{
    aig.check_wf();
    let ghost v = aig.view();
    let mut bad_info = aig.get_bad_information();
    let ghost b1 = bad_info@;
    if assume_output_is_bad {
        let mut outputs = aig.get_output_information();
        let ghost b2 = outputs@;
        bad_info.append(&mut outputs);
        proof {
            assert(nat_views(bad_info@) =~= nat_views(b1) + nat_views(b2));
        }
    }
    let ghost src = v.bad + (if assume_output_is_bad {
        v.outputs
    } else {
        Seq::empty()
    });
    proof {
        assert(nat_views(bad_info@) =~= src);
    }
    let mut literals: Vec<Literal> = Vec::new();
    let mut i: usize = 0;
    while i < bad_info.len()
        invariant
            i <= bad_info@.len(),
            v == aig.view(),
            v.well_formed(),
            convertible(v, assume_output_is_bad),
            nat_views(bad_info@) == src,
            src == v.bad + (if assume_output_is_bad {
                v.outputs
            } else {
                Seq::empty()
            }),
            literals@ == src.subrange(0, i as int).map_values(|x: nat| aig_literal(x)),
        decreases bad_info@.len() - i,
    {
        proof {
            assert(nat_views(bad_info@).len() == bad_info@.len());
            assert(nat_views(bad_info@)[i as int] == src[i as int]);
            if i < v.bad.len() {
                assert(src[i as int] == v.bad[i as int]);
                assert(v.literal_ok(v.bad[i as int]));
            } else {
                assert(assume_output_is_bad);
                assert(src[i as int] == v.outputs[i - v.bad.len()]);
                assert(v.literal_ok(v.outputs[i - v.bad.len()]));
            }
        }
        let l = literal_of_aig(bad_info[i]);
        literals.push(l);
        proof {
            assert(literals@ =~= src.subrange(0, i + 1).map_values(|x: nat| aig_literal(x)));
        }
        i = i + 1;
    }
    proof {
        assert(src.subrange(0, i as int) =~= src);
    }
    Clause::new(literals.as_slice())
}

/// The variable numbers of the inputs and of the latches.
fn input_and_state_numbers(aig: &AndInverterGraph) -> (r: (Vec<u32>, Vec<u32>))
    requires
        aig.view().max_var <= max_variable_number(),
    ensures
        r.0@ == Seq::new(aig.view().num_inputs, |i: int| (aig.view().nodes[1 + i].lit / 2) as u32),
        r.1@ == Seq::new(aig.view().num_latches, |j: int| (aig.view().nodes[1 + aig.view().num_inputs + j].lit / 2) as u32),
{
    aig.check_wf();
    let ghost v = aig.view();
    let inputs = aig.get_input_information();
    let latches = aig.get_latch_information();
    let mut input_numbers: Vec<u32> = Vec::new();
    let mut state_numbers: Vec<u32> = Vec::new();
    let mut i: usize = 0;
    while i < inputs.len()
        invariant
            i <= inputs@.len(),
            v == aig.view(),
            v.well_formed(),
            v.max_var <= max_variable_number(),
            nat_views(inputs@) == crate::models::and_inverter_graph::getting::input_literals(v),
            input_numbers@ == Seq::new(i as nat, |k: int| (v.nodes[1 + k].lit / 2) as u32),
        decreases inputs@.len() - i,
    {
        proof {
            assert(nat_views(inputs@).len() == inputs@.len());
            assert(nat_views(inputs@)[i as int] == v.nodes[1 + i].lit);
            assert(v.node_ok(1 + i));
        }
        input_numbers.push((inputs[i] / 2) as u32);
        proof {
            assert(input_numbers@ =~= Seq::new((i + 1) as nat, |k: int| (v.nodes[1 + k].lit / 2) as u32));
        }
        i = i + 1;
    }
    let mut j: usize = 0;
    proof {
        assert(crate::models::and_inverter_graph::getting::triple_views(latches@).len() == latches@.len());
    }
    while j < latches.len()
        invariant
            j <= latches@.len(),
            v == aig.view(),
            v.well_formed(),
            v.max_var <= max_variable_number(),
            crate::models::and_inverter_graph::getting::triple_views(latches@) == crate::models::and_inverter_graph::getting::latch_triples(v),
            latches@.len() == v.num_latches,
            state_numbers@ == Seq::new(j as nat, |k: int| (v.nodes[1 + v.num_inputs + k].lit / 2) as u32),
        decreases latches@.len() - j,
    {
        proof {
            assert(crate::models::and_inverter_graph::getting::triple_views(latches@)[j as int] == crate::models::and_inverter_graph::getting::latch_triples(v)[j as int]);
            assert(v.node_ok(1 + v.num_inputs + j));
        }
        let (latch_literal, _, _) = latches[j];
        state_numbers.push((latch_literal / 2) as u32);
        proof {
            assert(state_numbers@ =~= Seq::new((j + 1) as nat, |k: int| (v.nodes[1 + v.num_inputs + k].lit / 2) as u32));
        }
        j = j + 1;
    }
    proof {
        assert(nat_views(inputs@).len() == inputs@.len());
    }
    (input_numbers, state_numbers)
}

impl FiniteStateTransitionSystem {
    /// Function that converts an AndInverterGraph into a FiniteStateTransitionSystem: the
    /// latches are the state, the initial states are those of the latches' reset values, the
    /// transition relation makes each latch's next value that of its next-state literal, and
    /// the unsafe states are those where a bad-state property (or, when `assume_output_is_bad`,
    /// an output) holds.
    pub fn from_aig(aig: &AndInverterGraph, assume_output_is_bad: bool) -> (r: Self)
        requires
            convertible(aig.view(), assume_output_is_bad),
        ensures
            r.view().initial == clause_forms(initial_lists(aig.view())),
            r.view().transition == clause_forms(latch_update_lists(aig.view())).union(
                clause_forms(cone_lists(aig.view(), latch_inputs(aig.view()))),
            ),
            r.view().translation == clause_forms(
                cone_lists(aig.view(), watched_literals(aig.view(), assume_output_is_bad)),
            ),
            sorted_by_code(r.view().unsafety),
            same_literals(r.view().unsafety, unsafe_literals(aig.view(), assume_output_is_bad)),
            r.view().max_var == aig.view().max_var,
            r.view().input_vars == Seq::new(aig.view().num_inputs, |i: int| (aig.view().nodes[1 + i].lit / 2) as u32),
            r.view().state_vars == Seq::new(aig.view().num_latches, |j: int| (aig.view().nodes[1 + aig.view().num_inputs + j].lit / 2) as u32),
            system_of(aig.view(), assume_output_is_bad, r.view()),
    {
        aig.check_wf();
        let max_literal_number = aig.get_highest_variable_number() as u32;
        let (input_literals, state_literals) = input_and_state_numbers(aig);
        let initial_states = initial_cnf(aig);
        let transition = transition_cnf(aig);
        let state_and_property_connection = translation_cnf(aig, assume_output_is_bad);
        let unsafety_property = unsafety_clause(aig, assume_output_is_bad);
        proof {
            let v = aig.view();
            assert forall|j: int| 0 <= j < state_literals@.len() implies 1 <= #[trigger] state_literals@[j] <= max_literal_number by {
                assert(v.node_ok(1 + v.num_inputs + j));
            }
            assert forall|i: int| 0 <= i < input_literals@.len() implies 1 <= #[trigger] input_literals@[i] <= max_literal_number by {
                assert(v.node_ok(1 + i));
            }
        }
        let r = FiniteStateTransitionSystem {
            initial_states,
            transition,
            state_and_property_connection,
            unsafety_property,
            max_literal_number,
            state_literals,
            input_literals,
        };
        r
    }
}

} // verus!
