//! Simulating an And-Inverter Graph clock by clock.

use super::aig_node::AIGNodeType;
use super::{AigView, AndInverterGraph};
use std::collections::HashMap;
use vstd::prelude::*;

verus! {

broadcast use vstd::std_specs::hash::group_hash_axioms;

/// The states that a simulation went through: one value per node, for each clock.
pub struct AIGSimulationResult {
    states: Vec<Vec<bool>>,
}

impl AIGSimulationResult {
    /// The states, one per clock.
    pub closed spec fn view(&self) -> Seq<Seq<bool>> {
        self.states@.map_values(|s: Vec<bool>| s@)
    }

    /// The states, one per clock: the value of each node (by variable number).
    pub fn get_states(&self) -> (r: &Vec<Vec<bool>>)
        ensures
            r@.map_values(|s: Vec<bool>| s@) == self.view(),
    {
        &self.states
    }
}

/// The value of a literal in a state.
pub open spec fn literal_value(state: Seq<bool>, lit: nat) -> bool {
    if lit % 2 == 0 {
        state[(lit / 2) as int]
    } else {
        !state[(lit / 2) as int]
    }
}

/// The value of node `k` in the next state: false for the constant, the input value for an
/// input, the value of its next-state literal in the last state for a latch, and the
/// conjunction of its inputs' values in the next state for an and gate.
pub open spec fn next_value(v: AigView, last: Seq<bool>, input: Map<usize, bool>, k: int) -> bool
    decreases k,
{
    if k <= 0 || k >= v.nodes.len() {
        false
    } else {
        let n = v.nodes[k];
        match n.node_type {
            AIGNodeType::ConstantZero => false,
            AIGNodeType::Input => input[k as usize],
            AIGNodeType::Latch => literal_value(last, n.latch_input),
            AIGNodeType::And => {
                let a = if n.rhs0 / 2 < k {
                    let x = next_value(v, last, input, (n.rhs0 / 2) as int);
                    if n.rhs0 % 2 == 0 { x } else { !x }
                } else {
                    false
                };
                let b = if n.rhs1 / 2 < k {
                    let x = next_value(v, last, input, (n.rhs1 / 2) as int);
                    if n.rhs1 % 2 == 0 { x } else { !x }
                } else {
                    false
                };
                a && b
            },
        }
    }
}

/// The next state after `last` with the given inputs.
pub open spec fn next_state(v: AigView, last: Seq<bool>, input: Map<usize, bool>) -> Seq<bool> {
    Seq::new(v.nodes.len(), |k: int| next_value(v, last, input, k))
}

/// The state before the first clock: every node false, then each input set to its first
/// value, then, latch by latch, the variable of its next-state literal set so that the literal
/// has the latch's initial value.
pub open spec fn pre_initial_state(v: AigView, first_input: Map<usize, bool>, latches: Map<usize, bool>, j: nat) -> Seq<bool>
    decreases j,
{
    if j == 0 {
        Seq::new(v.nodes.len(), |k: int| if 1 <= k <= v.num_inputs { first_input[k as usize] } else { false })
    } else {
        let s = pre_initial_state(v, first_input, latches, (j - 1) as nat);
        let k = 1 + v.num_inputs + j - 1;
        let n = v.nodes[k];
        let value = latches[k as usize];
        s.update((n.latch_input / 2) as int, if n.latch_input % 2 == 0 { value } else { !value })
    }
}

/// The states of the first `c` clocks.
pub open spec fn simulation_states(v: AigView, inputs: Seq<Map<usize, bool>>, pre: Seq<bool>, c: nat) -> Seq<Seq<bool>>
    decreases c,
{
    if c == 0 {
        Seq::empty()
    } else {
        let before = simulation_states(v, inputs, pre, (c - 1) as nat);
        let last = if c == 1 { pre } else { before.last() };
        before.push(next_state(v, last, inputs[c - 1]))
    }
}

/// A simulation of `c` clocks has `c` states, and depends on the inputs of those clocks only.
proof fn lemma_simulation_inputs(
    v: AigView,
    inputs: Seq<Map<usize, bool>>,
    other: Seq<Map<usize, bool>>,
    pre: Seq<bool>,
    c: nat,
)
    requires
        forall|i: int| 0 <= i < c ==> inputs[i] == other[i],
    ensures
        simulation_states(v, inputs, pre, c).len() == c,
        simulation_states(v, inputs, pre, c) == simulation_states(v, other, pre, c),
    decreases c,
{
    if c > 0 {
        lemma_simulation_inputs(v, inputs, other, pre, (c - 1) as nat);
    }
}

/// Simulating the first clocks of a run gives the first states of the run: a state depends on
/// the inputs of its own clock and those before it, not on later ones.
pub proof fn law_simulation_prefix(
    v: AigView,
    inputs: Seq<Map<usize, bool>>,
    first_inputs: Seq<Map<usize, bool>>,
    pre: Seq<bool>,
    c1: nat,
    c2: nat,
)
    requires
        c1 <= c2,
        forall|i: int| 0 <= i < c1 ==> first_inputs[i] == inputs[i],
    ensures
        simulation_states(v, first_inputs, pre, c1) == simulation_states(v, inputs, pre, c2).take(c1 as int),
    decreases c2,
{
    if c2 == c1 {
        lemma_simulation_inputs(v, first_inputs, inputs, pre, c1);
        assert(simulation_states(v, inputs, pre, c2).take(c1 as int) =~= simulation_states(v, inputs, pre, c2));
    } else {
        law_simulation_prefix(v, inputs, first_inputs, pre, c1, (c2 - 1) as nat);
        lemma_simulation_inputs(v, inputs, inputs, pre, (c2 - 1) as nat);
        let before = simulation_states(v, inputs, pre, (c2 - 1) as nat);
        assert(simulation_states(v, inputs, pre, c2).take(c1 as int) =~= before.take(c1 as int));
    }
}

/// Whether latch `j2`, set after latch `j` in the state before the first clock, leaves the
/// next-state literal of latch `j` with its initial value: its own next-state literal is over
/// another variable, or asks of that variable the same value.
pub open spec fn later_latch_agrees(v: AigView, latches: Map<usize, bool>, j: int, j2: int) -> bool {
    let k = 1 + v.num_inputs + j;
    let k2 = 1 + v.num_inputs + j2;
    let l = v.nodes[k].latch_input;
    let l2 = v.nodes[k2].latch_input;
    l2 / 2 == l / 2 ==> ((l2 % 2 == l % 2) == (latches[k2 as usize] == latches[k as usize]))
}

/// The state before the first clock has one value per node.
proof fn lemma_pre_initial_len(v: AigView, first_input: Map<usize, bool>, latches: Map<usize, bool>, m: nat)
    requires
        v.well_formed(),
        m <= v.num_latches,
    ensures
        pre_initial_state(v, first_input, latches, m).len() == v.nodes.len(),
    decreases m,
{
    if m > 0 {
        lemma_pre_initial_len(v, first_input, latches, (m - 1) as nat);
        assert(v.node_ok(1 + v.num_inputs + m - 1));
    }
}

/// A variable that no latch's next-state literal is over keeps, in the state before the first
/// clock, its first input value if it is an input, and false otherwise.
pub proof fn law_pre_initial_untouched(
    v: AigView,
    first_input: Map<usize, bool>,
    latches: Map<usize, bool>,
    m: nat,
    x: int,
)
    requires
        v.well_formed(),
        m <= v.num_latches,
        0 <= x < v.nodes.len(),
        forall|j: int| 0 <= j < m ==> #[trigger] v.nodes[1 + v.num_inputs + j].latch_input / 2 != x,
    ensures
        pre_initial_state(v, first_input, latches, m)[x] == if 1 <= x <= v.num_inputs {
            first_input[x as usize]
        } else {
            false
        },
    decreases m,
{
    if m > 0 {
        law_pre_initial_untouched(v, first_input, latches, (m - 1) as nat, x);
        lemma_pre_initial_len(v, first_input, latches, (m - 1) as nat);
        let k = 1 + v.num_inputs + m - 1;
        assert(v.node_ok(k));
        assert(v.nodes[1 + v.num_inputs + (m - 1)].latch_input / 2 != x);
    }
}

/// In the state before the first clock (once the first `m` latches are set), the next-state
/// literal of latch `j` has the latch's initial value, whatever its polarity, unless a later
/// latch asks the opposite of the same variable.
pub proof fn law_pre_initial_latch_literal(
    v: AigView,
    first_input: Map<usize, bool>,
    latches: Map<usize, bool>,
    j: nat,
    m: nat,
)
    requires
        v.well_formed(),
        j < m <= v.num_latches,
        forall|j2: int| j < j2 < m ==> #[trigger] later_latch_agrees(v, latches, j as int, j2),
    ensures
        literal_value(
            pre_initial_state(v, first_input, latches, m),
            v.nodes[(1 + v.num_inputs + j) as int].latch_input,
        ) == latches[(1 + v.num_inputs + j) as usize],
    decreases m,
{
    let k = (1 + v.num_inputs + j) as int;
    assert(v.node_ok(k));
    lemma_pre_initial_len(v, first_input, latches, (m - 1) as nat);
    if m > j + 1 {
        law_pre_initial_latch_literal(v, first_input, latches, j, (m - 1) as nat);
        let k2 = 1 + v.num_inputs + m - 1;
        assert(v.node_ok(k2));
        assert(later_latch_agrees(v, latches, j as int, m - 1));
    }
}

/// State `c` of a run is the next state after the state before it (the state before the first
/// clock, for the first).
proof fn lemma_state_at(v: AigView, inputs: Seq<Map<usize, bool>>, pre: Seq<bool>, n: nat, c: nat)
    requires
        c < n,
    ensures
        simulation_states(v, inputs, pre, n).len() == n,
        simulation_states(v, inputs, pre, n)[c as int] == next_state(
            v,
            if c == 0 {
                pre
            } else {
                simulation_states(v, inputs, pre, n)[c - 1]
            },
            inputs[c as int],
        ),
    decreases n,
{
    let before = simulation_states(v, inputs, pre, (n - 1) as nat);
    lemma_simulation_inputs(v, inputs, inputs, pre, (n - 1) as nat);
    assert(simulation_states(v, inputs, pre, n) == before.push(
        next_state(v, if n == 1 { pre } else { before.last() }, inputs[n - 1]),
    ));
    if c < n - 1 {
        lemma_state_at(v, inputs, pre, (n - 1) as nat, c);
    }
}

/// In each state of a simulation, the constant is false, an input has its value at that clock,
/// a latch has the value that its next-state literal had in the state before (the state before
/// the first clock, for the first), and an and gate the conjunction of the values of its input
/// literals in the same state.
pub proof fn law_simulation_clock(v: AigView, inputs: Seq<Map<usize, bool>>, pre: Seq<bool>, c: nat, k: int)
    requires
        v.well_formed(),
        c < inputs.len(),
        0 <= k < v.nodes.len(),
    ensures
        ({
            let states = simulation_states(v, inputs, pre, inputs.len());
            let last = if c == 0 {
                pre
            } else {
                states[c - 1]
            };
            let n = v.nodes[k];
            &&& states.len() == inputs.len()
            &&& states[c as int].len() == v.nodes.len()
            &&& n.node_type == AIGNodeType::ConstantZero ==> !states[c as int][k]
            &&& n.node_type == AIGNodeType::Input ==> states[c as int][k] == inputs[c as int][k as usize]
            &&& n.node_type == AIGNodeType::Latch ==> states[c as int][k] == literal_value(last, n.latch_input)
            &&& n.node_type == AIGNodeType::And ==> states[c as int][k] == (literal_value(
                states[c as int],
                n.rhs0,
            ) && literal_value(states[c as int], n.rhs1))
        }),
{
    let states = simulation_states(v, inputs, pre, inputs.len());
    lemma_state_at(v, inputs, pre, inputs.len(), c);
    let last = if c == 0 {
        pre
    } else {
        states[c - 1]
    };
    assert(v.node_ok(k));
    let n = v.nodes[k];
    let st = states[c as int];
    assert(st[k] == next_value(v, last, inputs[c as int], k));
    if n.node_type == AIGNodeType::And {
        assert(st[(n.rhs0 / 2) as int] == next_value(v, last, inputs[c as int], (n.rhs0 / 2) as int));
        assert(st[(n.rhs1 / 2) as int] == next_value(v, last, inputs[c as int], (n.rhs1 / 2) as int));
    }
}

/// In the first state of a simulation every latch holds the initial value given for it,
/// whatever the polarity of its next-state literal, unless a later latch asks the opposite of
/// the same variable.
pub proof fn law_simulation_starts_at_initial_values(
    v: AigView,
    inputs: Seq<Map<usize, bool>>,
    latches: Map<usize, bool>,
    j: nat,
)
    requires
        v.well_formed(),
        inputs.len() > 0,
        j < v.num_latches,
        forall|j2: int| j < j2 < v.num_latches ==> #[trigger] later_latch_agrees(v, latches, j as int, j2),
    ensures
        simulation_states(
            v,
            inputs,
            pre_initial_state(v, inputs[0], latches, v.num_latches),
            inputs.len(),
        )[0][(1 + v.num_inputs + j) as int] == latches[(1 + v.num_inputs + j) as usize],
{
    let pre = pre_initial_state(v, inputs[0], latches, v.num_latches);
    let k = (1 + v.num_inputs + j) as int;
    assert(v.node_ok(k));
    lemma_state_at(v, inputs, pre, inputs.len(), 0);
    law_pre_initial_latch_literal(v, inputs[0], latches, j, v.num_latches);
    assert(next_state(v, pre, inputs[0])[k] == next_value(v, pre, inputs[0], k));
}

/// Whether the inputs of a clock give a value to exactly the inputs of the graph.
pub open spec fn clock_inputs_ok(v: AigView, input: Map<usize, bool>) -> bool {
    &&& input.len() == v.num_inputs
    &&& forall|k: usize| 1 <= k <= v.num_inputs ==> #[trigger] input.contains_key(k)
}

/// Whether the inputs of a clock give a value to every input of the graph (and perhaps to
/// other keys, which are not read).
pub open spec fn inputs_given(v: AigView, input: Map<usize, bool>) -> bool {
    forall|k: usize| 1 <= k <= v.num_inputs ==> #[trigger] input.contains_key(k)
}

/// Whether the initial values give a value to exactly the latches of the graph.
pub open spec fn initial_latches_ok(v: AigView, latches: Map<usize, bool>) -> bool {
    &&& latches.len() <= v.num_latches
    &&& forall|k: usize| v.num_inputs < k <= v.num_inputs + v.num_latches ==> #[trigger] latches.contains_key(k)
}

/// The inputs of each clock, as maps.
pub open spec fn input_maps(inputs: Seq<HashMap<usize, bool>>) -> Seq<Map<usize, bool>> {
    inputs.map_values(|m: HashMap<usize, bool>| m@)
}

impl AndInverterGraph {
    /// The state before the first clock, from the inputs of the first clock and the initial
    /// values of the latches.
    pub fn get_pre_initial_simulation_state(
        &self,
        initial_input: &HashMap<usize, bool>,
        initial_latches: &HashMap<usize, bool>,
    ) -> (r: Vec<bool>)
        requires
            clock_inputs_ok(self.view(), initial_input@),
            initial_latches_ok(self.view(), initial_latches@),
        ensures
            r@ == pre_initial_state(
                self.view(),
                initial_input@,
                initial_latches@,
                self.view().num_latches,
            ),
            r@.len() == self.view().nodes.len(),
    {
        self.check_wf();
        let ghost v = self.view();
        let mut result: Vec<bool> = Vec::new();
        let mut k: usize = 0;
        while k < self.nodes.len()
            invariant
                k <= v.nodes.len(),
                v == self.view(),
                v.well_formed(),
                clock_inputs_ok(v, initial_input@),
                result@ == pre_initial_state(v, initial_input@, initial_latches@, 0).subrange(
                    0,
                    k as int,
                ),
            decreases v.nodes.len() - k,
        {
            let value = if 1 <= k && k <= self.number_of_inputs {
                match initial_input.get(&k) {
                    Some(x) => *x,
                    None => {
                        proof {
                            assert(initial_input@.contains_key(k));
                        }
                        false
                    },
                }
            } else {
                false
            };
            result.push(value);
            proof {
                assert(result@ =~= pre_initial_state(v, initial_input@, initial_latches@, 0).subrange(
                    0,
                    k + 1,
                ));
            }
            k = k + 1;
        }
        proof {
            assert(result@ =~= pre_initial_state(v, initial_input@, initial_latches@, 0));
        }
        let mut j: usize = 0;
        while j < self.number_of_latches
            invariant
                j <= v.num_latches,
                v == self.view(),
                v.well_formed(),
                initial_latches_ok(v, initial_latches@),
                result@ == pre_initial_state(v, initial_input@, initial_latches@, j as nat),
                result@.len() == v.nodes.len(),
            decreases v.num_latches - j,
        {
            let k = 1 + self.number_of_inputs + j;
            proof {
                assert(v.node_ok(k as int));
                assert(v.nodes[k as int] == self.nodes@[k as int].view());
            }
            let value = match initial_latches.get(&k) {
                Some(x) => *x,
                None => {
                    proof {
                        assert(initial_latches@.contains_key(k));
                    }
                    false
                },
            };
            let latch_input = self.nodes[k].get_latch_input();
            proof {
                assert(v.literal_ok(latch_input as nat));
            }
            let set_to = if latch_input % 2 == 0 {
                value
            } else {
                !value
            };
            result.set(latch_input / 2, set_to);
            j = j + 1;
        }
        result
    }

    /// The value of every node in the next state, after `last_state` with `current_input`.
    fn get_next_simulation_state(&self, last_state: &Vec<bool>, current_input: &HashMap<usize, bool>) -> (r: Vec<bool>)
        requires
            last_state@.len() == self.view().nodes.len(),
            inputs_given(self.view(), current_input@),
        ensures
            r@ == next_state(self.view(), last_state@, current_input@),
    {
        self.check_wf();
        let ghost v = self.view();
        let mut result: Vec<bool> = Vec::new();
        let mut k: usize = 0;
        while k < self.nodes.len()
            invariant
                k <= v.nodes.len(),
                v == self.view(),
                v.well_formed(),
                last_state@.len() == v.nodes.len(),
                inputs_given(v, current_input@),
                result@ == next_state(v, last_state@, current_input@).subrange(0, k as int),
            decreases v.nodes.len() - k,
        {
            proof {
                assert(v.node_ok(k as int));
                assert(v.nodes[k as int] == self.nodes@[k as int].view());
            }
            let node = &self.nodes[k];
            let value = match node.get_type() {
                AIGNodeType::ConstantZero => false,
                AIGNodeType::Input => {
                    match current_input.get(&k) {
                        Some(x) => *x,
                        None => {
                            proof {
                                assert(current_input@.contains_key(k));
                            }
                            false
                        },
                    }
                },
                AIGNodeType::Latch => {
                    let latch_in = node.get_latch_input();
                    proof {
                        assert(v.literal_ok(latch_in as nat));
                    }
                    if latch_in % 2 == 0 {
                        last_state[latch_in / 2]
                    } else {
                        !last_state[latch_in / 2]
                    }
                },
                AIGNodeType::And => {
                    let rhs0 = node.get_and_rhs0();
                    let rhs1 = node.get_and_rhs1();
                    proof {
                        assert(result@[(rhs0 / 2) as int] == next_value(v, last_state@, current_input@, (rhs0 / 2) as int));
                        assert(result@[(rhs1 / 2) as int] == next_value(v, last_state@, current_input@, (rhs1 / 2) as int));
                    }
                    let rhs0_value = if rhs0 % 2 == 0 {
                        result[rhs0 / 2]
                    } else {
                        !result[rhs0 / 2]
                    };
                    let rhs1_value = if rhs1 % 2 == 0 {
                        result[rhs1 / 2]
                    } else {
                        !result[rhs1 / 2]
                    };
                    rhs0_value && rhs1_value
                },
            };
            proof {
                assert(value == next_value(v, last_state@, current_input@, k as int));
            }
            result.push(value);
            proof {
                assert(result@ =~= next_state(v, last_state@, current_input@).subrange(0, k + 1));
            }
            k = k + 1;
        }
        proof {
            assert(next_state(v, last_state@, current_input@).subrange(0, k as int) =~= next_state(v, last_state@, current_input@));
        }
        result
    }

    /// Simulates the graph clock by clock: `inputs` gives the value of every input at each
    /// clock, and `initial_latches` the initial value of every latch.
    pub fn simulate(
        &self,
        inputs: &Vec<HashMap<usize, bool>>,
        initial_latches: &HashMap<usize, bool>,
    ) -> (r: AIGSimulationResult)
        requires
            inputs.len() > 0,
            forall|c: int| 0 <= c < inputs.len() ==> clock_inputs_ok(self.view(), #[trigger] inputs@[c]@),
            initial_latches_ok(self.view(), initial_latches@),
        ensures
            r.view() == simulation_states(
                self.view(),
                input_maps(inputs@),
                pre_initial_state(self.view(), inputs@[0]@, initial_latches@, self.view().num_latches),
                inputs.len() as nat,
            ),
    {
        self.check_wf();
        let ghost v = self.view();
        let pre = self.get_pre_initial_simulation_state(&inputs[0], initial_latches);
        let ghost ins = input_maps(inputs@);
        let mut states: Vec<Vec<bool>> = Vec::new();
        let mut c: usize = 0;
        while c < inputs.len()
            invariant
                c <= inputs.len(),
                v == self.view(),
                ins == input_maps(inputs@),
                pre@.len() == v.nodes.len(),
                forall|d: int| 0 <= d < inputs.len() ==> clock_inputs_ok(v, #[trigger] inputs@[d]@),
                states@.len() == c,
                forall|d: int| 0 <= d < c ==> (#[trigger] states@[d])@.len() == v.nodes.len(),
                states@.map_values(|s: Vec<bool>| s@) == simulation_states(v, ins, pre@, c as nat),
            decreases inputs.len() - c,
        {
            proof {
                assert(ins[c as int] == inputs@[c as int]@);
            }
            let next = if c == 0 {
                self.get_next_simulation_state(&pre, &inputs[c])
            } else {
                proof {
                    assert(states@.map_values(|s: Vec<bool>| s@)[c - 1] == states@[c - 1]@);
                }
                self.get_next_simulation_state(&states[c - 1], &inputs[c])
            };
            let ghost before = states@;
            states.push(next);
            proof {
                assert(states@.map_values(|s: Vec<bool>| s@) =~= before.map_values(
                    |s: Vec<bool>| s@,
                ).push(next@));
            }
            c = c + 1;
        }
        AIGSimulationResult { states }
    }
}

} // verus!
