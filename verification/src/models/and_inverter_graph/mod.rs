//! And-Inverter Graphs read from the binary AIGER format.

use vstd::prelude::*;

pub mod aig_node;
pub mod construction;
pub mod conversion;
pub mod format;
pub mod getting;
pub mod simulation;

pub use aig_node::{AIGNode, AIGNodeType, AIGNodeView};

verus! {

/// What an And-Inverter Graph holds, as plain values.
///
/// Node `k` has the literal `2 * k`: node 0 is the constant false, then come the inputs, the
/// latches and the and gates, in that order.
pub struct AigView {
    /// The highest variable number, which is also the number of nodes after the constant.
    pub max_var: nat,
    pub num_inputs: nat,
    pub num_latches: nat,
    pub num_ands: nat,
    pub nodes: Seq<AIGNodeView>,
    /// The literals of the outputs.
    pub outputs: Seq<nat>,
    /// The literals of the bad-state properties.
    pub bad: Seq<nat>,
    /// The literals of the invariant constraints.
    pub constraints: Seq<nat>,
}

impl AigView {
    /// The kind that node `k` has by its position.
    pub open spec fn kind_at(self, k: int) -> AIGNodeType {
        if k == 0 {
            AIGNodeType::ConstantZero
        } else if k <= self.num_inputs {
            AIGNodeType::Input
        } else if k <= self.num_inputs + self.num_latches {
            AIGNodeType::Latch
        } else {
            AIGNodeType::And
        }
    }

    /// Whether a literal names a node of the graph.
    pub open spec fn literal_ok(self, lit: nat) -> bool {
        lit / 2 <= self.max_var
    }

    /// Whether node `k` is well formed at its position.
    pub open spec fn node_ok(self, k: int) -> bool {
        let n = self.nodes[k];
        &&& n.node_type == self.kind_at(k)
        &&& n.lit == 2 * k
        &&& (n.node_type == AIGNodeType::Latch ==> self.literal_ok(n.latch_input) && (
        n.latch_reset == 0 || n.latch_reset == 1 || n.latch_reset == n.lit))
        &&& (n.node_type == AIGNodeType::And ==> n.rhs0 < n.lit && n.rhs1 <= n.rhs0)
    }

    /// The shape that every graph read by this library has.
    pub open spec fn well_formed(self) -> bool {
        &&& self.max_var == self.num_inputs + self.num_latches + self.num_ands
        &&& 2 * self.max_var + 1 <= usize::MAX
        &&& self.nodes.len() == self.max_var + 1
        &&& forall|k: int| 0 <= k < self.nodes.len() ==> #[trigger] self.node_ok(k)
        &&& forall|i: int| 0 <= i < self.outputs.len() ==> self.literal_ok(#[trigger] self.outputs[i])
        &&& forall|i: int| 0 <= i < self.bad.len() ==> self.literal_ok(#[trigger] self.bad[i])
        &&& forall|i: int| 0 <= i < self.constraints.len() ==> self.literal_ok(
            #[trigger] self.constraints[i],
        )
    }
}

/// The views of a sequence of nodes.
pub open spec fn node_views(nodes: Seq<AIGNode>) -> Seq<AIGNodeView> {
    nodes.map_values(|n: AIGNode| n.view())
}

/// Struct that describes memory layout of the AIG.
pub struct AndInverterGraph {
    maximum_variable_index: usize,
    number_of_inputs: usize,
    number_of_latches: usize,
    number_of_outputs: usize,
    number_of_and_gates: usize,
    number_of_bad_state_constraints: usize,
    number_of_invariant_constraints: usize,
    number_of_justice_constraints: usize,
    number_of_fairness_constraints: usize,
    nodes: Vec<AIGNode>,
    // the positions in `nodes` of the inputs, latches and and gates.
    inputs: Vec<usize>,
    latches: Vec<usize>,
    ands: Vec<usize>,
    // these contain literals.
    outputs: Vec<usize>,
    bad: Vec<usize>,
    constraints: Vec<usize>,
}

/// The literals held by a vector, as natural numbers.
pub open spec fn nat_views(v: Seq<usize>) -> Seq<nat> {
    v.map_values(|x: usize| x as nat)
}

/// Pushing a number pushes its value.
pub proof fn lemma_nat_views_push(s: Seq<usize>, x: usize)
    ensures
        nat_views(s.push(x)) =~= nat_views(s).push(x as nat),
{
    assert forall|i: int| 0 <= i < s.len() + 1 implies #[trigger] nat_views(s.push(x))[i]
        == nat_views(s).push(x as nat)[i] by {
        if i < s.len() {
            assert(s.push(x)[i] == s[i]);
        }
    }
}

impl AndInverterGraph {
    /// What the graph holds.
    pub closed spec fn view(&self) -> AigView {
        AigView {
            max_var: self.maximum_variable_index as nat,
            num_inputs: self.number_of_inputs as nat,
            num_latches: self.number_of_latches as nat,
            num_ands: self.number_of_and_gates as nat,
            nodes: node_views(self.nodes@),
            outputs: nat_views(self.outputs@),
            bad: nat_views(self.bad@),
            constraints: nat_views(self.constraints@),
        }
    }

    /// Every graph is well formed.
    pub fn check_wf(&self)
        ensures
            self.view().well_formed(),
    {
        proof {
            use_type_invariant(self);
        }
    }

    /// The counts agree with the vectors, and the position vectors point at the nodes of
    /// their kind.
    #[verifier::type_invariant]
    spec fn consistent(&self) -> bool {
        &&& self.view().well_formed()
        &&& self.number_of_outputs == self.outputs@.len()
        &&& self.number_of_bad_state_constraints == self.bad@.len()
        &&& self.number_of_invariant_constraints == self.constraints@.len()
        &&& self.number_of_justice_constraints == 0
        &&& self.number_of_fairness_constraints == 0
        &&& self.inputs@.len() == self.number_of_inputs
        &&& self.latches@.len() == self.number_of_latches
        &&& self.ands@.len() == self.number_of_and_gates
        &&& forall|i: int| 0 <= i < self.inputs@.len() ==> #[trigger] self.inputs@[i] == 1 + i
        &&& forall|i: int| 0 <= i < self.latches@.len() ==> #[trigger] self.latches@[i] == 1
            + self.number_of_inputs + i
        &&& forall|i: int| 0 <= i < self.ands@.len() ==> #[trigger] self.ands@[i] == 1
            + self.number_of_inputs + self.number_of_latches + i
    }
}

} // verus!
