use vstd::prelude::*;

verus! {

/// The kind of a node of an And-Inverter Graph.
#[derive(PartialEq, Eq, Debug, Clone, Copy, Structural)]
pub enum AIGNodeType {
    ConstantZero,
    Input,
    Latch,
    And,
}

/// What a node holds, as plain values.
pub struct AIGNodeView {
    pub node_type: AIGNodeType,
    /// The node's literal (twice its variable number).
    pub lit: nat,
    /// For latches: the literal of the latch's next value.
    pub latch_input: nat,
    /// For latches: the reset value (0, 1, or the latch's own literal when uninitialized).
    pub latch_reset: nat,
    /// For and gates: the literals of the two inputs.
    pub rhs0: nat,
    pub rhs1: nat,
    pub input_symbol: Seq<char>,
    pub latch_symbol: Seq<char>,
    pub output_symbol: Seq<char>,
    pub bad_symbol: Seq<char>,
    pub constraint_symbol: Seq<char>,
}

/// A node of an And-Inverter Graph: the constant, an input, a latch or an and gate.
pub struct AIGNode {
    node_type: AIGNodeType,
    lit: usize,
    latch_input: usize,
    latch_reset: usize,
    and_input0: usize,
    and_input1: usize,
    input_symbol: String,
    latch_symbol: String,
    output_symbol: String,
    bad_symbol: String,
    constraint_symbol: String,
}

impl AIGNode {
    /// What the node holds.
    pub closed spec fn view(&self) -> AIGNodeView {
        AIGNodeView {
            node_type: self.node_type,
            lit: self.lit as nat,
            latch_input: self.latch_input as nat,
            latch_reset: self.latch_reset as nat,
            rhs0: self.and_input0 as nat,
            rhs1: self.and_input1 as nat,
            input_symbol: self.input_symbol@,
            latch_symbol: self.latch_symbol@,
            output_symbol: self.output_symbol@,
            bad_symbol: self.bad_symbol@,
            constraint_symbol: self.constraint_symbol@,
        }
    }

    /// A node of the given kind and literal; the other fields are `usize::MAX` and the
    /// symbols empty until set.
    pub fn new(lit: usize, node_type: AIGNodeType) -> (r: Self)
        requires
            lit % 2 == 0,
        ensures
            r.view() == (AIGNodeView {
                node_type,
                lit: lit as nat,
                latch_input: usize::MAX as nat,
                latch_reset: usize::MAX as nat,
                rhs0: usize::MAX as nat,
                rhs1: usize::MAX as nat,
                input_symbol: Seq::empty(),
                latch_symbol: Seq::empty(),
                output_symbol: Seq::empty(),
                bad_symbol: Seq::empty(),
                constraint_symbol: Seq::empty(),
            }),
    {
        Self {
            lit,
            latch_input: usize::MAX,
            latch_reset: usize::MAX,
            and_input0: usize::MAX,
            and_input1: usize::MAX,
            node_type,
            input_symbol: String::new(),
            latch_symbol: String::new(),
            output_symbol: String::new(),
            bad_symbol: String::new(),
            constraint_symbol: String::new(),
        }
    }

    /// Sets the literal of a latch's next value.
    pub fn set_input_of_latch(&mut self, input: usize)
        requires
            old(self).view().node_type == AIGNodeType::Latch,
        ensures
            final(self).view() == (AIGNodeView { latch_input: input as nat, ..old(self).view() }),
    {
        self.latch_input = input;
    }

    /// Sets the reset value of a latch: 0, 1, or the latch's own literal.
    pub fn set_reset_of_latch(&mut self, reset: usize)
        requires
            old(self).view().node_type == AIGNodeType::Latch,
            reset == 0 || reset == 1 || reset == old(self).view().lit,
        ensures
            final(self).view() == (AIGNodeView { latch_reset: reset as nat, ..old(self).view() }),
    {
        self.latch_reset = reset;
    }

    /// Sets the first input literal of an and gate.
    pub fn set_rhs0_of_and(&mut self, rhs0: usize)
        requires
            old(self).view().node_type == AIGNodeType::And,
        ensures
            final(self).view() == (AIGNodeView { rhs0: rhs0 as nat, ..old(self).view() }),
    {
        self.and_input0 = rhs0;
    }

    /// Sets the second input literal of an and gate.
    pub fn set_rhs1_of_and(&mut self, rhs1: usize)
        requires
            old(self).view().node_type == AIGNodeType::And,
        ensures
            final(self).view() == (AIGNodeView { rhs1: rhs1 as nat, ..old(self).view() }),
    {
        self.and_input1 = rhs1;
    }

    /// The kind of the node.
    pub fn get_type(&self) -> (r: AIGNodeType)
        ensures
            r == self.view().node_type,
    {
        self.node_type
    }

    /// The node's literal.
    pub fn get_literal(&self) -> (r: usize)
        ensures
            r == self.view().lit,
    {
        self.lit
    }

    /// The literal of a latch's next value.
    pub fn get_latch_input(&self) -> (r: usize)
        requires
            self.view().node_type == AIGNodeType::Latch,
        ensures
            r == self.view().latch_input,
    {
        self.latch_input
    }

    /// The reset value of a latch.
    pub fn get_latch_reset(&self) -> (r: usize)
        requires
            self.view().node_type == AIGNodeType::Latch,
        ensures
            r == self.view().latch_reset,
    {
        self.latch_reset
    }

    /// The first input literal of an and gate.
    pub fn get_and_rhs0(&self) -> (r: usize)
        requires
            self.view().node_type == AIGNodeType::And,
        ensures
            r == self.view().rhs0,
    {
        self.and_input0
    }

    /// The second input literal of an and gate.
    pub fn get_and_rhs1(&self) -> (r: usize)
        requires
            self.view().node_type == AIGNodeType::And,
        ensures
            r == self.view().rhs1,
    {
        self.and_input1
    }

    /// Sets the symbol of an input.
    pub fn set_input_symbol(&mut self, symbol: &str)
        requires
            old(self).view().node_type == AIGNodeType::Input,
        ensures
            final(self).view() == (AIGNodeView { input_symbol: symbol@, ..old(self).view() }),
    {
        self.input_symbol = symbol.to_owned();
    }

    /// The symbol of an input.
    pub fn get_input_symbol(&self) -> (r: &str)
        requires
            self.view().node_type == AIGNodeType::Input,
        ensures
            r@ == self.view().input_symbol,
    {
        self.input_symbol.as_str()
    }

    /// Sets the symbol of a latch.
    pub fn set_latch_symbol(&mut self, symbol: &str)
        requires
            old(self).view().node_type == AIGNodeType::Latch,
        ensures
            final(self).view() == (AIGNodeView { latch_symbol: symbol@, ..old(self).view() }),
    {
        self.latch_symbol = symbol.to_owned();
    }

    /// The symbol of a latch.
    pub fn get_latch_symbol(&self) -> (r: &str)
        requires
            self.view().node_type == AIGNodeType::Latch,
        ensures
            r@ == self.view().latch_symbol,
    {
        self.latch_symbol.as_str()
    }

    /// Sets the symbol of the output this node drives.
    pub fn set_output_symbol(&mut self, symbol: &str)
        ensures
            final(self).view() == (AIGNodeView { output_symbol: symbol@, ..old(self).view() }),
    {
        self.output_symbol = symbol.to_owned();
    }

    /// The symbol of the output this node drives.
    pub fn get_output_symbol(&self) -> (r: &str)
        ensures
            r@ == self.view().output_symbol,
    {
        self.output_symbol.as_str()
    }

    /// Sets the symbol of the bad-state property this node drives.
    pub fn set_bad_symbol(&mut self, symbol: &str)
        ensures
            final(self).view() == (AIGNodeView { bad_symbol: symbol@, ..old(self).view() }),
    {
        self.bad_symbol = symbol.to_owned();
    }

    /// The symbol of the bad-state property this node drives.
    pub fn get_bad_symbol(&self) -> (r: &str)
        ensures
            r@ == self.view().bad_symbol,
    {
        self.bad_symbol.as_str()
    }

    /// Sets the symbol of the invariant constraint this node drives.
    pub fn set_constraint_symbol(&mut self, symbol: &str)
        ensures
            final(self).view() == (AIGNodeView { constraint_symbol: symbol@, ..old(self).view() }),
    {
        self.constraint_symbol = symbol.to_owned();
    }

    /// The symbol of the invariant constraint this node drives.
    pub fn get_constraint_symbol(&self) -> (r: &str)
        ensures
            r@ == self.view().constraint_symbol,
    {
        self.constraint_symbol.as_str()
    }
}

} // verus!
