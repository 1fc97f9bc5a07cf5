//! Writing an And-Inverter Graph in the ASCII AIGER format.

use super::{AigView, AndInverterGraph};
use crate::text::{append_decimal, concat_lines, decimal};
use vstd::prelude::*;
use vstd::string::StringExecFns;

verus! {

/// A space, a decimal number.
pub open spec fn spaced(n: nat) -> Seq<char> {
    seq![' '] + decimal(n)
}

/// The header line `aag M I L O A`, followed by `B` where there are bad-state properties or
/// invariant constraints, and by `C` where there are invariant constraints.
pub open spec fn aag_header(v: AigView) -> Seq<char> {
    seq!['a', 'a', 'g'] + spaced(v.max_var) + spaced(v.num_inputs) + spaced(v.num_latches)
        + spaced(v.outputs.len()) + spaced(v.num_ands) + (if v.bad.len() + v.constraints.len() > 0 {
        spaced(v.bad.len())
    } else {
        Seq::empty()
    }) + (if v.constraints.len() > 0 {
        spaced(v.constraints.len())
    } else {
        Seq::empty()
    })
}

/// The line of input `i`: its literal.
pub open spec fn aag_input_line(v: AigView, i: int) -> Seq<char> {
    decimal(v.nodes[1 + i].lit) + seq!['\n']
}

/// The line of latch `j`: its literal, its next-state literal and, when it is not 0, its
/// reset value.
pub open spec fn aag_latch_line(v: AigView, j: int) -> Seq<char> {
    let n = v.nodes[1 + v.num_inputs + j];
    decimal(n.lit) + spaced(n.latch_input) + (if n.latch_reset != 0 {
        spaced(n.latch_reset)
    } else {
        Seq::empty()
    }) + seq!['\n']
}

/// The line of a literal.
pub open spec fn aag_literal_line(lits: Seq<nat>, i: int) -> Seq<char> {
    decimal(lits[i]) + seq!['\n']
}

/// The line of and gate `k`: its literal and its two inputs.
pub open spec fn aag_and_line(v: AigView, k: int) -> Seq<char> {
    let n = v.nodes[1 + v.num_inputs + v.num_latches + k];
    decimal(n.lit) + spaced(n.rhs0) + spaced(n.rhs1) + seq!['\n']
}

/// A line of the symbol table: the kind, the index, a space and the symbol; nothing when the
/// symbol is empty.
pub open spec fn aag_symbol_line(kind: char, i: int, symbol: Seq<char>) -> Seq<char> {
    if symbol.len() == 0 {
        Seq::empty()
    } else {
        seq![kind] + decimal(i as nat) + seq![' '] + symbol + seq!['\n']
    }
}

/// The lines of the inputs.
pub open spec fn input_lines(v: AigView) -> spec_fn(int) -> Seq<char> {
    |i: int| aag_input_line(v, i)
}

/// The lines of the latches.
pub open spec fn latch_lines(v: AigView) -> spec_fn(int) -> Seq<char> {
    |j: int| aag_latch_line(v, j)
}

/// The lines of a list of literals.
pub open spec fn literal_lines(lits: Seq<nat>) -> spec_fn(int) -> Seq<char> {
    |i: int| aag_literal_line(lits, i)
}

/// The lines of the and gates.
pub open spec fn and_lines(v: AigView) -> spec_fn(int) -> Seq<char> {
    |k: int| aag_and_line(v, k)
}

/// The symbol lines of the inputs.
pub open spec fn input_symbol_lines(v: AigView) -> spec_fn(int) -> Seq<char> {
    |i: int| aag_symbol_line('i', i, v.nodes[1 + i].input_symbol)
}

/// The symbol lines of the latches.
pub open spec fn latch_symbol_lines(v: AigView) -> spec_fn(int) -> Seq<char> {
    |j: int| aag_symbol_line('l', j, v.nodes[1 + v.num_inputs + j].latch_symbol)
}

/// The symbol lines of the outputs, each read from the node its literal names.
pub open spec fn output_symbol_lines(v: AigView) -> spec_fn(int) -> Seq<char> {
    |i: int| aag_symbol_line('o', i, v.nodes[(v.outputs[i] / 2) as int].output_symbol)
}

/// The symbol lines of the bad-state properties.
pub open spec fn bad_symbol_lines(v: AigView) -> spec_fn(int) -> Seq<char> {
    |i: int| aag_symbol_line('b', i, v.nodes[(v.bad[i] / 2) as int].bad_symbol)
}

/// The symbol lines of the invariant constraints.
pub open spec fn constraint_symbol_lines(v: AigView) -> spec_fn(int) -> Seq<char> {
    |i: int| aag_symbol_line('c', i, v.nodes[(v.constraints[i] / 2) as int].constraint_symbol)
}

/// The ASCII AIGER text of a graph: the header, the inputs, latches, outputs, bad-state
/// properties, invariant constraints and and gates, one per line, then the symbols of the
/// inputs, latches, outputs, bad-state properties and invariant constraints that have one.
pub open spec fn aag_text(v: AigView) -> Seq<char> {
    aag_header(v) + seq!['\n'] + concat_lines(v.num_inputs, input_lines(v)) + concat_lines(
        v.num_latches,
        latch_lines(v),
    ) + concat_lines(v.outputs.len(), literal_lines(v.outputs)) + concat_lines(
        v.bad.len(),
        literal_lines(v.bad),
    ) + concat_lines(v.constraints.len(), literal_lines(v.constraints)) + concat_lines(
        v.num_ands,
        and_lines(v),
    ) + concat_lines(v.num_inputs, input_symbol_lines(v)) + concat_lines(
        v.num_latches,
        latch_symbol_lines(v),
    ) + concat_lines(v.outputs.len(), output_symbol_lines(v)) + concat_lines(
        v.bad.len(),
        bad_symbol_lines(v),
    ) + concat_lines(v.constraints.len(), constraint_symbol_lines(v))
}

/// Appends a space and the decimal notation of `n`.
fn append_spaced(s: &mut String, n: usize)
    ensures
        final(s)@ == old(s)@ + spaced(n as nat),
{
    proof {
        reveal_strlit(" ");
    }
    s.append(" ");
    append_decimal(s, n as u64);
    assert(final(s)@ =~= old(s)@ + spaced(n as nat));
}

/// Appends a newline.
fn append_newline(s: &mut String)
    ensures
        final(s)@ == old(s)@ + seq!['\n'],
{
    proof {
        reveal_strlit("\n");
    }
    s.append("\n");
}

/// Appends the symbol line of kind `kind` (one character), index `i` and symbol `symbol`.
fn append_symbol_line(s: &mut String, kind: &str, i: usize, symbol: &str)
    requires
        kind@.len() == 1,
    ensures
        final(s)@ == old(s)@ + aag_symbol_line(kind@[0], i as int, symbol@),
{
    if !symbol.is_empty() {
        proof {
            reveal_strlit(" ");
        }
        s.append(kind);
        append_decimal(s, i as u64);
        s.append(" ");
        s.append(symbol);
        append_newline(s);
        assert(kind@ =~= seq![kind@[0]]);
        assert(final(s)@ =~= old(s)@ + aag_symbol_line(kind@[0], i as int, symbol@));
    }
}

/// Appends the lines of a list of literals.
fn append_literal_lines(s: &mut String, lits: &Vec<usize>)
    ensures
        final(s)@ == old(s)@ + concat_lines(lits@.len(), literal_lines(super::nat_views(lits@))),
{
    let ghost s0 = s@;
    let ghost l = super::nat_views(lits@);
    let mut i: usize = 0;
    while i < lits.len()
        invariant
            i <= lits@.len(),
            l == super::nat_views(lits@),
            s@ == s0 + concat_lines(i as nat, literal_lines(l)),
        decreases lits@.len() - i,
    {
        append_decimal(s, lits[i] as u64);
        append_newline(s);
        proof {
            assert(literal_lines(l)(i as int) == aag_literal_line(l, i as int));
            assert(s@ =~= s0 + concat_lines((i + 1) as nat, literal_lines(l)));
        }
        i = i + 1;
    }
}

impl AndInverterGraph {
    fn append_input_lines(&self, s: &mut String)
        ensures
            final(s)@ == old(s)@ + concat_lines(self.view().num_inputs, input_lines(self.view())),
    {
        let ghost s0 = s@;
        let ghost v = self.view();
        let mut i: usize = 0;
        proof {
            use_type_invariant(self);
        }
        while i < self.inputs.len()
            invariant
                i <= self.inputs@.len(),
                v == self.view(),
                self.inputs@.len() == v.num_inputs,
                s@ == s0 + concat_lines(i as nat, input_lines(v)),
            decreases self.inputs@.len() - i,
        {
            proof {
                use_type_invariant(self);
            }
            let node = &self.nodes[self.inputs[i]];
            append_decimal(s, node.get_literal() as u64);
            append_newline(s);
            proof {
                assert(input_lines(v)(i as int) == aag_input_line(v, i as int));
                assert(s@ =~= s0 + concat_lines((i + 1) as nat, input_lines(v)));
            }
            i = i + 1;
        }
    }

    fn append_latch_lines(&self, s: &mut String)
        ensures
            final(s)@ == old(s)@ + concat_lines(self.view().num_latches, latch_lines(self.view())),
    {
        let ghost s0 = s@;
        let ghost v = self.view();
        let mut j: usize = 0;
        proof {
            use_type_invariant(self);
        }
        while j < self.latches.len()
            invariant
                j <= self.latches@.len(),
                v == self.view(),
                self.latches@.len() == v.num_latches,
                s@ == s0 + concat_lines(j as nat, latch_lines(v)),
            decreases self.latches@.len() - j,
        {
            proof {
                use_type_invariant(self);
                assert(v.node_ok(1 + v.num_inputs + j));
            }
            let node = &self.nodes[self.latches[j]];
            append_decimal(s, node.get_literal() as u64);
            append_spaced(s, node.get_latch_input());
            if node.get_latch_reset() != 0 {
                append_spaced(s, node.get_latch_reset());
            }
            append_newline(s);
            proof {
                assert(latch_lines(v)(j as int) == aag_latch_line(v, j as int));
                assert(s@ =~= s0 + concat_lines((j + 1) as nat, latch_lines(v)));
            }
            j = j + 1;
        }
    }

    fn append_and_lines(&self, s: &mut String)
        ensures
            final(s)@ == old(s)@ + concat_lines(self.view().num_ands, and_lines(self.view())),
    {
        let ghost s0 = s@;
        let ghost v = self.view();
        let mut k: usize = 0;
        proof {
            use_type_invariant(self);
        }
        while k < self.ands.len()
            invariant
                k <= self.ands@.len(),
                v == self.view(),
                self.ands@.len() == v.num_ands,
                s@ == s0 + concat_lines(k as nat, and_lines(v)),
            decreases self.ands@.len() - k,
        {
            proof {
                use_type_invariant(self);
                assert(v.node_ok(1 + v.num_inputs + v.num_latches + k));
            }
            let node = &self.nodes[self.ands[k]];
            append_decimal(s, node.get_literal() as u64);
            append_spaced(s, node.get_and_rhs0());
            append_spaced(s, node.get_and_rhs1());
            append_newline(s);
            proof {
                assert(and_lines(v)(k as int) == aag_and_line(v, k as int));
                assert(s@ =~= s0 + concat_lines((k + 1) as nat, and_lines(v)));
            }
            k = k + 1;
        }
    }

    fn append_input_symbols(&self, s: &mut String)
        ensures
            final(s)@ == old(s)@ + concat_lines(self.view().num_inputs, input_symbol_lines(self.view())),
    {
        let ghost s0 = s@;
        let ghost v = self.view();
        let mut i: usize = 0;
        proof {
            use_type_invariant(self);
            reveal_strlit("i");
        }
        while i < self.inputs.len()
            invariant
                i <= self.inputs@.len(),
                v == self.view(),
                self.inputs@.len() == v.num_inputs,
                s@ == s0 + concat_lines(i as nat, input_symbol_lines(v)),
                "i"@ == seq!['i'],
            decreases self.inputs@.len() - i,
        {
            proof {
                use_type_invariant(self);
                assert(v.node_ok(1 + i));
            }
            let node = &self.nodes[self.inputs[i]];
            append_symbol_line(s, "i", i, node.get_input_symbol());
            proof {
                assert(input_symbol_lines(v)(i as int) == aag_symbol_line('i', i as int, v.nodes[1 + i].input_symbol));
                assert(s@ =~= s0 + concat_lines((i + 1) as nat, input_symbol_lines(v)));
            }
            i = i + 1;
        }
    }

    fn append_latch_symbols(&self, s: &mut String)
        ensures
            final(s)@ == old(s)@ + concat_lines(self.view().num_latches, latch_symbol_lines(self.view())),
    {
        let ghost s0 = s@;
        let ghost v = self.view();
        let mut j: usize = 0;
        proof {
            use_type_invariant(self);
            reveal_strlit("l");
        }
        while j < self.latches.len()
            invariant
                j <= self.latches@.len(),
                v == self.view(),
                self.latches@.len() == v.num_latches,
                s@ == s0 + concat_lines(j as nat, latch_symbol_lines(v)),
                "l"@ == seq!['l'],
            decreases self.latches@.len() - j,
        {
            proof {
                use_type_invariant(self);
                assert(v.node_ok(1 + v.num_inputs + j));
            }
            let node = &self.nodes[self.latches[j]];
            append_symbol_line(s, "l", j, node.get_latch_symbol());
            proof {
                assert(s@ =~= s0 + concat_lines((j + 1) as nat, latch_symbol_lines(v)));
            }
            j = j + 1;
        }
    }

    fn append_output_symbols(&self, s: &mut String)
        ensures
            final(s)@ == old(s)@ + concat_lines(self.view().outputs.len(), output_symbol_lines(self.view())),
    {
        let ghost s0 = s@;
        let ghost v = self.view();
        let mut i: usize = 0;
        proof {
            use_type_invariant(self);
            reveal_strlit("o");
        }
        while i < self.outputs.len()
            invariant
                i <= self.outputs@.len(),
                v == self.view(),
                self.outputs@.len() == v.outputs.len(),
                s@ == s0 + concat_lines(i as nat, output_symbol_lines(v)),
                "o"@ == seq!['o'],
            decreases self.outputs@.len() - i,
        {
            proof {
                use_type_invariant(self);
                assert(v.literal_ok(v.outputs[i as int]));
            }
            let node = &self.nodes[self.outputs[i] / 2];
            append_symbol_line(s, "o", i, node.get_output_symbol());
            proof {
                assert(s@ =~= s0 + concat_lines((i + 1) as nat, output_symbol_lines(v)));
            }
            i = i + 1;
        }
    }

    fn append_bad_symbols(&self, s: &mut String)
        ensures
            final(s)@ == old(s)@ + concat_lines(self.view().bad.len(), bad_symbol_lines(self.view())),
    {
        let ghost s0 = s@;
        let ghost v = self.view();
        let mut i: usize = 0;
        proof {
            use_type_invariant(self);
            reveal_strlit("b");
        }
        while i < self.bad.len()
            invariant
                i <= self.bad@.len(),
                v == self.view(),
                self.bad@.len() == v.bad.len(),
                s@ == s0 + concat_lines(i as nat, bad_symbol_lines(v)),
                "b"@ == seq!['b'],
            decreases self.bad@.len() - i,
        {
            proof {
                use_type_invariant(self);
                assert(v.literal_ok(v.bad[i as int]));
            }
            let node = &self.nodes[self.bad[i] / 2];
            append_symbol_line(s, "b", i, node.get_bad_symbol());
            proof {
                assert(s@ =~= s0 + concat_lines((i + 1) as nat, bad_symbol_lines(v)));
            }
            i = i + 1;
        }
    }

    fn append_constraint_symbols(&self, s: &mut String)
        ensures
            final(s)@ == old(s)@ + concat_lines(self.view().constraints.len(), constraint_symbol_lines(self.view())),
    {
        let ghost s0 = s@;
        let ghost v = self.view();
        let mut i: usize = 0;
        proof {
            use_type_invariant(self);
            reveal_strlit("c");
        }
        while i < self.constraints.len()
            invariant
                i <= self.constraints@.len(),
                v == self.view(),
                self.constraints@.len() == v.constraints.len(),
                s@ == s0 + concat_lines(i as nat, constraint_symbol_lines(v)),
                "c"@ == seq!['c'],
            decreases self.constraints@.len() - i,
        {
            proof {
                use_type_invariant(self);
                assert(v.literal_ok(v.constraints[i as int]));
            }
            let node = &self.nodes[self.constraints[i] / 2];
            append_symbol_line(s, "c", i, node.get_constraint_symbol());
            proof {
                assert(s@ =~= s0 + concat_lines((i + 1) as nat, constraint_symbol_lines(v)));
            }
            i = i + 1;
        }
    }

    /// Function that converts an AndInverterGraph into '.aag' format as described in:
    /// The '.aag' file is in accordance to http://fmv.jku.at/aiger/
    pub fn get_aag_string(&self) -> (r: String)
        ensures
            r@ == aag_text(self.view()),
    {
        proof {
            use_type_invariant(self);
            reveal_strlit("aag");
        }
        let ghost v = self.view();
        let mut s = String::new();
        s.append("aag");
        append_spaced(&mut s, self.maximum_variable_index);
        append_spaced(&mut s, self.number_of_inputs);
        append_spaced(&mut s, self.number_of_latches);
        append_spaced(&mut s, self.number_of_outputs);
        append_spaced(&mut s, self.number_of_and_gates);
        if self.number_of_bad_state_constraints > 0 || self.number_of_invariant_constraints > 0 {
            append_spaced(&mut s, self.number_of_bad_state_constraints);
        }
        if self.number_of_invariant_constraints > 0 {
            append_spaced(&mut s, self.number_of_invariant_constraints);
        }
        proof {
            assert(s@ =~= aag_header(v));
        }
        append_newline(&mut s);
        self.append_input_lines(&mut s);
        self.append_latch_lines(&mut s);
        append_literal_lines(&mut s, &self.outputs);
        append_literal_lines(&mut s, &self.bad);
        append_literal_lines(&mut s, &self.constraints);
        self.append_and_lines(&mut s);
        self.append_input_symbols(&mut s);
        self.append_latch_symbols(&mut s);
        self.append_output_symbols(&mut s);
        self.append_bad_symbols(&mut s);
        self.append_constraint_symbols(&mut s);
        proof {
            assert(s@ =~= aag_text(v));
        }
        s
    }
}

} // verus!
