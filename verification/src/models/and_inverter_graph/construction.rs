//! Reading an And-Inverter Graph from the bytes of a binary AIGER file.

use super::aig_node::{AIGNode, AIGNodeType, AIGNodeView};
use super::format::{
    byte_views, find_newline, lemma_find_newline_bounds, lemma_split_on_len, line, line_complete,
    line_end, line_start, next_newline, parse_number, read_number, space, split_bytes, split_on,
    utf8_text,
};
use super::{AigView, AndInverterGraph};
use vstd::prelude::*;
use vstd::utf8::{decode_utf8, valid_utf8};

verus! {

/// The numbers of the header line `aig M I L O A [B [C [J]]]`.
pub struct AigHeader {
    pub max_var: nat,
    pub inputs: nat,
    pub latches: nat,
    pub outputs: nat,
    pub ands: nat,
    pub bad: nat,
    pub constraints: nat,
}

/// The bytes of the word `aig`.
pub open spec fn aig_word() -> Seq<u8> {
    seq![97u8, 105u8, 103u8]
}

/// The number that field `k` of a list of fields holds (when it holds one).
pub open spec fn field_number(f: Seq<Seq<u8>>, k: int) -> nat {
    parse_number(f[k]).unwrap()
}

/// The header that a first line announces: the word `aig`, then five to eight numbers, with
/// as many variables as inputs, latches and and gates together, no justice properties, and
/// few enough variables that every literal fits in a `usize`.
pub open spec fn header_of(l: Seq<u8>) -> Option<AigHeader> {
    let f = split_on(l, space());
    if f[0] == aig_word() && 6 <= f.len() <= 9 && (forall|k: int|
        1 <= k < f.len() ==> #[trigger] parse_number(f[k]) is Some) {
        let h = AigHeader {
            max_var: field_number(f, 1),
            inputs: field_number(f, 2),
            latches: field_number(f, 3),
            outputs: field_number(f, 4),
            ands: field_number(f, 5),
            bad: if f.len() > 6 {
                field_number(f, 6)
            } else {
                0
            },
            constraints: if f.len() > 7 {
                field_number(f, 7)
            } else {
                0
            },
        };
        let justice = if f.len() > 8 {
            field_number(f, 8)
        } else {
            0
        };
        if h.max_var == h.inputs + h.latches + h.ands && justice == 0 && 2 * h.max_var + 1
            <= usize::MAX {
            Some(h)
        } else {
            None
        }
    } else {
        None
    }
}

/// The next-state literal and reset value that a latch line gives the latch with literal
/// `lit`: one or two numbers, the first naming a node, the second 0, 1 or `lit` (0 when
/// absent).
pub open spec fn latch_of(l: Seq<u8>, lit: nat, max_var: nat) -> Option<(nat, nat)> {
    let f = split_on(l, space());
    if (f.len() == 1 || f.len() == 2) && parse_number(f[0]) is Some && parse_number(f[0]).unwrap()
        / 2 <= max_var {
        let next = parse_number(f[0]).unwrap();
        if f.len() == 2 {
            match parse_number(f[1]) {
                Some(r) => if r == 0 || r == 1 || r == lit {
                    Some((next, r))
                } else {
                    None
                },
                None => None,
            }
        } else {
            Some((next, 0))
        }
    } else {
        None
    }
}

/// The literal that a line of a single literal gives (it must name a node).
pub open spec fn literal_of(l: Seq<u8>, max_var: nat) -> Option<nat> {
    match parse_number(l) {
        Some(v) => if v / 2 <= max_var {
            Some(v)
        } else {
            None
        },
        None => None,
    }
}

/// How many lines the header section has: the first line, then one line for each latch,
/// output, bad-state property and invariant constraint.
pub open spec fn header_lines(h: AigHeader) -> nat {
    1 + h.latches + h.outputs + h.bad + h.constraints
}

/// What the line of latch `j` gives.
pub open spec fn latch_line(b: Seq<u8>, h: AigHeader, j: int) -> Option<(nat, nat)> {
    latch_of(line(b, (1 + j) as nat), 2 * (h.inputs + j + 1) as nat, h.max_var)
}

/// What the line of output `j` gives.
pub open spec fn output_line(b: Seq<u8>, h: AigHeader, j: int) -> Option<nat> {
    literal_of(line(b, (1 + h.latches + j) as nat), h.max_var)
}

/// What the line of bad-state property `j` gives.
pub open spec fn bad_line(b: Seq<u8>, h: AigHeader, j: int) -> Option<nat> {
    literal_of(line(b, (1 + h.latches + h.outputs + j) as nat), h.max_var)
}

/// What the line of invariant constraint `j` gives.
pub open spec fn constraint_line(b: Seq<u8>, h: AigHeader, j: int) -> Option<nat> {
    literal_of(line(b, (1 + h.latches + h.outputs + h.bad + j) as nat), h.max_var)
}

/// Whether every line of the header section is complete and well formed.
pub open spec fn header_section_ok(b: Seq<u8>, h: AigHeader) -> bool {
    &&& line_complete(b, (header_lines(h) - 1) as nat)
    &&& forall|j: int| 0 <= j < h.latches ==> #[trigger] latch_line(b, h, j) is Some
    &&& forall|j: int| 0 <= j < h.outputs ==> #[trigger] output_line(b, h, j) is Some
    &&& forall|j: int| 0 <= j < h.bad ==> #[trigger] bad_line(b, h, j) is Some
    &&& forall|j: int| 0 <= j < h.constraints ==> #[trigger] constraint_line(b, h, j) is Some
}

/// `128` to the power `i`.
pub open spec fn pow128(i: nat) -> nat
    decreases i,
{
    if i == 0 {
        1
    } else {
        128 * pow128((i - 1) as nat)
    }
}

/// Reads the rest of a number in the 7-bit encoding of the and-gate section, `i` bytes of it
/// already read into `acc`: each byte gives 7 bits, lowest first, and all but the last have
/// their high bit set; at most six bytes, and the sixth below 8. Gives the number and the
/// position after it.
pub open spec fn varint_from(b: Seq<u8>, pos: int, i: nat, acc: nat) -> Option<(nat, int)>
    decreases 5 - i,
{
    if pos < 0 || pos >= b.len() {
        None
    } else if b[pos] >= 128 {
        if i >= 5 {
            None
        } else {
            varint_from(b, pos + 1, i + 1, acc + (b[pos] - 128) as nat * pow128(i))
        }
    } else if i == 5 && b[pos] >= 8 {
        None
    } else {
        Some((acc + b[pos] as nat * pow128(i), pos + 1))
    }
}

/// The number encoded at `pos`, and the position after it.
pub open spec fn varint_at(b: Seq<u8>, pos: int) -> Option<(nat, int)> {
    varint_from(b, pos, 0, 0)
}

/// The shortest 7-bit encoding of a number: its 7-bit groups, lowest first, each byte but the
/// last with its high bit set.
pub open spec fn varint_encoding(n: nat) -> Seq<u8>
    decreases n,
{
    if n < 128 {
        seq![n as u8]
    } else {
        seq![(n % 128 + 128) as u8] + varint_encoding(n / 128)
    }
}

/// The encoding of a number read on from its `i`-th byte gives the number scaled by `128^i`.
proof fn lemma_varint_from_encoding(b: Seq<u8>, pos: int, i: nat, acc: nat, m: nat)
    requires
        i <= 5,
        m < 8 * pow128((5 - i) as nat),
        0 <= pos,
        pos + varint_encoding(m).len() <= b.len(),
        b.subrange(pos, pos + varint_encoding(m).len()) == varint_encoding(m),
    ensures
        varint_from(b, pos, i, acc) == Some((acc + m * pow128(i), pos + varint_encoding(m).len())),
    decreases m,
{
    let e = varint_encoding(m);
    assert(b[pos] == e[0]) by {
        assert(b.subrange(pos, pos + e.len())[0] == b[pos]);
    }
    if m < 128 {
        if i == 5 {
            assert(pow128(0) == 1);
        }
    } else {
        if i == 5 {
            assert(pow128(0) == 1);
        }
        let r = varint_encoding(m / 128);
        assert(e == seq![(m % 128 + 128) as u8] + r);
        assert(b.subrange(pos + 1, pos + 1 + r.len()) =~= r) by {
            assert forall|t: int| 0 <= t < r.len() implies b.subrange(pos + 1, pos + 1 + r.len())[t] == r[t] by {
                assert(b.subrange(pos, pos + e.len())[t + 1] == e[t + 1]);
            }
        }
        let p5 = pow128((5 - i) as nat);
        let p4 = pow128((5 - (i + 1)) as nat);
        assert(p5 == 128 * p4);
        assert(m / 128 < 8 * p4) by (nonlinear_arith)
            requires
                m < 8 * p5,
                p5 == 128 * p4,
        ;
        lemma_varint_from_encoding(b, pos + 1, i + 1, acc + (m % 128) * pow128(i), m / 128);
        let pi = pow128(i);
        assert(pow128(i + 1) == 128 * pi);
        assert((m % 128) * pi + (m / 128) * (128 * pi) == m * pi) by (nonlinear_arith)
            requires
                m == (m / 128) * 128 + m % 128,
        ;
    }
}

/// Every number below `8 * 128^5` (the largest that the format's six bytes can hold) is read
/// back from its shortest encoding, which ends where the encoding ends.
pub proof fn law_varint_reads_encoding(b: Seq<u8>, pos: int, n: nat)
    requires
        n < 8 * pow128(5),
        0 <= pos,
        pos + varint_encoding(n).len() <= b.len(),
        b.subrange(pos, pos + varint_encoding(n).len()) == varint_encoding(n),
    ensures
        varint_at(b, pos) == Some((n, pos + varint_encoding(n).len())),
{
    lemma_varint_from_encoding(b, pos, 0, 0, n);
    assert(pow128(0) == 1);
}

/// Powers of 128 grow with the exponent.
proof fn lemma_pow128_mono(i: nat, j: nat)
    requires
        i <= j,
    ensures
        1 <= pow128(i) <= pow128(j),
    decreases j,
{
    if j > i {
        lemma_pow128_mono(i, (j - 1) as nat);
    } else if i > 0 {
        lemma_pow128_mono(0, (i - 1) as nat);
    }
}

/// A number read on from its `i`-th byte, with less than `128^i` read so far, is below
/// `8 * 128^5` and ends within `6 - i` bytes.
proof fn lemma_varint_from_bounds(b: Seq<u8>, pos: int, i: nat, acc: nat)
    requires
        i <= 5,
        acc < pow128(i),
    ensures
        varint_from(b, pos, i, acc) matches Some((n, p)) ==> n < 8 * pow128(5) && pos < p <= pos + 6 - i,
    decreases 5 - i,
{
    if 0 <= pos < b.len() {
        let pi = pow128(i);
        lemma_pow128_mono(i, 5);
        assert(pow128(i + 1) == 128 * pi);
        if b[pos] >= 128 {
            if i < 5 {
                let d = (b[pos] - 128) as nat;
                assert(acc + d * pi < 128 * pi) by (nonlinear_arith)
                    requires
                        acc < pi,
                        d <= 127,
                ;
                lemma_varint_from_bounds(b, pos + 1, i + 1, acc + d * pi);
            }
        } else if i == 5 {
            if b[pos] < 8 {
                let d = b[pos] as nat;
                assert(acc + d * pi < 8 * pi) by (nonlinear_arith)
                    requires
                        acc < pi,
                        d <= 7,
                ;
            }
        } else {
            let d = b[pos] as nat;
            lemma_pow128_mono(i + 1, 5);
            assert(acc + d * pi < 128 * pi) by (nonlinear_arith)
                requires
                    acc < pi,
                    d <= 127,
            ;
        }
    }
}

/// Every number that the and-gate section's encoding gives is below `8 * 128^5`, and takes one
/// to six bytes.
pub proof fn law_varint_bounds(b: Seq<u8>, pos: int)
    ensures
        varint_at(b, pos) matches Some((n, p)) ==> n < 8 * pow128(5) && pos < p <= pos + 6,
{
    assert(pow128(0) == 1);
    lemma_varint_from_bounds(b, pos, 0, 0);
}

/// The inputs of the first `n` and gates of the section at `start`. Gate `k` has the literal
/// `base + 2 * (k + 1)`; the section holds two differences per gate, `lhs - rhs0` (not zero)
/// and `rhs0 - rhs1`. Gives the inputs and the position after them.
pub open spec fn and_gates(b: Seq<u8>, start: int, base: nat, n: nat) -> Option<
    (Seq<(nat, nat)>, int),
>
    decreases n,
{
    if n == 0 {
        Some((Seq::empty(), start))
    } else {
        match and_gates(b, start, base, (n - 1) as nat) {
            None => None,
            Some((gates, pos)) => {
                let lhs = base + 2 * n;
                match varint_at(b, pos) {
                    None => None,
                    Some((d0, p1)) => if d0 == 0 || d0 > lhs {
                        None
                    } else {
                        let r0 = (lhs - d0) as nat;
                        match varint_at(b, p1) {
                            None => None,
                            Some((d1, p2)) => if d1 > r0 {
                                None
                            } else {
                                Some((gates.push((r0, (r0 - d1) as nat)), p2))
                            },
                        }
                    },
                }
            },
        }
    }
}

/// A node of the given kind and literal, with no other data.
pub open spec fn plain_node(t: AIGNodeType, lit: nat) -> AIGNodeView {
    AIGNodeView {
        node_type: t,
        lit,
        latch_input: usize::MAX as nat,
        latch_reset: usize::MAX as nat,
        rhs0: usize::MAX as nat,
        rhs1: usize::MAX as nat,
        input_symbol: Seq::empty(),
        latch_symbol: Seq::empty(),
        output_symbol: Seq::empty(),
        bad_symbol: Seq::empty(),
        constraint_symbol: Seq::empty(),
    }
}

/// Node `k` of the graph that a header, its latch lines and its and gates describe.
pub open spec fn node_from(
    h: AigHeader,
    latches: Seq<(nat, nat)>,
    ands: Seq<(nat, nat)>,
    k: int,
) -> AIGNodeView {
    if k == 0 {
        plain_node(AIGNodeType::ConstantZero, 0)
    } else if k <= h.inputs {
        plain_node(AIGNodeType::Input, 2 * k as nat)
    } else if k <= h.inputs + h.latches {
        AIGNodeView {
            latch_input: latches[k - 1 - h.inputs].0,
            latch_reset: latches[k - 1 - h.inputs].1,
            ..plain_node(AIGNodeType::Latch, 2 * k as nat)
        }
    } else {
        AIGNodeView {
            rhs0: ands[k - 1 - h.inputs - h.latches].0,
            rhs1: ands[k - 1 - h.inputs - h.latches].1,
            ..plain_node(AIGNodeType::And, 2 * k as nat)
        }
    }
}

/// The graph, before its symbol table, that the header section and the and gates describe.
pub open spec fn graph_from(b: Seq<u8>, h: AigHeader, ands: Seq<(nat, nat)>) -> AigView {
    let latches = Seq::new(h.latches, |j: int| latch_line(b, h, j).unwrap());
    AigView {
        max_var: h.max_var,
        num_inputs: h.inputs,
        num_latches: h.latches,
        num_ands: h.ands,
        nodes: Seq::new(h.max_var + 1, |k: int| node_from(h, latches, ands, k)),
        outputs: Seq::new(h.outputs, |j: int| output_line(b, h, j).unwrap()),
        bad: Seq::new(h.bad, |j: int| bad_line(b, h, j).unwrap()),
        constraints: Seq::new(h.constraints, |j: int| constraint_line(b, h, j).unwrap()),
    }
}

/// The graph with symbol `name` of kind `kind` (`i`, `l`, `o`, `b` or `c`) set for the
/// input, latch, output, bad-state property or invariant constraint with index `idx`. An
/// output's, property's or constraint's symbol is kept on the node its literal names.
pub open spec fn set_symbol(v: AigView, kind: u8, idx: nat, name: Seq<char>) -> Option<AigView> {
    if kind == 105u8 {
        if idx < v.num_inputs {
            let k: int = (1 + idx) as int;
            Some(AigView { nodes: v.nodes.update(k, AIGNodeView { input_symbol: name, ..v.nodes[k] }), ..v })
        } else {
            None
        }
    } else if kind == 108u8 {
        if idx < v.num_latches {
            let k: int = (1 + v.num_inputs + idx) as int;
            Some(AigView { nodes: v.nodes.update(k, AIGNodeView { latch_symbol: name, ..v.nodes[k] }), ..v })
        } else {
            None
        }
    } else if kind == 111u8 {
        if idx < v.outputs.len() {
            let k: int = (v.outputs[idx as int] / 2) as int;
            Some(AigView { nodes: v.nodes.update(k, AIGNodeView { output_symbol: name, ..v.nodes[k] }), ..v })
        } else {
            None
        }
    } else if kind == 98u8 {
        if idx < v.bad.len() {
            let k: int = (v.bad[idx as int] / 2) as int;
            Some(AigView { nodes: v.nodes.update(k, AIGNodeView { bad_symbol: name, ..v.nodes[k] }), ..v })
        } else {
            None
        }
    } else if kind == 99u8 {
        if idx < v.constraints.len() {
            let k: int = (v.constraints[idx as int] / 2) as int;
            Some(AigView { nodes: v.nodes.update(k, AIGNodeView { constraint_symbol: name, ..v.nodes[k] }), ..v })
        } else {
            None
        }
    } else {
        None
    }
}

/// The graph after one line of the symbol table: `<kind><index> <name>`, with exactly one
/// space and a name in UTF-8.
pub open spec fn symbol_line(v: AigView, l: Seq<u8>) -> Option<AigView> {
    let f = split_on(l, space());
    if f.len() == 2 && f[0].len() >= 2 && parse_number(f[0].drop_first()) is Some && valid_utf8(
        f[1],
    ) {
        set_symbol(v, f[0][0], parse_number(f[0].drop_first()).unwrap(), decode_utf8(f[1]))
    } else {
        None
    }
}

/// The graph after the symbol table that starts at `pos`: one symbol per line, until the end
/// of the bytes or a line that is just `c` (the start of the comment section, which is not
/// read).
pub open spec fn symbols_from(b: Seq<u8>, pos: int, v: AigView) -> Option<AigView>
    decreases b.len() - pos,
{
    if pos < 0 || pos >= b.len() {
        Some(v)
    } else {
        let e = find_newline(b, pos);
        proof {
            super::format::lemma_find_newline_bounds(b, pos);
        }
        let l = b.subrange(pos, e);
        if l == seq![99u8] {
            Some(v)
        } else {
            match symbol_line(v, l) {
                Some(v2) => if e < b.len() {
                    symbols_from(b, e + 1, v2)
                } else {
                    Some(v2)
                },
                None => None,
            }
        }
    }
}

/// The graph that the bytes of a binary AIGER file describe, or `None` where they do not
/// describe one that this library reads.
pub open spec fn aig_parse(b: Seq<u8>) -> Option<AigView> {
    if !line_complete(b, 0) {
        None
    } else {
        match header_of(line(b, 0)) {
            None => None,
            Some(h) => if header_section_ok(b, h) {
                match and_gates(b, line_start(b, header_lines(h)), 2 * (h.inputs + h.latches), h.ands) {
                    None => None,
                    Some((ands, pos)) => symbols_from(b, pos, graph_from(b, h, ands)),
                }
            } else {
                None
            },
        }
    }
}

/// The numbers of a header line, as read.
struct HeaderNumbers {
    max_var: usize,
    inputs: usize,
    latches: usize,
    outputs: usize,
    ands: usize,
    bad: usize,
    constraints: usize,
}

impl HeaderNumbers {
    spec fn view(&self) -> AigHeader {
        AigHeader {
            max_var: self.max_var as nat,
            inputs: self.inputs as nat,
            latches: self.latches as nat,
            outputs: self.outputs as nat,
            ands: self.ands as nat,
            bad: self.bad as nat,
            constraints: self.constraints as nat,
        }
    }
}

/// The number held by a whole field.
fn field_value(f: &Vec<u8>) -> (r: Option<usize>)
    ensures
        match r {
            Some(n) => parse_number(f@) == Some(n as nat),
            None => parse_number(f@) is None,
        },
{
    let r = read_number(f.as_slice(), 0, f.len());
    proof {
        assert(f@.subrange(0, f@.len() as int) =~= f@);
    }
    r
}

/// Reads the header line `b[0..end]`.
fn read_header(b: &[u8], end: usize) -> (r: Option<HeaderNumbers>)
    requires
        end <= b@.len(),
    ensures
        match r {
            Some(h) => header_of(b@.subrange(0, end as int)) == Some(h.view()),
            None => header_of(b@.subrange(0, end as int)) is None,
        },
{
    let f = split_bytes(b, 0, end, 32u8);
    let ghost fs = split_on(b@.subrange(0, end as int), space());
    proof {
        lemma_split_on_len(b@.subrange(0, end as int), space());
        assert(fs.len() == f@.len());
        assert forall|k: int| 0 <= k < f@.len() implies #[trigger] fs[k] == f@[k]@ by {
            assert(byte_views(f@)[k] == f@[k]@);
        }
    }
    if f.len() < 6 || f.len() > 9 {
        return None;
    }
    let w = &f[0];
    if w.len() != 3 || w[0] != 97u8 || w[1] != 105u8 || w[2] != 103u8 {
        proof {
            if fs[0] == aig_word() {
                assert(w@ == aig_word());
            }
        }
        return None;
    }
    proof {
        assert(fs[0] =~= aig_word());
    }
    let mut nums: Vec<usize> = Vec::new();
    let mut k: usize = 1;
    while k < f.len()
        invariant
            1 <= k <= f@.len(),
            6 <= f@.len() <= 9,
            end <= b@.len(),
            fs == split_on(b@.subrange(0, end as int), space()),
            fs.len() == f@.len(),
            forall|j: int| 0 <= j < f@.len() ==> #[trigger] fs[j] == f@[j]@,
            nums@.len() == k - 1,
            forall|j: int| 1 <= j < k ==> #[trigger] parse_number(fs[j]) == Some(nums@[j - 1] as nat),
        decreases f@.len() - k,
    {
        match field_value(&f[k]) {
            None => {
                proof {
                    assert(parse_number(fs[k as int]) is None);
                }
                return None;
            },
            Some(n) => {
                nums.push(n);
            },
        }
        k = k + 1;
    }
    proof {
        assert forall|j: int| 1 <= j < fs.len() implies #[trigger] parse_number(fs[j]) is Some by {
            assert(parse_number(fs[j]) == Some(nums@[j - 1] as nat));
        }
    }
    let max_var = nums[0];
    let inputs = nums[1];
    let latches = nums[2];
    let outputs = nums[3];
    let ands = nums[4];
    let bad = if f.len() > 6 {
        nums[5]
    } else {
        0
    };
    let constraints = if f.len() > 7 {
        nums[6]
    } else {
        0
    };
    let justice = if f.len() > 8 {
        nums[7]
    } else {
        0
    };
    proof {
        assert(parse_number(fs[1]) == Some(nums@[0] as nat));
        assert(parse_number(fs[2]) == Some(nums@[1] as nat));
        assert(parse_number(fs[3]) == Some(nums@[2] as nat));
        assert(parse_number(fs[4]) == Some(nums@[3] as nat));
        assert(parse_number(fs[5]) == Some(nums@[4] as nat));
        if fs.len() > 6 {
            assert(parse_number(fs[6]) == Some(nums@[5] as nat));
        }
        if fs.len() > 7 {
            assert(parse_number(fs[7]) == Some(nums@[6] as nat));
        }
        if fs.len() > 8 {
            assert(parse_number(fs[8]) == Some(nums@[7] as nat));
        }
    }
    if inputs > usize::MAX - latches || inputs + latches > usize::MAX - ands {
        return None;
    }
    if max_var != inputs + latches + ands || justice != 0 || max_var > (usize::MAX - 1) / 2 {
        return None;
    }
    Some(HeaderNumbers { max_var, inputs, latches, outputs, ands, bad, constraints })
}

/// Reads the latch line `b[start..end]` of the latch with literal `lit`.
fn read_latch_line(b: &[u8], start: usize, end: usize, lit: usize, max_var: usize) -> (r: Option<
    (usize, usize),
>)
    requires
        start <= end <= b@.len(),
    ensures
        match r {
            Some((next, reset)) => latch_of(b@.subrange(start as int, end as int), lit as nat, max_var as nat)
                == Some((next as nat, reset as nat)),
            None => latch_of(b@.subrange(start as int, end as int), lit as nat, max_var as nat) is None,
        },
{
    let f = split_bytes(b, start, end, 32u8);
    let ghost fs = split_on(b@.subrange(start as int, end as int), space());
    proof {
        lemma_split_on_len(b@.subrange(start as int, end as int), space());
        assert(byte_views(f@)[0] == f@[0]@);
        if f@.len() == 2 {
            assert(byte_views(f@)[1] == f@[1]@);
        }
    }
    if f.len() != 1 && f.len() != 2 {
        return None;
    }
    let next = match field_value(&f[0]) {
        Some(n) => n,
        None => {
            return None;
        },
    };
    if next / 2 > max_var {
        return None;
    }
    if f.len() == 2 {
        match field_value(&f[1]) {
            Some(reset) => {
                if reset == 0 || reset == 1 || reset == lit {
                    Some((next, reset))
                } else {
                    None
                }
            },
            None => None,
        }
    } else {
        Some((next, 0))
    }
}

/// Reads the line `b[start..end]` of a single literal.
fn read_literal_line(b: &[u8], start: usize, end: usize, max_var: usize) -> (r: Option<usize>)
    requires
        start <= end <= b@.len(),
    ensures
        match r {
            Some(v) => literal_of(b@.subrange(start as int, end as int), max_var as nat) == Some(
                v as nat,
            ),
            None => literal_of(b@.subrange(start as int, end as int), max_var as nat) is None,
        },
{
    match read_number(b, start, end) {
        Some(v) => if v / 2 <= max_var {
            Some(v)
        } else {
            None
        },
        None => None,
    }
}

/// Reads the number encoded at `pos` in the and-gate section, and the position after it.
fn read_varint(b: &[u8], pos: usize) -> (r: Option<(u64, usize)>)
    requires
        pos <= b@.len(),
    ensures
        match r {
            Some((v, p)) => varint_at(b@, pos as int) == Some((v as nat, p as int)) && p <= b@.len(),
            None => varint_at(b@, pos as int) is None,
        },
{
    let mut i: u64 = 0;
    let mut acc: u64 = 0;
    let mut mult: u64 = 1;
    let mut p: usize = pos;
    loop
        invariant
            pos <= p <= b@.len(),
            i <= 5,
            mult == pow128(i as nat),
            acc < mult,
            mult <= 34359738368,
            varint_at(b@, pos as int) == varint_from(b@, p as int, i as nat, acc as nat),
        decreases 5 - i,
    {
        if p >= b.len() {
            return None;
        }
        let ch = b[p];
        if ch >= 128u8 {
            if i >= 5 {
                return None;
            }
            let digit: u64 = (ch - 128u8) as u64;
            proof {
                assert(digit * mult <= 127 * mult) by (nonlinear_arith)
                    requires
                        digit <= 127,
                ;
                assert(pow128((i + 1) as nat) == 128 * pow128(i as nat));
                assert(mult <= 268435456) by {
                        if i == 0 {
                        } else if i == 1 {
                            assert(pow128(1) == 128);
                        } else if i == 2 {
                            assert(pow128(1) == 128);
                            assert(pow128(2) == 16384);
                        } else if i == 3 {
                            assert(pow128(1) == 128);
                            assert(pow128(2) == 16384);
                            assert(pow128(3) == 2097152);
                        } else {
                            assert(pow128(1) == 128);
                            assert(pow128(2) == 16384);
                            assert(pow128(3) == 2097152);
                            assert(pow128(4) == 268435456);
                        }
                    }
            }
            acc = acc + digit * mult;
            mult = mult * 128;
            i = i + 1;
            p = p + 1;
        } else {
            if i == 5 && ch >= 8u8 {
                return None;
            }
            proof {
                assert((ch as u64) * mult <= 127 * mult) by (nonlinear_arith)
                    requires
                        ch <= 127,
                ;
            }
            return Some((acc + (ch as u64) * mult, p + 1));
        }
    }
}

/// The inputs of and gates, as natural numbers.
pub open spec fn pair_views(g: Seq<(usize, usize)>) -> Seq<(nat, nat)> {
    g.map_values(|x: (usize, usize)| (x.0 as nat, x.1 as nat))
}

/// Once the and-gate section cannot be read, reading more gates does not help.
proof fn lemma_and_gates_fail(b: Seq<u8>, start: int, base: nat, k: nat, n: nat)
    requires
        k <= n,
        and_gates(b, start, base, k) is None,
    ensures
        and_gates(b, start, base, n) is None,
    decreases n - k,
{
    if k < n {
        lemma_and_gates_fail(b, start, base, k, (n - 1) as nat);
    }
}

/// Reads `n` and gates from `start`, the first with the literal `base + 2`.
fn read_ands(b: &[u8], start: usize, base: usize, n: usize) -> (r: Option<(Vec<(usize, usize)>, usize)>)
    requires
        start <= b@.len(),
        base + 2 * n <= usize::MAX,
    ensures
        match r {
            Some((g, p)) => and_gates(b@, start as int, base as nat, n as nat) == Some(
                (pair_views(g@), p as int),
            ) && p <= b@.len(),
            None => and_gates(b@, start as int, base as nat, n as nat) is None,
        },
{
    let mut gates: Vec<(usize, usize)> = Vec::new();
    let mut p = start;
    let mut k: usize = 0;
    proof {
        assert(pair_views(gates@) =~= Seq::<(nat, nat)>::empty());
    }
    while k < n
        invariant
            k <= n,
            p <= b@.len(),
            base + 2 * n <= usize::MAX,
            and_gates(b@, start as int, base as nat, k as nat) == Some((pair_views(gates@), p as int)),
        decreases n - k,
    {
        let lhs = base + 2 * (k + 1);
        let ghost pre = pair_views(gates@);
        let (d0, p1) = match read_varint(b, p) {
            Some(x) => x,
            None => {
                proof {
                    lemma_and_gates_fail(b@, start as int, base as nat, (k + 1) as nat, n as nat);
                }
                return None;
            },
        };
        if d0 == 0 || d0 > lhs as u64 {
            proof {
                lemma_and_gates_fail(b@, start as int, base as nat, (k + 1) as nat, n as nat);
            }
            return None;
        }
        let r0 = lhs - d0 as usize;
        let (d1, p2) = match read_varint(b, p1) {
            Some(x) => x,
            None => {
                proof {
                    lemma_and_gates_fail(b@, start as int, base as nat, (k + 1) as nat, n as nat);
                }
                return None;
            },
        };
        if d1 > r0 as u64 {
            proof {
                lemma_and_gates_fail(b@, start as int, base as nat, (k + 1) as nat, n as nat);
            }
            return None;
        }
        gates.push((r0, r0 - d1 as usize));
        proof {
            assert(pair_views(gates@) =~= pre.push((r0 as nat, (r0 - d1) as nat)));
        }
        p = p2;
        k = k + 1;
    }
    Some((gates, p))
}

/// Line positions never go below zero.
proof fn lemma_line_start_nonneg(b: Seq<u8>, k: nat)
    ensures
        line_start(b, k) >= 0,
        0 <= line_end(b, k) <= b.len(),
    decreases k,
{
    if k > 0 {
        lemma_line_start_nonneg(b, (k - 1) as nat);
        lemma_find_newline_bounds(b, line_start(b, (k - 1) as nat));
    }
    lemma_find_newline_bounds(b, line_start(b, k));
}

/// Once a line is not complete, no later line is.
proof fn lemma_line_incomplete(b: Seq<u8>, k: nat, n: nat)
    requires
        k <= n,
        !line_complete(b, k),
    ensures
        !line_complete(b, n),
    decreases n - k,
{
    if k < n {
        lemma_line_incomplete(b, k, (n - 1) as nat);
        lemma_line_start_nonneg(b, (n - 1) as nat);
        lemma_line_start_nonneg(b, n);
        assert(line_start(b, n) == b.len() + 1);
    }
}

/// Reads `count` lines of a single literal, from line `first` at `pos`.
fn read_literal_lines(b: &[u8], pos: usize, count: usize, max_var: usize, Ghost(first): Ghost<nat>) -> (r: Option<
    (Vec<usize>, usize),
>)
    requires
        first >= 1,
        pos == line_start(b@, first),
        line_complete(b@, (first - 1) as nat),
    ensures
        match r {
            Some((v, p)) => {
                &&& p == line_start(b@, (first + count) as nat)
                &&& line_complete(b@, (first + count - 1) as nat)
                &&& v@.len() == count
                &&& forall|j: int| 0 <= j < count ==> #[trigger] literal_of(line(b@, (first + j) as nat), max_var as nat) == Some(v@[j] as nat)
            },
            None => !line_complete(b@, (first + count - 1) as nat) || exists|j: int|
                0 <= j < count && #[trigger] literal_of(line(b@, (first + j) as nat), max_var as nat) is None,
        },
{
    let mut v: Vec<usize> = Vec::new();
    let mut p = pos;
    let mut j: usize = 0;
    proof {
        lemma_line_start_nonneg(b@, (first - 1) as nat);
    }
    while j < count
        invariant
            j <= count,
            first >= 1,
            p == line_start(b@, (first + j) as nat),
            p <= b@.len(),
            line_complete(b@, (first + j - 1) as nat),
            v@.len() == j,
            forall|i: int| 0 <= i < j ==> #[trigger] literal_of(line(b@, (first + i) as nat), max_var as nat) == Some(v@[i] as nat),
        decreases count - j,
    {
        let e = next_newline(b, p);
        if e == b.len() {
            proof {
                assert(!line_complete(b@, (first + j) as nat));
                lemma_line_incomplete(b@, (first + j) as nat, (first + count - 1) as nat);
            }
            return None;
        }
        match read_literal_line(b, p, e, max_var) {
            Some(x) => {
                v.push(x);
            },
            None => {
                proof {
                    assert(literal_of(line(b@, (first + j) as nat), max_var as nat) is None);
                }
                return None;
            },
        }
        proof {
            assert(line_start(b@, (first + j + 1) as nat) == e + 1);
        }
        p = e + 1;
        j = j + 1;
    }
    Some((v, p))
}

/// The and gates read are as many as asked for, each with inputs below its own literal.
proof fn lemma_and_gates_shape(b: Seq<u8>, start: int, base: nat, n: nat)
    requires
        and_gates(b, start, base, n) is Some,
    ensures
        and_gates(b, start, base, n).unwrap().0.len() == n,
        forall|k: int| 0 <= k < n ==> {
            let g = #[trigger] and_gates(b, start, base, n).unwrap().0[k];
            g.0 < base + 2 * (k + 1) && g.1 <= g.0
        },
    decreases n,
{
    if n > 0 {
        lemma_and_gates_shape(b, start, base, (n - 1) as nat);
    }
}

/// Reads the lines of the latches, outputs, bad-state properties and invariant constraints,
/// from line 1 at `pos1`. Gives what they hold and where the and-gate section starts.
fn read_header_section(b: &[u8], h: &HeaderNumbers, pos1: usize) -> (r: Option<
    (Vec<(usize, usize)>, Vec<usize>, Vec<usize>, Vec<usize>, usize),
>)
    requires
        pos1 == line_start(b@, 1),
        line_complete(b@, 0),
        h.max_var == h.inputs + h.latches + h.ands,
        2 * h.max_var + 1 <= usize::MAX,
    ensures
        match r {
            Some((lat, outs, bads, cons, p)) => {
                &&& header_section_ok(b@, h.view())
                &&& p == line_start(b@, header_lines(h.view()))
                &&& p <= b@.len()
                &&& pair_views(lat@) == Seq::new(h.latches as nat, |j: int| latch_line(b@, h.view(), j).unwrap())
                &&& super::nat_views(outs@) == Seq::new(h.outputs as nat, |j: int| output_line(b@, h.view(), j).unwrap())
                &&& super::nat_views(bads@) == Seq::new(h.bad as nat, |j: int| bad_line(b@, h.view(), j).unwrap())
                &&& super::nat_views(cons@) == Seq::new(h.constraints as nat, |j: int| constraint_line(b@, h.view(), j).unwrap())
            },
            None => !header_section_ok(b@, h.view()),
        },
{
    let ghost hv = h.view();
    let ghost n = header_lines(hv);
    let mut lat: Vec<(usize, usize)> = Vec::new();
    let mut p = pos1;
    let mut j: usize = 0;
    proof {
        lemma_line_start_nonneg(b@, 0);
    }
    while j < h.latches
        invariant
            j <= h.latches,
            hv == h.view(),
            n == header_lines(hv),
            h.max_var == h.inputs + h.latches + h.ands,
            2 * h.max_var + 1 <= usize::MAX,
            p == line_start(b@, (1 + j) as nat),
            p <= b@.len(),
            line_complete(b@, j as nat),
            lat@.len() == j,
            forall|i: int| 0 <= i < j ==> #[trigger] latch_line(b@, hv, i) == Some(
                (lat@[i].0 as nat, lat@[i].1 as nat),
            ),
        decreases h.latches - j,
    {
        let e = next_newline(b, p);
        if e == b.len() {
            proof {
                assert(!line_complete(b@, (1 + j) as nat));
                lemma_line_incomplete(b@, (1 + j) as nat, (n - 1) as nat);
            }
            return None;
        }
        let lit = 2 * (h.inputs + j + 1);
        match read_latch_line(b, p, e, lit, h.max_var) {
            Some(x) => {
                lat.push(x);
            },
            None => {
                proof {
                    assert(latch_line(b@, hv, j as int) is None);
                }
                return None;
            },
        }
        proof {
            assert(line_start(b@, (1 + j + 1) as nat) == e + 1);
        }
        p = e + 1;
        j = j + 1;
    }
    let (outs, p) = match read_literal_lines(b, p, h.outputs, h.max_var, Ghost((1 + h.latches) as nat)) {
        Some(x) => x,
        None => {
            proof {
                if !line_complete(b@, (1 + h.latches + h.outputs - 1) as nat) {
                    lemma_line_incomplete(b@, (1 + h.latches + h.outputs - 1) as nat, (n - 1) as nat);
                } else {
                    let w = choose|i: int| 0 <= i < h.outputs && #[trigger] literal_of(line(b@, (1 + h.latches + i) as nat), h.max_var as nat) is None;
                    assert(output_line(b@, hv, w) is None);
                }
            }
            return None;
        },
    };
    let (bads, p) = match read_literal_lines(b, p, h.bad, h.max_var, Ghost((1 + h.latches + h.outputs) as nat)) {
        Some(x) => x,
        None => {
            proof {
                if !line_complete(b@, (1 + h.latches + h.outputs + h.bad - 1) as nat) {
                    lemma_line_incomplete(b@, (1 + h.latches + h.outputs + h.bad - 1) as nat, (n - 1) as nat);
                } else {
                    let w = choose|i: int| 0 <= i < h.bad && #[trigger] literal_of(line(b@, (1 + h.latches + h.outputs + i) as nat), h.max_var as nat) is None;
                    assert(bad_line(b@, hv, w) is None);
                }
            }
            return None;
        },
    };
    let (cons, p) = match read_literal_lines(b, p, h.constraints, h.max_var, Ghost((1 + h.latches + h.outputs + h.bad) as nat)) {
        Some(x) => x,
        None => {
            proof {
                if !line_complete(b@, (n - 1) as nat) {
                } else {
                    let w = choose|i: int| 0 <= i < h.constraints && #[trigger] literal_of(line(b@, (1 + h.latches + h.outputs + h.bad + i) as nat), h.max_var as nat) is None;
                    assert(constraint_line(b@, hv, w) is None);
                }
            }
            return None;
        },
    };
    proof {
        lemma_line_start_nonneg(b@, (n - 1) as nat);
        assert forall|i: int| 0 <= i < h.outputs implies #[trigger] output_line(b@, hv, i) == Some(outs@[i] as nat) by {
            assert(literal_of(line(b@, ((1 + h.latches) as nat + i) as nat), h.max_var as nat) == Some(outs@[i] as nat));
        }
        assert forall|i: int| 0 <= i < h.bad implies #[trigger] bad_line(b@, hv, i) == Some(bads@[i] as nat) by {
            assert(literal_of(line(b@, ((1 + h.latches + h.outputs) as nat + i) as nat), h.max_var as nat) == Some(bads@[i] as nat));
        }
        assert forall|i: int| 0 <= i < h.constraints implies #[trigger] constraint_line(b@, hv, i) == Some(cons@[i] as nat) by {
            assert(literal_of(line(b@, ((1 + h.latches + h.outputs + h.bad) as nat + i) as nat), h.max_var as nat) == Some(cons@[i] as nat));
        }
        assert(pair_views(lat@) =~= Seq::new(h.latches as nat, |j: int| latch_line(b@, hv, j).unwrap()));
        assert(super::nat_views(outs@) =~= Seq::new(h.outputs as nat, |j: int| output_line(b@, hv, j).unwrap()));
        assert(super::nat_views(bads@) =~= Seq::new(h.bad as nat, |j: int| bad_line(b@, hv, j).unwrap()));
        assert(super::nat_views(cons@) =~= Seq::new(h.constraints as nat, |j: int| constraint_line(b@, hv, j).unwrap()));
    }
    Some((lat, outs, bads, cons, p))
}

/// Builds the nodes of the graph, and the positions of its inputs, latches and and gates.
fn build_nodes(h: &HeaderNumbers, lat: &Vec<(usize, usize)>, gates: &Vec<(usize, usize)>) -> (r: (
    Vec<AIGNode>,
    Vec<usize>,
    Vec<usize>,
    Vec<usize>,
))
    requires
        h.max_var == h.inputs + h.latches + h.ands,
        2 * h.max_var + 1 <= usize::MAX,
        lat@.len() == h.latches,
        gates@.len() == h.ands,
        forall|j: int| 0 <= j < h.latches ==> {
            let r = #[trigger] lat@[j].1;
            r == 0 || r == 1 || r == 2 * (h.inputs + j + 1)
        },
    ensures
        super::node_views(r.0@) == Seq::new(h.max_var as nat + 1, |k: int| node_from(h.view(), pair_views(lat@), pair_views(gates@), k)),
        r.1@.len() == h.inputs,
        r.2@.len() == h.latches,
        r.3@.len() == h.ands,
        forall|i: int| 0 <= i < h.inputs ==> #[trigger] r.1@[i] == 1 + i,
        forall|i: int| 0 <= i < h.latches ==> #[trigger] r.2@[i] == 1 + h.inputs + i,
        forall|i: int| 0 <= i < h.ands ==> #[trigger] r.3@[i] == 1 + h.inputs + h.latches + i,
{
    let ghost hv = h.view();
    let ghost lv = pair_views(lat@);
    let ghost gv = pair_views(gates@);
    let mut nodes: Vec<AIGNode> = Vec::new();
    let mut inputs: Vec<usize> = Vec::new();
    let mut latches: Vec<usize> = Vec::new();
    let mut ands: Vec<usize> = Vec::new();
    nodes.push(AIGNode::new(0, AIGNodeType::ConstantZero));
    let mut i: usize = 0;
    while i < h.inputs
        invariant
            i <= h.inputs,
            h.max_var == h.inputs + h.latches + h.ands,
            2 * h.max_var + 1 <= usize::MAX,
            hv == h.view(),
            nodes@.len() == 1 + i,
            forall|k: int| 0 <= k < nodes@.len() ==> (#[trigger] nodes@[k]).view() == node_from(hv, lv, gv, k),
            inputs@.len() == i,
            forall|k: int| 0 <= k < i ==> #[trigger] inputs@[k] == 1 + k,
        decreases h.inputs - i,
    {
        inputs.push(nodes.len());
        nodes.push(AIGNode::new(2 * (i + 1), AIGNodeType::Input));
        i = i + 1;
    }
    let mut j: usize = 0;
    while j < h.latches
        invariant
            j <= h.latches,
            h.max_var == h.inputs + h.latches + h.ands,
            2 * h.max_var + 1 <= usize::MAX,
            hv == h.view(),
            lv == pair_views(lat@),
            lat@.len() == h.latches,
            forall|j: int| 0 <= j < h.latches ==> {
                let r = #[trigger] lat@[j].1;
                r == 0 || r == 1 || r == 2 * (h.inputs + j + 1)
            },
            nodes@.len() == 1 + h.inputs + j,
            forall|k: int| 0 <= k < nodes@.len() ==> (#[trigger] nodes@[k]).view() == node_from(hv, lv, gv, k),
            latches@.len() == j,
            forall|k: int| 0 <= k < j ==> #[trigger] latches@[k] == 1 + h.inputs + k,
        decreases h.latches - j,
    {
        let lit = 2 * (h.inputs + j + 1);
        let mut node = AIGNode::new(lit, AIGNodeType::Latch);
        node.set_input_of_latch(lat[j].0);
        node.set_reset_of_latch(lat[j].1);
        latches.push(nodes.len());
        nodes.push(node);
        j = j + 1;
    }
    let mut k: usize = 0;
    while k < h.ands
        invariant
            k <= h.ands,
            h.max_var == h.inputs + h.latches + h.ands,
            2 * h.max_var + 1 <= usize::MAX,
            hv == h.view(),
            gv == pair_views(gates@),
            gates@.len() == h.ands,
            nodes@.len() == 1 + h.inputs + h.latches + k,
            forall|x: int| 0 <= x < nodes@.len() ==> (#[trigger] nodes@[x]).view() == node_from(hv, lv, gv, x),
            ands@.len() == k,
            forall|x: int| 0 <= x < k ==> #[trigger] ands@[x] == 1 + h.inputs + h.latches + x,
        decreases h.ands - k,
    {
        let lit = 2 * (h.inputs + h.latches + k + 1);
        let mut node = AIGNode::new(lit, AIGNodeType::And);
        node.set_rhs0_of_and(gates[k].0);
        node.set_rhs1_of_and(gates[k].1);
        ands.push(nodes.len());
        nodes.push(node);
        k = k + 1;
    }
    proof {
        assert(super::node_views(nodes@) =~= Seq::new(h.max_var as nat + 1, |x: int| node_from(hv, lv, gv, x)));
    }
    (nodes, inputs, latches, ands)
}

/// Setting a symbol keeps a graph well formed and changes only its nodes.
proof fn lemma_set_symbol_wf(v: AigView, kind: u8, idx: nat, name: Seq<char>)
    requires
        v.well_formed(),
        set_symbol(v, kind, idx, name) is Some,
    ensures
        set_symbol(v, kind, idx, name).unwrap().well_formed(),
        set_symbol(v, kind, idx, name).unwrap() == (AigView { nodes: set_symbol(v, kind, idx, name).unwrap().nodes, ..v }),
        set_symbol(v, kind, idx, name).unwrap().nodes.len() == v.nodes.len(),
{
    let w = set_symbol(v, kind, idx, name).unwrap();
    assert forall|k: int| 0 <= k < w.nodes.len() implies #[trigger] w.node_ok(k) by {
        assert(v.node_ok(k));
    }
    if kind == 111u8 {
        assert(v.literal_ok(v.outputs[idx as int]));
    } else if kind == 98u8 {
        assert(v.literal_ok(v.bad[idx as int]));
    } else if kind == 99u8 {
        assert(v.literal_ok(v.constraints[idx as int]));
    }
}

/// Applies the symbol line `b[start..end]` to the nodes of the graph `v`.
fn apply_symbol_line(
    b: &[u8],
    start: usize,
    end: usize,
    nodes: &mut Vec<AIGNode>,
    outputs: &Vec<usize>,
    bad: &Vec<usize>,
    constraints: &Vec<usize>,
    num_inputs: usize,
    num_latches: usize,
    Ghost(v): Ghost<AigView>,
) -> (ok: bool)
    requires
        start <= end <= b@.len(),
        v.well_formed(),
        super::node_views(old(nodes)@) == v.nodes,
        super::nat_views(outputs@) == v.outputs,
        super::nat_views(bad@) == v.bad,
        super::nat_views(constraints@) == v.constraints,
        num_inputs == v.num_inputs,
        num_latches == v.num_latches,
    ensures
        ok == symbol_line(v, b@.subrange(start as int, end as int)) is Some,
        ok ==> symbol_line(v, b@.subrange(start as int, end as int)) == Some(
            AigView { nodes: super::node_views(final(nodes)@), ..v },
        ),
{
    let ghost l = b@.subrange(start as int, end as int);
    let f = split_bytes(b, start, end, 32u8);
    proof {
        lemma_split_on_len(l, space());
    }
    if f.len() != 2 {
        return false;
    }
    proof {
        assert(byte_views(f@)[0] == f@[0]@);
        assert(byte_views(f@)[1] == f@[1]@);
    }
    let a = &f[0];
    if a.len() < 2 {
        return false;
    }
    let idx = match read_number(a.as_slice(), 1, a.len()) {
        Some(n) => n,
        None => {
            proof {
                assert(a@.subrange(1, a@.len() as int) =~= a@.drop_first());
            }
            return false;
        },
    };
    proof {
        assert(a@.subrange(1, a@.len() as int) =~= a@.drop_first());
    }
    let name = match utf8_text(f[1].as_slice()) {
        Some(t) => t,
        None => {
            return false;
        },
    };
    let kind = a[0];
    let ghost old_nodes = nodes@;
    proof {
        assert(v.nodes.len() == nodes@.len());
    }
    if kind == 105u8 {
        if idx >= num_inputs {
            return false;
        }
        let k = 1 + idx;
        proof {
            assert(v.node_ok(k as int));
            assert(nodes@[k as int].view() == v.nodes[k as int]);
        }
        nodes[k].set_input_symbol(name);
    } else if kind == 108u8 {
        if idx >= num_latches {
            return false;
        }
        let k = 1 + num_inputs + idx;
        proof {
            assert(v.node_ok(k as int));
            assert(nodes@[k as int].view() == v.nodes[k as int]);
        }
        nodes[k].set_latch_symbol(name);
    } else if kind == 111u8 {
        if idx >= outputs.len() {
            return false;
        }
        let k = outputs[idx] / 2;
        proof {
            assert(v.outputs[idx as int] == outputs@[idx as int]);
            assert(v.literal_ok(v.outputs[idx as int]));
        }
        nodes[k].set_output_symbol(name);
    } else if kind == 98u8 {
        if idx >= bad.len() {
            return false;
        }
        let k = bad[idx] / 2;
        proof {
            assert(v.bad[idx as int] == bad@[idx as int]);
            assert(v.literal_ok(v.bad[idx as int]));
        }
        nodes[k].set_bad_symbol(name);
    } else if kind == 99u8 {
        if idx >= constraints.len() {
            return false;
        }
        let k = constraints[idx] / 2;
        proof {
            assert(v.constraints[idx as int] == constraints@[idx as int]);
            assert(v.literal_ok(v.constraints[idx as int]));
        }
        nodes[k].set_constraint_symbol(name);
    } else {
        return false;
    }
    proof {
        let w = set_symbol(v, kind, idx as nat, decode_utf8(f@[1]@)).unwrap();
        assert(super::node_views(nodes@) =~= w.nodes);
    }
    true
}

/// Applies the symbol table from `pos` to the nodes of the graph `v`.
fn read_symbols(
    b: &[u8],
    pos: usize,
    nodes: &mut Vec<AIGNode>,
    outputs: &Vec<usize>,
    bad: &Vec<usize>,
    constraints: &Vec<usize>,
    num_inputs: usize,
    num_latches: usize,
    Ghost(v): Ghost<AigView>,
) -> (ok: bool)
    requires
        pos <= b@.len(),
        v.well_formed(),
        super::node_views(old(nodes)@) == v.nodes,
        super::nat_views(outputs@) == v.outputs,
        super::nat_views(bad@) == v.bad,
        super::nat_views(constraints@) == v.constraints,
        num_inputs == v.num_inputs,
        num_latches == v.num_latches,
    ensures
        ok == symbols_from(b@, pos as int, v) is Some,
        ok ==> symbols_from(b@, pos as int, v) == Some(
            AigView { nodes: super::node_views(final(nodes)@), ..v },
        ),
        ok ==> (AigView { nodes: super::node_views(final(nodes)@), ..v }).well_formed(),
{
    let mut p = pos;
    let ghost mut w = v;
    loop
        invariant
            p <= b@.len(),
            w.well_formed(),
            w == (AigView { nodes: super::node_views(nodes@), ..v }),
            symbols_from(b@, pos as int, v) == symbols_from(b@, p as int, w),
            super::nat_views(outputs@) == v.outputs,
            super::nat_views(bad@) == v.bad,
            super::nat_views(constraints@) == v.constraints,
            num_inputs == v.num_inputs,
            num_latches == v.num_latches,
        decreases b@.len() - p,
    {
        if p >= b.len() {
            return true;
        }
        let e = next_newline(b, p);
        if e == p + 1 && b[p] == 99u8 {
            proof {
                assert(b@.subrange(p as int, e as int) =~= seq![99u8]);
            }
            return true;
        }
        proof {
            if b@.subrange(p as int, e as int) == seq![99u8] {
                assert(b@.subrange(p as int, e as int).len() == 1);
                assert(b@.subrange(p as int, e as int)[0] == b@[p as int]);
            }
        }
        let ghost l = b@.subrange(p as int, e as int);
        if !apply_symbol_line(b, p, e, nodes, outputs, bad, constraints, num_inputs, num_latches, Ghost(w)) {
            return false;
        }
        proof {
            let f = split_on(l, space());
            lemma_set_symbol_wf(w, f[0][0], parse_number(f[0].drop_first()).unwrap(), decode_utf8(f[1]));
            w = symbol_line(w, l).unwrap();
        }
        if e == b.len() {
            return true;
        }
        p = e + 1;
    }
}

/// Why the bytes of a file could not be read as an And-Inverter Graph.
#[derive(Debug, PartialEq, Eq, Clone, Copy, Structural)]
pub enum AigReadError {
    /// The bytes do not describe a graph in the binary AIGER format that this library reads.
    InvalidFormat,
}

impl AndInverterGraph {
    /// Reads an And-Inverter Graph from the bytes of a binary AIGER file (see
    /// http://fmv.jku.at/aiger/): the header line, the latch, output, bad-state property and
    /// invariant constraint lines, the delta-encoded and gates and the symbol table. The
    /// comment section is not read. Fails exactly where the bytes are not such a file.
    pub fn from_vector_of_bytes(vec_of_bytes: &[u8]) -> (r: Result<AndInverterGraph, AigReadError>)
        ensures
            match r {
                Ok(aig) => aig_parse(vec_of_bytes@) == Some(aig.view()),
                Err(_) => aig_parse(vec_of_bytes@) is None,
            },
    {
        let b = vec_of_bytes;
        let e0 = next_newline(b, 0);
        if e0 == b.len() {
            return Err(AigReadError::InvalidFormat);
        }
        proof {
            assert(line(b@, 0) == b@.subrange(0, e0 as int));
            assert(line_start(b@, 1) == e0 + 1);
        }
        let h = match read_header(b, e0) {
            Some(h) => h,
            None => {
                return Err(AigReadError::InvalidFormat);
            },
        };
        let ghost hv = h.view();
        let (lat, outs, bads, cons, p) = match read_header_section(b, &h, e0 + 1) {
            Some(x) => x,
            None => {
                return Err(AigReadError::InvalidFormat);
            },
        };
        let (gates, q) = match read_ands(b, p, 2 * (h.inputs + h.latches), h.ands) {
            Some(x) => x,
            None => {
                return Err(AigReadError::InvalidFormat);
            },
        };
        let ghost base = 2 * (hv.inputs + hv.latches);
        proof {
            lemma_and_gates_shape(b@, p as int, base, hv.ands);
            assert(pair_views(lat@).len() == lat@.len());
            assert(pair_views(gates@).len() == gates@.len());
            assert forall|j: int| 0 <= j < h.latches implies {
                let r = #[trigger] lat@[j].1;
                r == 0 || r == 1 || r == 2 * (h.inputs + j + 1)
            } by {
                assert(pair_views(lat@)[j] == latch_line(b@, hv, j).unwrap());
            }
        }
        let (mut nodes, inputs, latches, ands) = build_nodes(&h, &lat, &gates);
        let ghost v = graph_from(b@, hv, pair_views(gates@));
        proof {
            let lv = Seq::new(hv.latches, |j: int| latch_line(b@, hv, j).unwrap());
            assert(lv == pair_views(lat@));
            assert(v.nodes == super::node_views(nodes@));
            assert forall|k: int| 0 <= k < v.nodes.len() implies #[trigger] v.node_ok(k) by {
                if k > hv.inputs && k <= hv.inputs + hv.latches {
                    assert(latch_line(b@, hv, k - 1 - hv.inputs) is Some);
                } else if k > hv.inputs + hv.latches {
                    let g = and_gates(b@, p as int, base, hv.ands).unwrap().0[k - 1 - hv.inputs - hv.latches];
                    assert(g.0 < base + 2 * (k - hv.inputs - hv.latches));
                }
            }
            assert forall|i: int| 0 <= i < v.outputs.len() implies v.literal_ok(#[trigger] v.outputs[i]) by {
                assert(output_line(b@, hv, i) is Some);
            }
            assert forall|i: int| 0 <= i < v.bad.len() implies v.literal_ok(#[trigger] v.bad[i]) by {
                assert(bad_line(b@, hv, i) is Some);
            }
            assert forall|i: int| 0 <= i < v.constraints.len() implies v.literal_ok(#[trigger] v.constraints[i]) by {
                assert(constraint_line(b@, hv, i) is Some);
            }
            assert(v.well_formed());
        }
        if !read_symbols(b, q, &mut nodes, &outs, &bads, &cons, h.inputs, h.latches, Ghost(v)) {
            return Err(AigReadError::InvalidFormat);
        }
        let aig = AndInverterGraph {
            maximum_variable_index: h.max_var,
            number_of_inputs: h.inputs,
            number_of_latches: h.latches,
            number_of_outputs: h.outputs,
            number_of_and_gates: h.ands,
            number_of_bad_state_constraints: h.bad,
            number_of_invariant_constraints: h.constraints,
            number_of_justice_constraints: 0,
            number_of_fairness_constraints: 0,
            nodes,
            inputs,
            latches,
            ands,
            outputs: outs,
            bad: bads,
            constraints: cons,
        };
        Ok(aig)
    }
}

} // verus!
