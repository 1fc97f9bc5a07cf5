//! What an And-Inverter Graph tells about its nodes.

use super::aig_node::AIGNodeType;
use super::{lemma_nat_views_push, nat_views, AigView, AndInverterGraph};
use vstd::prelude::*;

verus! {

/// The literals of the inputs.
pub open spec fn input_literals(v: AigView) -> Seq<nat> {
    Seq::new(v.num_inputs, |i: int| v.nodes[1 + i].lit)
}

/// For each latch: its literal, its next-state literal and its reset value.
pub open spec fn latch_triples(v: AigView) -> Seq<(nat, nat, nat)> {
    Seq::new(
        v.num_latches,
        |j: int|
            {
                let n = v.nodes[1 + v.num_inputs + j];
                (n.lit, n.latch_input, n.latch_reset)
            },
    )
}

/// Triples of `usize`, as natural numbers.
pub open spec fn triple_views(t: Seq<(usize, usize, usize)>) -> Seq<(nat, nat, nat)> {
    t.map_values(|x: (usize, usize, usize)| (x.0 as nat, x.1 as nat, x.2 as nat))
}

/// Pushing a triple pushes its values.
pub proof fn lemma_triple_views_push(s: Seq<(usize, usize, usize)>, x: (usize, usize, usize))
    ensures
        triple_views(s.push(x)) =~= triple_views(s).push((x.0 as nat, x.1 as nat, x.2 as nat)),
{
    assert forall|i: int| 0 <= i < s.len() + 1 implies #[trigger] triple_views(s.push(x))[i]
        == triple_views(s).push((x.0 as nat, x.1 as nat, x.2 as nat))[i] by {
        if i < s.len() {
            assert(s.push(x)[i] == s[i]);
        }
    }
}

/// Whether `child` is the variable of an input of the and gate with variable `var`.
pub open spec fn and_child(v: AigView, var: int, child: int) -> bool {
    &&& 0 <= var < v.nodes.len()
    &&& v.nodes[var].node_type == AIGNodeType::And
    &&& (child == v.nodes[var].rhs0 / 2 || child == v.nodes[var].rhs1 / 2)
}

/// Whether each variable of `p` after the first is an input of the and gate before it.
pub open spec fn and_path(v: AigView, p: Seq<int>) -> bool
    decreases p.len(),
{
    if p.len() <= 1 {
        p.len() == 1
    } else {
        and_path(v, p.drop_last()) && and_child(v, p[p.len() - 2], p.last())
    }
}

/// Whether a variable is the variable of one of the literals.
pub open spec fn var_of_some(lits: Seq<nat>, x: int) -> bool {
    exists|j: int| 0 <= j < lits.len() && #[trigger] lits[j] / 2 == x
}

/// Whether the value of variable `x` depends on the literals: a path leads to it from one of
/// their variables through and-gate inputs.
pub open spec fn in_cone(v: AigView, lits: Seq<nat>, x: int) -> bool {
    exists|p: Seq<int>| and_path(v, p) && var_of_some(lits, p[0]) && #[trigger] p.last() == x
}

/// The literal and the two inputs of the and gate with variable `x`.
pub open spec fn and_triple(v: AigView, x: int) -> (nat, nat, nat) {
    (v.nodes[x].lit, v.nodes[x].rhs0, v.nodes[x].rhs1)
}

/// The and gates in the cone of influence of the literals, as triples.
pub open spec fn cone_gates(v: AigView, lits: Seq<nat>) -> Set<(nat, nat, nat)> {
    Set::new(
        |t: (nat, nat, nat)|
            exists|x: int|
                0 <= x < v.nodes.len() && in_cone(v, lits, x) && v.nodes[x].node_type
                    == AIGNodeType::And && t == #[trigger] and_triple(v, x),
    )
}

/// Whether a variable is the variable of one of the literals in `work`.
spec fn in_work(work: Seq<usize>, x: int) -> bool {
    exists|k: int| 0 <= k < work.len() && #[trigger] work[k] / 2 == x
}

/// A path that starts at a variable of the work list ends at one, when every and gate met in
/// the list has its inputs in the list.
proof fn lemma_path_in_work(v: AigView, work: Seq<usize>, marked: Seq<bool>, p: Seq<int>)
    requires
        and_path(v, p),
        in_work(work, p[0]),
        marked.len() == v.nodes.len(),
        forall|k: int|
            0 <= k < work.len() && v.nodes[(work[k] / 2) as int].node_type == AIGNodeType::And
                ==> #[trigger] marked[(work[k] / 2) as int],
        forall|x: int|
            0 <= x < marked.len() && #[trigger] marked[x] ==> in_work(work, (v.nodes[x].rhs0 / 2) as int)
                && in_work(work, (v.nodes[x].rhs1 / 2) as int),
    ensures
        in_work(work, p.last()),
    decreases p.len(),
{
    if p.len() > 1 {
        let q = p.drop_last();
        assert(q[0] == p[0]);
        lemma_path_in_work(v, work, marked, q);
        let x = p[p.len() - 2];
        assert(q.last() == x);
        let k = choose|k: int| 0 <= k < work.len() && #[trigger] work[k] / 2 == x;
        assert(marked[(work[k] / 2) as int]);
    }
}

/// Extending a path of the cone by an input of its last and gate stays in the cone.
proof fn lemma_cone_child(v: AigView, lits: Seq<nat>, x: int, c: int)
    requires
        in_cone(v, lits, x),
        and_child(v, x, c),
    ensures
        in_cone(v, lits, c),
{
    let p = choose|p: Seq<int>| and_path(v, p) && var_of_some(lits, p[0]) && #[trigger] p.last() == x;
    let q = p.push(c);
    assert(q.drop_last() =~= p);
    assert(q[0] == p[0]);
    assert(and_path(v, q));
    assert(q.last() == c);
}

/// The variable of a given literal is in the cone.
proof fn lemma_cone_start(v: AigView, lits: Seq<nat>, j: int)
    requires
        0 <= j < lits.len(),
    ensures
        in_cone(v, lits, (lits[j] / 2) as int),
{
    let p = seq![(lits[j] / 2) as int];
    assert(var_of_some(lits, p[0]));
    assert(and_path(v, p));
    assert(p.last() == (lits[j] / 2) as int);
}

/// A list of different variables below `n` has at most `n` entries.
proof fn lemma_distinct_below(s: Seq<int>, n: int)
    requires
        0 <= n,
        s.no_duplicates(),
        forall|t: int| 0 <= t < s.len() ==> 0 <= #[trigger] s[t] < n,
    ensures
        s.len() <= n,
{
    s.unique_seq_to_set();
    vstd::set_lib::lemma_int_range(0, n);
    assert forall|x: int| s.to_set().contains(x) implies vstd::set_lib::set_int_range(0, n).contains(x) by {
        assert(s.contains(x));
    }
    vstd::set_lib::lemma_len_subset(s.to_set(), vstd::set_lib::set_int_range(0, n));
}

impl AndInverterGraph {
    /// Function that gets the cone of influence for some list of literals: every and gate whose
    /// value they depend on, once each, as (output literal, input literal, input literal), in
    /// the order in which they are found.
    pub fn get_and_information_in_cone_of_influence(&self, desired_literals: &[usize]) -> (r: Vec<
        (usize, usize, usize),
    >)
        requires
            forall|j: int|
                0 <= j < desired_literals@.len() ==> self.view().literal_ok(
                    #[trigger] desired_literals@[j] as nat,
                ),
        ensures
            triple_views(r@).no_duplicates(),
            triple_views(r@).to_set() == cone_gates(self.view(), nat_views(desired_literals@)),
    {
        proof {
            use_type_invariant(self);
        }
        let ghost v = self.view();
        let ghost lits = nat_views(desired_literals@);
        let n = self.nodes.len();
        let mut marked: Vec<bool> = vec![false; n];
        let mut work: Vec<usize> = Vec::new();
        let mut j: usize = 0;
        while j < desired_literals.len()
            invariant
                j <= desired_literals@.len(),
                work@ == desired_literals@.subrange(0, j as int),
            decreases desired_literals@.len() - j,
        {
            work.push(desired_literals[j]);
            j = j + 1;
            assert(work@ =~= desired_literals@.subrange(0, j as int));
        }
        proof {
            assert(work@ =~= desired_literals@);
            assert forall|k: int| 0 <= k < work@.len() implies v.literal_ok(#[trigger] work@[k] as nat)
                && in_cone(v, lits, (work@[k] / 2) as int) by {
                assert(lits[k] == work@[k] as nat);
                lemma_cone_start(v, lits, k);
            }
        }
        let mut result: Vec<(usize, usize, usize)> = Vec::new();
        let ghost mut vars: Seq<int> = Seq::empty();
        let mut i: usize = 0;
        while i < work.len()
            invariant
                v == self.view(),
                n == v.nodes.len(),
                v.well_formed(),
                lits == nat_views(desired_literals@),
                marked@.len() == n,
                i <= work@.len(),
                work@.len() >= lits.len(),
                forall|j: int| 0 <= j < lits.len() ==> #[trigger] work@[j] as nat == lits[j],
                forall|k: int|
                    0 <= k < work@.len() ==> v.literal_ok(#[trigger] work@[k] as nat) && in_cone(
                        v,
                        lits,
                        (work@[k] / 2) as int,
                    ),
                vars.no_duplicates(),
                forall|t: int|
                    0 <= t < vars.len() ==> 0 <= #[trigger] vars[t] < n && v.nodes[vars[t]].node_type
                        == AIGNodeType::And && in_cone(v, lits, vars[t]),
                forall|x: int| 0 <= x < n ==> (#[trigger] marked@[x] <==> vars.contains(x)),
                triple_views(result@) == vars.map_values(|x: int| and_triple(v, x)),
                forall|x: int|
                    0 <= x < n && #[trigger] marked@[x] ==> in_work(work@, (v.nodes[x].rhs0 / 2) as int)
                        && in_work(work@, (v.nodes[x].rhs1 / 2) as int),
                forall|k: int|
                    0 <= k < i && v.nodes[(work@[k] / 2) as int].node_type == AIGNodeType::And
                        ==> #[trigger] marked@[(work@[k] / 2) as int],
                vars.len() <= n,
            decreases 2 * (n - vars.len()) + work@.len() - i,
        {
            let x = work[i] / 2;
            proof {
                assert(v.literal_ok(work@[i as int] as nat));
                assert(v.nodes[x as int] == self.nodes@[x as int].view());
            }
            let node = &self.nodes[x];
            if node.get_type() == AIGNodeType::And && !marked[x] {
                proof {
                    assert(!vars.contains(x as int));
                    assert(v.node_ok(x as int));
                    let w = vars.push(x as int);
                    assert forall|a: int, b: int| 0 <= a < w.len() && 0 <= b < w.len() && a != b implies w[a] != w[b] by {
                        if a < vars.len() && b < vars.len() {
                        } else if a < vars.len() {
                            assert(vars.contains(w[a]));
                        } else {
                            assert(vars.contains(w[b]));
                        }
                    }
                    lemma_distinct_below(w, n as int);
                }
                let ghost pre_marked = marked@;
                let ghost pre_vars = vars;
                marked.set(x, true);
                let t = (node.get_literal(), node.get_and_rhs0(), node.get_and_rhs1());
                let ghost pre_result = result@;
                let ghost pre_work = work@;
                result.push(t);
                work.push(t.1);
                work.push(t.2);
                proof {
                    let c0 = (v.nodes[x as int].rhs0 / 2) as int;
                    let c1 = (v.nodes[x as int].rhs1 / 2) as int;
                    assert(in_cone(v, lits, x as int));
                    lemma_cone_child(v, lits, x as int, c0);
                    lemma_cone_child(v, lits, x as int, c1);
                    vars = vars.push(x as int);
                    assert forall|y: int| 0 <= y < n implies (#[trigger] marked@[y] <==> vars.contains(y)) by {
                        if y == x {
                            assert(vars[vars.len() - 1] == y);
                        } else {
                            assert(marked@[y] == pre_marked[y]);
                            if pre_vars.contains(y) {
                                let a = choose|a: int| 0 <= a < pre_vars.len() && pre_vars[a] == y;
                                assert(vars[a] == y);
                            }
                            if vars.contains(y) {
                                let a = choose|a: int| 0 <= a < vars.len() && vars[a] == y;
                                assert(a < pre_vars.len());
                                assert(pre_vars[a] == y);
                            }
                        }
                    }
                    lemma_triple_views_push(pre_result, t);
                    assert(triple_views(result@) =~= vars.map_values(|y: int| and_triple(v, y)));
                    assert(work@[pre_work.len() as int] == t.1);
                    assert(work@[pre_work.len() + 1 as int] == t.2);
                    assert(in_work(work@, c0));
                    assert(in_work(work@, c1));
                    assert forall|y: int| 0 <= y < n && #[trigger] marked@[y] implies in_work(work@, (v.nodes[y].rhs0 / 2) as int)
                        && in_work(work@, (v.nodes[y].rhs1 / 2) as int) by {
                        if y != x {
                            let k0 = choose|k: int| 0 <= k < pre_work.len() && #[trigger] pre_work[k] / 2 == (v.nodes[y].rhs0 / 2) as int;
                            assert(work@[k0] == pre_work[k0]);
                            let k1 = choose|k: int| 0 <= k < pre_work.len() && #[trigger] pre_work[k] / 2 == (v.nodes[y].rhs1 / 2) as int;
                            assert(work@[k1] == pre_work[k1]);
                        }
                    }
                    assert forall|k: int| 0 <= k < work@.len() implies v.literal_ok(#[trigger] work@[k] as nat)
                        && in_cone(v, lits, (work@[k] / 2) as int) by {
                        if k < pre_work.len() {
                            assert(work@[k] == pre_work[k]);
                        }
                    }
                    assert forall|k: int| 0 <= k < i + 1 && v.nodes[(work@[k] / 2) as int].node_type == AIGNodeType::And
                        implies #[trigger] marked@[(work@[k] / 2) as int] by {
                        assert(work@[k] == pre_work[k]);
                    }
                }
            }
            i = i + 1;
        }
        proof {
            let tv = triple_views(result@);
            assert forall|a: int, b: int| 0 <= a < tv.len() && 0 <= b < tv.len() && a != b implies tv[a] != tv[b] by {
                assert(v.node_ok(vars[a]));
                assert(v.node_ok(vars[b]));
            }
            assert forall|t: (nat, nat, nat)| tv.to_set().contains(t) implies cone_gates(v, lits).contains(t) by {
                assert(tv.contains(t));
                let a = choose|a: int| 0 <= a < tv.len() && tv[a] == t;
                assert(t == and_triple(v, vars[a]));
            }
            assert forall|t: (nat, nat, nat)| cone_gates(v, lits).contains(t) implies tv.to_set().contains(t) by {
                let x = choose|x: int|
                    0 <= x < v.nodes.len() && in_cone(v, lits, x) && v.nodes[x].node_type
                        == AIGNodeType::And && t == #[trigger] and_triple(v, x);
                let p = choose|p: Seq<int>| and_path(v, p) && var_of_some(lits, p[0]) && #[trigger] p.last() == x;
                let j0 = choose|j: int| 0 <= j < lits.len() && #[trigger] lits[j] / 2 == p[0];
                assert(work@[j0] / 2 == p[0]);
                assert(in_work(work@, p[0]));
                lemma_path_in_work(v, work@, marked@, p);
                let k = choose|k: int| 0 <= k < work@.len() && #[trigger] work@[k] / 2 == x;
                assert(marked@[(work@[k] / 2) as int]);
                assert(vars.contains(x));
                let a = choose|a: int| 0 <= a < vars.len() && vars[a] == x;
                assert(tv[a] == t);
            }
            assert(tv.to_set() =~= cone_gates(v, lits));
        }
        result
    }

    /// Function that gets a vector describing the input nodes in the system.
    /// The output is a vector containing number representing input literals.
    pub fn get_input_information(&self) -> (r: Vec<usize>)
        ensures
            nat_views(r@) == input_literals(self.view()),
    {
        proof {
            use_type_invariant(self);
        }
        let ghost v = self.view();
        let mut result: Vec<usize> = Vec::new();
        let mut i: usize = 0;
        while i < self.inputs.len()
            invariant
                i <= self.inputs@.len(),
                v == self.view(),
                self.inputs@.len() == v.num_inputs,
                nat_views(result@) == input_literals(v).subrange(0, i as int),
            decreases self.inputs@.len() - i,
        {
            proof {
                use_type_invariant(self);
                assert(self.inputs@[i as int] == 1 + i);
                assert(v.nodes[1 + i] == self.nodes@[1 + i].view());
            }
            let node = &self.nodes[self.inputs[i]];
            let ghost pre = result@;
            let lit = node.get_literal();
            result.push(lit);
            proof {
                lemma_nat_views_push(pre, lit);
                assert(nat_views(result@) =~= input_literals(v).subrange(0, i + 1));
            }
            i = i + 1;
        }
        proof {
            assert(input_literals(v).subrange(0, i as int) =~= input_literals(v));
        }
        result
    }

    /// Function that gets a vector describing the latch nodes in the system: for each latch,
    /// (latch output literal, latch input literal, latch initial value).
    pub fn get_latch_information(&self) -> (r: Vec<(usize, usize, usize)>)
        ensures
            triple_views(r@) == latch_triples(self.view()),
    {
        proof {
            use_type_invariant(self);
        }
        let ghost v = self.view();
        let mut result: Vec<(usize, usize, usize)> = Vec::new();
        let mut j: usize = 0;
        while j < self.latches.len()
            invariant
                j <= self.latches@.len(),
                v == self.view(),
                self.latches@.len() == v.num_latches,
                triple_views(result@) == latch_triples(v).subrange(0, j as int),
            decreases self.latches@.len() - j,
        {
            proof {
                use_type_invariant(self);
                assert(v.node_ok(1 + v.num_inputs + j));
                assert(self.latches@[j as int] == 1 + v.num_inputs + j);
                assert(v.nodes[1 + v.num_inputs + j] == self.nodes@[1 + v.num_inputs + j].view());
            }
            let node = &self.nodes[self.latches[j]];
            let ghost pre = result@;
            let t = (node.get_literal(), node.get_latch_input(), node.get_latch_reset());
            result.push(t);
            proof {
                lemma_triple_views_push(pre, t);
                assert(triple_views(result@) =~= latch_triples(v).subrange(0, j + 1));
            }
            j = j + 1;
        }
        proof {
            assert(latch_triples(v).subrange(0, j as int) =~= latch_triples(v));
        }
        result
    }

    /// Function that gets the literals that are bad.
    pub fn get_bad_information(&self) -> (r: Vec<usize>)
        ensures
            nat_views(r@) == self.view().bad,
    {
        self.bad.clone()
    }

    /// Function that gets the literals that are invariant constraints.
    pub fn get_constraints_information(&self) -> (r: Vec<usize>)
        ensures
            nat_views(r@) == self.view().constraints,
    {
        self.constraints.clone()
    }

    /// Function that gets the literals that are outputs of the AIG.
    pub fn get_output_information(&self) -> (r: Vec<usize>)
        ensures
            nat_views(r@) == self.view().outputs,
    {
        self.outputs.clone()
    }

    /// Function that gets the maximum variable number used in the AIG.
    pub fn get_highest_variable_number(&self) -> (r: usize)
        ensures
            r == self.view().max_var,
    {
        self.maximum_variable_index
    }
}

} // verus!
