//! Moving formulas between the copies of the state, and questions about states and invariants.

use super::construction::{initial_lists, latch_initial, not, system_of};
use crate::models::and_inverter_graph::AigView;
use super::FiniteStateTransitionSystem;
use crate::formulas::literal::{max_variable_number, Literal, VariableType};
use crate::formulas::semantics::{
    all_valid, lemma_sorted_same_unique, same_literals, sorted_by_code,
};
use crate::algorithms::formula_logic::{does_a_imply_b, is_a_and_b_satisfiable};
use crate::formulas::semantics::{
    clause_holds, cnf_holds, cube_holds, entails, lemma_same_literals_hold, literal_holds,
    satisfiable, unit_clauses, Valuation,
};
use crate::formulas::{Clause, Cube, CNF};
use crate::solvers::sat::assignment::{assignment_valuation, Assignment};
use crate::solvers::sat::StatelessSatSolver;
use super::FstsView;
use vstd::prelude::*;

verus! {

broadcast use Literal::lemma_make, Literal::lemma_negate, Literal::lemma_code_injective, Literal::lemma_code;

/// A literal moved up by `k` variables.
pub open spec fn bump_literal(l: Literal, k: nat) -> Literal {
    Literal::spec_make(l.var() + k, l.neg())
}

/// Each literal of a sequence moved up by `k` variables.
pub open spec fn bump_literals(c: Seq<Literal>, k: nat) -> Seq<Literal> {
    c.map_values(|l: Literal| bump_literal(l, k))
}

/// Each clause of a CNF moved up by `k` variables.
pub open spec fn bump_cnf(f: Set<Seq<Literal>>, k: nat) -> Set<Seq<Literal>> {
    f.map(|c: Seq<Literal>| bump_literals(c, k))
}

/// Whether every literal of the sequence stays a literal when moved up by `k` variables.
pub open spec fn bump_fits(c: Seq<Literal>, k: nat) -> bool {
    forall|i: int| 0 <= i < c.len() ==> (#[trigger] c[i]).var() + k <= max_variable_number()
}

/// Whether every literal of the CNF stays a literal when moved up by `k` variables.
pub open spec fn cnf_bump_fits(f: Set<Seq<Literal>>, k: nat) -> bool {
    forall|c: Seq<Literal>| #[trigger] f.contains(c) ==> bump_fits(c, k)
}

/// Moving up keeps a sorted sequence sorted.
proof fn lemma_bump_sorted(c: Seq<Literal>, k: nat)
    requires
        sorted_by_code(c),
        bump_fits(c, k),
    ensures
        sorted_by_code(bump_literals(c, k)),
{
    let b = bump_literals(c, k);
    assert forall|i: int, j: int| 0 <= i <= j < b.len() implies (#[trigger] b[i]).code() <= (#[trigger] b[j]).code() by {
        assert(c[i].code() <= c[j].code());
        c[i].lemma_code();
        c[j].lemma_code();
        Literal::lemma_make(c[i].var() + k, c[i].neg());
        Literal::lemma_make(c[j].var() + k, c[j].neg());
    }
}

/// Moving up by nothing changes nothing.
pub proof fn lemma_bump_zero(f: Set<Seq<Literal>>)
    requires
        forall|c: Seq<Literal>| #[trigger] f.contains(c) ==> all_valid(c),
    ensures
        bump_cnf(f, 0) == f,
{
    assert forall|c: Seq<Literal>| #[trigger] f.contains(c) implies bump_literals(c, 0) == c by {
        assert forall|i: int| 0 <= i < c.len() implies bump_literals(c, 0)[i] == c[i] by {
            assert(c[i].is_valid());
            c[i].lemma_code();
            Literal::lemma_make(c[i].var(), c[i].neg());
        }
        assert(bump_literals(c, 0) =~= c);
    }
    assert forall|c: Seq<Literal>| #[trigger] bump_cnf(f, 0).contains(c) <==> f.contains(c) by {
        if f.contains(c) {
            assert(bump_literals(c, 0) == c);
        }
    }
    assert(bump_cnf(f, 0) =~= f);
}

/// Moving up by `a` and then by `b` is moving up by `a + b`: tagging twice adds the tags.
pub proof fn law_bump_twice(f: Set<Seq<Literal>>, a: nat, b: nat)
    requires
        cnf_bump_fits(f, a + b),
    ensures
        bump_cnf(bump_cnf(f, a), b) == bump_cnf(f, a + b),
{
    assert forall|c: Seq<Literal>| #[trigger] f.contains(c) implies bump_literals(bump_literals(c, a), b)
        == bump_literals(c, a + b) by {
        assert forall|i: int| 0 <= i < c.len() implies bump_literals(bump_literals(c, a), b)[i] == bump_literals(
            c,
            a + b,
        )[i] by {
            assert(bump_fits(c, a + b));
            assert(c[i].var() + a + b <= max_variable_number());
            Literal::lemma_make(c[i].var() + a, c[i].neg());
        }
        assert(bump_literals(bump_literals(c, a), b) =~= bump_literals(c, a + b));
    }
    assert forall|c: Seq<Literal>| #[trigger] bump_cnf(bump_cnf(f, a), b).contains(c) <==> bump_cnf(f, a + b).contains(c) by {
        if bump_cnf(bump_cnf(f, a), b).contains(c) {
            let c1 = choose|c1: Seq<Literal>| bump_cnf(f, a).contains(c1) && bump_literals(c1, b) == c;
            let c0 = choose|c0: Seq<Literal>| f.contains(c0) && bump_literals(c0, a) == c1;
            assert(bump_literals(c0, a + b) == c);
        }
        if bump_cnf(f, a + b).contains(c) {
            let c0 = choose|c0: Seq<Literal>| f.contains(c0) && bump_literals(c0, a + b) == c;
            assert(bump_cnf(f, a).contains(bump_literals(c0, a)));
            assert(bump_literals(bump_literals(c0, a), b) == c);
        }
    }
    assert(bump_cnf(bump_cnf(f, a), b) =~= bump_cnf(f, a + b));
}

/// Moving a CNF up by `k` variables renames its variables, so it is satisfiable exactly when
/// the CNF is.
pub proof fn law_bump_satisfiable(f: Set<Seq<Literal>>, k: nat)
    requires
        cnf_bump_fits(f, k),
    ensures
        satisfiable(bump_cnf(f, k)) == satisfiable(f),
{
    assert forall|c: Seq<Literal>, i: int| #[trigger] f.contains(c) && 0 <= i < c.len() implies (#[trigger] bump_literals(
        c,
        k,
    )[i]).var() == c[i].var() + k && bump_literals(c, k)[i].neg() == c[i].neg() by {
        assert(bump_fits(c, k));
        Literal::lemma_make(c[i].var() + k, c[i].neg());
    }
    if satisfiable(f) {
        let a = choose|a: Valuation| cnf_holds(f, a);
        let b: Valuation = |x: nat| if x >= k { a((x - k) as nat) } else { false };
        assert forall|c: Seq<Literal>| #[trigger] bump_cnf(f, k).contains(c) implies clause_holds(c, b) by {
            let c0 = choose|c0: Seq<Literal>| f.contains(c0) && bump_literals(c0, k) == c;
            assert(clause_holds(c0, a));
            let i = choose|i: int| 0 <= i < c0.len() && literal_holds(#[trigger] c0[i], a);
            assert(c[i] == bump_literals(c0, k)[i]);
            assert(literal_holds(c[i], b));
        }
        assert(cnf_holds(bump_cnf(f, k), b));
    }
    if satisfiable(bump_cnf(f, k)) {
        let b = choose|b: Valuation| cnf_holds(bump_cnf(f, k), b);
        let a: Valuation = |x: nat| b(x + k);
        assert forall|c: Seq<Literal>| #[trigger] f.contains(c) implies clause_holds(c, a) by {
            assert(bump_cnf(f, k).contains(bump_literals(c, k)));
            assert(clause_holds(bump_literals(c, k), b));
            let i = choose|i: int| 0 <= i < c.len() && literal_holds(#[trigger] bump_literals(c, k)[i], b);
            assert(literal_holds(c[i], a));
        }
        assert(cnf_holds(f, a));
    }
}

/// The literals of a sequence moved up by `k` variables.
fn bump_vec(literals: &[Literal], number_to_bump: u32) -> (r: Vec<Literal>)
    requires
        bump_fits(literals@, number_to_bump as nat),
    ensures
        r@ == bump_literals(literals@, number_to_bump as nat),
{
    let mut result: Vec<Literal> = Vec::new();
    let mut i: usize = 0;
    while i < literals.len()
        invariant
            i <= literals@.len(),
            bump_fits(literals@, number_to_bump as nat),
            result@ == bump_literals(literals@.subrange(0, i as int), number_to_bump as nat),
        decreases literals@.len() - i,
    {
        let l = literals[i];
        proof {
            assert(l.var() + number_to_bump <= max_variable_number());
        }
        let n = l.get_number() + number_to_bump;
        let b = Literal::new(n).negate_if_true(l.is_negated());
        proof {
            b.lemma_code();
            Literal::lemma_make(n as nat, l.neg());
            assert(b == bump_literal(l, number_to_bump as nat));
        }
        result.push(b);
        proof {
            assert(result@ =~= bump_literals(literals@.subrange(0, i + 1), number_to_bump as nat));
        }
        i = i + 1;
    }
    proof {
        assert(literals@.subrange(0, i as int) =~= literals@);
    }
    result
}

/// The clause with each literal moved up by `number_to_bump` variables.
fn bump_clause(source_clause: &Clause, number_to_bump: u32) -> (r: Clause)
    requires
        bump_fits(source_clause@, number_to_bump as nat),
    ensures
        r@ == bump_literals(source_clause@, number_to_bump as nat),
{
    source_clause.check_wf();
    let mut literals: Vec<Literal> = Vec::new();
    let mut i: usize = 0;
    while i < source_clause.len()
        invariant
            i <= source_clause@.len(),
            literals@ == source_clause@.subrange(0, i as int),
        decreases source_clause@.len() - i,
    {
        literals.push(source_clause.get(i));
        i = i + 1;
        assert(literals@ =~= source_clause@.subrange(0, i as int));
    }
    proof {
        assert(literals@ =~= source_clause@);
    }
    let bumped = bump_vec(literals.as_slice(), number_to_bump);
    let r = Clause::new(bumped.as_slice());
    proof {
        lemma_bump_sorted(source_clause@, number_to_bump as nat);
        lemma_sorted_same_unique(r@, bumped@);
    }
    r
}

/// The CNF with each literal moved up by `number_to_bump` variables.
fn bump_cnf_by(source_cnf: &CNF, number_to_bump: u32) -> (r: CNF)
    requires
        cnf_bump_fits(source_cnf@, number_to_bump as nat),
    ensures
        r@ == bump_cnf(source_cnf@, number_to_bump as nat),
{
    source_cnf.check_wf();
    if number_to_bump == 0 {
        proof {
            lemma_bump_zero(source_cnf@);
        }
        return source_cnf.clone();
    }
    let ghost k = number_to_bump as nat;
    let ghost list = crate::formulas::cnf::clause_views(source_cnf.clause_list());
    let mut result = CNF::new();
    let mut i: usize = 0;
    proof {
        assert(result@ =~= list.subrange(0, 0).to_set().map(|c: Seq<Literal>| bump_literals(c, k)));
    }
    while i < source_cnf.list_len()
        invariant
            i <= list.len(),
            list == crate::formulas::cnf::clause_views(source_cnf.clause_list()),
            source_cnf@ == list.to_set(),
            cnf_bump_fits(source_cnf@, k),
            k == number_to_bump,
            result@ == list.subrange(0, i as int).to_set().map(|c: Seq<Literal>| bump_literals(c, k)),
        decreases list.len() - i,
    {
        let c = source_cnf.get(i);
        proof {
            assert(list[i as int] == c@);
            assert(source_cnf@.contains(c@));
        }
        let b = bump_clause(c, number_to_bump);
        result.add_clause(&b);
        proof {
            let pre = list.subrange(0, i as int);
            let post = list.subrange(0, i + 1);
            assert(post =~= pre.push(c@));
            pre.lemma_push_to_set_commute(c@);
            let f = |c: Seq<Literal>| bump_literals(c, k);
            assert forall|y: Seq<Literal>| #[trigger] post.to_set().map(f).contains(y) <==> pre.to_set().map(f).insert(f(c@)).contains(y) by {
                if post.to_set().map(f).contains(y) {
                    let x = choose|x: Seq<Literal>| post.to_set().contains(x) && y == f(x);
                    if x != c@ {
                        assert(pre.to_set().contains(x));
                    }
                }
                if pre.to_set().map(f).contains(y) {
                    let x = choose|x: Seq<Literal>| pre.to_set().contains(x) && y == f(x);
                    assert(post.to_set().contains(x));
                }
                if y == f(c@) {
                    assert(post.to_set().contains(c@));
                }
            }
            assert(result@ =~= post.to_set().map(f));
        }
        i = i + 1;
    }
    proof {
        assert(list.subrange(0, i as int) =~= list);
    }
    result
}

/// The ways a candidate can fail to be an inductive invariant that shows the system safe.
#[derive(Debug, PartialEq, Eq, Clone, Copy, Structural)]
pub enum InvariantError {
    /// Some initial state is not covered.
    DoesNotCoverInit,
    /// Some state reached in one step from a covered state is not covered.
    NotInductive,
    /// Some covered state is unsafe.
    NotSafe,
}

/// The literals of the state that an assignment gives: each latch variable, negated unless
/// the assignment sets it to true.
pub open spec fn state_literals_of(v: FstsView, a: Assignment) -> Seq<Literal> {
    Seq::new(
        v.state_vars.len(),
        |j: int| Literal::spec_make(v.state_vars[j] as nat, a.value(v.state_vars[j]) != Some(true)),
    )
}

/// The state cube read from an assignment holds under the assignment: a latch set to true
/// appears positive, any other negated.
pub proof fn law_extracted_state_holds(v: FstsView, a: Assignment)
    requires
        forall|j: int| 0 <= j < v.state_vars.len() ==> #[trigger] v.state_vars[j] <= max_variable_number(),
    ensures
        cube_holds(state_literals_of(v, a), assignment_valuation(a)),
{
    assert forall|j: int| 0 <= j < state_literals_of(v, a).len() implies literal_holds(
        #[trigger] state_literals_of(v, a)[j],
        assignment_valuation(a),
    ) by {
        Literal::lemma_make(v.state_vars[j] as nat, a.value(v.state_vars[j]) != Some(true));
    }
}

/// Whether no literal of the sequence is the negation of another.
pub open spec fn consistent_literals(c: Seq<Literal>) -> bool {
    forall|i: int, j: int| 0 <= i < c.len() && 0 <= j < c.len() ==> #[trigger] c[i] != not(#[trigger] c[j])
}

/// Two literals of the same variable are equal or negations of each other.
proof fn lemma_same_variable(x: Literal, y: Literal)
    requires
        x.var() == y.var(),
    ensures
        x == y || x == not(y),
{
    x.lemma_code();
    y.lemma_code();
    y.lemma_negate();
    not(y).lemma_code();
    if x.neg() == y.neg() {
        Literal::lemma_code_injective(x, y);
    } else {
        Literal::lemma_code_injective(x, not(y));
    }
}

/// For the system of a graph, a cube with no literal and its negation contains no
/// contradiction with the initial states (what `is_cube_initial` decides) exactly when it holds
/// in some initial state.
pub proof fn law_cube_initial_holds_initially(a: AigView, b: bool, v: FstsView, cube: Seq<Literal>)
    requires
        system_of(a, b, v),
        consistent_literals(cube),
    ensures
        (!exists|i: int| 0 <= i < cube.len() && v.initial.contains(seq![not(#[trigger] cube[i])])) == satisfiable(
            v.initial.union(unit_clauses(cube)),
        ),
{
    let q = v.initial.union(unit_clauses(cube));
    if exists|i: int| 0 <= i < cube.len() && v.initial.contains(seq![not(#[trigger] cube[i])]) {
        let i = choose|i: int| 0 <= i < cube.len() && v.initial.contains(seq![not(#[trigger] cube[i])]);
        if satisfiable(q) {
            let s = choose|s: Valuation| cnf_holds(q, s);
            assert(q.contains(seq![not(cube[i])]));
            assert(unit_clauses(cube).contains(seq![cube[i]]));
            assert(q.contains(seq![cube[i]]));
            assert(clause_holds(seq![not(cube[i])], s));
            assert(clause_holds(seq![cube[i]], s));
            let k1 = choose|k: int| 0 <= k < 1 && literal_holds(#[trigger] seq![not(cube[i])][k], s);
            let k2 = choose|k: int| 0 <= k < 1 && literal_holds(#[trigger] seq![cube[i]][k], s);
            cube[i].lemma_negate();
        }
    } else {
        let s: Valuation = |x: nat|
            if exists|i: int| 0 <= i < cube.len() && cube[i].var() == x {
                !cube[choose|i: int| 0 <= i < cube.len() && cube[i].var() == x].neg()
            } else {
                exists|j: int|
                    0 <= j < a.num_latches && a.nodes[1 + a.num_inputs + j].lit / 2 == x
                        && #[trigger] a.nodes[1 + a.num_inputs + j].latch_reset == 1
            };
        // a literal of the cube holds
        assert forall|i: int| 0 <= i < cube.len() implies literal_holds(#[trigger] cube[i], s) by {
            let x = cube[i].var();
            assert(exists|t: int| 0 <= t < cube.len() && cube[t].var() == x);
            let t = choose|t: int| 0 <= t < cube.len() && cube[t].var() == x;
            lemma_same_variable(cube[t], cube[i]);
        }
        assert forall|c: Seq<Literal>| #[trigger] unit_clauses(cube).contains(c) implies clause_holds(c, s) by {
            let i = choose|i: int| 0 <= i < cube.len() && c == seq![cube[i]];
            assert(literal_holds(c[0], s));
        }
        // an initial unit clause holds
        assert forall|c: Seq<Literal>| #[trigger] v.initial.contains(c) implies clause_holds(c, s) by {
            let l = choose|l: Seq<Literal>| #[trigger] initial_lists(a).contains(l) && same_literals(c, l);
            let j = choose|j: int| 0 <= j < a.num_latches && #[trigger] latch_initial(a, j) == Some(l);
            let k = 1 + a.num_inputs + j;
            assert(a.node_ok(k));
            let n = a.nodes[k];
            let u = l[0];
            Literal::lemma_make(k as nat, false);
            Literal::spec_make(k as nat, false).lemma_negate();
            assert(u.var() == k);
            assert(v.initial.contains(seq![u])) by {
                assert(sorted_by_code(seq![u]));
                assert(same_literals(seq![u], l)) by {
                    assert(seq![u] =~= l);
                }
            }
            assert(literal_holds(u, s)) by {
                if exists|t: int| 0 <= t < cube.len() && cube[t].var() == k {
                    let t = choose|t: int| 0 <= t < cube.len() && cube[t].var() == k;
                    lemma_same_variable(cube[t], u);
                    if cube[t] == not(u) {
                        u.lemma_negate();
                        assert(not(cube[t]) == u);
                        assert(v.initial.contains(seq![not(cube[t])]));
                    }
                } else {
                    if exists|j2: int|
                        0 <= j2 < a.num_latches && a.nodes[1 + a.num_inputs + j2].lit / 2 == k
                            && #[trigger] a.nodes[1 + a.num_inputs + j2].latch_reset == 1 {
                        let j2 = choose|j2: int|
                            0 <= j2 < a.num_latches && a.nodes[1 + a.num_inputs + j2].lit / 2 == k
                                && #[trigger] a.nodes[1 + a.num_inputs + j2].latch_reset == 1;
                        assert(a.node_ok(1 + a.num_inputs + j2));
                    }
                }
            }
            lemma_same_literals_hold(c, l, s);
            assert(literal_holds(l[0], s));
        }
        assert(cnf_holds(q, s));
    }
}

/// The initial states, with the wires of the properties.
pub open spec fn init_formula(v: FstsView) -> Set<Seq<Literal>> {
    v.initial.union(v.translation)
}

/// A covered state and the next one, with the wires of the properties in both.
pub open spec fn step_formula(v: FstsView, inv: Set<Seq<Literal>>) -> Set<Seq<Literal>> {
    v.transition.union(inv).union(v.translation).union(bump_cnf(v.translation, v.max_var))
}

/// The unsafe states, with the wires of the properties.
pub open spec fn bad_formula(v: FstsView) -> Set<Seq<Literal>> {
    set![v.unsafety].union(v.translation)
}

/// What checking a candidate invariant finds: whether it covers the initial states, is kept
/// by every step, and holds only in safe states (each checked in turn).
pub open spec fn invariant_verdict(v: FstsView, inv: Set<Seq<Literal>>) -> Result<(), InvariantError> {
    if !entails(init_formula(v), inv) {
        Err(InvariantError::DoesNotCoverInit)
    } else if !entails(step_formula(v, inv), bump_cnf(inv, v.max_var)) {
        Err(InvariantError::NotInductive)
    } else if satisfiable(inv.union(bad_formula(v))) {
        Err(InvariantError::NotSafe)
    } else {
        Ok(())
    }
}

impl FiniteStateTransitionSystem {
    /// The cube of the state that an assignment gives.
    pub fn extract_state_from_assignment(&self, assignment: &Assignment) -> (r: Cube)
        ensures
            sorted_by_code(r@),
            same_literals(r@, state_literals_of(self.view(), *assignment)),
    {
        self.check_wf();
        let ghost v = self.view();
        let mut literals: Vec<Literal> = Vec::new();
        let mut j: usize = 0;
        while j < self.state_literals.len()
            invariant
                j <= v.state_vars.len(),
                v == self.view(),
                v.max_var < max_variable_number(),
                forall|i: int| 0 <= i < v.state_vars.len() ==> 1 <= #[trigger] v.state_vars[i] <= v.max_var,
                literals@ == state_literals_of(v, *assignment).subrange(0, j as int),
            decreases v.state_vars.len() - j,
        {
            let s = self.state_literals[j];
            proof {
                assert(v.state_vars[j as int] == s);
            }
            let is_true = match assignment.get_value(&s) {
                Some(true) => true,
                _ => false,
            };
            let l = Literal::new(s).negate_if_true(!is_true);
            proof {
                l.lemma_code();
                Literal::lemma_make(s as nat, !is_true);
            }
            literals.push(l);
            proof {
                assert(literals@ =~= state_literals_of(v, *assignment).subrange(0, j + 1));
            }
            j = j + 1;
        }
        proof {
            assert(state_literals_of(v, *assignment).subrange(0, j as int) =~= state_literals_of(v, *assignment));
        }
        Cube::new(literals.as_slice())
    }

    /// Checks that the candidate is an inductive invariant that shows the system safe: the
    /// initial states imply it, it implies itself in the next state, and it holds in no unsafe
    /// state. Says which check fails first.
    pub fn check_invariant<T: StatelessSatSolver>(&self, inv_candidate: &CNF) -> (r: Result<(), InvariantError>)
        requires
            self.view().max_var <= u32::MAX,
            cnf_bump_fits(inv_candidate@, self.view().max_var),
            cnf_bump_fits(self.view().translation, self.view().max_var),
        ensures
            r == invariant_verdict(self.view(), inv_candidate@),
    {
        let ghost v = self.view();
        let mut init = self.get_initial_relation();
        init.append(&self.get_state_to_safety_translation());
        if !does_a_imply_b::<T>(&init, inv_candidate) {
            return Err(InvariantError::DoesNotCoverInit);
        }
        let mut a = self.get_transition_relation();
        a.append(inv_candidate);
        a.append(&self.get_state_to_safety_translation());
        a.append(&self.add_tags_to_relation(&self.get_state_to_safety_translation(), 1));
        let b = self.add_tags_to_relation(inv_candidate, 1);
        if !does_a_imply_b::<T>(&a, &b) {
            return Err(InvariantError::NotInductive);
        }
        let mut bad = self.get_unsafety_property();
        bad.append(&self.get_state_to_safety_translation());
        if is_a_and_b_satisfiable::<T>(inv_candidate, &bad) {
            return Err(InvariantError::NotSafe);
        }
        Ok(())
    }

    /// Moves every variable of the relation up by `number_of_tags` copies of the state.
    pub fn add_tags_to_relation(&self, relation: &CNF, number_of_tags: VariableType) -> (r: CNF)
        requires
            self.view().max_var * number_of_tags <= u32::MAX,
            cnf_bump_fits(relation@, (self.view().max_var * number_of_tags) as nat),
        ensures
            r@ == bump_cnf(relation@, (self.view().max_var * number_of_tags) as nat),
    {
        bump_cnf_by(relation, self.max_literal_number * number_of_tags)
    }

    /// Moves every variable of the cube up by `number_of_tags` copies of the state.
    pub fn add_tags_to_cube(&self, cube: &Cube, number_of_tags: VariableType) -> (r: Cube)
        requires
            self.view().max_var * number_of_tags <= u32::MAX,
            bump_fits(cube@, (self.view().max_var * number_of_tags) as nat),
        ensures
            r@ == bump_literals(cube@, (self.view().max_var * number_of_tags) as nat),
    {
        cube.check_wf();
        let k = self.max_literal_number * number_of_tags;
        let mut literals: Vec<Literal> = Vec::new();
        let mut i: usize = 0;
        while i < cube.len()
            invariant
                i <= cube@.len(),
                literals@ == cube@.subrange(0, i as int),
            decreases cube@.len() - i,
        {
            literals.push(cube.get(i));
            i = i + 1;
            assert(literals@ =~= cube@.subrange(0, i as int));
        }
        proof {
            assert(literals@ =~= cube@);
        }
        let bumped = bump_vec(literals.as_slice(), k);
        let r = Cube::new(bumped.as_slice());
        proof {
            lemma_bump_sorted(cube@, k as nat);
            lemma_sorted_same_unique(r@, bumped@);
        }
        r
    }

    /// Whether the cube contains no contradiction with the initial states: no literal of it is
    /// the negation of a unit clause of them.
    pub fn is_cube_initial(&self, cube: &Cube) -> (r: bool)
        ensures
            r == !exists|i: int| 0 <= i < cube@.len() && self.view().initial.contains(seq![not(#[trigger] cube@[i])]),
    {
        let mut i: usize = 0;
        while i < cube.len()
            invariant
                i <= cube@.len(),
                forall|j: int| 0 <= j < i ==> !self.view().initial.contains(seq![not(#[trigger] cube@[j])]),
            decreases cube@.len() - i,
        {
            let l = cube.get(i);
            let unit = [l.negated()];
            let c = Clause::new(&unit);
            proof {
                assert(unit@ == seq![not(l)]);
                assert(sorted_by_code(unit@));
                lemma_sorted_same_unique(c@, unit@);
            }
            if self.initial_states.contains(&c) {
                return false;
            }
            i = i + 1;
        }
        true
    }
}

} // verus!
