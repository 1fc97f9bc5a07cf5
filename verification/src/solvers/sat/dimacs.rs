//! Formulas in the DIMACS numbering that SAT solvers take: a literal is the number of its
//! variable, negative when the literal is negated.

use super::assignment::{assignment_covers, assignment_covers_up_to_max, assignment_makes_true, assignment_satisfies, lists, Assignment};
use crate::formulas::cnf::clause_views;
use crate::formulas::literal::Literal;
use crate::formulas::semantics::{cnf_holds, literal_holds, satisfiable, Valuation};
use crate::formulas::CNF;
use vstd::prelude::*;

verus! {

/// The DIMACS number of a literal.
pub open spec fn dimacs_literal(l: Literal) -> int {
    if l.neg() {
        -(l.var() as int)
    } else {
        l.var() as int
    }
}

/// The DIMACS numbers of a clause.
pub open spec fn dimacs_clause(c: Seq<Literal>) -> Seq<int> {
    c.map_values(|l: Literal| dimacs_literal(l))
}

/// The DIMACS clauses of a list of clauses.
pub open spec fn dimacs_of_list(s: Seq<Seq<Literal>>) -> Seq<Seq<int>> {
    s.map_values(|c: Seq<Literal>| dimacs_clause(c))
}

/// A list of `i32`, as integers.
pub open spec fn int_views(v: Seq<i32>) -> Seq<int> {
    v.map_values(|x: i32| x as int)
}

/// A list of `i32` lists, as integer lists.
pub open spec fn int_clauses(v: Seq<Vec<i32>>) -> Seq<Seq<int>> {
    v.map_values(|c: Vec<i32>| int_views(c@))
}

/// Whether a DIMACS literal holds under a valuation.
pub open spec fn dimacs_literal_holds(x: int, a: Valuation) -> bool {
    if x > 0 {
        a(x as nat)
    } else {
        !a((-x) as nat)
    }
}

/// Whether a DIMACS clause has a literal that holds.
pub open spec fn dimacs_clause_holds(c: Seq<int>, a: Valuation) -> bool {
    exists|j: int| 0 <= j < c.len() && dimacs_literal_holds(#[trigger] c[j], a)
}

/// Whether every DIMACS clause has a literal that holds.
pub open spec fn dimacs_holds(f: Seq<Seq<int>>, a: Valuation) -> bool {
    forall|i: int| 0 <= i < f.len() ==> dimacs_clause_holds(#[trigger] f[i], a)
}

/// Whether some valuation makes every DIMACS clause hold.
pub open spec fn dimacs_satisfiable(f: Seq<Seq<int>>) -> bool {
    exists|a: Valuation| dimacs_holds(f, a)
}

/// Whether every literal is a DIMACS literal: not 0, and with a negation that fits in an `i32`.
pub open spec fn proper_literals(f: Seq<Seq<int>>) -> bool {
    forall|i: int, j: int|
        0 <= i < f.len() && 0 <= j < f[i].len() ==> #[trigger] f[i][j] != 0 && i32::MIN < f[i][j]
            <= i32::MAX
}

/// Whether a list of DIMACS literals is a consistent model of the clauses: no 0, no variable
/// both true and false, and a true literal in every clause.
pub open spec fn model_satisfies(m: Seq<i32>, f: Seq<Seq<int>>) -> bool {
    &&& forall|i: int| 0 <= i < m.len() ==> #[trigger] m[i] != 0 && m[i] != i32::MIN
    &&& forall|i: int, j: int| 0 <= i < m.len() && 0 <= j < m.len() ==> #[trigger] m[i] != -#[trigger] m[j]
    &&& forall|i: int| 0 <= i < f.len() ==> clause_listed(m, #[trigger] f[i])
}

/// Whether a model lists every variable of the clauses, positively or negatively.
pub open spec fn model_covers(m: Seq<i32>, f: Seq<Seq<int>>) -> bool {
    forall|i: int, j: int|
        0 <= i < f.len() && 0 <= j < f[i].len() ==> lists(m, #[trigger] f[i][j]) || lists(m, -f[i][j])
}

/// Whether a model lists every variable from 1 up to each variable of the clauses, positively
/// or negatively.
pub open spec fn model_lists_up_to(m: Seq<i32>, f: Seq<Seq<int>>) -> bool {
    forall|i: int, j: int, x: int|
        #![trigger f[i][j], lists(m, x)]
        0 <= i < f.len() && 0 <= j < f[i].len() && 1 <= x <= (if f[i][j] > 0 { f[i][j] } else { -f[i][j] })
            ==> lists(m, x) || lists(m, -x)
}

/// Whether a model lists one of the literals of a clause.
pub open spec fn clause_listed(m: Seq<i32>, c: Seq<int>) -> bool {
    exists|j: int| 0 <= j < c.len() && lists(m, #[trigger] c[j])
}

proof fn lemma_int_views_push(s: Seq<i32>, x: i32)
    ensures
        int_views(s.push(x)) =~= int_views(s).push(x as int),
{
    assert forall|i: int| 0 <= i < s.len() + 1 implies #[trigger] int_views(s.push(x))[i]
        == int_views(s).push(x as int)[i] by {
        if i < s.len() {
            assert(s.push(x)[i] == s[i]);
        }
    }
}

proof fn lemma_int_clauses_push(s: Seq<Vec<i32>>, x: Vec<i32>)
    ensures
        int_clauses(s.push(x)) =~= int_clauses(s).push(int_views(x@)),
{
    assert forall|i: int| 0 <= i < s.len() + 1 implies #[trigger] int_clauses(s.push(x))[i]
        == int_clauses(s).push(int_views(x@))[i] by {
        if i < s.len() {
            assert(s.push(x)[i] == s[i]);
        }
    }
}

/// The DIMACS clauses of a CNF, in the order of its clause list.
pub fn cnf_to_dimacs(cnf: &CNF) -> (r: Vec<Vec<i32>>)
    ensures
        int_clauses(r@) == dimacs_of_list(clause_views(cnf.clause_list())),
        proper_literals(int_clauses(r@)),
{
    cnf.check_wf();
    let ghost target = dimacs_of_list(clause_views(cnf.clause_list()));
    let mut result: Vec<Vec<i32>> = Vec::new();
    let mut k: usize = 0;
    while k < cnf.list_len()
        invariant
            k <= cnf.clause_list().len(),
            target == dimacs_of_list(clause_views(cnf.clause_list())),
            int_clauses(result@) == target.subrange(0, k as int),
        decreases cnf.clause_list().len() - k,
    {
        let clause = cnf.get(k);
        let mut lits: Vec<i32> = Vec::new();
        let mut i: usize = 0;
        while i < clause.len()
            invariant
                i <= clause.view().len(),
                int_views(lits@) == dimacs_clause(clause.view()).subrange(0, i as int),
            decreases clause.view().len() - i,
        {
            let l = clause.get(i);
            let n = l.get_number() as i32;
            let x = if l.is_negated() {
                -n
            } else {
                n
            };
            let ghost pre = lits@;
            lits.push(x);
            proof {
                lemma_int_views_push(pre, x);
                assert(int_views(lits@) =~= dimacs_clause(clause.view()).subrange(0, i + 1));
            }
            i = i + 1;
        }
        let ghost pre = result@;
        proof {
            assert(int_views(lits@) =~= dimacs_clause(clause.view()));
        }
        result.push(lits);
        proof {
            lemma_int_clauses_push(pre, result@[k as int]);
            assert(int_clauses(result@) =~= target.subrange(0, k + 1));
        }
        k = k + 1;
    }
    proof {
        assert(target.subrange(0, k as int) =~= target);
        assert forall|i: int, j: int| 0 <= i < target.len() && 0 <= j < target[i].len() implies #[trigger] target[i][j] != 0
            && i32::MIN < target[i][j] <= i32::MAX by {
            let c = clause_views(cnf.clause_list())[i];
            assert(cnf.view().contains(c));
            assert(c[j].is_valid());
        }
    }
    result
}

/// A valuation that makes a CNF hold makes its DIMACS clauses hold.
proof fn lemma_holds_dimacs(s: Seq<Seq<Literal>>, a: Valuation)
    requires
        cnf_holds(s.to_set(), a),
        forall|i: int, j: int| 0 <= i < s.len() && 0 <= j < s[i].len() ==> (#[trigger] s[i][j]).is_valid(),
    ensures
        dimacs_holds(dimacs_of_list(s), a),
{
    let f = dimacs_of_list(s);
    assert forall|i: int| 0 <= i < f.len() implies dimacs_clause_holds(#[trigger] f[i], a) by {
        assert(s.to_set().contains(s[i]));
        let j = choose|j: int| 0 <= j < s[i].len() && literal_holds(#[trigger] s[i][j], a);
        assert(s[i][j].is_valid());
        assert(f[i][j] == dimacs_literal(s[i][j]));
        assert(dimacs_literal_holds(f[i][j], a));
    }
}

/// When the DIMACS clauses of a list of clauses are unsatisfiable, so is the list.
pub proof fn lemma_dimacs_unsat(s: Seq<Seq<Literal>>)
    requires
        !dimacs_satisfiable(dimacs_of_list(s)),
        forall|i: int, j: int| 0 <= i < s.len() && 0 <= j < s[i].len() ==> (#[trigger] s[i][j]).is_valid(),
    ensures
        !satisfiable(s.to_set()),
{
    if satisfiable(s.to_set()) {
        let a = choose|a: Valuation| cnf_holds(s.to_set(), a);
        lemma_holds_dimacs(s, a);
    }
}

/// An assignment read from a model of the DIMACS clauses of a list of clauses satisfies the
/// list.
pub proof fn lemma_model_assignment(m: Seq<i32>, s: Seq<Seq<Literal>>, a: Assignment)
    requires
        model_satisfies(m, dimacs_of_list(s)),
        forall|i: int, j: int| 0 <= i < s.len() && 0 <= j < s[i].len() ==> (#[trigger] s[i][j]).is_valid(),
        forall|x: u32| #[trigger] a.trues().contains(x) <==> lists(m, x as int),
        forall|x: u32| #[trigger] a.falses().contains(x) <==> lists(m, -(x as int)),
    ensures
        assignment_satisfies(a, s.to_set()),
{
    let f = dimacs_of_list(s);
    assert forall|c: Seq<Literal>| #[trigger] s.to_set().contains(c) implies exists|i: int|
        0 <= i < c.len() && assignment_makes_true(a, #[trigger] c[i]) by {
        let k = choose|k: int| 0 <= k < s.len() && s[k] == c;
        assert(clause_listed(m, f[k]));
        let j = choose|j: int| 0 <= j < f[k].len() && lists(m, #[trigger] f[k][j]);
        let l = c[j];
        assert(l.is_valid());
        assert(f[k][j] == dimacs_literal(l));
        let x = l.var() as u32;
        if l.neg() {
            assert(a.falses().contains(x));
            if a.trues().contains(x) {
                let p = choose|p: int| 0 <= p < m.len() && m[p] == x as int;
                let q = choose|q: int| 0 <= q < m.len() && m[q] == -(x as int);
                assert(m[p] == -m[q]);
            }
        } else {
            assert(a.trues().contains(x));
        }
        assert(assignment_makes_true(a, c[j]));
    }
}

/// An assignment read from a model that lists every variable of the DIMACS clauses of a list
/// of clauses gives a value to every variable of the list.
pub proof fn lemma_model_covers(m: Seq<i32>, s: Seq<Seq<Literal>>, a: Assignment)
    requires
        model_covers(m, dimacs_of_list(s)),
        forall|i: int, j: int| 0 <= i < s.len() && 0 <= j < s[i].len() ==> (#[trigger] s[i][j]).is_valid(),
        forall|x: u32| #[trigger] a.trues().contains(x) <==> lists(m, x as int),
        forall|x: u32| #[trigger] a.falses().contains(x) <==> lists(m, -(x as int)),
    ensures
        assignment_covers(a, s.to_set()),
{
    let f = dimacs_of_list(s);
    assert forall|c: Seq<Literal>, i: int| #[trigger] s.to_set().contains(c) && 0 <= i < c.len()
        implies a.value((#[trigger] c[i]).var() as u32) is Some by {
        let k = choose|k: int| 0 <= k < s.len() && s[k] == c;
        let l = c[i];
        assert(l.is_valid());
        assert(f[k][i] == dimacs_literal(l));
        let x = l.var() as u32;
        if lists(m, f[k][i]) {
            if l.neg() {
                assert(a.falses().contains(x));
            } else {
                assert(a.trues().contains(x));
            }
        } else {
            assert(lists(m, -f[k][i]));
            if l.neg() {
                assert(a.trues().contains(x));
            } else {
                assert(a.falses().contains(x));
            }
        }
    }
}

/// An assignment read from a model that lists every variable up to each variable of the
/// DIMACS clauses of a list of clauses gives a value to every variable up to each variable of
/// the list.
pub proof fn lemma_model_covers_up_to(m: Seq<i32>, s: Seq<Seq<Literal>>, a: Assignment)
    requires
        model_lists_up_to(m, dimacs_of_list(s)),
        forall|i: int, j: int| 0 <= i < s.len() && 0 <= j < s[i].len() ==> (#[trigger] s[i][j]).is_valid(),
        forall|x: u32| #[trigger] a.trues().contains(x) <==> lists(m, x as int),
        forall|x: u32| #[trigger] a.falses().contains(x) <==> lists(m, -(x as int)),
    ensures
        assignment_covers_up_to_max(a, s.to_set()),
{
    let f = dimacs_of_list(s);
    assert forall|c: Seq<Literal>, i: int, x: u32|
        #![trigger s.to_set().contains(c), c[i], a.value(x)]
        s.to_set().contains(c) && 0 <= i < c.len() && 1 <= x <= c[i].var() implies a.value(x) is Some by {
        let k = choose|k: int| 0 <= k < s.len() && s[k] == c;
        assert(c[i].is_valid());
        assert(f[k][i] == dimacs_literal(c[i]));
        let xi = x as int;
        assert(lists(m, xi) || lists(m, -xi));
        if lists(m, xi) {
            assert(a.trues().contains(x));
        } else {
            assert(a.falses().contains(x));
        }
    }
}

} // verus!
