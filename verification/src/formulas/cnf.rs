use vstd::prelude::*;
use vstd::std_specs::iter::IteratorSpec;

use vstd::std_specs::cmp::PartialEqSpecImpl;
use vstd::string::StringExecFns;

use super::clause::{clause_text, Clause};
use super::literal::Literal;
use super::semantics::{all_valid, lemma_sorted_same_unique, max_var, same_literals, sorted_by_code};
use crate::text::{append_decimal, decimal};

verus! {

/// `m` is the largest variable number in the clauses of `f` (0 when there is none).
pub open spec fn is_max_var_of(f: Set<Seq<Literal>>, m: nat) -> bool {
    &&& forall|c: Seq<Literal>| #[trigger] f.contains(c) ==> max_var(c) <= m
    &&& m == 0 || exists|c: Seq<Literal>| #[trigger] f.contains(c) && max_var(c) == m
}

/// Lexicographic order of literal sequences of the same length, by the literals' order keys.
pub open spec fn lex_lt(a: Seq<Literal>, b: Seq<Literal>) -> bool
    decreases a.len(),
{
    if a.len() == 0 || b.len() == 0 {
        false
    } else if a[0].code() < b[0].code() {
        true
    } else if a[0].code() == b[0].code() {
        lex_lt(a.drop_first(), b.drop_first())
    } else {
        false
    }
}

/// The order of clauses in printed CNFs: shorter clauses first, clauses of equal length in
/// lexicographic order.
pub open spec fn clause_lt(a: Seq<Literal>, b: Seq<Literal>) -> bool {
    a.len() < b.len() || (a.len() == b.len() && lex_lt(a, b))
}

/// Clauses in strictly increasing print order.
pub open spec fn strictly_sorted(s: Seq<Seq<Literal>>) -> bool {
    forall|i: int, j: int| 0 <= i < j < s.len() ==> clause_lt(#[trigger] s[i], #[trigger] s[j])
}

/// The clauses of a finite set in print order.
pub open spec fn print_order(f: Set<Seq<Literal>>) -> Seq<Seq<Literal>> {
    choose|s: Seq<Seq<Literal>>| s.to_set() == f && strictly_sorted(s)
}

/// The DIMACS lines of clauses, separated by line breaks.
pub open spec fn clause_lines(s: Seq<Seq<Literal>>) -> Seq<char>
    decreases s.len(),
{
    if s.len() == 0 {
        seq![]
    } else if s.len() == 1 {
        clause_text(s[0])
    } else {
        clause_lines(s.drop_last()) + seq!['\n'] + clause_text(s.last())
    }
}

/// The DIMACS text of a CNF: the header `p cnf <largest variable> <number of clauses>`, a
/// line break, and the clause lines in print order.
pub open spec fn cnf_text(max: nat, f: Set<Seq<Literal>>) -> Seq<char> {
    seq!['p', ' ', 'c', 'n', 'f', ' '] + decimal(max) + seq![' '] + decimal(f.len()) + seq!['\n']
        + clause_lines(print_order(f))
}

proof fn lemma_lex_irreflexive(a: Seq<Literal>)
    ensures
        !lex_lt(a, a),
    decreases a.len(),
{
    if a.len() > 0 {
        lemma_lex_irreflexive(a.drop_first());
    }
}

proof fn lemma_lex_transitive(a: Seq<Literal>, b: Seq<Literal>, c: Seq<Literal>)
    requires
        a.len() == b.len() == c.len(),
        lex_lt(a, b),
        lex_lt(b, c),
    ensures
        lex_lt(a, c),
    decreases a.len(),
{
    if a.len() > 0 && a[0].code() == b[0].code() && b[0].code() == c[0].code() {
        lemma_lex_transitive(a.drop_first(), b.drop_first(), c.drop_first());
    }
}

proof fn lemma_lex_total(a: Seq<Literal>, b: Seq<Literal>)
    requires
        a.len() == b.len(),
        a != b,
    ensures
        lex_lt(a, b) || lex_lt(b, a),
    decreases a.len(),
{
    if a.len() == 0 {
        assert(a =~= b);
    } else if a[0].code() == b[0].code() {
        Literal::lemma_code_injective(a[0], b[0]);
        if a.drop_first() == b.drop_first() {
            assert(a =~= b) by {
                assert forall|i: int| 0 <= i < a.len() implies a[i] == b[i] by {
                    if i > 0 {
                        assert(a[i] == a.drop_first()[i - 1]);
                        assert(b[i] == b.drop_first()[i - 1]);
                    }
                }
            }
        }
        lemma_lex_total(a.drop_first(), b.drop_first());
    }
}

/// The print order is a strict total order.
pub proof fn lemma_clause_order(a: Seq<Literal>, b: Seq<Literal>, c: Seq<Literal>)
    ensures
        !clause_lt(a, a),
        clause_lt(a, b) ==> !clause_lt(b, a),
        clause_lt(a, b) && clause_lt(b, c) ==> clause_lt(a, c),
        a != b ==> clause_lt(a, b) || clause_lt(b, a),
{
    lemma_lex_irreflexive(a);
    if clause_lt(a, b) && clause_lt(b, a) {
        lemma_lex_transitive(a, b, a);
        lemma_lex_irreflexive(a);
    }
    if clause_lt(a, b) && clause_lt(b, c) && a.len() == b.len() && b.len() == c.len() {
        lemma_lex_transitive(a, b, c);
    }
    if a != b && a.len() == b.len() {
        lemma_lex_total(a, b);
    }
}

/// Two strictly sorted sequences with the same elements are equal.
proof fn lemma_sorted_unique(s1: Seq<Seq<Literal>>, s2: Seq<Seq<Literal>>)
    requires
        strictly_sorted(s1),
        strictly_sorted(s2),
        s1.to_set() == s2.to_set(),
    ensures
        s1 == s2,
    decreases s1.len(),
{
    if s1.len() == 0 {
        if s2.len() > 0 {
            assert(s2.to_set().contains(s2[0]));
        }
        assert(s1 =~= s2);
    } else {
        assert(s1.to_set().contains(s1[0]));
        assert(s2.len() > 0);
        assert(s2.to_set().contains(s2[0]));
        let i = choose|i: int| 0 <= i < s2.len() && s2[i] == s1[0];
        let j = choose|j: int| 0 <= j < s1.len() && s1[j] == s2[0];
        if i > 0 {
            lemma_clause_order(s2[0], s2[i], s2[0]);
            if j > 0 {
                lemma_clause_order(s1[0], s1[j], s1[0]);
                lemma_clause_order(s2[0], s1[0], s2[0]);
            } else {
                lemma_clause_order(s2[0], s2[0], s2[0]);
            }
        }
        assert(s1[0] == s2[0]) by {
            if i > 0 {
                assert(clause_lt(s2[0], s2[i]));
                if j > 0 {
                    assert(clause_lt(s1[0], s1[j]));
                    lemma_clause_order(s1[0], s2[0], s1[0]);
                } else {
                    lemma_clause_order(s2[0], s2[0], s2[0]);
                }
            }
        }
        let t1 = s1.drop_first();
        let t2 = s2.drop_first();
        assert forall|x: Seq<Literal>| t1.to_set().contains(x) <==> t2.to_set().contains(x) by {
            if t1.to_set().contains(x) {
                let k = choose|k: int| 0 <= k < t1.len() && t1[k] == x;
                assert(s1[k + 1] == x);
                assert(clause_lt(s1[0], x));
                lemma_clause_order(s1[0], x, s1[0]);
                assert(s2.to_set().contains(x));
                let m = choose|m: int| 0 <= m < s2.len() && s2[m] == x;
                assert(m != 0);
                assert(t2[m - 1] == x);
            }
            if t2.to_set().contains(x) {
                let k = choose|k: int| 0 <= k < t2.len() && t2[k] == x;
                assert(s2[k + 1] == x);
                assert(clause_lt(s2[0], x));
                lemma_clause_order(s2[0], x, s2[0]);
                assert(s1.to_set().contains(x));
                let m = choose|m: int| 0 <= m < s1.len() && s1[m] == x;
                assert(m != 0);
                assert(t1[m - 1] == x);
            }
        }
        assert(t1.to_set() =~= t2.to_set());
        lemma_sorted_unique(t1, t2);
        assert(s1 =~= s2) by {
            assert forall|k: int| 0 <= k < s1.len() implies s1[k] == s2[k] by {
                if k > 0 {
                    assert(s1[k] == t1[k - 1]);
                    assert(s2[k] == t2[k - 1]);
                }
            }
        }
    }
}

/// Whether `a` comes before `b` in the print order.
pub fn clause_less(a: &Clause, b: &Clause) -> (r: bool)
    ensures
        r == clause_lt(a.view(), b.view()),
{
    if a.len() != b.len() {
        return a.len() < b.len();
    }
    let n = a.len();
    let mut i: usize = 0;
    assert(a.view().skip(0) =~= a.view());
    assert(b.view().skip(0) =~= b.view());
    while i < n
        invariant
            n == a.view().len() == b.view().len(),
            i <= n,
            lex_lt(a.view(), b.view()) == lex_lt(a.view().skip(i as int), b.view().skip(i as int)),
        decreases n - i,
    {
        let x = a.get(i).get_code();
        let y = b.get(i).get_code();
        let ghost sa = a.view().skip(i as int);
        let ghost sb = b.view().skip(i as int);
        assert(sa[0] == a.view()[i as int]);
        assert(sb[0] == b.view()[i as int]);
        if x < y {
            return true;
        }
        if x > y {
            return false;
        }
        assert(sa.drop_first() =~= a.view().skip(i + 1));
        assert(sb.drop_first() =~= b.view().skip(i + 1));
        i = i + 1;
    }
    false
}

/// The views of a sequence of clauses.
pub open spec fn clause_views(s: Seq<Clause>) -> Seq<Seq<Literal>> {
    s.map_values(|c: Clause| c.view())
}

/// A conjunction of clauses, each clause present once.
pub struct CNF {
    clauses: Vec<Clause>,
}

impl CNF {
    /// The clauses in the order in which they were first added.
    pub closed spec fn clause_list(&self) -> Seq<Clause> {
        self.clauses@
    }

    /// The set of clauses.
    pub open spec fn view(&self) -> Set<Seq<Literal>> {
        clause_views(self.clause_list()).to_set()
    }

    /// Every clause is present once.
    #[verifier::type_invariant]
    pub closed spec fn wf(self) -> bool {
        &&& clause_views(self.clauses@).no_duplicates()
        &&& forall|i: int|
            0 <= i < self.clauses@.len() ==> sorted_by_code(#[trigger] self.clauses@[i].view())
                && all_valid(self.clauses@[i].view())
    }

    /// What every CNF keeps: no clause is listed twice, and each clause is sorted and names
    /// variables with positive numbers.
    pub fn check_wf(&self)
        ensures
            clause_views(self.clause_list()).no_duplicates(),
            self.view().len() == self.clause_list().len(),
            self.view().finite(),
            forall|c: Seq<Literal>| #[trigger] self.view().contains(c) ==> sorted_by_code(c) && all_valid(c),
            forall|c: Seq<Literal>| #[trigger] self.view().contains(c) <==> exists|i: int|
                0 <= i < self.clause_list().len() && (#[trigger] self.clause_list()[i]).view() == c,
    {
        proof {
            use_type_invariant(self);
            let v = clause_views(self.clauses@);
            v.unique_seq_to_set();
            assert forall|c: Seq<Literal>| #[trigger] self.view().contains(c) implies sorted_by_code(c) && all_valid(c) by {
                let i = choose|i: int| 0 <= i < v.len() && v[i] == c;
                assert(self.clauses@[i].view() == c);
            }
            assert forall|c: Seq<Literal>| #[trigger] self.view().contains(c) <==> exists|i: int|
                0 <= i < self.clause_list().len() && (#[trigger] self.clause_list()[i]).view() == c by {
                if self.view().contains(c) {
                    let i = choose|i: int| 0 <= i < v.len() && v[i] == c;
                    assert(self.clause_list()[i].view() == c);
                }
                if exists|i: int| 0 <= i < self.clause_list().len() && (#[trigger] self.clause_list()[i]).view() == c {
                    let i = choose|i: int| 0 <= i < self.clause_list().len() && (#[trigger] self.clause_list()[i]).view() == c;
                    assert(v[i] == c);
                }
            }
        }
    }

    /// The empty CNF, which always holds.
    pub fn new() -> (r: Self)
        ensures
            r.view() == Set::<Seq<Literal>>::empty(),
    {
        let r = Self { clauses: Vec::new() };
        assert(clause_views(r.clauses@) =~= Seq::<Seq<Literal>>::empty());
        assert(r.view() =~= Set::<Seq<Literal>>::empty());
        r
    }

    /// Whether the clause is in the CNF.
    pub fn contains(&self, clause: &Clause) -> (r: bool)
        ensures
            r == self.view().contains(clause.view()),
    {
        self.check_wf();
        let mut i: usize = 0;
        while i < self.clauses.len()
            invariant
                i <= self.clauses@.len(),
                forall|j: int| 0 <= j < i ==> (#[trigger] self.clauses@[j]).view() != clause.view(),
            decreases self.clauses.len() - i,
        {
            if self.clauses[i].same_as(clause) {
                assert(clause_views(self.clauses@)[i as int] == clause.view());
                return true;
            }
            i = i + 1;
        }
        proof {
            if self.view().contains(clause.view()) {
                let j = choose|j: int| 0 <= j < self.clause_list().len() && (#[trigger] self.clause_list()[j]).view() == clause.view();
            }
        }
        false
    }

    /// Adds a clause to the CNF; a clause that is already there is not added again.
    pub fn add_clause(&mut self, new_clause: &Clause)
        ensures
            final(self).view() == old(self).view().insert(new_clause.view()),
    {
        proof {
            use_type_invariant(&*self);
        }
        if !self.contains(new_clause) {
            let c = new_clause.duplicate();
            c.check_wf();
            let ghost old_list = self.clauses@;
            let mut list: Vec<Clause> = Vec::new();
            std::mem::swap(&mut list, &mut self.clauses);
            assert(list@ == old_list);
            list.push(c);
            proof {
                let v = clause_views(list@);
                assert(v =~= clause_views(old_list).push(c.view()));
                assert(!clause_views(old_list).contains(c.view())) by {
                    if clause_views(old_list).contains(c.view()) {
                        let j = choose|j: int| 0 <= j < clause_views(old_list).len() && clause_views(old_list)[j] == c.view();
                        assert(clause_views(old_list).to_set().contains(c.view()));
                    }
                }
                clause_views(old_list).lemma_push_to_set_commute(c.view());
                assert(v.to_set() =~= clause_views(old_list).to_set().insert(c.view()));
                assert forall|i: int| 0 <= i < list@.len() implies sorted_by_code(#[trigger] list@[i].view())
                    && all_valid(list@[i].view()) by {
                    if i < old_list.len() {
                        assert(list@[i] == old_list[i]);
                    }
                }
            }
            self.clauses = list;
        }
        proof {
            assert(final(self).view() =~= old(self).view().insert(new_clause.view()));
        }
    }

    /// The number of clauses.
    pub fn len(&self) -> (r: usize)
        ensures
            r == self.view().len(),
    {
        self.check_wf();
        self.clauses.len()
    }

    /// Whether the CNF has no clauses (the empty CNF always holds).
    pub fn is_empty(&self) -> (r: bool)
        ensures
            r == (self.view().len() == 0),
    {
        self.check_wf();
        self.clauses.len() == 0
    }

    /// An iterator over the clauses, in the order in which they were first added: it yields each
    /// clause of the CNF exactly once, and nothing else.
    pub fn iter(&self) -> (r: std::slice::Iter<'_, Clause>)
        ensures
            r.remaining() == self.clause_list().as_ref(),
            clause_views(self.clause_list()).no_duplicates(),
            self.clause_list().len() == self.view().len(),
            forall|c: Seq<Literal>| #[trigger] self.view().contains(c) <==> exists|i: int|
                0 <= i < self.clause_list().len() && (#[trigger] self.clause_list()[i]).view() == c,
    {
        self.check_wf();
        self.clauses.iter()
    }

    /// The number of clauses in `clause_list` (the same as `len`).
    pub fn list_len(&self) -> (r: usize)
        ensures
            r == self.clause_list().len(),
    {
        self.clauses.len()
    }

    /// The clause at position `i` of `clause_list`.
    pub fn get(&self, i: usize) -> (r: &Clause)
        requires
            i < self.clause_list().len(),
        ensures
            *r == self.clause_list()[i as int],
    {
        &self.clauses[i]
    }

    /// Adds every clause of `cnf` to `self`.
    pub fn append(&mut self, cnf: &CNF)
        ensures
            final(self).view() == old(self).view().union(cnf.view()),
    {
        cnf.check_wf();
        let mut i: usize = 0;
        while i < cnf.clauses.len()
            invariant
                i <= cnf.clause_list().len(),
                self.view() == old(self).view().union(
                    clause_views(cnf.clause_list().take(i as int)).to_set(),
                ),
            decreases cnf.clauses.len() - i,
        {
            self.add_clause(&cnf.clauses[i]);
            proof {
                let t = cnf.clause_list().take(i + 1);
                assert(clause_views(t) =~= clause_views(cnf.clause_list().take(i as int)).push(
                    cnf.clause_list()[i as int].view(),
                ));
                clause_views(cnf.clause_list().take(i as int)).lemma_push_to_set_commute(
                    cnf.clause_list()[i as int].view(),
                );
                assert(clause_views(t).to_set() =~= clause_views(cnf.clause_list().take(i as int)).to_set().insert(
                    cnf.clause_list()[i as int].view(),
                ));
                assert(self.view() =~= old(self).view().union(clause_views(t).to_set()));
            }
            i = i + 1;
        }
        assert(cnf.clause_list().take(cnf.clause_list().len() as int) =~= cnf.clause_list());
    }

    /// The largest variable number in the CNF's clauses, 0 for none.
    pub fn get_max_variable_number(&self) -> (r: u32)
        ensures
            is_max_var_of(self.view(), r as nat),
    {
        self.check_wf();
        let mut m: u32 = 0;
        let mut i: usize = 0;
        while i < self.clauses.len()
            invariant
                i <= self.clause_list().len(),
                forall|j: int| 0 <= j < i ==> max_var((#[trigger] self.clause_list()[j]).view()) <= m,
                m == 0 || exists|j: int| 0 <= j < i && max_var((#[trigger] self.clause_list()[j]).view()) == m,
            decreases self.clauses.len() - i,
        {
            let h = self.clauses[i].get_highest_variable_number();
            if h > m {
                m = h;
            }
            i = i + 1;
        }
        proof {
            assert forall|c: Seq<Literal>| #[trigger] self.view().contains(c) implies max_var(c) <= m by {
                let j = choose|j: int| 0 <= j < self.clause_list().len() && (#[trigger] self.clause_list()[j]).view() == c;
            }
            if m != 0 {
                let j = choose|j: int| 0 <= j < i && max_var((#[trigger] self.clause_list()[j]).view()) == m;
                assert(self.view().contains(self.clause_list()[j].view()));
            }
        }
        m
    }

    /// The positions of the clauses in `clause_list`, in print order.
    fn print_positions(&self) -> (r: Vec<usize>)
        ensures
            ({
                let s = r@.map_values(|k: usize| self.clause_list()[k as int].view());
                &&& s.to_set() == self.view()
                &&& strictly_sorted(s)
                &&& forall|k: int| 0 <= k < r@.len() ==> (#[trigger] r@[k]) < self.clause_list().len()
            }),
    {
        self.check_wf();
        let ghost list = self.clause_list();
        let mut order: Vec<usize> = Vec::new();
        let mut i: usize = 0;
        while i < self.clauses.len()
            invariant
                list == self.clause_list(),
                i <= list.len(),
                clause_views(list).no_duplicates(),
                forall|k: int| 0 <= k < order@.len() ==> (#[trigger] order@[k]) < i,
                strictly_sorted(order@.map_values(|k: usize| list[k as int].view())),
                order@.map_values(|k: usize| list[k as int].view()).to_set() == clause_views(
                    list.take(i as int),
                ).to_set(),
            decreases self.clauses.len() - i,
        {
            let ghost old_order = order@;
            let ghost old_s = old_order.map_values(|k: usize| list[k as int].view());
            let x = &self.clauses[i];
            let mut p: usize = 0;
            while p < order.len() && clause_less(&self.clauses[order[p]], x)
                invariant
                    p <= order@.len(),
                    order@ == old_order,
                    forall|k: int| 0 <= k < order@.len() ==> (#[trigger] order@[k]) < i,
                    i < list.len(),
                    list == self.clause_list(),
                    *x == list[i as int],
                    old_s == old_order.map_values(|k: usize| list[k as int].view()),
                    forall|k: int| 0 <= k < p ==> clause_lt(#[trigger] old_s[k], x.view()),
                decreases order.len() - p,
            {
                assert(old_s[p as int] == list[old_order[p as int] as int].view());
                p = p + 1;
            }
            order.insert(p, i);
            proof {
                let s = order@.map_values(|k: usize| list[k as int].view());
                let xv = list[i as int].view();
                assert(s =~= old_s.insert(p as int, xv));
                // x differs from every clause already placed
                assert forall|k: int| 0 <= k < old_s.len() implies old_s[k] != xv by {
                    let j = old_order[k];
                    assert(clause_views(list)[j as int] == old_s[k]);
                    assert(clause_views(list)[i as int] == xv);
                }
                if p < old_s.len() {
                    lemma_clause_order(old_s[p as int], xv, old_s[p as int]);
                }
                assert forall|a: int, b: int| 0 <= a < b < s.len() implies clause_lt(#[trigger] s[a], #[trigger] s[b]) by {
                    if a < p && b < p {
                        assert(s[a] == old_s[a] && s[b] == old_s[b]);
                    } else if a < p && b == p {
                        assert(s[a] == old_s[a]);
                    } else if a < p {
                        assert(s[a] == old_s[a] && s[b] == old_s[b - 1]);
                    } else if a == p {
                        assert(s[b] == old_s[b - 1]);
                        if b - 1 > p {
                            lemma_clause_order(xv, old_s[p as int], old_s[b - 1]);
                        }
                    } else {
                        assert(s[a] == old_s[a - 1] && s[b] == old_s[b - 1]);
                    }
                }
                assert forall|k: int| 0 <= k < order@.len() implies (#[trigger] order@[k]) < i + 1 by {
                    if k < p {
                        assert(order@[k] == old_order[k]);
                    } else if k > p {
                        assert(order@[k] == old_order[k - 1]);
                    }
                }
                assert(clause_views(list.take(i + 1)) =~= clause_views(list.take(i as int)).push(xv));
                clause_views(list.take(i as int)).lemma_push_to_set_commute(xv);
                assert(old_s.insert(p as int, xv).to_set() =~= old_s.to_set().insert(xv)) by {
                    assert forall|y: Seq<Literal>| old_s.insert(p as int, xv).to_set().contains(y) <==> old_s.to_set().insert(xv).contains(y) by {
                        let t = old_s.insert(p as int, xv);
                        if t.to_set().contains(y) {
                            let k = choose|k: int| 0 <= k < t.len() && t[k] == y;
                            if k < p {
                                assert(old_s[k] == y);
                            } else if k > p {
                                assert(old_s[k - 1] == y);
                            }
                        }
                        if old_s.to_set().contains(y) && y != xv {
                            let k = choose|k: int| 0 <= k < old_s.len() && old_s[k] == y;
                            if k < p {
                                assert(t[k] == y);
                            } else {
                                assert(t[k + 1] == y);
                            }
                        }
                        if y == xv {
                            assert(t[p as int] == y);
                        }
                    }
                }
            }
            i = i + 1;
        }
        assert(list.take(list.len() as int) =~= list);
        order
    }

    /// The CNF in DIMACS notation: `p cnf <largest variable> <number of clauses>`, then one
    /// line per clause, shorter clauses first and clauses of equal length in lexicographic
    /// order of their literals.
    pub fn to_string(&self) -> (r: String)
        ensures
            exists|m: nat| is_max_var_of(self.view(), m) && r@ == cnf_text(m, self.view()),
    {
        self.check_wf();
        let m = self.get_max_variable_number();
        let order = self.print_positions();
        let ghost list = self.clause_list();
        let ghost s = order@.map_values(|k: usize| list[k as int].view());
        let mut out = String::new();
        proof {
            reveal_strlit("p cnf ");
            reveal_strlit(" ");
            reveal_strlit("\n");
        }
        out.append("p cnf ");
        append_decimal(&mut out, m as u64);
        out.append(" ");
        append_decimal(&mut out, self.clauses.len() as u64);
        out.append("\n");
        let ghost header = out@;
        let mut i: usize = 0;
        while i < order.len()
            invariant
                i <= order@.len(),
                list == self.clause_list(),
                s == order@.map_values(|k: usize| list[k as int].view()),
                forall|k: int| 0 <= k < order@.len() ==> (#[trigger] order@[k]) < list.len(),
                out@ == header + clause_lines(s.take(i as int)),
            decreases order.len() - i,
        {
            let ghost before = out@;
            if i > 0 {
                proof {
                    reveal_strlit("\n");
                }
                out.append("\n");
            }
            let line = self.clauses[order[i]].to_string();
            out.append(line.as_str());
            proof {
                let t = s.take(i + 1);
                assert(t.drop_last() =~= s.take(i as int));
                assert(t.last() == list[order@[i as int] as int].view());
                if i == 0 {
                    assert(out@ =~= header + clause_lines(t));
                } else {
                    assert(out@ =~= header + clause_lines(t));
                }
            }
            i = i + 1;
        }
        proof {
            assert(s.take(s.len() as int) =~= s);
            let c = print_order(self.view());
            assert(s.to_set() == self.view() && strictly_sorted(s));
            lemma_sorted_unique(s, c);
            assert(out@ =~= cnf_text(m as nat, self.view()));
        }
        out
    }

    /// A copy of the CNF.
    pub(crate) fn duplicate(&self) -> (r: Self)
        ensures
            r.view() == self.view(),
    {
        let mut r = CNF::new();
        r.append(self);
        assert(r.view() =~= self.view());
        r
    }
}

impl Clone for CNF {
    fn clone(&self) -> (r: Self)
        ensures
            r.view() == self.view(),
    {
        self.duplicate()
    }
}

impl PartialEq for CNF {
    /// Two CNFs are equal when they have the same clauses.
    fn eq(&self, other: &Self) -> (r: bool) {
        self.check_wf();
        other.check_wf();
        if self.clauses.len() != other.clauses.len() {
            return false;
        }
        let mut i: usize = 0;
        while i < self.clauses.len()
            invariant
                i <= self.clause_list().len(),
                forall|j: int| 0 <= j < i ==> other.view().contains(#[trigger] self.clause_list()[j].view()),
            decreases self.clause_list().len() - i,
        {
            if !other.contains(&self.clauses[i]) {
                proof {
                    assert(clause_views(self.clause_list())[i as int] == self.clause_list()[i as int].view());
                    assert(self.view().contains(self.clause_list()[i as int].view()));
                }
                return false;
            }
            i = i + 1;
        }
        proof {
            assert forall|c: Seq<Literal>| #[trigger] self.view().contains(c) implies other.view().contains(c) by {
                let j = choose|j: int| 0 <= j < self.clause_list().len() && (#[trigger] self.clause_list()[j]).view() == c;
            }
            vstd::set_lib::lemma_subset_equality(self.view(), other.view());
        }
        true
    }
}

impl PartialEqSpecImpl for CNF {
    open spec fn obeys_eq_spec() -> bool {
        true
    }

    open spec fn eq_spec(&self, other: &CNF) -> bool {
        self.view() == other.view()
    }
}

impl Eq for CNF {
}

impl Default for CNF {
    fn default() -> (r: Self)
        ensures
            r.view() == Set::<Seq<Literal>>::empty(),
    {
        Self::new()
    }
}

/// After a clause made of the literals `given` is added to a CNF, the CNF contains the clause
/// made of the same literals in any other order `permuted`: both clauses are the sorted list of
/// those literals.
pub proof fn law_added_clause_any_order(
    cnf: Set<Seq<Literal>>,
    given: Seq<Literal>,
    permuted: Seq<Literal>,
    added: Seq<Literal>,
    asked: Seq<Literal>,
)
    requires
        same_literals(given, permuted),
        sorted_by_code(added),
        same_literals(added, given),
        sorted_by_code(asked),
        same_literals(asked, permuted),
    ensures
        cnf.insert(added).contains(asked),
{
    lemma_sorted_same_unique(added, asked);
}

/// The clauses of a CNF made by `CNF::new` and then `add_clause` with each of `added` in turn
/// (each step inserts the clause into the set, as `add_clause` states).
pub open spec fn after_additions(added: Seq<Seq<Literal>>) -> Set<Seq<Literal>>
    decreases added.len(),
{
    if added.len() == 0 {
        Set::empty()
    } else {
        after_additions(added.drop_last()).insert(added.last())
    }
}

/// A CNF made by `CNF::new` and then `add_clause` with clauses `c_1 .. c_n` contains a clause
/// exactly when it is one of `c_1 .. c_n`; an empty CNF contains nothing.
pub proof fn law_contains_exactly_the_added(added: Seq<Seq<Literal>>)
    ensures
        forall|d: Seq<Literal>| #[trigger] after_additions(added).contains(d) <==> added.contains(d),
    decreases added.len(),
{
    if added.len() > 0 {
        law_contains_exactly_the_added(added.drop_last());
        assert(after_additions(added) == after_additions(added.drop_last()).insert(added.last()));
        assert forall|d: Seq<Literal>| #[trigger] after_additions(added).contains(d) <==> added.contains(d) by {
            assert(after_additions(added.drop_last()).contains(d) <==> added.drop_last().contains(d));
            if added.drop_last().contains(d) {
                let k = choose|k: int| 0 <= k < added.drop_last().len() && added.drop_last()[k] == d;
                assert(added[k] == d);
            }
            if added.contains(d) && d != added.last() {
                let k = choose|k: int| 0 <= k < added.len() && added[k] == d;
                assert(added.drop_last()[k] == d);
            }
            if d == added.last() {
                assert(added[added.len() - 1] == d);
            }
        }
    }
}

} // verus!
