//! The meaning of literals, clauses, cubes and CNFs under an assignment of truth values.

use vstd::prelude::*;

use super::literal::Literal;

verus! {

/// An assignment gives every variable number a truth value.
pub type Valuation = spec_fn(nat) -> bool;

/// A literal holds when its variable's value differs from its sign.
pub open spec fn literal_holds(l: Literal, a: Valuation) -> bool {
    a(l.var()) != l.neg()
}

/// A clause (a disjunction of literals) holds when one of its literals holds.
pub open spec fn clause_holds(c: Seq<Literal>, a: Valuation) -> bool {
    exists|i: int| 0 <= i < c.len() && literal_holds(#[trigger] c[i], a)
}

/// A cube (a conjunction of literals) holds when all of its literals hold.
pub open spec fn cube_holds(c: Seq<Literal>, a: Valuation) -> bool {
    forall|i: int| 0 <= i < c.len() ==> literal_holds(#[trigger] c[i], a)
}

/// A CNF (a conjunction of clauses) holds when all of its clauses hold.
pub open spec fn cnf_holds(f: Set<Seq<Literal>>, a: Valuation) -> bool {
    forall|c: Seq<Literal>| #[trigger] f.contains(c) ==> clause_holds(c, a)
}

/// The unit clauses of the literals of a cube.
pub open spec fn unit_clauses(cube: Seq<Literal>) -> Set<Seq<Literal>> {
    Set::new(|u: Seq<Literal>| exists|i: int| 0 <= i < cube.len() && u == seq![cube[i]])
}

/// A CNF is satisfiable when some assignment makes it hold.
pub open spec fn satisfiable(f: Set<Seq<Literal>>) -> bool {
    exists|a: Valuation| cnf_holds(f, a)
}

/// `f` implies `g` when every assignment that makes `f` hold makes `g` hold.
pub open spec fn entails(f: Set<Seq<Literal>>, g: Set<Seq<Literal>>) -> bool {
    forall|a: Valuation| cnf_holds(f, a) ==> cnf_holds(g, a)
}

/// The largest variable number among the literals, 0 for none.
pub open spec fn max_var(s: Seq<Literal>) -> nat
    decreases s.len(),
{
    if s.len() == 0 {
        0
    } else {
        let m = max_var(s.drop_last());
        if s.last().var() > m {
            s.last().var()
        } else {
            m
        }
    }
}

/// The largest variable number of a sequence is at least every variable in it, and is one
/// of them unless the sequence is empty.
pub proof fn lemma_max_var(s: Seq<Literal>)
    ensures
        forall|i: int| 0 <= i < s.len() ==> (#[trigger] s[i]).var() <= max_var(s),
        s.len() == 0 ==> max_var(s) == 0,
        s.len() > 0 ==> exists|i: int| 0 <= i < s.len() && (#[trigger] s[i]).var() == max_var(s),
    decreases s.len(),
{
    if s.len() > 0 {
        lemma_max_var(s.drop_last());
        if s.len() > 1 && max_var(s) == max_var(s.drop_last()) {
            let j = choose|j: int|
                0 <= j < s.drop_last().len() && (#[trigger] s.drop_last()[j]).var() == max_var(
                    s.drop_last(),
                );
            assert(s[j] == s.drop_last()[j]);
        } else {
            assert(s[s.len() - 1] == s.last());
        }
        assert forall|i: int| 0 <= i < s.len() implies (#[trigger] s[i]).var() <= max_var(s) by {
            if i < s.len() - 1 {
                assert(s[i] == s.drop_last()[i]);
            }
        }
    }
}

/// The largest variable number is a property of the elements, not of their order.
pub proof fn lemma_max_var_bounds(s: Seq<Literal>, m: nat)
    requires
        forall|i: int| 0 <= i < s.len() ==> (#[trigger] s[i]).var() <= m,
        s.len() == 0 ==> m == 0,
        s.len() > 0 ==> exists|i: int| 0 <= i < s.len() && (#[trigger] s[i]).var() == m,
    ensures
        max_var(s) == m,
{
    lemma_max_var(s);
    if s.len() > 0 {
        let i = choose|i: int| 0 <= i < s.len() && (#[trigger] s[i]).var() == m;
        let j = choose|j: int| 0 <= j < s.len() && (#[trigger] s[j]).var() == max_var(s);
        assert(s[i].var() <= max_var(s));
        assert(s[j].var() <= m);
    }
}

/// Literals sorted by their order key, equal literals next to each other.
pub open spec fn sorted_by_code(s: Seq<Literal>) -> bool {
    forall|i: int, j: int| 0 <= i <= j < s.len() ==> (#[trigger] s[i]).code() <= (#[trigger] s[j]).code()
}

/// Every literal names a variable with a positive number.
pub open spec fn all_valid(s: Seq<Literal>) -> bool {
    forall|i: int| 0 <= i < s.len() ==> (#[trigger] s[i]).is_valid()
}

/// Each literal replaced by its negation.
pub open spec fn negate_all(s: Seq<Literal>) -> Seq<Literal> {
    s.map_values(|l: Literal| Literal::spec_negate(l))
}

/// Two sequences with the same elements (counted with multiplicity).
pub open spec fn same_literals(s1: Seq<Literal>, s2: Seq<Literal>) -> bool {
    s1.to_multiset() == s2.to_multiset()
}

/// Whether a clause holds depends on which literals it has, not on their order.
pub proof fn lemma_same_literals_hold(s1: Seq<Literal>, s2: Seq<Literal>, a: Valuation)
    requires
        same_literals(s1, s2),
    ensures
        clause_holds(s1, a) == clause_holds(s2, a),
        cube_holds(s1, a) == cube_holds(s2, a),
        forall|l: Literal| s1.contains(l) <==> s2.contains(l),
{
    broadcast use vstd::seq_lib::group_to_multiset_ensures;

    assert forall|l: Literal| s1.contains(l) <==> s2.contains(l) by {
        assert(s1.to_multiset().count(l) == s2.to_multiset().count(l));
    }
    if clause_holds(s1, a) {
        let i = choose|i: int| 0 <= i < s1.len() && literal_holds(#[trigger] s1[i], a);
        assert(s1.contains(s1[i]));
        let j = choose|j: int| 0 <= j < s2.len() && s2[j] == s1[i];
        assert(literal_holds(s2[j], a));
    }
    if clause_holds(s2, a) {
        let i = choose|i: int| 0 <= i < s2.len() && literal_holds(#[trigger] s2[i], a);
        assert(s2.contains(s2[i]));
        let j = choose|j: int| 0 <= j < s1.len() && s1[j] == s2[i];
        assert(literal_holds(s1[j], a));
    }
    if cube_holds(s1, a) {
        assert forall|i: int| 0 <= i < s2.len() implies literal_holds(#[trigger] s2[i], a) by {
            assert(s2.contains(s2[i]));
            let j = choose|j: int| 0 <= j < s1.len() && s1[j] == s2[i];
        }
    }
    if cube_holds(s2, a) {
        assert forall|i: int| 0 <= i < s1.len() implies literal_holds(#[trigger] s1[i], a) by {
            assert(s1.contains(s1[i]));
            let j = choose|j: int| 0 <= j < s2.len() && s2[j] == s1[i];
        }
    }
}

/// A sorted arrangement of literals is determined by which literals it holds.
pub proof fn lemma_sorted_same_unique(a: Seq<Literal>, b: Seq<Literal>)
    requires
        sorted_by_code(a),
        sorted_by_code(b),
        same_literals(a, b),
    ensures
        a == b,
    decreases a.len(),
{
    broadcast use vstd::seq_lib::group_to_multiset_ensures;
    broadcast use Literal::lemma_code_injective;

    assert(a.len() == a.to_multiset().len());
    assert(b.len() == b.to_multiset().len());
    if a.len() == 0 {
        assert(a =~= b);
    } else {
        lemma_same_literals_hold(a, b, |v: nat| true);
        assert(a.contains(a[0]));
        let j = choose|j: int| 0 <= j < b.len() && b[j] == a[0];
        assert(b[0].code() <= b[j].code());
        assert(b.contains(b[0]));
        let k = choose|k: int| 0 <= k < a.len() && a[k] == b[0];
        assert(a[0].code() <= a[k].code());
        assert(a[0] == b[0]);
        assert(a.remove(0) =~= a.drop_first());
        assert(b.remove(0) =~= b.drop_first());
        assert(a.drop_first().to_multiset() =~= a.to_multiset().remove(a[0]));
        assert(b.drop_first().to_multiset() =~= b.to_multiset().remove(b[0]));
        lemma_sorted_same_unique(a.drop_first(), b.drop_first());
        assert(a =~= b) by {
            assert forall|i: int| 0 <= i < a.len() implies a[i] == b[i] by {
                if i > 0 {
                    assert(a[i] == a.drop_first()[i - 1]);
                    assert(b[i] == b.drop_first()[i - 1]);
                }
            }
        }
    }
}

/// A negated clause holds exactly when the clause does not.
pub proof fn lemma_negate_all(s: Seq<Literal>, a: Valuation)
    ensures
        cube_holds(negate_all(s), a) == !clause_holds(s, a),
        clause_holds(negate_all(s), a) == !cube_holds(s, a),
        negate_all(s).len() == s.len(),
        max_var(negate_all(s)) == max_var(s),
{
    broadcast use Literal::lemma_negate;

    let n = negate_all(s);
    assert forall|i: int| 0 <= i < s.len() implies literal_holds(#[trigger] n[i], a) == !literal_holds(s[i], a) by {
        Literal::lemma_negate(s[i]);
    }
    if cube_holds(n, a) && clause_holds(s, a) {
        let i = choose|i: int| 0 <= i < s.len() && literal_holds(#[trigger] s[i], a);
        assert(literal_holds(n[i], a));
    }
    if !clause_holds(s, a) {
        assert forall|i: int| 0 <= i < n.len() implies literal_holds(#[trigger] n[i], a) by {
            assert(!literal_holds(s[i], a));
        }
    }
    if clause_holds(n, a) && cube_holds(s, a) {
        let i = choose|i: int| 0 <= i < n.len() && literal_holds(#[trigger] n[i], a);
        assert(literal_holds(s[i], a));
    }
    if !cube_holds(s, a) {
        let i = choose|i: int| 0 <= i < s.len() && !literal_holds(#[trigger] s[i], a);
        assert(literal_holds(n[i], a));
    }
    lemma_max_var(s);
    assert forall|i: int| 0 <= i < n.len() implies (#[trigger] n[i]).var() <= max_var(s) by {
        assert(s[i].var() <= max_var(s));
    }
    if s.len() > 0 {
        let j = choose|j: int| 0 <= j < s.len() && (#[trigger] s[j]).var() == max_var(s);
        assert(n[j].var() == max_var(s));
    }
    lemma_max_var_bounds(n, max_var(s));
}

/// A literal occurs in the negated sequence as often as its negation occurs in the sequence.
proof fn lemma_negate_count(x: Seq<Literal>, l: Literal)
    ensures
        negate_all(x).to_multiset().count(l) == x.to_multiset().count(Literal::spec_negate(l)),
    decreases x.len(),
{
    broadcast use vstd::seq_lib::group_to_multiset_ensures;
    broadcast use Literal::lemma_negate;

    if x.len() == 0 {
        assert(negate_all(x) =~= Seq::<Literal>::empty());
    } else {
        let init = x.drop_last();
        lemma_negate_count(init, l);
        assert(x =~= init.push(x.last()));
        assert(negate_all(x) =~= negate_all(init).push(Literal::spec_negate(x.last())));
        x.last().lemma_negate();
        l.lemma_negate();
        if Literal::spec_negate(x.last()) == l {
            assert(x.last() == Literal::spec_negate(l));
        } else {
            assert(x.last() != Literal::spec_negate(l));
        }
    }
}

/// Negating a sorted clause into a cube and that cube back into a clause, each sorted, gives
/// the clause back (and the same for a cube).
pub proof fn law_negate_twice(c: Seq<Literal>, d: Seq<Literal>, e: Seq<Literal>)
    requires
        sorted_by_code(c),
        sorted_by_code(d),
        same_literals(d, negate_all(c)),
        sorted_by_code(e),
        same_literals(e, negate_all(d)),
    ensures
        e == c,
{
    broadcast use Literal::lemma_negate;

    assert(e.to_multiset() =~= c.to_multiset()) by {
        assert forall|l: Literal| e.to_multiset().count(l) == c.to_multiset().count(l) by {
            lemma_negate_count(d, l);
            lemma_negate_count(c, Literal::spec_negate(l));
            l.lemma_negate();
            assert(Literal::spec_negate(Literal::spec_negate(l)) == l);
        }
    }
    lemma_sorted_same_unique(e, c);
}

/// Clauses (or cubes) made from the same literals in any order are the same: each keeps its
/// literals sorted.
pub proof fn law_order_of_literals_irrelevant(a: Seq<Literal>, b: Seq<Literal>, la: Seq<Literal>, lb: Seq<Literal>)
    requires
        sorted_by_code(a),
        same_literals(a, la),
        sorted_by_code(b),
        same_literals(b, lb),
        same_literals(la, lb),
    ensures
        a == b,
{
    lemma_sorted_same_unique(a, b);
}

} // verus!
