//! Families of finite vertex sets: the mathematical model shared by the
//! simplex, complex and closure modules, together with the lemmas that
//! connect sorted duplicate-free vertex lists to the sets they denote.

use vstd::prelude::*;

verus! {

/// A canonically sorted vertex list: strictly ascending, hence duplicate-free.
pub open spec fn sorted_distinct(s: Seq<usize>) -> bool {
    forall|i: int, j: int| 0 <= i < j < s.len() ==> s[i] < s[j]
}

/// The family of vertex sets denoted by a sequence of vertex lists.
pub open spec fn family_of(vs: Seq<Seq<usize>>) -> Set<Set<usize>>
    decreases vs.len(),
{
    if vs.len() == 0 {
        Set::empty()
    } else {
        family_of(vs.drop_last()).insert(vs.last().to_set())
    }
}

/// `t` is a member of `fam` that no other member strictly contains.
pub open spec fn is_maximal_in(t: Set<usize>, fam: Set<Set<usize>>) -> bool {
    fam.contains(t) && forall|u: Set<usize>| fam.contains(u) && t.subset_of(u) ==> t == u
}

/// The subfamily of maximal members: the facets of the complex generated by `fam`.
pub open spec fn maximal_sets(fam: Set<Set<usize>>) -> Set<Set<usize>> {
    fam.filter(|t: Set<usize>| is_maximal_in(t, fam))
}

/// Membership in the downward-closed core of a family: the empty set is
/// always kept, and a non-empty set is kept exactly when it belongs to the
/// family and every set obtained from it by deleting one element is kept.
pub open spec fn down_kept(fam: Set<Set<usize>>, t: Set<usize>) -> bool
    decreases t.len() when t.finite()
{
    if t.len() == 0 {
        true
    } else {
        fam.contains(t) && forall|x: usize| #[trigger] t.contains(x) ==> down_kept(fam, t.remove(x))
    }
}

/// The downward-closed core of a family (restricted to finite sets).
pub open spec fn down_core(fam: Set<Set<usize>>) -> Set<Set<usize>> {
    Set::new(|t: Set<usize>| t.finite() && down_kept(fam, t))
}

/// The faces of dimension `k` of the complex whose facets are `fam`:
/// all `(k+1)`-element subsets of members of the family.
pub open spec fn k_faces_set(fam: Set<Set<usize>>, k: int) -> Set<Set<usize>> {
    Set::new(
        |t: Set<usize>|
            t.finite() && t.len() == k + 1 && exists|f: Set<usize>|
                #[trigger] fam.contains(f) && t.subset_of(f),
    )
}

/// All faces of the complex generated by `fam`: the finite subsets of its members.
pub open spec fn faces_of(fam: Set<Set<usize>>) -> Set<Set<usize>> {
    Set::new(
        |t: Set<usize>|
            t.finite() && exists|f: Set<usize>| #[trigger] fam.contains(f) && t.subset_of(f),
    )
}

/// All vertices of the family: the union of its members.
pub open spec fn vertex_set_of(fam: Set<Set<usize>>) -> Set<usize> {
    Set::new(|x: usize| exists|f: Set<usize>| #[trigger] fam.contains(f) && f.contains(x))
}

/// The binomial coefficient `n` choose `k`.
pub open spec fn spec_binomial(n: nat, k: nat) -> nat
    decreases n, k,
{
    if k == 0 {
        1
    } else if n == 0 {
        0
    } else {
        spec_binomial((n - 1) as nat, (k - 1) as nat) + spec_binomial((n - 1) as nat, k)
    }
}

/// A strictly sorted list never repeats an element.
pub proof fn lemma_sorted_distinct_no_dup(s: Seq<usize>)
    requires
        sorted_distinct(s),
    ensures
        s.no_duplicates(),
{
    assert forall|i: int, j: int| 0 <= i < s.len() && 0 <= j < s.len() && i != j implies s[i]
        != s[j] by {
        if i < j {
            assert(s[i] < s[j]);
        } else {
            assert(s[j] < s[i]);
        }
    }
}

/// A strictly sorted list has as many entries as its set has elements.
pub proof fn lemma_sorted_distinct_len(s: Seq<usize>)
    requires
        sorted_distinct(s),
    ensures
        s.to_set().finite(),
        s.to_set().len() == s.len(),
{
    broadcast use vstd::seq_lib::seq_to_set_is_finite;

    lemma_sorted_distinct_no_dup(s);
    s.unique_seq_to_set();
}

/// The set of a strictly sorted list loses exactly the head when the head is dropped.
proof fn lemma_sorted_tail_set(s: Seq<usize>)
    requires
        sorted_distinct(s),
        s.len() > 0,
    ensures
        s.drop_first().to_set() == s.to_set().remove(s[0]),
{
    let t = s.drop_first();
    assert forall|x: usize| t.to_set().contains(x) implies s.to_set().remove(s[0]).contains(x) by {
        let i = choose|i: int| 0 <= i < t.len() && t[i] == x;
        assert(s[i + 1] == x);
        assert(s.contains(x));
        assert(s[0] < s[i + 1]);
    }
    assert forall|x: usize| s.to_set().remove(s[0]).contains(x) implies t.to_set().contains(x) by {
        let i = choose|i: int| 0 <= i < s.len() && s[i] == x;
        assert(i != 0);
        assert(t[i - 1] == x);
        assert(t.contains(x));
    }
    assert(t.to_set() =~= s.to_set().remove(s[0]));
}

/// Two strictly sorted lists denoting the same set are the same list:
/// the canonical representation of a finite vertex set is unique.
pub proof fn lemma_sorted_distinct_canonical(a: Seq<usize>, b: Seq<usize>)
    requires
        sorted_distinct(a),
        sorted_distinct(b),
        a.to_set() == b.to_set(),
    ensures
        a == b,
    decreases a.len(),
{
    if a.len() == 0 {
        if b.len() > 0 {
            assert(b.contains(b[0]));
            assert(a.to_set().contains(b[0]));
            assert(false);
        }
        assert(a =~= b);
    } else {
        if b.len() == 0 {
            assert(a.contains(a[0]));
            assert(b.to_set().contains(a[0]));
            assert(false);
        }
        // Both heads are the minimum of the common set, so they agree.
        assert(a.to_set().contains(b[0]));
        let i = choose|i: int| 0 <= i < a.len() && a[i] == b[0];
        assert(a[0] <= a[i]);
        assert(b.to_set().contains(a[0]));
        let j = choose|j: int| 0 <= j < b.len() && b[j] == a[0];
        assert(b[0] <= b[j]);
        assert(a[0] == b[0]);
        lemma_sorted_tail_set(a);
        lemma_sorted_tail_set(b);
        assert(a.drop_first().to_set() == b.drop_first().to_set());
        assert(sorted_distinct(a.drop_first())) by {
            assert forall|i: int, j: int|
                0 <= i < j < a.drop_first().len() implies a.drop_first()[i]
                < a.drop_first()[j] by {
                assert(a[i + 1] < a[j + 1]);
            }
        }
        assert(sorted_distinct(b.drop_first())) by {
            assert forall|i: int, j: int|
                0 <= i < j < b.drop_first().len() implies b.drop_first()[i]
                < b.drop_first()[j] by {
                assert(b[i + 1] < b[j + 1]);
            }
        }
        lemma_sorted_distinct_canonical(a.drop_first(), b.drop_first());
        assert(a =~= b) by {
            assert forall|i: int| 0 <= i < a.len() implies a[i] == b[i] by {
                if i > 0 {
                    assert(a.drop_first()[i - 1] == b.drop_first()[i - 1]);
                }
            }
        }
    }
}

/// What it means to be a member of `family_of`.
pub proof fn lemma_family_membership(vs: Seq<Seq<usize>>)
    ensures
        forall|t: Set<usize>| #[trigger]
            family_of(vs).contains(t) <==> exists|i: int| 0 <= i < vs.len() && vs[i].to_set() == t,
    decreases vs.len(),
{
    if vs.len() > 0 {
        lemma_family_membership(vs.drop_last());
        assert forall|t: Set<usize>| #[trigger] family_of(vs).contains(t) implies exists|i: int|
            0 <= i < vs.len() && vs[i].to_set() == t by {
            if t == vs.last().to_set() {
                assert(vs[vs.len() - 1].to_set() == t);
            } else {
                assert(family_of(vs.drop_last()).contains(t));
                assert(exists|i: int|
                    0 <= i < vs.drop_last().len() && vs.drop_last()[i].to_set() == t);
                let i = choose|i: int| 0 <= i < vs.drop_last().len() && vs.drop_last()[i].to_set() == t;
                assert(vs[i].to_set() == t);
            }
        }
        assert forall|t: Set<usize>|
            (exists|i: int| 0 <= i < vs.len() && vs[i].to_set() == t) implies #[trigger] family_of(
            vs,
        ).contains(t) by {
            let i = choose|i: int| 0 <= i < vs.len() && vs[i].to_set() == t;
            if i == vs.len() - 1 {
                assert(vs.last().to_set() == t);
                assert(family_of(vs).contains(t));
            } else {
                assert(vs.drop_last()[i].to_set() == t);
                assert(exists|j: int|
                    0 <= j < vs.drop_last().len() && vs.drop_last()[j].to_set() == t);
                assert(family_of(vs.drop_last()).contains(t));
                assert(family_of(vs).contains(t));
            }
        }
    }
}

/// A family denoted by finitely many lists is finite, and its members are finite.
pub proof fn lemma_family_finite(vs: Seq<Seq<usize>>)
    ensures
        family_of(vs).finite(),
        family_of(vs).len() <= vs.len(),
        forall|t: Set<usize>| #[trigger] family_of(vs).contains(t) ==> t.finite(),
    decreases vs.len(),
{
    broadcast use vstd::seq_lib::seq_to_set_is_finite;

    if vs.len() > 0 {
        lemma_family_finite(vs.drop_last());
    }
}

/// Every member of a finite family lies below some maximal member.
pub proof fn lemma_exists_maximal_superset(fam: Set<Set<usize>>, t: Set<usize>)
    requires
        fam.finite(),
        fam.contains(t),
    ensures
        exists|m: Set<usize>| #[trigger] maximal_sets(fam).contains(m) && t.subset_of(m),
    decreases fam.filter(|u: Set<usize>| t.subset_of(u) && t != u).len(),
{
    if is_maximal_in(t, fam) {
        assert(maximal_sets(fam).contains(t) && t.subset_of(t));
    } else {
        let u = choose|u: Set<usize>| fam.contains(u) && t.subset_of(u) && t != u;
        let above_t = fam.filter(|w: Set<usize>| t.subset_of(w) && t != w);
        let above_u = fam.filter(|w: Set<usize>| u.subset_of(w) && u != w);
        assert(above_u.subset_of(above_t)) by {
            assert forall|w: Set<usize>| above_u.contains(w) implies above_t.contains(w) by {
                assert(t.subset_of(w));
                if t == w {
                    assert(u.subset_of(t) && t.subset_of(u));
                    assert(u =~= t);
                    assert(false);
                }
            }
        }
        assert(above_t.contains(u));
        assert(!above_u.contains(u));
        vstd::set_lib::lemma_len_subset(above_t, fam);
        above_u.lemma_subset_not_in_lt(above_t, u);
        lemma_exists_maximal_superset(fam, u);
        let m = choose|m: Set<usize>| #[trigger] maximal_sets(fam).contains(m) && u.subset_of(m);
        assert(t.subset_of(m));
    }
}

/// Lists denoting the same sets entry by entry denote the same family.
pub proof fn lemma_family_eq_pointwise(a: Seq<Seq<usize>>, b: Seq<Seq<usize>>)
    requires
        a.len() == b.len(),
        forall|i: int| 0 <= i < a.len() ==> a[i].to_set() == b[i].to_set(),
    ensures
        family_of(a) == family_of(b),
{
    lemma_family_membership(a);
    lemma_family_membership(b);
    assert forall|t: Set<usize>| family_of(a).contains(t) implies family_of(b).contains(t) by {
        let i = choose|i: int| 0 <= i < a.len() && a[i].to_set() == t;
        assert(b[i].to_set() == t);
    }
    assert forall|t: Set<usize>| family_of(b).contains(t) implies family_of(a).contains(t) by {
        let i = choose|i: int| 0 <= i < b.len() && b[i].to_set() == t;
        assert(a[i].to_set() == t);
    }
    assert(family_of(a) =~= family_of(b));
}

/// Deleting position `i` from a strictly sorted list removes exactly that
/// element from its set, and keeps the list strictly sorted.
pub proof fn lemma_sorted_remove_set(s: Seq<usize>, i: int)
    requires
        sorted_distinct(s),
        0 <= i < s.len(),
    ensures
        sorted_distinct(s.remove(i)),
        s.remove(i).to_set() == s.to_set().remove(s[i]),
{
    let r = s.remove(i);
    assert forall|p: int, q: int| 0 <= p < q < r.len() implies r[p] < r[q] by {
        let p2: int = if p < i {
            p
        } else {
            p + 1
        };
        let q2: int = if q < i {
            q
        } else {
            q + 1
        };
        assert(r[p] == s[p2] && r[q] == s[q2] && p2 < q2);
    }
    lemma_sorted_distinct_no_dup(s);
    assert forall|x: usize| r.to_set().contains(x) implies s.to_set().remove(s[i]).contains(x) by {
        let p = choose|p: int| 0 <= p < r.len() && r[p] == x;
        let p2: int = if p < i {
            p
        } else {
            p + 1
        };
        assert(s[p2] == x && p2 != i);
        assert(s.contains(x));
    }
    assert forall|x: usize| s.to_set().remove(s[i]).contains(x) implies r.to_set().contains(x) by {
        let p = choose|p: int| 0 <= p < s.len() && s[p] == x;
        assert(p != i);
        let p2: int = if p < i {
            p
        } else {
            p - 1
        };
        assert(r[p2] == x);
        assert(r.contains(x));
    }
    assert(r.to_set() =~= s.to_set().remove(s[i]));
}

/// In a subfamily of an antichain every member stays maximal.
pub proof fn lemma_maximal_subfamily(fam: Set<Set<usize>>, g: Set<Set<usize>>)
    requires
        fam == maximal_sets(fam),
        g.subset_of(fam),
    ensures
        maximal_sets(g) == g,
{
    assert forall|t: Set<usize>| g.contains(t) implies maximal_sets(g).contains(t) by {
        assert(fam.contains(t));
        assert(is_maximal_in(t, fam));
        assert forall|u: Set<usize>| g.contains(u) && t.subset_of(u) implies t == u by {
            assert(fam.contains(u));
        }
    }
    assert(maximal_sets(g) =~= g);
}

/// The maximal members of a family of maximal members are that family itself.
pub proof fn lemma_maximal_idempotent(fam: Set<Set<usize>>)
    ensures
        maximal_sets(maximal_sets(fam)) == maximal_sets(fam),
{
    let m = maximal_sets(fam);
    assert forall|t: Set<usize>| m.contains(t) implies maximal_sets(m).contains(t) by {
        assert(is_maximal_in(t, fam));
        assert forall|u: Set<usize>| m.contains(u) && t.subset_of(u) implies t == u by {
            assert(fam.contains(u));
        }
    }
    assert(maximal_sets(m) =~= m);
}


/// A duplicate-free collection of canonical lists denotes as many sets as it
/// has entries.
pub proof fn lemma_family_card(vs: Seq<Seq<usize>>)
    requires
        forall|i: int| 0 <= i < vs.len() ==> sorted_distinct(#[trigger] vs[i]),
        forall|i: int, j: int| 0 <= i < j < vs.len() ==> vs[i] != vs[j],
    ensures
        family_of(vs).finite(),
        family_of(vs).len() == vs.len(),
    decreases vs.len(),
{
    lemma_family_finite(vs);
    if vs.len() > 0 {
        let head = vs.drop_last();
        assert forall|i: int, j: int| 0 <= i < j < head.len() implies head[i] != head[j] by {
            assert(head[i] == vs[i] && head[j] == vs[j]);
        }
        assert forall|i: int| 0 <= i < head.len() implies sorted_distinct(#[trigger] head[i]) by {
            assert(head[i] == vs[i]);
        }
        lemma_family_card(head);
        lemma_family_membership(head);
        if family_of(head).contains(vs.last().to_set()) {
            let i = choose|i: int| 0 <= i < head.len() && head[i].to_set() == vs.last().to_set();
            lemma_sorted_distinct_canonical(head[i], vs.last());
            assert(vs[i] == vs[vs.len() - 1]);
            assert(false);
        }
        assert(family_of(vs) == family_of(head).insert(vs.last().to_set()));
    }
}


/// `c` occurs within `v` as a subsequence: the elements of `c` appear in `v`
/// in the same relative order.
pub open spec fn subsequence_of(c: Seq<usize>, v: Seq<usize>) -> bool
    decreases c.len() + v.len(),
{
    if c.len() == 0 {
        true
    } else if v.len() == 0 {
        false
    } else if c[0] == v[0] {
        subsequence_of(c.drop_first(), v.drop_first())
    } else {
        subsequence_of(c, v.drop_first())
    }
}

/// A subsequence draws its elements from the original list.
pub proof fn lemma_subsequence_elems(c: Seq<usize>, v: Seq<usize>)
    requires
        subsequence_of(c, v),
    ensures
        c.len() <= v.len(),
        forall|x: usize| c.contains(x) ==> v.contains(x),
        c.to_set().subset_of(v.to_set()),
    decreases c.len() + v.len(),
{
    if c.len() == 0 {
    } else if c[0] == v[0] {
        lemma_subsequence_elems(c.drop_first(), v.drop_first());
        assert forall|x: usize| c.contains(x) implies v.contains(x) by {
            let i = choose|i: int| 0 <= i < c.len() && c[i] == x;
            if i == 0 {
                assert(v[0] == x);
            } else {
                assert(c.drop_first()[i - 1] == x);
                assert(c.drop_first().contains(x));
                assert(v.drop_first().contains(x));
                let j = choose|j: int| 0 <= j < v.drop_first().len() && v.drop_first()[j] == x;
                assert(v[j + 1] == x);
            }
        }
    } else {
        lemma_subsequence_elems(c, v.drop_first());
        assert forall|x: usize| c.contains(x) implies v.contains(x) by {
            assert(v.drop_first().contains(x));
            let j = choose|j: int| 0 <= j < v.drop_first().len() && v.drop_first()[j] == x;
            assert(v[j + 1] == x);
        }
    }
    assert forall|x: usize| c.to_set().contains(x) implies v.to_set().contains(x) by {
        assert(c.contains(x));
    }
}

/// A subsequence of a strictly sorted list is strictly sorted.
pub proof fn lemma_subsequence_sorted(c: Seq<usize>, v: Seq<usize>)
    requires
        subsequence_of(c, v),
        sorted_distinct(v),
    ensures
        sorted_distinct(c),
    decreases c.len() + v.len(),
{
    if c.len() == 0 {
    } else if v.len() == 0 {
    } else {
        assert(sorted_distinct(v.drop_first())) by {
            assert forall|i: int, j: int|
                0 <= i < j < v.drop_first().len() implies v.drop_first()[i]
                < v.drop_first()[j] by {
                assert(v[i + 1] < v[j + 1]);
            }
        }
        if c[0] == v[0] {
            lemma_subsequence_sorted(c.drop_first(), v.drop_first());
            lemma_subsequence_elems(c.drop_first(), v.drop_first());
            assert forall|i: int, j: int| 0 <= i < j < c.len() implies c[i] < c[j] by {
                if i == 0 {
                    assert(c.drop_first()[j - 1] == c[j]);
                    assert(c.drop_first().contains(c[j]));
                    assert(v.drop_first().contains(c[j]));
                    let q = choose|q: int|
                        0 <= q < v.drop_first().len() && v.drop_first()[q] == c[j];
                    assert(v[0] < v[q + 1]);
                } else {
                    assert(c.drop_first()[i - 1] < c.drop_first()[j - 1]);
                }
            }
        } else {
            lemma_subsequence_sorted(c, v.drop_first());
        }
    }
}


/// All `k`-element subsets of a finite vertex set.
pub open spec fn k_subsets(v: Set<usize>, k: nat) -> Set<Set<usize>> {
    Set::new(|t: Set<usize>| t.finite() && t.len() == k && t.subset_of(v))
}

/// Disjoint finite sets add their cardinalities under union.
pub proof fn lemma_disjoint_union_len<A>(a: Set<A>, b: Set<A>)
    requires
        a.finite(),
        b.finite(),
        a.disjoint(b),
    ensures
        a.union(b).finite(),
        a.union(b).len() == a.len() + b.len(),
    decreases a.len(),
{
    if a.len() == 0 {
        vstd::set_lib::lemma_set_empty_equivalency_len(a);
        assert(a.union(b) =~= b);
    } else {
        let x = a.choose();
        assert(a.contains(x));
        lemma_disjoint_union_len(a.remove(x), b);
        assert(a.union(b) =~= a.remove(x).union(b).insert(x));
        assert(!a.remove(x).union(b).contains(x));
    }
}

/// A finite set with `n` elements has exactly `n` choose `k` subsets of
/// size `k`: the counting identity behind the full-skeleton test.
pub proof fn lemma_k_subsets_count(v: Set<usize>, k: nat)
    requires
        v.finite(),
    ensures
        k_subsets(v, k).finite(),
        k_subsets(v, k).len() == spec_binomial(v.len(), k),
    decreases v.len(), k,
{
    if k == 0 {
        assert forall|t: Set<usize>| k_subsets(v, 0).contains(t) implies t == Set::<
            usize,
        >::empty() by {
            vstd::set_lib::lemma_set_empty_equivalency_len(t);
        }
        assert(k_subsets(v, 0).contains(Set::<usize>::empty()));
        assert(k_subsets(v, 0) =~= Set::<Set<usize>>::empty().insert(Set::<usize>::empty()));
        assert(Set::<Set<usize>>::empty().insert(Set::<usize>::empty()).len() == 1);
    } else if v.len() == 0 {
        vstd::set_lib::lemma_set_empty_equivalency_len(v);
        assert forall|t: Set<usize>| !(#[trigger] k_subsets(v, k).contains(t)) by {
            if k_subsets(v, k).contains(t) {
                assert(t.len() == k > 0);
                vstd::set_lib::lemma_set_empty_equivalency_len(t);
                assert(!t.is_empty());
                let y = t.choose();
                assert(t.contains(y));
                assert(v.contains(y));
            }
        }
        assert(k_subsets(v, k) =~= Set::<Set<usize>>::empty());
    } else {
        let x = v.choose();
        vstd::set_lib::lemma_set_empty_equivalency_len(v);
        assert(v.contains(x));
        let rest = v.remove(x);
        let without = k_subsets(rest, k);
        let with_small = k_subsets(rest, (k - 1) as nat);
        lemma_k_subsets_count(rest, k);
        lemma_k_subsets_count(rest, (k - 1) as nat);
        let f = |t: Set<usize>| t.insert(x);
        let with = with_small.map(f);
        assert(vstd::relations::injective_on(f, with_small)) by {
            assert forall|t1: Set<usize>, t2: Set<usize>|
                #![trigger f(t1), f(t2)]
                with_small.contains(t1) && with_small.contains(t2) && f(t1) == f(t2) implies t1
                == t2 by {
                assert(!t1.contains(x) && !t2.contains(x));
                assert(t1 =~= t1.insert(x).remove(x));
                assert(t2 =~= t2.insert(x).remove(x));
            }
        }
        vstd::set_lib::lemma_map_size(with_small, with, f);
        assert(without.disjoint(with)) by {
            assert forall|t: Set<usize>| without.contains(t) implies !with.contains(t) by {
                assert(!t.contains(x));
                if with.contains(t) {
                    let t0 = choose|t0: Set<usize>| with_small.contains(t0) && t == f(t0);
                    assert(t.contains(x));
                }
            }
        }
        assert(k_subsets(v, k) =~= without.union(with)) by {
            assert forall|t: Set<usize>|
                k_subsets(v, k).contains(t) implies without.union(with).contains(t) by {
                if t.contains(x) {
                    let t0 = t.remove(x);
                    assert(t0.subset_of(rest));
                    assert(t0.len() == k - 1);
                    assert(with_small.contains(t0));
                    assert(t =~= f(t0));
                    assert(with.contains(f(t0)));
                } else {
                    assert(t.subset_of(rest));
                    assert(without.contains(t));
                }
            }
            assert forall|t: Set<usize>|
                without.union(with).contains(t) implies k_subsets(v, k).contains(t) by {
                if without.contains(t) {
                    assert(t.subset_of(rest) && rest.subset_of(v));
                } else {
                    let t0 = choose|t0: Set<usize>| with_small.contains(t0) && t == f(t0);
                    assert(t.len() == t0.len() + 1) by {
                        assert(!t0.contains(x));
                    }
                    assert(t.subset_of(v)) by {
                        assert forall|y: usize| t.contains(y) implies v.contains(y) by {
                            if y != x {
                                assert(t0.contains(y));
                                assert(rest.contains(y));
                            }
                        }
                    }
                    broadcast use vstd::set::axiom_set_insert_finite;

                }
            }
        }
        lemma_disjoint_union_len(without, with);
        assert(spec_binomial(v.len(), k) == spec_binomial((v.len() - 1) as nat, (k - 1) as nat)
            + spec_binomial((v.len() - 1) as nat, k));
    }
}

/// `C(n, 1) == n`.
pub proof fn lemma_binomial_one(n: nat)
    ensures
        spec_binomial(n, 1) == n,
    decreases n,
{
    if n > 0 {
        lemma_binomial_one((n - 1) as nat);
        lemma_binomial_zero((n - 1) as nat);
    }
}

/// `C(n, 0) == 1`.
pub proof fn lemma_binomial_zero(n: nat)
    ensures
        spec_binomial(n, 0) == 1,
{
}

} // verus!
