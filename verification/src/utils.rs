//! The combinatorial closure engine and its helpers: maximal-set filtering,
//! downward closure (sequential and parallel), subvector enumeration, and the
//! alternating sum used by the Euler characteristic.

use crate::family::{
    down_core, down_kept, family_of, is_maximal_in, lemma_family_eq_pointwise,
    lemma_family_finite, lemma_family_membership, lemma_sorted_distinct_canonical,
    lemma_sorted_distinct_len, lemma_sorted_remove_set, maximal_sets, sorted_distinct,
    spec_binomial, subsequence_of,
};
use crate::simplex::vec_contains;
use itertools::Itertools;
use rayon::iter::{IntoParallelRefIterator, ParallelIterator};
use vstd::prelude::*;

verus! {

/// The vertex lists denoted by a sequence of vectors.
pub open spec fn seq_views(vs: Seq<Vec<usize>>) -> Seq<Seq<usize>> {
    vs.map_values(|v: Vec<usize>| v@)
}

/// `a@ == b@`, decided entry by entry.
pub fn vecs_equal(a: &Vec<usize>, b: &Vec<usize>) -> (r: bool)
    ensures
        r == (a@ == b@),
{
    if a.len() != b.len() {
        return false;
    }
    let mut i: usize = 0;
    while i < a.len()
        invariant
            0 <= i <= a@.len(),
            a@.len() == b@.len(),
            forall|k: int| 0 <= k < i ==> a@[k] == b@[k],
        decreases a@.len() - i,
    {
        if a[i] != b[i] {
            return false;
        }
        i = i + 1;
    }
    proof {
        assert(a@ =~= b@);
    }
    true
}

/// `a@.to_set() <= b@.to_set()`, decided by linear scans.
pub fn vec_subset(a: &Vec<usize>, b: &Vec<usize>) -> (r: bool)
    ensures
        r == a@.to_set().subset_of(b@.to_set()),
{
    let mut i: usize = 0;
    while i < a.len()
        invariant
            0 <= i <= a@.len(),
            forall|k: int| 0 <= k < i ==> b@.contains(#[trigger] a@[k]),
        decreases a@.len() - i,
    {
        if !vec_contains(b, a[i]) {
            proof {
                assert(a@.to_set().contains(a@[i as int]));
            }
            return false;
        }
        i = i + 1;
    }
    proof {
        assert forall|x: usize| a@.to_set().contains(x) implies b@.to_set().contains(x) by {
            let k = choose|k: int| 0 <= k < a@.len() && a@[k] == x;
            assert(b@.contains(a@[k]));
        }
    }
    true
}

/// Whether some entry of `rs` equals `v` as a list.
fn vecs_member(rs: &Vec<Vec<usize>>, v: &Vec<usize>) -> (r: bool)
    ensures
        r == list_in(seq_views(rs@), v@),
{
    let mut m: usize = 0;
    while m < rs.len()
        invariant
            0 <= m <= rs@.len(),
            forall|k: int| 0 <= k < m ==> rs@[k]@ != v@,
        decreases rs@.len() - m,
    {
        if vecs_equal(&rs[m], v) {
            proof {
                assert(seq_views(rs@)[m as int] == v@);
            }
            return true;
        }
        m = m + 1;
    }
    proof {
        assert forall|k: int| 0 <= k < seq_views(rs@).len() implies seq_views(rs@)[k] != v@ by {
            assert(rs@[k]@ != v@);
        }
    }
    false
}

/// Sorts a vertex list and removes duplicates: the canonical representation
/// of its vertex set.
pub fn canonicalize(v: &Vec<usize>) -> (r: Vec<usize>)
    ensures
        sorted_distinct(r@),
        r@.to_set() == v@.to_set(),
        r@.len() <= v@.len(),
{
    let sorted = crate::simplex::sorted_usizes(v);
    let mut r: Vec<usize> = Vec::new();
    let mut i: usize = 0;
    while i < sorted.len()
        invariant
            0 <= i <= sorted@.len(),
            sorted@.len() == v@.len(),
            sorted@.to_set() == v@.to_set(),
            forall|p: int, q: int| 0 <= p < q < sorted@.len() ==> sorted@[p] <= sorted@[q],
            sorted_distinct(r@),
            r@.to_set() == sorted@.take(i as int).to_set(),
            r@.len() <= i,
            i > 0 ==> r@.len() > 0 && r@.last() == sorted@[i - 1],
        decreases sorted@.len() - i,
    {
        let x = sorted[i];
        let ghost old_r = r@;
        if r.len() == 0 {
            r.push(x);
        } else {
            let last = r[r.len() - 1];
            if last != x {
                proof {
                    assert(sorted@[i - 1] <= sorted@[i as int]);
                    assert forall|k: int| 0 <= k < old_r.len() implies old_r[k] < x by {
                        if k < old_r.len() - 1 {
                            assert(old_r[k] < old_r[old_r.len() - 1]);
                        }
                    }
                }
                r.push(x);
            }
        }
        proof {
            assert(sorted@.take(i + 1) =~= sorted@.take(i as int).push(sorted@[i as int]));
            broadcast use vstd::prelude::Seq::lemma_push_to_set_commute;

            if r@ != old_r {
                assert(r@ =~= old_r.push(x));
                assert(r@.to_set() =~= sorted@.take(i as int).to_set().insert(x));
            } else {
                assert(old_r.last() == x);
                assert(old_r.contains(x));
                assert(old_r.to_set().contains(x));
                assert(r@.to_set() =~= sorted@.take(i as int).to_set().insert(x));
            }
        }
        i = i + 1;
    }
    proof {
        assert(sorted@.take(sorted@.len() as int) =~= sorted@);
    }
    r
}

/// Relies on `itertools::Itertools::combinations`: over a duplicate-free
/// input it yields every `k`-element selection exactly once, each with its
/// elements in input order.  Consumes a vector and returns all subvectors of
/// length `k`, preserving the input's ordering within each subvector.
#[verifier::external_body]
pub fn get_subvectors(v: &Vec<usize>, k: usize) -> (r: Vec<Vec<usize>>)
    requires
        v@.no_duplicates(),
    ensures
        forall|i: int|
            0 <= i < r@.len() ==> subsequence_of(#[trigger] r@[i]@, v@) && r@[i]@.len() == k,
        forall|i: int, j: int| 0 <= i < j < r@.len() ==> r@[i]@ != r@[j]@,
        forall|t: Set<usize>| #[trigger]
            t.subset_of(v@.to_set()) && t.finite() && t.len() == k ==> exists|i: int|
                0 <= i < r@.len() && r@[i]@.to_set() == t,
{
    v.iter().combinations(k).map(|c| c.into_iter().copied().collect()).collect()
}

/// Whether the canonical list at position `i` survives the maximal-set
/// filter: no other list's set strictly contains it, and no earlier position
/// holds the same list.
pub open spec fn keep_maximal(cv: Seq<Seq<usize>>, i: int) -> bool {
    (forall|j: int|
        0 <= j < cv.len() && cv[i].to_set().subset_of((#[trigger] cv[j]).to_set()) ==> cv[i]
            == cv[j]) && (forall|j: int| 0 <= j < i ==> cv[j] != cv[i])
}

/// A maximal member of the family is kept at its first position.
proof fn lemma_kept_witness(cv: Seq<Seq<usize>>, k: int)
    requires
        0 <= k < cv.len(),
        forall|i: int| 0 <= i < cv.len() ==> sorted_distinct(#[trigger] cv[i]),
        is_maximal_in(cv[k].to_set(), family_of(cv)),
    ensures
        exists|k2: int| 0 <= k2 <= k && #[trigger] keep_maximal(cv, k2) && cv[k2] == cv[k],
    decreases k,
{
    lemma_family_membership(cv);
    if keep_maximal(cv, k) {
        assert(0 <= k <= k && keep_maximal(cv, k) && cv[k] == cv[k]);
    } else if exists|j: int|
        0 <= j < cv.len() && cv[k].to_set().subset_of((#[trigger] cv[j]).to_set()) && cv[k]
            != cv[j] {
        let j = choose|j: int|
            0 <= j < cv.len() && cv[k].to_set().subset_of((#[trigger] cv[j]).to_set()) && cv[k]
                != cv[j];
        assert(family_of(cv).contains(cv[j].to_set()));
        assert(cv[k].to_set() == cv[j].to_set());
        lemma_sorted_distinct_canonical(cv[k], cv[j]);
        assert(false);
    } else {
        let j = choose|j: int| 0 <= j < k && cv[j] == cv[k];
        lemma_kept_witness(cv, j);
        let k2 = choose|k2: int| 0 <= k2 <= j && #[trigger] keep_maximal(cv, k2) && cv[k2] == cv[j];
        assert(0 <= k2 <= k && keep_maximal(cv, k2) && cv[k2] == cv[k]);
    }
}

/// Decides `keep_maximal` for position `i` of an all-canonical collection.
fn survives_maximal(canon: &Vec<Vec<usize>>, i: usize) -> (r: bool)
    requires
        0 <= i < canon@.len(),
    ensures
        r == keep_maximal(seq_views(canon@), i as int),
{
    let ghost cv = seq_views(canon@);
    let mut j: usize = 0;
    while j < canon.len()
        invariant
            0 <= j <= canon@.len(),
            0 <= i < canon@.len(),
            cv == seq_views(canon@),
            forall|jj: int|
                0 <= jj < j && cv[i as int].to_set().subset_of((#[trigger] cv[jj]).to_set())
                    ==> cv[i as int] == cv[jj],
        decreases canon@.len() - j,
    {
        if vec_subset(&canon[i], &canon[j]) && !vecs_equal(&canon[i], &canon[j]) {
            proof {
                assert(cv[i as int].to_set().subset_of(cv[j as int].to_set()) && cv[i as int]
                    != cv[j as int]);
                assert(!keep_maximal(cv, i as int));
            }
            return false;
        }
        j = j + 1;
    }
    let mut j: usize = 0;
    while j < i
        invariant
            0 <= j <= i < canon@.len(),
            cv == seq_views(canon@),
            forall|jj: int| 0 <= jj < j ==> cv[jj] != cv[i as int],
        decreases i - j,
    {
        if vecs_equal(&canon[j], &canon[i]) {
            proof {
                assert(cv[j as int] == cv[i as int]);
                assert(!keep_maximal(cv, i as int));
            }
            return false;
        }
        j = j + 1;
    }
    true
}

/// Given a collection of vertex lists, keeps exactly one canonical copy of
/// each list that is maximal with respect to set containment.
#[verifier::rlimit(100)]
pub fn filter_maximal_sets(s: Vec<Vec<usize>>) -> (r: Vec<Vec<usize>>)
    ensures
        forall|i: int| 0 <= i < r@.len() ==> sorted_distinct(#[trigger] r@[i]@),
        forall|i: int, j: int| 0 <= i < j < r@.len() ==> r@[i]@ != r@[j]@,
        family_of(seq_views(r@)) == maximal_sets(family_of(seq_views(s@))),
        forall|i: int|
            0 <= i < r@.len() ==> exists|j: int|
                0 <= j < s@.len() && (#[trigger] r@[i]@).to_set() == s@[j]@.to_set() && r@[i]@.len()
                    <= s@[j]@.len(),
{
    let mut canon: Vec<Vec<usize>> = Vec::new();
    let mut idx: usize = 0;
    while idx < s.len()
        invariant
            0 <= idx <= s@.len(),
            canon@.len() == idx,
            forall|k: int|
                0 <= k < idx ==> sorted_distinct(#[trigger] canon@[k]@) && canon@[k]@.to_set()
                    == s@[k]@.to_set() && canon@[k]@.len() <= s@[k]@.len(),
        decreases s@.len() - idx,
    {
        canon.push(canonicalize(&s[idx]));
        idx = idx + 1;
    }
    let ghost cv = seq_views(canon@);
    proof {
        lemma_family_eq_pointwise(cv, seq_views(s@));
    }
    let ghost fam = family_of(cv);
    let mut r: Vec<Vec<usize>> = Vec::new();
    let ghost mut ks: Seq<int> = Seq::empty();
    let mut i: usize = 0;
    while i < canon.len()
        invariant
            0 <= i <= canon@.len(),
            cv == seq_views(canon@),
            fam == family_of(cv),
            forall|k: int| 0 <= k < cv.len() ==> sorted_distinct(#[trigger] cv[k]),
            ks.len() == r@.len(),
            forall|m: int|
                #![all_triggers]
                0 <= m < r@.len() ==> 0 <= ks[m] < i && keep_maximal(cv, ks[m]) && r@[m]@
                    == cv[ks[m]],
            forall|k: int|
                0 <= k < i && #[trigger] keep_maximal(cv, k) ==> exists|m: int|
                    0 <= m < r@.len() && r@[m]@ == cv[k],
            forall|m1: int, m2: int| 0 <= m1 < m2 < r@.len() ==> r@[m1]@ != r@[m2]@,
        decreases canon@.len() - i,
    {
        let keep = survives_maximal(&canon, i);
        let ghost old_r = r@;
        let ghost old_ks = ks;
        if keep {
            proof {
                assert forall|m: int| 0 <= m < r@.len() implies r@[m]@ != cv[i as int] by {
                    assert(0 <= ks[m] < i && keep_maximal(cv, ks[m]) && r@[m]@ == cv[ks[m]]);
                    assert(cv[ks[m]] != cv[i as int]);
                }
            }
            let element = canonicalize(&canon[i]);
            proof {
                lemma_sorted_distinct_canonical(element@, cv[i as int]);
            }
            r.push(element);
            proof {
                ks = ks.push(i as int);
            }
        }
        proof {
            assert forall|m: int| #![trigger r@[m]] 0 <= m < r@.len() implies 0 <= ks[m] < i + 1
                && keep_maximal(cv, ks[m]) && r@[m]@ == cv[ks[m]] by {
                if m < old_r.len() {
                    assert(r@[m] == old_r[m]);
                    assert(ks[m] == old_ks[m]);
                    assert(0 <= old_ks[m] < i && keep_maximal(cv, old_ks[m]));
                    assert(old_r[m]@ == cv[old_ks[m]]);
                } else {
                    assert(ks[m] == i as int);
                    assert(r@[m]@ == cv[i as int]);
                }
            }
            assert forall|k: int|
                0 <= k < i + 1 && #[trigger] keep_maximal(cv, k) implies exists|m: int|
                0 <= m < r@.len() && r@[m]@ == cv[k] by {
                if k < i {
                    let m = choose|m: int| 0 <= m < old_r.len() && old_r[m]@ == cv[k];
                    assert(r@[m] == old_r[m]);
                    assert(r@[m]@ == cv[k]);
                } else {
                    assert(keep_maximal(cv, i as int));
                    assert(r@[r@.len() - 1]@ == cv[i as int]);
                }
            }
        }
        i = i + 1;
    }
    proof {
        lemma_family_membership(seq_views(r@));
        lemma_family_membership(cv);
        lemma_family_finite(cv);
        assert forall|t: Set<usize>|
            family_of(seq_views(r@)).contains(t) implies maximal_sets(fam).contains(t) by {
            let m = choose|m: int| 0 <= m < seq_views(r@).len() && seq_views(r@)[m].to_set() == t;
            assert(r@[m]@.to_set() == t);
            let k = ks[m];
            assert(keep_maximal(cv, k) && r@[m]@ == cv[k]);
            assert(cv[k].to_set() == t);
            assert(fam.contains(t));
            assert forall|u: Set<usize>| fam.contains(u) && t.subset_of(u) implies t == u by {
                let j = choose|j: int| 0 <= j < cv.len() && cv[j].to_set() == u;
                assert(cv[k].to_set().subset_of(cv[j].to_set()));
                assert(cv[k] == cv[j]);
            }
        }
        assert forall|t: Set<usize>|
            maximal_sets(fam).contains(t) implies family_of(seq_views(r@)).contains(t) by {
            let k = choose|k: int| 0 <= k < cv.len() && cv[k].to_set() == t;
            assert(is_maximal_in(cv[k].to_set(), fam));
            lemma_kept_witness(cv, k);
            let k2 = choose|k2: int|
                0 <= k2 <= k && #[trigger] keep_maximal(cv, k2) && cv[k2] == cv[k];
            let m = choose|m: int| 0 <= m < r@.len() && r@[m]@ == cv[k2];
            assert(seq_views(r@)[m].to_set() == t);
        }
        assert(family_of(seq_views(r@)) =~= maximal_sets(fam));
        lemma_family_membership(seq_views(s@));
        assert forall|m: int| 0 <= m < r@.len() implies exists|j: int|
            0 <= j < s@.len() && (#[trigger] r@[m]@).to_set() == s@[j]@.to_set() && r@[m]@.len()
                <= s@[j]@.len() by {
            let t = r@[m]@.to_set();
            assert(seq_views(r@)[m].to_set() == t);
            assert(family_of(seq_views(r@)).contains(t));
            assert(family_of(seq_views(s@)).contains(t));
            let j = choose|j: int| 0 <= j < seq_views(s@).len() && seq_views(s@)[j].to_set() == t;
            crate::family::lemma_sorted_distinct_len(r@[m]@);
            s@[j]@.lemma_cardinality_of_set();
            assert((r@[m]@).to_set() == s@[j]@.to_set() && r@[m]@.len() <= s@[j]@.len());
        }
    }
    r
}

/// The sum of the first `i` entries of `s`, each weighted by an alternating
/// sign starting positive.
pub open spec fn alt_prefix(s: Seq<i32>, i: int) -> int
    decreases i,
{
    if i <= 0 {
        0
    } else {
        alt_prefix(s, i - 1) + (if (i - 1) % 2 == 0 {
            s[i - 1] as int
        } else {
            -(s[i - 1] as int)
        })
    }
}

/// The alternating sum of a sequence.
pub open spec fn spec_alternating_sum(s: Seq<i32>) -> int {
    alt_prefix(s, s.len() as int)
}

/// The absolute value of an integer.
pub open spec fn abs_of(x: int) -> int {
    if x < 0 {
        -x
    } else {
        x
    }
}

/// The sum of the absolute values of the first `i` entries of `s`.
pub open spec fn abs_prefix(s: Seq<i32>, i: int) -> int
    decreases i,
{
    if i <= 0 {
        0
    } else {
        abs_prefix(s, i - 1) + (if s[i - 1] < 0 {
            -(s[i - 1] as int)
        } else {
            s[i - 1] as int
        })
    }
}

/// Every alternating partial sum is bounded by the sum of absolute values.
pub proof fn lemma_alt_prefix_bound(s: Seq<i32>, i: int)
    ensures
        -abs_prefix(s, i) <= alt_prefix(s, i) <= abs_prefix(s, i),
        abs_prefix(s, i) >= 0,
    decreases i,
{
    if i > 0 {
        lemma_alt_prefix_bound(s, i - 1);
    }
}

/// `v[0] - v[1] + v[2] - ...`, the alternating sum of the entries.
pub fn alternating_sum(v: &Vec<i32>) -> (r: i32)
    requires
        abs_prefix(v@, v@.len() as int) <= i32::MAX as int,
    ensures
        r as int == spec_alternating_sum(v@),
{
    let mut acc: i32 = 0;
    let mut i: usize = 0;
    while i < v.len()
        invariant
            0 <= i <= v@.len(),
            abs_prefix(v@, v@.len() as int) <= i32::MAX as int,
            acc as int == alt_prefix(v@, i as int),
        decreases v@.len() - i,
    {
        proof {
            lemma_alt_prefix_bound(v@, i as int);
            lemma_alt_prefix_bound(v@, i + 1);
            lemma_abs_prefix_monotone(v@, i + 1, v@.len() as int);
        }
        if i % 2 == 0 {
            acc = acc + v[i];
        } else {
            acc = acc - v[i];
        }
        i = i + 1;
    }
    acc
}

/// The running absolute sum only grows as the prefix lengthens.
pub proof fn lemma_abs_prefix_monotone(s: Seq<i32>, i: int, j: int)
    requires
        0 <= i <= j,
    ensures
        abs_prefix(s, i) <= abs_prefix(s, j),
    decreases j - i,
{
    if i < j {
        lemma_abs_prefix_monotone(s, i, j - 1);
        lemma_alt_prefix_bound(s, j - 1);
        assert(abs_prefix(s, j) >= abs_prefix(s, j - 1));
    }
}

/// `n` choose `k`, or `None` if the value exceeds `usize::MAX`.
/// Computed by Pascal's rule, one row at a time; within each row only the
/// entries that can still influence `C(n, k)` are updated, so an overflow in
/// an updated entry implies that `C(n, k)` itself overflows.
pub fn binomial(n: usize, k: usize) -> (r: Option<usize>)
    ensures
        r is Some ==> r->0 as int == spec_binomial(n as nat, k as nat),
        r is None ==> spec_binomial(n as nat, k as nat) > usize::MAX as int,
{
    if k > n {
        proof {
            lemma_binomial_above(n as nat, k as nat);
        }
        return Some(0);
    }
    if k == n {
        proof {
            lemma_binomial_diagonal(n as nat);
        }
        return Some(1);
    }
    // row holds C(m, 0), ..., C(m, k) for the current m, exact at least on
    // the window of indices q with k - (n - m) <= q.
    let mut row: Vec<usize> = Vec::new();
    let mut j: usize = 0;
    while j <= k
        invariant
            0 <= j <= k + 1,
            k < n,
            row@.len() == j,
            forall|q: int| 0 <= q < j ==> row@[q] as int == spec_binomial(0, q as nat),
        decreases k + 1 - j,
    {
        if j == 0 {
            row.push(1);
        } else {
            proof {
                lemma_binomial_above(0, j as nat);
            }
            row.push(0);
        }
        j = j + 1;
    }
    let mut m: usize = 0;
    while m < n
        invariant
            0 <= m <= n,
            k < n,
            row@.len() == k + 1,
            forall|q: int|
                0 <= q <= k && k - (n - m) <= q ==> row@[q] as int == spec_binomial(
                    m as nat,
                    q as nat,
                ),
        decreases n - m,
    {
        // Lowest index that can still reach column k in the remaining rows.
        let slack = n - m - 1;
        let lo: usize = if k > slack {
            k - slack
        } else {
            1
        };
        let mut q: usize = k;
        while q >= lo
            invariant
                1 <= lo <= k + 1,
                lo - 1 <= q <= k,
                lo >= k - (n - m - 1),
                lo >= 1,
                k > n - m - 1 ==> lo == k - (n - m - 1),
                0 <= m < n,
                k < n,
                row@.len() == k + 1,
                forall|p: int|
                    0 <= p <= q && k - (n - m) <= p ==> row@[p] as int == spec_binomial(
                        m as nat,
                        p as nat,
                    ),
                forall|p: int|
                    q < p <= k ==> row@[p] as int == spec_binomial(m as nat + 1, p as nat),
            decreases q,
        {
            let sum = row[q].checked_add(row[q - 1]);
            match sum {
                Some(s) => {
                    row.set(q, s);
                },
                None => {
                    proof {
                        lemma_binomial_diag_monotone(
                            m as nat + 1,
                            q as nat,
                            n as nat,
                            k as nat,
                        );
                    }
                    return None;
                },
            }
            q = q - 1;
        }
        m = m + 1;
    }
    Some(row[k])
}

/// `C(n, k) == 0` whenever `k > n`.
pub proof fn lemma_binomial_above(n: nat, k: nat)
    requires
        k > n,
    ensures
        spec_binomial(n, k) == 0,
    decreases n,
{
    if n > 0 {
        lemma_binomial_above((n - 1) as nat, (k - 1) as nat);
        lemma_binomial_above((n - 1) as nat, k);
    }
}

/// `C(n, n) == 1`.
pub proof fn lemma_binomial_diagonal(n: nat)
    ensures
        spec_binomial(n, n) == 1,
    decreases n,
{
    if n > 0 {
        lemma_binomial_diagonal((n - 1) as nat);
        lemma_binomial_above((n - 1) as nat, n);
    }
}

/// Walking down-right in Pascal's triangle never shrinks the entry:
/// `C(a, b) <= C(c, d)` when `b <= d` and the row surplus `c - a` covers the
/// column surplus `d - b`.
proof fn lemma_binomial_diag_monotone(a: nat, b: nat, c: nat, d: nat)
    requires
        a <= c,
        b <= d,
        d - b <= c - a,
    ensures
        spec_binomial(a, b) <= spec_binomial(c, d),
    decreases c - a,
{
    if a == c {
        assert(b == d);
    } else if b < d {
        lemma_binomial_diag_monotone(a, b, (c - 1) as nat, (d - 1) as nat);
        assert(spec_binomial(c, d) == spec_binomial((c - 1) as nat, (d - 1) as nat)
            + spec_binomial((c - 1) as nat, d));
    } else {
        lemma_binomial_diag_monotone(a, b, (c - 1) as nat, d);
        if d > 0 {
            assert(spec_binomial(c, d) == spec_binomial((c - 1) as nat, (d - 1) as nat)
                + spec_binomial((c - 1) as nat, d));
        }
    }
}


/// `r@ == v@.remove(i)`: the list with position `i` deleted.
pub(crate) fn remove_at(v: &Vec<usize>, i: usize) -> (r: Vec<usize>)
    requires
        0 <= i < v@.len(),
    ensures
        r@ == v@.remove(i as int),
{
    let n = v.len();
    let mut w: Vec<usize> = Vec::new();
    let mut j: usize = 0;
    while j < n
        invariant
            0 <= j <= n,
            0 <= i < n,
            n == v@.len(),
            j <= i ==> w@ == v@.subrange(0, j as int),
            j > i ==> w@ == v@.subrange(0, i as int) + v@.subrange(i + 1, j as int),
        decreases n - j,
    {
        if j != i {
            w.push(v[j]);
        }
        proof {
            if j + 1 <= i {
                assert(w@ =~= v@.subrange(0, j + 1));
            } else if j == i {
                assert(w@ =~= v@.subrange(0, i as int) + v@.subrange(i + 1, i + 1));
            } else {
                assert(w@ =~= v@.subrange(0, i as int) + v@.subrange(i + 1, j + 1));
            }
        }
        j = j + 1;
    }
    proof {
        assert(w@ =~= v@.remove(i as int));
    }
    w
}

/// Some entry of `vs` is the list `c`.
pub open spec fn list_in(vs: Seq<Seq<usize>>, c: Seq<usize>) -> bool {
    exists|m: int| 0 <= m < vs.len() && vs[m] == c
}

/// Some entry of `vs` denotes the set `t`.
pub open spec fn set_in(vs: Seq<Seq<usize>>, t: Set<usize>) -> bool {
    exists|m: int| 0 <= m < vs.len() && vs[m].to_set() == t
}

/// Every one-element deletion of `c` occurs in `kept`.
pub open spec fn deletions_present(c: Seq<usize>, kept: Seq<Seq<usize>>) -> bool {
    forall|i: int| 0 <= i < c.len() ==> list_in(kept, #[trigger] c.remove(i))
}

/// Decides `deletions_present` by scanning `kept` for each deletion.
fn deletions_present_exec(c: &Vec<usize>, kept: &Vec<Vec<usize>>) -> (r: bool)
    ensures
        r == deletions_present(c@, seq_views(kept@)),
{
    let mut i: usize = 0;
    while i < c.len()
        invariant
            0 <= i <= c@.len(),
            forall|p: int| 0 <= p < i ==> list_in(seq_views(kept@), #[trigger] c@.remove(p)),
        decreases c@.len() - i,
    {
        let d = remove_at(c, i);
        if !vecs_member(kept, &d) {
            proof {
                assert(!list_in(seq_views(kept@), c@.remove(i as int)));
            }
            return false;
        }
        proof {
            assert(list_in(seq_views(kept@), c@.remove(i as int)));
        }
        i = i + 1;
    }
    true
}

/// For a canonical member of the family, having all deletions in `kept` is
/// the downward-closure membership test, provided `kept` is sound and
/// complete below size `l`.
proof fn lemma_layer_test(c: Seq<usize>, kept: Seq<Seq<usize>>, fam: Set<Set<usize>>, l: int)
    requires
        sorted_distinct(c),
        c.len() == l,
        l >= 1,
        fam.contains(c.to_set()),
        forall|m: int|
            0 <= m < kept.len() ==> sorted_distinct(#[trigger] kept[m]) && down_kept(
                fam,
                kept[m].to_set(),
            ),
        forall|t: Set<usize>| #[trigger]
            down_kept(fam, t) && t.finite() && t.len() < l ==> set_in(kept, t),
    ensures
        deletions_present(c, kept) == down_kept(fam, c.to_set()),
{
    let t = c.to_set();
    lemma_sorted_distinct_len(c);
    if deletions_present(c, kept) {
        assert forall|x: usize| #[trigger] t.contains(x) implies down_kept(fam, t.remove(x)) by {
            let i = choose|i: int| 0 <= i < c.len() && c[i] == x;
            lemma_sorted_remove_set(c, i);
            assert(list_in(kept, c.remove(i)));
            let m = choose|m: int| 0 <= m < kept.len() && kept[m] == c.remove(i);
            assert(down_kept(fam, kept[m].to_set()));
            assert(kept[m].to_set() == t.remove(x));
        }
        assert(down_kept(fam, t));
    }
    if down_kept(fam, t) {
        assert forall|i: int| 0 <= i < c.len() implies list_in(kept, #[trigger] c.remove(i)) by {
            let x = c[i];
            assert(c.contains(x));
            assert(t.contains(x));
            lemma_sorted_remove_set(c, i);
            let d = c.remove(i);
            assert(down_kept(fam, t.remove(x)));
            assert(down_kept(fam, d.to_set()));
            assert(d.to_set().len() == d.len()) by {
                lemma_sorted_distinct_len(d);
            }
            assert(set_in(kept, d.to_set()));
            let m = choose|m: int| 0 <= m < kept.len() && kept[m].to_set() == d.to_set();
            lemma_sorted_distinct_canonical(kept[m], d);
            assert(kept[m] == d);
        }
        assert(deletions_present(c, kept));
    }
}

/// The initial accumulator of the downward closure: only the empty set.
proof fn lemma_down_core_base(fam: Set<Set<usize>>, kept: Seq<Seq<usize>>)
    requires
        kept.len() == 1,
        kept[0] == Seq::<usize>::empty(),
    ensures
        forall|m: int|
            0 <= m < kept.len() ==> sorted_distinct(#[trigger] kept[m]) && down_kept(
                fam,
                kept[m].to_set(),
            ),
        forall|t: Set<usize>| #[trigger]
            down_kept(fam, t) && t.finite() && t.len() < 1 ==> set_in(kept, t),
{
    assert(kept[0].to_set() =~= Set::<usize>::empty());
    assert(kept[0].to_set().len() == 0);
    assert(down_kept(fam, kept[0].to_set()));
    assert forall|t: Set<usize>| #[trigger]
        down_kept(fam, t) && t.finite() && t.len() < 1 implies set_in(kept, t) by {
        assert(t =~= Set::<usize>::empty());
        assert(kept[0].to_set() == t);
    }
}

/// What the layered pass accumulates: the downward-closed core of the family.
proof fn lemma_kept_is_down_core(
    canon: Seq<Seq<usize>>,
    kept: Seq<Seq<usize>>,
    fam: Set<Set<usize>>,
    maxlen: int,
)
    requires
        maxlen >= 0,
        fam == family_of(canon),
        forall|q: int| 0 <= q < canon.len() ==> sorted_distinct(#[trigger] canon[q]),
        forall|q: int| 0 <= q < canon.len() ==> (#[trigger] canon[q]).len() <= maxlen,
        forall|m: int|
            0 <= m < kept.len() ==> sorted_distinct(#[trigger] kept[m]) && down_kept(
                fam,
                kept[m].to_set(),
            ),
        forall|t: Set<usize>| #[trigger]
            down_kept(fam, t) && t.finite() && t.len() <= maxlen ==> set_in(kept, t),
    ensures
        family_of(kept) == down_core(fam),
{
    lemma_family_membership(kept);
    lemma_family_membership(canon);
    assert forall|t: Set<usize>| family_of(kept).contains(t) implies down_core(fam).contains(
        t,
    ) by {
        let m = choose|m: int| 0 <= m < kept.len() && kept[m].to_set() == t;
        broadcast use vstd::seq_lib::seq_to_set_is_finite;

        assert(down_kept(fam, t) && t.finite());
    }
    assert forall|t: Set<usize>| down_core(fam).contains(t) implies family_of(kept).contains(
        t,
    ) by {
        if t.len() == 0 {
            assert(t.len() <= maxlen);
        } else {
            assert(fam.contains(t));
            let q = choose|q: int| 0 <= q < canon.len() && canon[q].to_set() == t;
            lemma_sorted_distinct_len(canon[q]);
            assert(t.len() <= maxlen);
        }
        assert(down_kept(fam, t) && t.finite() && t.len() <= maxlen);
        assert(set_in(kept, t));
        let m = choose|m: int| 0 <= m < kept.len() && kept[m].to_set() == t;
        assert(family_of(kept).contains(t));
    }
    assert(family_of(kept) =~= down_core(fam));
}

/// Whether `c` is a layer-`l` candidate whose deletions are all kept.
fn layer_decision(c: &Vec<usize>, kept: &Vec<Vec<usize>>, l: usize) -> (r: bool)
    ensures
        r == (c@.len() == l && deletions_present(c@, seq_views(kept@))),
{
    c.len() == l && deletions_present_exec(c, kept)
}

/// Relies on rayon's `par_iter().map(...).collect()`: the collected vector
/// holds the closure's result for each element, in the elements' order.
#[verifier::external_body]
fn par_layer_flags(canon: &Vec<Vec<usize>>, kept: &Vec<Vec<usize>>, l: usize) -> (r: Vec<bool>)
    ensures
        r@.len() == canon@.len(),
        forall|q: int|
            0 <= q < canon@.len() ==> r@[q] == ((#[trigger] canon@[q])@.len() == l
                && deletions_present(canon@[q]@, seq_views(kept@))),
{
    canon.par_iter().map(|c| layer_decision(c, kept, l)).collect()
}

/// The layered downward-closure pass: returns the whole downward-closed core
/// of the family, one canonical list per kept occurrence.  With `parallel`
/// the candidates of each layer are decided concurrently.
fn downward_closed_kept(s: &Vec<Vec<usize>>, parallel: bool) -> (kept: Vec<Vec<usize>>)
    ensures
        family_of(seq_views(kept@)) == down_core(family_of(seq_views(s@))),
{
    let mut canon: Vec<Vec<usize>> = Vec::new();
    let mut idx: usize = 0;
    while idx < s.len()
        invariant
            0 <= idx <= s@.len(),
            canon@.len() == idx,
            forall|k: int|
                0 <= k < idx ==> sorted_distinct(#[trigger] canon@[k]@) && canon@[k]@.to_set()
                    == s@[k]@.to_set(),
        decreases s@.len() - idx,
    {
        canon.push(canonicalize(&s[idx]));
        idx = idx + 1;
    }
    let ghost cv = seq_views(canon@);
    proof {
        lemma_family_eq_pointwise(cv, seq_views(s@));
    }
    let ghost fam = family_of(cv);
    let mut maxlen: usize = 0;
    let mut q: usize = 0;
    while q < canon.len()
        invariant
            0 <= q <= canon@.len(),
            forall|p: int| 0 <= p < q ==> (#[trigger] canon@[p]@).len() <= maxlen,
        decreases canon@.len() - q,
    {
        if canon[q].len() > maxlen {
            maxlen = canon[q].len();
        }
        q = q + 1;
    }
    let mut kept: Vec<Vec<usize>> = Vec::new();
    kept.push(Vec::new());
    proof {
        assert(seq_views(kept@).len() == 1);
        assert(seq_views(kept@)[0] == kept@[0]@);
        assert(seq_views(kept@)[0] =~= Seq::<usize>::empty());
        lemma_down_core_base(fam, seq_views(kept@));
        assert forall|m: int|
            #![all_triggers]
            0 <= m < kept@.len() implies sorted_distinct(kept@[m]@) && down_kept(
            fam,
            kept@[m]@.to_set(),
        ) by {
            assert(seq_views(kept@)[m] == kept@[m]@);
        }
    }
    let mut lm: usize = 0;
    while lm < maxlen
        invariant
            0 <= lm <= maxlen,
            cv == seq_views(canon@),
            fam == family_of(cv),
            forall|k: int| 0 <= k < cv.len() ==> sorted_distinct(#[trigger] cv[k]),
            forall|k: int| 0 <= k < cv.len() ==> (#[trigger] cv[k]).len() <= maxlen,
            forall|m: int|
                #![all_triggers]
                0 <= m < kept@.len() ==> sorted_distinct(kept@[m]@) && down_kept(
                    fam,
                    kept@[m]@.to_set(),
                ),
            forall|t: Set<usize>| #[trigger]
                down_kept(fam, t) && t.finite() && t.len() <= lm ==> set_in(seq_views(kept@), t),
        decreases maxlen - lm,
    {
        let l = lm + 1;
        let flags: Vec<bool> = if parallel {
            par_layer_flags(&canon, &kept, l)
        } else {
            Vec::new()
        };
        let mut newly: Vec<Vec<usize>> = Vec::new();
        let mut idx: usize = 0;
        while idx < canon.len()
            invariant
                0 <= idx <= canon@.len(),
                l == lm + 1,
                lm < maxlen,
                cv == seq_views(canon@),
                fam == family_of(cv),
                forall|k: int| 0 <= k < cv.len() ==> sorted_distinct(#[trigger] cv[k]),
                parallel ==> flags@.len() == canon@.len(),
                parallel ==> forall|p: int|
                    0 <= p < canon@.len() ==> flags@[p] == ((#[trigger] canon@[p])@.len() == l
                        && deletions_present(canon@[p]@, seq_views(kept@))),
                forall|m: int|
                    #![all_triggers]
                    0 <= m < kept@.len() ==> sorted_distinct(kept@[m]@) && down_kept(
                        fam,
                        kept@[m]@.to_set(),
                    ),
                forall|t: Set<usize>| #[trigger]
                    down_kept(fam, t) && t.finite() && t.len() <= lm ==> set_in(
                        seq_views(kept@),
                        t,
                    ),
                forall|m2: int|
                    #![all_triggers]
                    0 <= m2 < newly@.len() ==> sorted_distinct(newly@[m2]@) && down_kept(
                        fam,
                        newly@[m2]@.to_set(),
                    ),
                forall|q2: int|
                    0 <= q2 < idx && (#[trigger] cv[q2]).len() == l && down_kept(
                        fam,
                        cv[q2].to_set(),
                    ) ==> list_in(seq_views(newly@), cv[q2]),
            decreases canon@.len() - idx,
        {
            let ok: bool = if parallel {
                flags[idx]
            } else {
                layer_decision(&canon[idx], &kept, l)
            };
            proof {
                lemma_family_membership(cv);
                if cv[idx as int].len() == l {
                    assert(0 <= idx < cv.len());
                    assert(fam.contains(cv[idx as int].to_set()));
                    assert forall|t: Set<usize>| #[trigger]
                        down_kept(fam, t) && t.finite() && t.len() < l as int implies set_in(
                        seq_views(kept@),
                        t,
                    ) by {
                        assert(t.len() <= lm);
                    }
                    lemma_layer_test(cv[idx as int], seq_views(kept@), fam, l as int);
                } else {
                    lemma_sorted_distinct_len(cv[idx as int]);
                    assert(cv[idx as int].to_set().len() != l);
                    assert(!(cv[idx as int].len() == l && deletions_present(
                        cv[idx as int],
                        seq_views(kept@),
                    )));
                }
                assert(ok == (cv[idx as int].len() == l && down_kept(
                    fam,
                    cv[idx as int].to_set(),
                )));
            }
            let ghost old_newly = newly@;
            if ok {
                let element = canonicalize(&canon[idx]);
                proof {
                    lemma_sorted_distinct_canonical(element@, cv[idx as int]);
                }
                newly.push(element);
            }
            proof {
                assert forall|q2: int|
                    0 <= q2 < idx + 1 && (#[trigger] cv[q2]).len() == l && down_kept(
                        fam,
                        cv[q2].to_set(),
                    ) implies list_in(seq_views(newly@), cv[q2]) by {
                    if q2 == idx {
                        assert(ok);
                        assert(seq_views(newly@)[newly@.len() - 1] == cv[q2]);
                        assert(list_in(seq_views(newly@), cv[q2]));
                    } else {
                        assert(list_in(seq_views(old_newly), cv[q2]));
                        let m2 = choose|m2: int|
                            0 <= m2 < old_newly.len() && old_newly[m2]@ == cv[q2];
                        assert(seq_views(newly@)[m2] == cv[q2]);
                        assert(list_in(seq_views(newly@), cv[q2]));
                    }
                }
            }
            idx = idx + 1;
        }
        let ghost old_kept = kept@;
        let ghost grown = newly@;
        kept.append(&mut newly);
        proof {
            assert(kept@ == old_kept + grown);
            assert forall|m: int|
                #![all_triggers]
                0 <= m < kept@.len() implies sorted_distinct(kept@[m]@) && down_kept(
                fam,
                kept@[m]@.to_set(),
            ) by {
                if m < old_kept.len() {
                    assert(kept@[m] == old_kept[m]);
                } else {
                    assert(kept@[m] == grown[m - old_kept.len()]);
                }
            }
            assert forall|t: Set<usize>| #[trigger]
                down_kept(fam, t) && t.finite() && t.len() <= lm + 1 implies set_in(
                seq_views(kept@),
                t,
            ) by {
                if t.len() <= lm {
                    assert(set_in(seq_views(old_kept), t));
                    let m = choose|m: int| 0 <= m < old_kept.len() && old_kept[m]@.to_set() == t;
                    assert(kept@[m] == old_kept[m]);
                    assert(seq_views(kept@)[m].to_set() == t);
                    assert(set_in(seq_views(kept@), t));
                } else {
                    assert(t.len() == l && t.len() > 0);
                    assert(fam.contains(t));
                    lemma_family_membership(cv);
                    let q2 = choose|q2: int| 0 <= q2 < cv.len() && cv[q2].to_set() == t;
                    lemma_sorted_distinct_len(cv[q2]);
                    assert(cv[q2].len() == l);
                    assert(list_in(seq_views(grown), cv[q2]));
                    let m2 = choose|m2: int| 0 <= m2 < grown.len() && grown[m2]@ == cv[q2];
                    assert(kept@[old_kept.len() + m2] == grown[m2]);
                    assert(seq_views(kept@)[old_kept.len() + m2].to_set() == t);
                    assert(set_in(seq_views(kept@), t));
                }
            }
        }
        lm = lm + 1;
    }
    proof {
        lemma_kept_is_down_core(cv, seq_views(kept@), fam, maxlen as int);
    }
    kept
}

/// Compresses the downward-closed core to its maximal members and carries the
/// result's properties back to the original input family.
fn finish_downward(s: Vec<Vec<usize>>, kept: Vec<Vec<usize>>) -> (r: Vec<Vec<usize>>)
    requires
        family_of(seq_views(kept@)) == down_core(family_of(seq_views(s@))),
    ensures
        forall|i: int| 0 <= i < r@.len() ==> sorted_distinct(#[trigger] r@[i]@),
        forall|i: int, j: int| 0 <= i < j < r@.len() ==> r@[i]@ != r@[j]@,
        family_of(seq_views(r@)) == maximal_sets(down_core(family_of(seq_views(s@)))),
        forall|i: int|
            0 <= i < r@.len() ==> r@[i]@.len() == 0 || exists|j: int|
                0 <= j < s@.len() && (#[trigger] r@[i]@).to_set() == s@[j]@.to_set() && r@[i]@.len()
                    <= s@[j]@.len(),
{
    let ghost fam = family_of(seq_views(s@));
    let r = filter_maximal_sets(kept);
    proof {
        lemma_family_membership(seq_views(r@));
        lemma_family_membership(seq_views(s@));
        assert forall|i: int| 0 <= i < r@.len() implies r@[i]@.len() == 0 || exists|j: int|
            0 <= j < s@.len() && (#[trigger] r@[i]@).to_set() == s@[j]@.to_set() && r@[i]@.len()
                <= s@[j]@.len() by {
            let t = r@[i]@.to_set();
            assert(seq_views(r@)[i].to_set() == t);
            assert(family_of(seq_views(r@)).contains(t));
            assert(down_core(fam).contains(t));
            crate::family::lemma_sorted_distinct_len(r@[i]@);
            if r@[i]@.len() != 0 {
                assert(t.len() != 0);
                assert(down_kept(fam, t));
                assert(fam.contains(t));
                let j = choose|j: int| 0 <= j < seq_views(s@).len() && seq_views(s@)[j].to_set() == t;
                s@[j]@.lemma_cardinality_of_set();
                assert((r@[i]@).to_set() == s@[j]@.to_set() && r@[i]@.len() <= s@[j]@.len());
            }
        }
    }
    r
}


/// Given a collection of vertex lists, returns the maximal members of its
/// downward-closed core: a set is kept exactly when it occurs in the
/// collection and every set obtained by deleting one element is kept, layer
/// by layer of increasing size, starting from the empty set.
pub fn filter_downward_closed_sets(s: Vec<Vec<usize>>) -> (r: Vec<Vec<usize>>)
    ensures
        forall|i: int| 0 <= i < r@.len() ==> sorted_distinct(#[trigger] r@[i]@),
        forall|i: int, j: int| 0 <= i < j < r@.len() ==> r@[i]@ != r@[j]@,
        family_of(seq_views(r@)) == maximal_sets(down_core(family_of(seq_views(s@)))),
        forall|i: int|
            0 <= i < r@.len() ==> r@[i]@.len() == 0 || exists|j: int|
                0 <= j < s@.len() && (#[trigger] r@[i]@).to_set() == s@[j]@.to_set() && r@[i]@.len()
                    <= s@[j]@.len(),
{
    let kept = downward_closed_kept(&s, false);
    finish_downward(s, kept)
}

/// The parallel variant of `filter_downward_closed_sets`: within each layer
/// the candidates are decided concurrently; layers are still processed in
/// strictly increasing size order, since a layer's membership test reads the
/// previous layers' results.
pub fn par_filter_downward_closed_sets(s: Vec<Vec<usize>>) -> (r: Vec<Vec<usize>>)
    ensures
        forall|i: int| 0 <= i < r@.len() ==> sorted_distinct(#[trigger] r@[i]@),
        forall|i: int, j: int| 0 <= i < j < r@.len() ==> r@[i]@ != r@[j]@,
        family_of(seq_views(r@)) == maximal_sets(down_core(family_of(seq_views(s@)))),
        forall|i: int|
            0 <= i < r@.len() ==> r@[i]@.len() == 0 || exists|j: int|
                0 <= j < s@.len() && (#[trigger] r@[i]@).to_set() == s@[j]@.to_set() && r@[i]@.len()
                    <= s@[j]@.len(),
{
    let kept = downward_closed_kept(&s, true);
    finish_downward(s, kept)
}

} // verus!
