//! A single face of a simplicial complex: an ordered collection of distinct
//! vertex identifiers, canonically sorted ascending by `sort`.

use crate::family::sorted_distinct;
use itertools::Itertools;
use vstd::prelude::*;

verus! {

/// One face, given by its vertices.  Canonical form is strictly ascending order.
#[derive(Debug, Clone)]
pub struct Facet {
    pub vertices: Vec<usize>,
}

/// `v@.contains(x)`, decided by a linear scan.
pub fn vec_contains(v: &Vec<usize>, x: usize) -> (r: bool)
    ensures
        r == v@.contains(x),
{
    let mut i: usize = 0;
    while i < v.len()
        invariant
            0 <= i <= v@.len(),
            forall|k: int| 0 <= k < i ==> v@[k] != x,
        decreases v@.len() - i,
    {
        if v[i] == x {
            return true;
        }
        i = i + 1;
    }
    false
}

/// The entries of `v` that are (when `keep` holds) or are not (otherwise)
/// entries of `w`, in their order in `v`.
fn filter_by_membership(v: &Vec<usize>, w: &Vec<usize>, keep: bool) -> (r: Vec<usize>)
    ensures
        keep ==> r@ == v@.filter(|x: usize| w@.contains(x)),
        !keep ==> r@ == v@.filter(|x: usize| !w@.contains(x)),
{
    broadcast use vstd::seq_lib::group_filter_ensures;

    let pred = Ghost(
        if keep {
            |x: usize| w@.contains(x)
        } else {
            |x: usize| !w@.contains(x)
        },
    );
    let mut r: Vec<usize> = Vec::new();
    let mut i: usize = 0;
    proof {
        assert(v@.take(0) =~= Seq::<usize>::empty());
        reveal_with_fuel(Seq::<usize>::filter, 2);
    }
    while i < v.len()
        invariant
            0 <= i <= v@.len(),
            pred@ == (if keep {
                |x: usize| w@.contains(x)
            } else {
                |x: usize| !w@.contains(x)
            }),
            r@ == v@.take(i as int).filter(pred@),
        decreases v@.len() - i,
    {
        let x = v[i];
        let is_member = vec_contains(w, x);
        proof {
            reveal_with_fuel(Seq::<usize>::filter, 2);
            assert(v@.take(i + 1) =~= v@.take(i as int) + seq![v@[i as int]]);
            Seq::<usize>::filter_distributes_over_add(v@.take(i as int), seq![v@[i as int]], pred@);
            assert(seq![v@[i as int]].drop_last() =~= Seq::<usize>::empty());
        }
        if is_member == keep {
            r.push(x);
        }
        i = i + 1;
    }
    proof {
        assert(v@.take(v@.len() as int) =~= v@);
    }
    r
}

/// Relies on `itertools::Itertools::sorted`: the returned iterator yields the
/// same elements, rearranged into ascending order.
#[verifier::external_body]
pub(crate) fn sorted_usizes(v: &Vec<usize>) -> (r: Vec<usize>)
    ensures
        r@.len() == v@.len(),
        r@.to_set() == v@.to_set(),
        forall|i: int, j: int| 0 <= i < j < r@.len() ==> r@[i] <= r@[j],
{
    v.iter().copied().sorted().collect()
}

impl Facet {
    /// The vertex set this face denotes.
    pub open spec fn vset(self) -> Set<usize> {
        self.vertices@.to_set()
    }

    /// Canonical form: vertices strictly ascending (hence distinct).
    pub open spec fn canonical(self) -> bool {
        sorted_distinct(self.vertices@)
    }

    /// Builds a face from an arbitrary-order vertex list; no ordering is
    /// guaranteed until `sort` is invoked.
    pub fn new(vertices: Vec<usize>) -> (r: Self)
        ensures
            r.vertices@ == vertices@,
    {
        Facet { vertices }
    }

    /// The same face with its vertices in ascending canonical order.
    pub fn sort(self) -> (r: Self)
        requires
            self.vertices@.no_duplicates(),
        ensures
            r.canonical(),
            r.vset() == self.vset(),
            r.vertices@.len() == self.vertices@.len(),
    {
        let sorted = sorted_usizes(&self.vertices);
        proof {
            self.vertices@.unique_seq_to_set();
            sorted@.lemma_no_dup_set_cardinality();
            assert forall|i: int, j: int| 0 <= i < j < sorted@.len() implies sorted@[i]
                < sorted@[j] by {
                assert(sorted@[i] <= sorted@[j]);
                assert(sorted@[i] != sorted@[j]);
            }
        }
        Facet { vertices: sorted }
    }

    /// `len(vertices) - 1`; the empty face has dimension -1.
    pub fn dimension(&self) -> (r: isize)
        requires
            self.vertices@.len() <= isize::MAX as int,
        ensures
            r as int == self.vertices@.len() - 1,
    {
        if self.vertices.is_empty() {
            return -1;
        }
        (self.vertices.len() - 1) as isize
    }

    /// The faces obtained by deleting exactly one vertex at a time, in the
    /// order of the deleted positions.
    pub fn boundary(&self) -> (r: Vec<Facet>)
        ensures
            r@.len() == self.vertices@.len(),
            forall|i: int| 0 <= i < r@.len() ==> r@[i].vertices@ == self.vertices@.remove(i),
    {
        let n = self.vertices.len();
        let mut r: Vec<Facet> = Vec::new();
        let mut i: usize = 0;
        while i < n
            invariant
                0 <= i <= n,
                n == self.vertices@.len(),
                r@.len() == i,
                forall|k: int| 0 <= k < i ==> r@[k].vertices@ == self.vertices@.remove(k),
            decreases n - i,
        {
            let mut w: Vec<usize> = Vec::new();
            let mut j: usize = 0;
            while j < n
                invariant
                    0 <= j <= n,
                    0 <= i < n,
                    n == self.vertices@.len(),
                    j <= i ==> w@ == self.vertices@.subrange(0, j as int),
                    j > i ==> w@ == self.vertices@.subrange(0, i as int) + self.vertices@.subrange(
                        i + 1,
                        j as int,
                    ),
                decreases n - j,
            {
                if j != i {
                    w.push(self.vertices[j]);
                }
                proof {
                    if j + 1 <= i {
                        assert(w@ =~= self.vertices@.subrange(0, j + 1));
                    } else if j == i {
                        assert(w@ =~= self.vertices@.subrange(0, i as int)
                            + self.vertices@.subrange(i + 1, i + 1));
                    } else {
                        assert(w@ =~= self.vertices@.subrange(0, i as int)
                            + self.vertices@.subrange(i + 1, j + 1));
                    }
                }
                j = j + 1;
            }
            proof {
                assert(w@ =~= self.vertices@.remove(i as int));
            }
            r.push(Facet { vertices: w });
            i = i + 1;
        }
        r
    }

    /// True iff `simplex`'s vertex set is a subset of this face's vertex set.
    pub fn has_subface(&self, simplex: &Facet) -> (r: bool)
        ensures
            r == simplex.vset().subset_of(self.vset()),
    {
        let mut i: usize = 0;
        while i < simplex.vertices.len()
            invariant
                0 <= i <= simplex.vertices@.len(),
                forall|k: int| 0 <= k < i ==> self.vertices@.contains(#[trigger] simplex.vertices@[k]),
            decreases simplex.vertices@.len() - i,
        {
            if !vec_contains(&self.vertices, simplex.vertices[i]) {
                proof {
                    assert(simplex.vset().contains(simplex.vertices@[i as int]));
                }
                return false;
            }
            i = i + 1;
        }
        proof {
            assert forall|x: usize| simplex.vset().contains(x) implies self.vset().contains(x) by {
                let k = choose|k: int| 0 <= k < simplex.vertices@.len() && simplex.vertices@[k] == x;
                assert(self.vertices@.contains(simplex.vertices@[k]));
            }
        }
        true
    }

    /// Removes `simplex`'s vertices from this face.
    pub fn link(self, simplex: &Facet) -> (r: Self)
        ensures
            r.vertices@ == self.vertices@.filter(|x: usize| !simplex.vertices@.contains(x)),
    {
        Facet { vertices: filter_by_membership(&self.vertices, &simplex.vertices, false) }
    }

    /// The complement of this face's vertex set within `universe`, in the
    /// order of `universe`.
    pub fn dual(&self, universe: &Vec<usize>) -> (r: Facet)
        ensures
            r.vertices@ == universe@.filter(|x: usize| !self.vertices@.contains(x)),
    {
        Facet { vertices: filter_by_membership(universe, &self.vertices, false) }
    }
}

impl PartialEq for Facet {
    /// Two faces are equal iff their vertex lists are equal.
    fn eq(&self, other: &Self) -> (r: bool) {
        if self.vertices.len() != other.vertices.len() {
            return false;
        }
        let mut i: usize = 0;
        while i < self.vertices.len()
            invariant
                0 <= i <= self.vertices@.len(),
                self.vertices@.len() == other.vertices@.len(),
                forall|k: int| 0 <= k < i ==> self.vertices@[k] == other.vertices@[k],
            decreases self.vertices@.len() - i,
        {
            if self.vertices[i] != other.vertices[i] {
                return false;
            }
            i = i + 1;
        }
        proof {
            assert(self.vertices@ =~= other.vertices@);
        }
        true
    }
}

impl Eq for Facet {

}

impl vstd::std_specs::cmp::PartialEqSpecImpl for Facet {
    open spec fn obeys_eq_spec() -> bool {
        true
    }

    open spec fn eq_spec(&self, other: &Facet) -> bool {
        self.vertices@ == other.vertices@
    }
}

/// Concatenates two vertex-disjoint faces.
pub fn simplex_join(sigma: &Facet, tau: &Facet) -> (r: Facet)
    requires
        sigma.vset().disjoint(tau.vset()),
    ensures
        r.vertices@ == sigma.vertices@ + tau.vertices@,
{
    let mut v: Vec<usize> = Vec::new();
    let mut i: usize = 0;
    while i < sigma.vertices.len()
        invariant
            0 <= i <= sigma.vertices@.len(),
            v@ == sigma.vertices@.subrange(0, i as int),
        decreases sigma.vertices@.len() - i,
    {
        v.push(sigma.vertices[i]);
        proof {
            assert(v@ =~= sigma.vertices@.subrange(0, i + 1));
        }
        i = i + 1;
    }
    let mut j: usize = 0;
    while j < tau.vertices.len()
        invariant
            0 <= j <= tau.vertices@.len(),
            v@ == sigma.vertices@ + tau.vertices@.subrange(0, j as int),
        decreases tau.vertices@.len() - j,
    {
        v.push(tau.vertices[j]);
        proof {
            assert(v@ =~= sigma.vertices@ + tau.vertices@.subrange(0, j + 1));
        }
        j = j + 1;
    }
    proof {
        assert(sigma.vertices@.subrange(0, sigma.vertices@.len() as int) =~= sigma.vertices@);
        assert(tau.vertices@.subrange(0, tau.vertices@.len() as int) =~= tau.vertices@);
        assert(v@ =~= sigma.vertices@ + tau.vertices@);
    }
    Facet { vertices: v }
}

/// The vertices of `sigma` that also occur in `tau`, in their order in `sigma`.
pub fn simplex_intersection(sigma: &Facet, tau: &Facet) -> (r: Facet)
    ensures
        r.vertices@ == sigma.vertices@.filter(|x: usize| tau.vertices@.contains(x)),
{
    Facet { vertices: filter_by_membership(&sigma.vertices, &tau.vertices, true) }
}


/// Filtering a list by membership in another keeps exactly the common
/// elements: the set of the filtered list is the intersection of the sets.
pub proof fn lemma_filter_membership_set(a: Seq<usize>, b: Seq<usize>)
    ensures
        a.filter(|x: usize| b.contains(x)).to_set() == a.to_set().intersect(b.to_set()),
{
    broadcast use vstd::seq_lib::group_filter_ensures;

    let pred = |x: usize| b.contains(x);
    let f = a.filter(pred);
    lemma_filter_elems(a, pred);
    assert forall|x: usize| f.to_set().contains(x) implies a.to_set().intersect(
        b.to_set(),
    ).contains(x) by {
        let i = choose|i: int| 0 <= i < f.len() && f[i] == x;
        assert(pred(f[i]));
        assert(a.contains(x));
    }
    assert forall|x: usize|
        a.to_set().intersect(b.to_set()).contains(x) implies f.to_set().contains(x) by {
        let i = choose|i: int| 0 <= i < a.len() && a[i] == x;
        assert(pred(a[i]));
        assert(f.contains(a[i]));
    }
    assert(f.to_set() =~= a.to_set().intersect(b.to_set()));
}

/// Filtering a list by non-membership in another keeps exactly the set
/// difference of the two vertex sets.
pub proof fn lemma_filter_nonmembership_set(a: Seq<usize>, b: Seq<usize>)
    ensures
        a.filter(|x: usize| !b.contains(x)).to_set() == a.to_set().difference(b.to_set()),
{
    broadcast use vstd::seq_lib::group_filter_ensures;

    let pred = |x: usize| !b.contains(x);
    let f = a.filter(pred);
    lemma_filter_elems(a, pred);
    assert forall|x: usize| f.to_set().contains(x) implies a.to_set().difference(
        b.to_set(),
    ).contains(x) by {
        let i = choose|i: int| 0 <= i < f.len() && f[i] == x;
        assert(pred(f[i]));
        assert(a.contains(x));
    }
    assert forall|x: usize|
        a.to_set().difference(b.to_set()).contains(x) implies f.to_set().contains(x) by {
        let i = choose|i: int| 0 <= i < a.len() && a[i] == x;
        assert(pred(a[i]));
        assert(f.contains(a[i]));
    }
    assert(f.to_set() =~= a.to_set().difference(b.to_set()));
}

/// Every element of a filtered list is an element of the original.
pub proof fn lemma_filter_elems(a: Seq<usize>, pred: spec_fn(usize) -> bool)
    ensures
        forall|x: usize| #[trigger] a.filter(pred).contains(x) ==> a.contains(x),
    decreases a.len(),
{
    reveal(Seq::filter);
    if a.len() > 0 {
        lemma_filter_elems(a.drop_last(), pred);
        assert forall|x: usize| #[trigger] a.filter(pred).contains(x) implies a.contains(x) by {
            if a.drop_last().filter(pred).contains(x) {
                assert(a.drop_last().contains(x));
                let i = choose|i: int| 0 <= i < a.drop_last().len() && a.drop_last()[i] == x;
                assert(a[i] == x);
            } else {
                assert(x == a.last());
            }
        }
    }
}

} // verus!
