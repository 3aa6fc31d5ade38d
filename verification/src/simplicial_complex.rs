//! A simplicial complex stored as the antichain of its maximal faces, with
//! face enumeration, set algebra, sub-structure queries and the homology
//! pipeline (Euler characteristic and Betti numbers over the two-element
//! field).

use crate::family::{
    down_core, family_of, is_maximal_in, k_faces_set, lemma_exists_maximal_superset,
    lemma_family_eq_pointwise, lemma_family_finite, lemma_family_membership,
    lemma_maximal_idempotent, lemma_sorted_distinct_canonical, lemma_sorted_distinct_len,
    maximal_sets, sorted_distinct, spec_binomial, vertex_set_of,
};
use crate::linear_algebra::{
    diagonal_form, gaussian_elimination, gf2_of, gf2_reachable, mat_entries, mat_width, rect_of,
    spec_rank, Matrix,
};
use crate::simplex::Facet;
use crate::utils::{
    canonicalize, filter_maximal_sets, get_subvectors, list_in, seq_views, set_in, vec_subset,
};
use crate::ComplexError;
use rayon::iter::{IntoParallelIterator, ParallelIterator};
use vstd::prelude::*;

verus! {

/// A finite simplicial complex: a set of facets forming an antichain under
/// vertex-set containment.  Every face of every facet belongs to the complex
/// implicitly; faces of a given dimension are enumerated on demand.
#[derive(Debug, Clone)]
pub struct SimplicialComplex {
    facets: Vec<Facet>,
}

impl SimplicialComplex {
    /// The facets' vertex lists.
    pub closed spec fn facet_seqs(self) -> Seq<Seq<usize>> {
        self.facets@.map_values(|f: Facet| f.vertices@)
    }

    /// The family of facet vertex sets: the complex's mathematical content.
    pub open spec fn family(self) -> Set<Set<usize>> {
        family_of(self.facet_seqs())
    }

    /// Every facet is canonically sorted and of machine-representable size.
    pub open spec fn wf(self) -> bool {
        forall|i: int|
            0 <= i < self.facet_seqs().len() ==> sorted_distinct(#[trigger] self.facet_seqs()[i])
                && self.facet_seqs()[i].len() <= isize::MAX as int
    }

    /// Well-formed, with the facets a duplicate-free antichain: what every
    /// public constructor establishes.
    pub open spec fn normal(self) -> bool {
        self.wf() && self.family() == maximal_sets(self.family()) && (forall|i: int, j: int|
            0 <= i < j < self.facet_seqs().len() ==> self.facet_seqs()[i] != self.facet_seqs()[j])
    }

    /// The dimension of the complex: -1 when there are no facets, else the
    /// largest facet dimension.
    pub open spec fn dim_spec(self) -> int {
        if self.facet_seqs().len() == 0 {
            -1
        } else {
            max_seq_len(self.facet_seqs()) - 1
        }
    }

    /// Builds a complex from vertex lists: only the maximal sets are kept,
    /// each canonically sorted.
    pub fn new_from_vec(v: Vec<Vec<usize>>) -> (r: Self)
        requires
            forall|i: int| 0 <= i < v@.len() ==> (#[trigger] v@[i]@).len() <= isize::MAX as int,
        ensures
            r.normal(),
            r.family() == maximal_sets(family_of(seq_views(v@))),
    {
        let lists = filter_maximal_sets(v);
        let mut facets: Vec<Facet> = Vec::new();
        let mut i: usize = 0;
        while i < lists.len()
            invariant
                0 <= i <= lists@.len(),
                facets@.len() == i,
                forall|k: int|
                    0 <= k < lists@.len() ==> sorted_distinct(#[trigger] lists@[k]@),
                forall|k: int| 0 <= k < i ==> (#[trigger] facets@[k]).vertices@ == lists@[k]@,
            decreases lists@.len() - i,
        {
            let element = canonicalize(&lists[i]);
            proof {
                lemma_sorted_distinct_canonical(element@, lists@[i as int]@);
            }
            facets.push(Facet { vertices: element });
            i = i + 1;
        }
        let r = SimplicialComplex { facets };
        proof {
            assert forall|k: int|
                0 <= k < r.facet_seqs().len() implies r.facet_seqs()[k] == lists@[k]@ by {}
            assert(r.facet_seqs() =~= seq_views(lists@));
            assert(r.family() == maximal_sets(family_of(seq_views(v@))));
            lemma_maximal_idempotent(family_of(seq_views(v@)));
            assert(maximal_sets(r.family()) == r.family());
            assert forall|k: int|
                0 <= k < r.facet_seqs().len() implies sorted_distinct(#[trigger] r.facet_seqs()[k])
                    && r.facet_seqs()[k].len() <= isize::MAX as int by {
                let j = choose|j: int|
                    0 <= j < v@.len() && (#[trigger] lists@[k]@).to_set() == v@[j]@.to_set()
                        && lists@[k]@.len() <= v@[j]@.len();
            }
        }
        r
    }

    /// Builds a complex from faces: only the maximal ones are kept, each
    /// canonically sorted.
    pub fn new(facets: Vec<Facet>) -> (r: Self)
        requires
            forall|i: int|
                0 <= i < facets@.len() ==> (#[trigger] facets@[i]).vertices@.len() <= isize::MAX
                    as int,
        ensures
            r.normal(),
            r.family() == maximal_sets(family_of(facets@.map_values(|f: Facet| f.vertices@))),
    {
        let mut lists: Vec<Vec<usize>> = Vec::new();
        let mut i: usize = 0;
        while i < facets.len()
            invariant
                0 <= i <= facets@.len(),
                lists@.len() == i,
                forall|k: int|
                    0 <= k < facets@.len() ==> (#[trigger] facets@[k]).vertices@.len() <= isize::MAX
                        as int,
                forall|k: int|
                    0 <= k < i ==> (#[trigger] lists@[k]@).to_set() == facets@[k].vertices@.to_set()
                        && lists@[k]@.len() <= facets@[k].vertices@.len(),
            decreases facets@.len() - i,
        {
            lists.push(canonicalize(&facets[i].vertices));
            i = i + 1;
        }
        let r = Self::new_from_vec(lists);
        proof {
            lemma_family_eq_pointwise(seq_views(lists@), facets@.map_values(|f: Facet| f.vertices@));
        }
        r
    }

    /// -1 for the empty complex, else the maximum facet dimension.
    pub fn dimension(&self) -> (r: isize)
        requires
            self.wf(),
        ensures
            r as int == self.dim_spec(),
    {
        if self.facets.is_empty() {
            return -1;
        }
        let mut maxlen: usize = 0;
        let mut i: usize = 0;
        while i < self.facets.len()
            invariant
                0 <= i <= self.facet_seqs().len(),
                self.wf(),
                maxlen == max_seq_len(self.facet_seqs().take(i as int)),
                i > 0 ==> maxlen <= isize::MAX as int,
            decreases self.facet_seqs().len() - i,
        {
            proof {
                assert(self.facet_seqs().take(i + 1).drop_last() =~= self.facet_seqs().take(
                    i as int,
                ));
                assert(self.facet_seqs().take(i + 1).last() == self.facet_seqs()[i as int]);
            }
            if self.facets[i].vertices.len() > maxlen {
                maxlen = self.facets[i].vertices.len();
            }
            i = i + 1;
        }
        proof {
            assert(self.facet_seqs().take(self.facet_seqs().len() as int) =~= self.facet_seqs());
        }
        (maxlen as isize) - 1
    }
}

/// The largest length among a sequence of vertex lists (0 when empty).
pub open spec fn max_seq_len(fs: Seq<Seq<usize>>) -> int
    decreases fs.len(),
{
    if fs.len() == 0 {
        0
    } else {
        let rest = max_seq_len(fs.drop_last());
        if fs.last().len() >= rest {
            fs.last().len() as int
        } else {
            rest
        }
    }
}

/// The maximum length is itself bounded by any bound on the lists.
pub proof fn lemma_max_seq_len_upper(fs: Seq<Seq<usize>>, b: int)
    requires
        b >= 0,
        forall|i: int| 0 <= i < fs.len() ==> (#[trigger] fs[i]).len() <= b,
    ensures
        max_seq_len(fs) <= b,
    decreases fs.len(),
{
    if fs.len() > 0 {
        assert forall|i: int|
            0 <= i < fs.drop_last().len() implies (#[trigger] fs.drop_last()[i]).len() <= b by {
            assert(fs.drop_last()[i] == fs[i]);
        }
        lemma_max_seq_len_upper(fs.drop_last(), b);
        assert(fs.last().len() <= b);
    }
}

/// Every list is at most as long as the maximum.
pub proof fn lemma_max_seq_len(fs: Seq<Seq<usize>>)
    ensures
        max_seq_len(fs) >= 0,
        forall|i: int| 0 <= i < fs.len() ==> (#[trigger] fs[i]).len() <= max_seq_len(fs),
    decreases fs.len(),
{
    if fs.len() > 0 {
        lemma_max_seq_len(fs.drop_last());
        assert forall|i: int| 0 <= i < fs.len() implies (#[trigger] fs[i]).len() <= max_seq_len(
            fs,
        ) by {
            if i < fs.len() - 1 {
                assert(fs.drop_last()[i] == fs[i]);
            }
        }
    }
}


/// The vertex lists of a sequence of faces.
pub open spec fn facet_views(fs: Seq<Facet>) -> Seq<Seq<usize>> {
    fs.map_values(|f: Facet| f.vertices@)
}

/// Whether some face in `rs` has exactly the vertex list `v`.
fn face_member(rs: &Vec<Facet>, v: &Vec<usize>) -> (r: bool)
    ensures
        r == list_in(facet_views(rs@), v@),
{
    let mut m: usize = 0;
    while m < rs.len()
        invariant
            0 <= m <= rs@.len(),
            forall|k: int| 0 <= k < m ==> facet_views(rs@)[k] != v@,
        decreases rs@.len() - m,
    {
        if crate::utils::vecs_equal(&rs[m].vertices, v) {
            proof {
                assert(facet_views(rs@)[m as int] == v@);
            }
            return true;
        }
        m = m + 1;
    }
    false
}

impl SimplicialComplex {
    /// All faces of dimension `dim`: the size-`(dim+1)` subsets of the
    /// facets' vertex sets, each listed once in canonical order.
    pub fn k_faces(&self, dim: usize) -> (r: Vec<Facet>)
        requires
            self.wf(),
            dim < usize::MAX,
        ensures
            forall|m: int|
                0 <= m < r@.len() ==> sorted_distinct((#[trigger] r@[m]).vertices@)
                    && r@[m].vertices@.len() == dim + 1 && k_faces_set(
                    self.family(),
                    dim as int,
                ).contains(r@[m].vertices@.to_set()),
            forall|m1: int, m2: int|
                0 <= m1 < m2 < r@.len() ==> r@[m1].vertices@ != r@[m2].vertices@,
            forall|t: Set<usize>| #[trigger]
                k_faces_set(self.family(), dim as int).contains(t) ==> set_in(facet_views(r@), t),
            r@.len() == k_faces_set(self.family(), dim as int).len(),
    {
        let ghost fam = self.family();
        let mut r: Vec<Facet> = Vec::new();
        let mut fi: usize = 0;
        proof {
            lemma_family_membership(self.facet_seqs());
        }
        while fi < self.facets.len()
            invariant
                0 <= fi <= self.facet_seqs().len(),
                self.wf(),
                fam == self.family(),
                dim < usize::MAX,
                forall|m: int|
                    0 <= m < r@.len() ==> sorted_distinct((#[trigger] r@[m]).vertices@)
                        && r@[m].vertices@.len() == dim + 1 && k_faces_set(fam, dim as int).contains(
                        r@[m].vertices@.to_set(),
                    ),
                forall|m1: int, m2: int|
                    0 <= m1 < m2 < r@.len() ==> r@[m1].vertices@ != r@[m2].vertices@,
                forall|fidx: int, t: Set<usize>|
                    0 <= fidx < fi && t.finite() && t.len() == dim + 1 && #[trigger] t.subset_of(
                        self.facet_seqs()[fidx].to_set(),
                    ) ==> set_in(facet_views(r@), t),
            decreases self.facet_seqs().len() - fi,
        {
            proof {
                lemma_family_membership(self.facet_seqs());
                assert(self.facet_seqs()[fi as int] == self.facets@[fi as int].vertices@);
                assert(sorted_distinct(self.facets@[fi as int].vertices@));
                assert(exists|q: int|
                    0 <= q < self.facet_seqs().len() && self.facet_seqs()[q].to_set()
                        == self.facet_seqs()[fi as int].to_set()) by {
                    assert(self.facet_seqs()[fi as int].to_set() == self.facet_seqs()[
                        fi as int
                    ].to_set());
                }
                assert(fam.contains(self.facet_seqs()[fi as int].to_set()));
                crate::family::lemma_sorted_distinct_no_dup(self.facets@[fi as int].vertices@);
            }
            let combos = get_subvectors(&self.facets[fi].vertices, dim + 1);
            proof {
                assert forall|c: int|
                    0 <= c < combos@.len() implies sorted_distinct(#[trigger] combos@[c]@)
                        && combos@[c]@.to_set().subset_of(
                    self.facets@[fi as int].vertices@.to_set(),
                ) by {
                    crate::family::lemma_subsequence_sorted(
                        combos@[c]@,
                        self.facets@[fi as int].vertices@,
                    );
                    crate::family::lemma_subsequence_elems(
                        combos@[c]@,
                        self.facets@[fi as int].vertices@,
                    );
                }
            }
            let mut ci: usize = 0;
            while ci < combos.len()
                invariant
                    0 <= ci <= combos@.len(),
                    0 <= fi < self.facet_seqs().len(),
                    self.wf(),
                    fam == self.family(),
                    dim < usize::MAX,
                    fam.contains(self.facet_seqs()[fi as int].to_set()),
                    forall|c: int|
                        0 <= c < combos@.len() ==> sorted_distinct(#[trigger] combos@[c]@)
                            && combos@[c]@.len() == dim + 1 && combos@[c]@.to_set().subset_of(
                            self.facets@[fi as int].vertices@.to_set(),
                        ),
                    forall|m: int|
                        0 <= m < r@.len() ==> sorted_distinct((#[trigger] r@[m]).vertices@)
                            && r@[m].vertices@.len() == dim + 1 && k_faces_set(
                            fam,
                            dim as int,
                        ).contains(r@[m].vertices@.to_set()),
                    forall|m1: int, m2: int|
                        0 <= m1 < m2 < r@.len() ==> r@[m1].vertices@ != r@[m2].vertices@,
                    forall|fidx: int, t: Set<usize>|
                        0 <= fidx < fi && t.finite() && t.len() == dim + 1 && #[trigger] t.subset_of(
                            self.facet_seqs()[fidx].to_set(),
                        ) ==> set_in(facet_views(r@), t),
                    forall|c: int|
                        0 <= c < ci ==> set_in(facet_views(r@), (#[trigger] combos@[c]@).to_set()),
                decreases combos@.len() - ci,
            {
                let ghost old_r = r@;
                let present = face_member(&r, &combos[ci]);
                if !present {
                    let element = canonicalize(&combos[ci]);
                    proof {
                        lemma_sorted_distinct_canonical(element@, combos@[ci as int]@);
                        lemma_sorted_distinct_len(combos@[ci as int]@);
                        assert(k_faces_set(fam, dim as int).contains(combos@[ci as int]@.to_set()));
                        assert forall|m: int|
                            0 <= m < old_r.len() implies old_r[m].vertices@ != combos@[ci as int]@ by {
                            assert(facet_views(old_r)[m] != combos@[ci as int]@);
                        }
                    }
                    r.push(Facet { vertices: element });
                    proof {
                        let cs = combos@[ci as int]@;
                        assert(facet_views(r@)[r@.len() - 1].to_set() == cs.to_set());
                        assert(set_in(facet_views(r@), cs.to_set()));
                    }
                } else {
                    proof {
                        let cs = combos@[ci as int]@;
                        let m = choose|m: int|
                            0 <= m < facet_views(r@).len() && facet_views(r@)[m] == cs;
                        assert(facet_views(r@)[m].to_set() == cs.to_set());
                        assert(set_in(facet_views(r@), cs.to_set()));
                    }
                }
                proof {
                    assert forall|fidx: int, t: Set<usize>|
                        0 <= fidx < fi && t.finite() && t.len() == dim + 1 && #[trigger] t.subset_of(
                            self.facet_seqs()[fidx].to_set(),
                        ) implies set_in(facet_views(r@), t) by {
                        let m = choose|m: int|
                            0 <= m < facet_views(old_r).len() && facet_views(old_r)[m].to_set()
                                == t;
                        assert(facet_views(r@)[m].to_set() == t);
                        assert(set_in(facet_views(r@), t));
                    }
                    assert forall|c: int|
                        0 <= c < ci + 1 implies set_in(
                        facet_views(r@),
                        (#[trigger] combos@[c]@).to_set(),
                    ) by {
                        if c < ci {
                            let m = choose|m: int|
                                0 <= m < facet_views(old_r).len() && facet_views(old_r)[m].to_set()
                                    == combos@[c]@.to_set();
                            assert(facet_views(r@)[m].to_set() == combos@[c]@.to_set());
                            assert(set_in(facet_views(r@), combos@[c]@.to_set()));
                        }
                    }
                }
                ci = ci + 1;
            }
            proof {
                assert forall|fidx: int, t: Set<usize>|
                    0 <= fidx < fi + 1 && t.finite() && t.len() == dim + 1 && #[trigger] t.subset_of(
                        self.facet_seqs()[fidx].to_set(),
                    ) implies set_in(facet_views(r@), t) by {
                    if fidx == fi {
                        assert(t.subset_of(self.facets@[fi as int].vertices@.to_set()));
                        let c = choose|c: int|
                            0 <= c < combos@.len() && combos@[c]@.to_set() == t;
                        assert(set_in(facet_views(r@), combos@[c]@.to_set()));
                    }
                }
            }
            fi = fi + 1;
        }
        proof {
            lemma_family_membership(facet_views(r@));
            assert forall|t: Set<usize>| #[trigger]
                k_faces_set(fam, dim as int).contains(t) implies set_in(facet_views(r@), t) by {
                let f = choose|f: Set<usize>| #[trigger] fam.contains(f) && t.subset_of(f);
                let fidx = choose|fidx: int|
                    0 <= fidx < self.facet_seqs().len() && self.facet_seqs()[fidx].to_set() == f;
                assert(t.subset_of(self.facet_seqs()[fidx].to_set()));
            }
            assert forall|t: Set<usize>|
                family_of(facet_views(r@)).contains(t) implies k_faces_set(
                fam,
                dim as int,
            ).contains(t) by {
                let m = choose|m: int|
                    0 <= m < facet_views(r@).len() && facet_views(r@)[m].to_set() == t;
                assert(k_faces_set(fam, dim as int).contains(r@[m].vertices@.to_set()));
            }
            assert forall|t: Set<usize>| #[trigger]
                k_faces_set(fam, dim as int).contains(t) implies family_of(facet_views(
                r@,
            )).contains(t) by {
                assert(set_in(facet_views(r@), t));
                let m = choose|m: int|
                    0 <= m < facet_views(r@).len() && facet_views(r@)[m].to_set() == t;
            }
            assert(family_of(facet_views(r@)) =~= k_faces_set(fam, dim as int));
            assert forall|m: int|
                0 <= m < facet_views(r@).len() implies sorted_distinct(
                #[trigger] facet_views(r@)[m],
            ) by {
                assert(facet_views(r@)[m] == r@[m].vertices@);
            }
            assert forall|m1: int, m2: int|
                0 <= m1 < m2 < facet_views(r@).len() implies facet_views(r@)[m1] != facet_views(
                r@,
            )[m2] by {
                assert(facet_views(r@)[m1] == r@[m1].vertices@);
                assert(facet_views(r@)[m2] == r@[m2].vertices@);
            }
            crate::family::lemma_family_card(facet_views(r@));
        }
        r
    }
}


/// `(-1)^k`.
pub open spec fn pow_neg1(k: int) -> int {
    if k % 2 == 0 {
        1
    } else {
        -1
    }
}

/// The total number of faces of dimension at most `k`.
pub open spec fn face_sum(fam: Set<Set<usize>>, k: int) -> int
    decreases (if k < 0 { 0int } else { k + 1 }),
{
    if k < 0 {
        0
    } else {
        face_sum(fam, k - 1) + k_faces_set(fam, k).len()
    }
}

/// The alternating sum of face counts up to dimension `k`.
pub open spec fn alt_face_sum(fam: Set<Set<usize>>, k: int) -> int
    decreases (if k < 0 { 0int } else { k + 1 }),
{
    if k < 0 {
        0
    } else {
        alt_face_sum(fam, k - 1) + pow_neg1(k) * k_faces_set(fam, k).len()
    }
}

/// Small enough for the homology pipeline's 32-bit arithmetic: the total
/// face count is bounded (a machine limit, not a mathematical one).
impl SimplicialComplex {
    pub open spec fn homology_in_range(self) -> bool {
        face_sum(self.family(), self.dim_spec()) <= 0x1fff_ffff
    }

    /// The Euler characteristic as a mathematical value.
    pub open spec fn euler_spec(self) -> int {
        alt_face_sum(self.family(), self.dim_spec())
    }
}

/// Face sums are nonnegative.
pub proof fn lemma_face_sum_nonneg(fam: Set<Set<usize>>, k: int)
    ensures
        face_sum(fam, k) >= 0,
    decreases (if k < 0 { 0int } else { k + 1 }),
{
    if k >= 0 {
        lemma_face_sum_nonneg(fam, k - 1);
    }
}

/// Face sums are nonnegative and grow with the dimension bound.
pub proof fn lemma_face_sum_monotone(fam: Set<Set<usize>>, j: int, k: int)
    requires
        j <= k,
    ensures
        0 <= face_sum(fam, j) <= face_sum(fam, k),
    decreases k - j,
{
    lemma_face_sum_nonneg(fam, j);
    lemma_face_sum_nonneg(fam, k);
    if j >= 0 && j < k {
        lemma_face_sum_monotone(fam, j, k - 1);
    }
}

/// Each face count is at most the face sum that includes it.
pub proof fn lemma_card_le_face_sum(fam: Set<Set<usize>>, j: int, k: int)
    requires
        0 <= j <= k,
    ensures
        k_faces_set(fam, j).len() <= face_sum(fam, k),
    decreases k - j,
{
    if j < k {
        lemma_card_le_face_sum(fam, j, k - 1);
    } else {
        lemma_face_sum_monotone(fam, j - 1, j - 1);
    }
}

/// The alternating face sum is bounded by the face sum.
pub proof fn lemma_alt_face_sum_bound(fam: Set<Set<usize>>, k: int)
    ensures
        -face_sum(fam, k) <= alt_face_sum(fam, k) <= face_sum(fam, k),
    decreases (if k < 0 { 0int } else { k + 1 }),
{
    if k >= 0 {
        lemma_alt_face_sum_bound(fam, k - 1);
        let c = k_faces_set(fam, k).len() as int;
        assert(c >= 0);
        if k % 2 == 0 {
            assert(pow_neg1(k) == 1);
            assert(pow_neg1(k) * c == 1 * c);
        } else {
            assert(pow_neg1(k) == -1);
            assert(pow_neg1(k) * c == (-1) * c);
        }
    }
}

/// Above the complex's dimension there are no faces.
pub proof fn lemma_no_faces_above(c: SimplicialComplex, k: int)
    requires
        c.wf(),
        k > c.dim_spec(),
        k >= 0,
    ensures
        k_faces_set(c.family(), k) == Set::<Set<usize>>::empty(),
        k_faces_set(c.family(), k).len() == 0,
{
    let fam = c.family();
    lemma_family_membership(c.facet_seqs());
    lemma_max_seq_len(c.facet_seqs());
    assert forall|t: Set<usize>| !(#[trigger] k_faces_set(fam, k).contains(t)) by {
        if k_faces_set(fam, k).contains(t) {
            let f = choose|f: Set<usize>| #[trigger] fam.contains(f) && t.subset_of(f);
            let i = choose|i: int|
                0 <= i < c.facet_seqs().len() && c.facet_seqs()[i].to_set() == f;
            lemma_sorted_distinct_len(c.facet_seqs()[i]);
            vstd::set_lib::lemma_len_subset(t, f);
            assert(t.len() <= c.facet_seqs()[i].len());
            assert(c.facet_seqs()[i].len() <= max_seq_len(c.facet_seqs()));
            assert(t.len() == k + 1 > c.dim_spec() + 1);
            assert(false);
        }
    }
    assert(k_faces_set(fam, k) =~= Set::<Set<usize>>::empty());
}

/// Every face count the pipeline meets is within the machine bound.
pub proof fn lemma_card_bound(c: SimplicialComplex, k: int)
    requires
        c.wf(),
        c.homology_in_range(),
        k >= 0,
    ensures
        0 <= k_faces_set(c.family(), k).len() <= 0x1fff_ffff,
{
    if k <= c.dim_spec() {
        lemma_card_le_face_sum(c.family(), k, c.dim_spec());
    } else {
        lemma_no_faces_above(c, k);
    }
}

/// A list enumerating exactly the dimension-`k` faces, each once, in
/// canonical form: the row or column index of a boundary matrix.
pub open spec fn is_face_list(l: Seq<Seq<usize>>, fam: Set<Set<usize>>, k: int) -> bool {
    (forall|i: int|
        0 <= i < l.len() ==> sorted_distinct(#[trigger] l[i]) && k_faces_set(fam, k).contains(
            l[i].to_set(),
        )) && (forall|i: int, j: int| 0 <= i < j < l.len() ==> l[i] != l[j]) && (forall|
        t: Set<usize>,
    | #[trigger]
        k_faces_set(fam, k).contains(t) ==> set_in(l, t)) && l.len() == k_faces_set(fam, k).len()
}

/// The incidence matrix between the `(k-1)`-faces `lo` and the `k`-faces
/// `hi`: entry `(i, j)` is one exactly when face `i` is contained in face `j`.
pub open spec fn incidence_matrix(lo: Seq<Seq<usize>>, hi: Seq<Seq<usize>>) -> Seq<Seq<int>> {
    Seq::new(
        lo.len(),
        |i: int|
            Seq::new(
                hi.len(),
                |j: int|
                    if lo[i].to_set().subset_of(hi[j].to_set()) {
                        1int
                    } else {
                        0int
                    },
            ),
    )
}

/// `d` is a diagonal reduction of the dimension-`k` boundary matrix of `fam`.
pub open spec fn reduced_boundary(fam: Set<Set<usize>>, k: int, d: Seq<Seq<int>>, w: int) -> bool {
    exists|lo: Seq<Seq<usize>>, hi: Seq<Seq<usize>>|
        is_face_list(lo, fam, k - 1) && is_face_list(hi, fam, k) && gf2_reachable(
            incidence_matrix(lo, hi),
            d,
        ) && diagonal_form(d, w) && w == hi.len() && d.len() == lo.len()
}

/// `b` is the dimension-`k` Betti number of `fam`, computed as the rank and
/// nullity of diagonal reductions of the adjacent boundary matrices: for
/// dimension zero the nullity of the first boundary matrix alone, otherwise
/// `nullity(B_{k+1}) - rank(B_k)`.
pub open spec fn betti_is(fam: Set<Set<usize>>, k: int, b: int) -> bool {
    if k == 0 {
        exists|d: Seq<Seq<int>>, w: int|
            reduced_boundary(fam, 1, d, w) && b == k_faces_set(fam, 0).len() - spec_rank(d, w)
    } else {
        exists|d1: Seq<Seq<int>>, w1: int, d2: Seq<Seq<int>>, w2: int|
            reduced_boundary(fam, k, d1, w1) && reduced_boundary(fam, k + 1, d2, w2) && b == (
            k_faces_set(fam, k).len() - spec_rank(d2, w2)) - spec_rank(d1, w1)
    }
}

impl SimplicialComplex {
    /// The alternating sum of the face counts over all dimensions of the
    /// complex; undefined on the dimension -1 complex.
    pub fn euler_characteristic(&self) -> (r: Result<i32, ComplexError>)
        requires
            self.wf(),
            self.homology_in_range(),
        ensures
            r is Err <==> self.dim_spec() < 0,
            r is Err ==> r == Err::<i32, ComplexError>(ComplexError::UndefinedOnEmpty),
            r is Ok ==> r->Ok_0 as int == self.euler_spec(),
    {
        let ghost fam = self.family();
        let d_isize = self.dimension();
        if d_isize < 0 {
            return Err(ComplexError::UndefinedOnEmpty);
        }
        let d = d_isize as usize;
        let mut counts: Vec<i32> = Vec::new();
        let mut k: usize = 0;
        while k <= d
            invariant
                0 <= k <= d + 1,
                d == self.dim_spec(),
                fam == self.family(),
                self.wf(),
                self.homology_in_range(),
                d < usize::MAX,
                counts@.len() == k,
                forall|j: int|
                    0 <= j < k ==> (#[trigger] counts@[j]) as int == k_faces_set(fam, j).len()
                        && counts@[j] >= 0,
            decreases d + 1 - k,
        {
            let faces = self.k_faces(k);
            proof {
                lemma_card_bound(*self, k as int);
            }
            counts.push(faces.len() as i32);
            k = k + 1;
        }
        proof {
            lemma_counts_sums(counts@, fam, (d + 1) as int);
            lemma_face_sum_monotone(fam, d as int, d as int);
        }
        let s = crate::utils::alternating_sum(&counts);
        Ok(s)
    }
}

/// A vector of the face counts turns prefix sums into face sums.
proof fn lemma_counts_sums(counts: Seq<i32>, fam: Set<Set<usize>>, i: int)
    requires
        0 <= i <= counts.len(),
        forall|j: int|
            0 <= j < counts.len() ==> (#[trigger] counts[j]) as int == k_faces_set(fam, j).len()
                && counts[j] >= 0,
    ensures
        crate::utils::abs_prefix(counts, i) == face_sum(fam, i - 1),
        crate::utils::alt_prefix(counts, i) == alt_face_sum(fam, i - 1),
    decreases i,
{
    if i > 0 {
        lemma_counts_sums(counts, fam, i - 1);
        let c = k_faces_set(fam, i - 1).len() as int;
        if (i - 1) % 2 == 0 {
            assert(pow_neg1(i - 1) == 1);
            assert(pow_neg1(i - 1) * c == 1 * c);
        } else {
            assert(pow_neg1(i - 1) == -1);
            assert(pow_neg1(i - 1) * c == (-1) * c);
        }
    }
}


impl SimplicialComplex {
    /// The incidence matrix between the `(dim-1)`-faces and the `dim`-faces.
    pub fn compute_k_boundary_matrix(&self, dim: usize) -> (r: Matrix)
        requires
            self.wf(),
            1 <= dim < usize::MAX,
        ensures
            rect_of(mat_entries(r), mat_width(r)),
            gf2_of(mat_entries(r)),
            exists|lo: Seq<Seq<usize>>, hi: Seq<Seq<usize>>|
                is_face_list(lo, self.family(), dim - 1) && is_face_list(hi, self.family(), dim as int)
                    && mat_entries(r) == incidence_matrix(lo, hi) && mat_width(r) == hi.len(),
            mat_entries(r).len() == k_faces_set(self.family(), dim - 1).len(),
            mat_width(r) == k_faces_set(self.family(), dim as int).len(),
    {
        let ghost fam = self.family();
        let lo = self.k_faces(dim - 1);
        let hi = self.k_faces(dim);
        let ghost lov = facet_views(lo@);
        let ghost hiv = facet_views(hi@);
        proof {
            assert(is_face_list(lov, fam, dim - 1)) by {
                assert forall|i: int|
                    0 <= i < lov.len() implies sorted_distinct(#[trigger] lov[i]) && k_faces_set(
                    fam,
                    dim - 1,
                ).contains(lov[i].to_set()) by {
                    assert(lov[i] == lo@[i].vertices@);
                }
                assert forall|i: int, j: int| 0 <= i < j < lov.len() implies lov[i] != lov[j] by {
                    assert(lov[i] == lo@[i].vertices@ && lov[j] == lo@[j].vertices@);
                }
            }
            assert(is_face_list(hiv, fam, dim as int)) by {
                assert forall|i: int|
                    0 <= i < hiv.len() implies sorted_distinct(#[trigger] hiv[i]) && k_faces_set(
                    fam,
                    dim as int,
                ).contains(hiv[i].to_set()) by {
                    assert(hiv[i] == hi@[i].vertices@);
                }
                assert forall|i: int, j: int| 0 <= i < j < hiv.len() implies hiv[i] != hiv[j] by {
                    assert(hiv[i] == hi@[i].vertices@ && hiv[j] == hi@[j].vertices@);
                }
            }
        }
        let nr = lo.len();
        let nc = hi.len();
        let mut m = crate::linear_algebra::mat_from_element(nr, nc, 0);
        let mut i: usize = 0;
        while i < nr
            invariant
                0 <= i <= nr,
                nr == lov.len(),
                nc == hiv.len(),
                lov == facet_views(lo@),
                hiv == facet_views(hi@),
                mat_entries(m).len() == nr,
                mat_width(m) == nc,
                rect_of(mat_entries(m), nc as int),
                forall|i2: int, j2: int|
                    0 <= i2 < i && 0 <= j2 < nc ==> #[trigger] mat_entries(m)[i2][j2]
                        == incidence_matrix(lov, hiv)[i2][j2],
                forall|i2: int, j2: int|
                    i <= i2 < nr && 0 <= j2 < nc ==> #[trigger] mat_entries(m)[i2][j2] == 0,
            decreases nr - i,
        {
            let mut j: usize = 0;
            while j < nc
                invariant
                    0 <= j <= nc,
                    0 <= i < nr,
                    nr == lov.len(),
                    nc == hiv.len(),
                    lov == facet_views(lo@),
                    hiv == facet_views(hi@),
                    mat_entries(m).len() == nr,
                    mat_width(m) == nc,
                    rect_of(mat_entries(m), nc as int),
                    forall|i2: int, j2: int|
                        0 <= i2 < i && 0 <= j2 < nc ==> #[trigger] mat_entries(m)[i2][j2]
                            == incidence_matrix(lov, hiv)[i2][j2],
                    forall|j2: int|
                        0 <= j2 < j ==> #[trigger] mat_entries(m)[i as int][j2] == incidence_matrix(
                            lov,
                            hiv,
                        )[i as int][j2],
                    forall|j2: int| j <= j2 < nc ==> #[trigger] mat_entries(m)[i as int][j2] == 0,
                    forall|i2: int, j2: int|
                        i < i2 < nr && 0 <= j2 < nc ==> #[trigger] mat_entries(m)[i2][j2] == 0,
                decreases nc - j,
            {
                let ghost before = mat_entries(m);
                let sub = vec_subset(&lo[i].vertices, &hi[j].vertices);
                if sub {
                    crate::linear_algebra::mat_set(&mut m, i, j, 1);
                }
                proof {
                    assert(lov[i as int] == lo@[i as int].vertices@);
                    assert(hiv[j as int] == hi@[j as int].vertices@);
                    assert(incidence_matrix(lov, hiv)[i as int][j as int] == (
                    if lov[i as int].to_set().subset_of(hiv[j as int].to_set()) {
                        1int
                    } else {
                        0int
                    }));
                    if sub {
                        assert(mat_entries(m) == before.update(
                            i as int,
                            before[i as int].update(j as int, 1int),
                        ));
                    }
                }
                j = j + 1;
            }
            i = i + 1;
        }
        proof {
            let inc = incidence_matrix(lov, hiv);
            assert forall|i2: int| 0 <= i2 < nr implies mat_entries(m)[i2] == inc[i2] by {
                assert forall|j2: int|
                    0 <= j2 < nc implies mat_entries(m)[i2][j2] == inc[i2][j2] by {}
                assert(mat_entries(m)[i2] =~= inc[i2]);
            }
            assert(mat_entries(m) =~= inc);
            assert(gf2_of(mat_entries(m))) by {
                assert forall|i2: int, j2: int|
                    0 <= i2 < mat_entries(m).len() && 0 <= j2 < mat_entries(m)[i2].len()
                        implies (#[trigger] mat_entries(m)[i2][j2]) == 0 || mat_entries(m)[i2][j2]
                        == 1 by {
                    assert(mat_entries(m)[i2][j2] == inc[i2][j2]);
                }
            }
        }
        m
    }

    /// The boundary matrix of dimension `dim`, reduced to diagonal form.
    fn compute_reduced_k_boundary_matrix(&self, dim: usize) -> (r: Matrix)
        requires
            self.wf(),
            1 <= dim < usize::MAX,
        ensures
            rect_of(mat_entries(r), mat_width(r)),
            reduced_boundary(self.family(), dim as int, mat_entries(r), mat_width(r)),
            mat_entries(r).len() == k_faces_set(self.family(), dim - 1).len(),
            mat_width(r) == k_faces_set(self.family(), dim as int).len(),
    {
        let b = self.compute_k_boundary_matrix(dim);
        let r = gaussian_elimination(b);
        proof {
            let (lo, hi) = choose|lo: Seq<Seq<usize>>, hi: Seq<Seq<usize>>|
                is_face_list(lo, self.family(), dim - 1) && is_face_list(
                    hi,
                    self.family(),
                    dim as int,
                ) && mat_entries(b) == incidence_matrix(lo, hi) && mat_width(b) == hi.len();
            assert(reduced_boundary(self.family(), dim as int, mat_entries(r), mat_width(r))) by {
                assert(is_face_list(lo, self.family(), dim - 1) && is_face_list(
                    hi,
                    self.family(),
                    dim as int,
                ) && gf2_reachable(incidence_matrix(lo, hi), mat_entries(r)) && diagonal_form(
                    mat_entries(r),
                    mat_width(r),
                ) && mat_width(r) == hi.len() && mat_entries(r).len() == lo.len());
            }
        }
        r
    }

    /// The dimension-`dim` Betti number: the nullity of the reduced boundary
    /// matrix above, minus (except in dimension zero) the rank of the reduced
    /// boundary matrix below.
    pub fn kth_betti_number(&self, dim: usize) -> (r: i32)
        requires
            self.wf(),
            self.homology_in_range(),
            dim + 1 < usize::MAX,
        ensures
            betti_is(self.family(), dim as int, r as int),
            -0x1fff_ffff <= r as int <= 0x1fff_ffff,
    {
        let ghost fam = self.family();
        if dim == 0 {
            proof {
                lemma_card_bound(*self, 0);
                lemma_card_bound(*self, 1);
            }
            let d = self.compute_reduced_k_boundary_matrix(1);
            let b = crate::linear_algebra::row_nullity_smith_normal_matrix(&d);
            proof {
                assert(reduced_boundary(fam, 1, mat_entries(d), mat_width(d)) && b as int
                    == k_faces_set(fam, 0).len() - spec_rank(mat_entries(d), mat_width(d)));
            }
            b
        } else {
            proof {
                lemma_card_bound(*self, dim - 1);
                lemma_card_bound(*self, dim as int);
                lemma_card_bound(*self, dim + 1);
            }
            let m1 = self.compute_reduced_k_boundary_matrix(dim);
            let m2 = self.compute_reduced_k_boundary_matrix(dim + 1);
            let n2 = crate::linear_algebra::row_nullity_smith_normal_matrix(&m2);
            let r1 = crate::linear_algebra::rank_smith_normal_matrix(&m1);
            let b = n2 - r1;
            proof {
                assert(reduced_boundary(fam, dim as int, mat_entries(m1), mat_width(m1))
                    && reduced_boundary(fam, dim + 1, mat_entries(m2), mat_width(m2)) && b as int
                    == (k_faces_set(fam, dim as int).len() - spec_rank(
                    mat_entries(m2),
                    mat_width(m2),
                )) - spec_rank(mat_entries(m1), mat_width(m1)));
            }
            b
        }
    }

    /// The complex is connected exactly when its zeroth Betti number is one.
    pub fn is_connected(&self) -> (r: bool)
        requires
            self.wf(),
            self.homology_in_range(),
        ensures
            exists|b: int| #[trigger] betti_is(self.family(), 0, b) && r == (b == 1),
    {
        let b = self.kth_betti_number(0);
        proof {
            assert(betti_is(self.family(), 0, b as int) && (b == 1) == (b as int == 1));
        }
        b == 1
    }
}


impl SimplicialComplex {
    /// The Betti vector, one entry per dimension from zero to the complex's
    /// dimension, empty for the empty complex.  The entries below the top are
    /// the rank/nullity recurrence of the reduced boundary matrices; the top
    /// entry is derived algebraically from the Euler-characteristic identity.
    pub fn betti_numbers(&self) -> (r: Vec<i32>)
        requires
            self.wf(),
            self.homology_in_range(),
        ensures
            self.dim_spec() < 0 ==> r@.len() == 0,
            self.dim_spec() >= 0 ==> r@.len() == self.dim_spec() + 1,
            self.dim_spec() >= 0 ==> forall|k: int|
                0 <= k < self.dim_spec() ==> betti_is(self.family(), k, (#[trigger] r@[k]) as int),
            self.dim_spec() >= 0 ==> r@[self.dim_spec()] as int == pow_neg1(self.dim_spec()) * (
            self.euler_spec() - crate::utils::spec_alternating_sum(r@.take(self.dim_spec()))),
    {
        let ghost fam = self.family();
        let d_isize = self.dimension();
        if d_isize < 0 {
            return Vec::new();
        }
        let d = d_isize as usize;
        let mut b: Vec<i32> = Vec::new();
        let mut k: usize = 0;
        while k < d
            invariant
                0 <= k <= d,
                d == self.dim_spec(),
                fam == self.family(),
                self.wf(),
                self.homology_in_range(),
                d + 1 < usize::MAX,
                b@.len() == k,
                forall|k2: int| 0 <= k2 < k ==> betti_is(fam, k2, (#[trigger] b@[k2]) as int),
                forall|k2: int|
                    0 <= k2 < k ==> -0x1fff_ffff <= (#[trigger] b@[k2]) as int <= 0x1fff_ffff,
                crate::utils::abs_prefix(b@, k as int) <= face_sum(fam, k - 1) + face_sum(
                    fam,
                    k - 2,
                ),
            decreases d - k,
        {
            let ghost old_b = b@;
            let bk = self.kth_betti_number(k);
            b.push(bk);
            proof {
                lemma_betti_entry_bound(*self, k as int, bk as int);
                lemma_face_sum_monotone(fam, k - 2, k - 1);
                assert(b@.take(k as int) =~= old_b);
                lemma_abs_prefix_frame(old_b, b@, k as int);
                assert(crate::utils::abs_prefix(b@, k + 1) == crate::utils::abs_prefix(
                    b@,
                    k as int,
                ) + (if b@[k as int] < 0 {
                    -(b@[k as int] as int)
                } else {
                    b@[k as int] as int
                }));
            }
            k = k + 1;
        }
        proof {
            lemma_face_sum_monotone(fam, d - 2, d - 1);
            lemma_face_sum_monotone(fam, d - 1, d as int);
            crate::utils::lemma_alt_prefix_bound(b@, d as int);
            lemma_alt_face_sum_bound(fam, d as int);
        }
        let chi = match self.euler_characteristic() {
            Ok(v) => v,
            Err(_) => {
                proof {
                    assert(false);
                }
                0
            },
        };
        let alt = crate::utils::alternating_sum(&b);
        let sign: i32 = if d % 2 == 0 {
            1
        } else {
            -1
        };
        proof {
            assert(sign as int == pow_neg1(d as int));
        }
        let diff = chi - alt;
        let top = sign * diff;
        let ghost prefix = b@;
        b.push(top);
        proof {
            assert(b@.take(d as int) =~= prefix);
            assert forall|k2: int|
                0 <= k2 < d implies betti_is(fam, k2, (#[trigger] b@[k2]) as int) by {
                assert(b@[k2] == prefix[k2]);
            }
            assert(b@[d as int] == top);
            assert(top as int == pow_neg1(d as int) * (self.euler_spec()
                - crate::utils::spec_alternating_sum(prefix))) by {
                let x = (chi - alt) as int;
                if d % 2 == 0 {
                    assert(sign as int * x == 1 * x);
                } else {
                    assert(sign as int * x == (-1) * x);
                }
            }
        }
        b
    }
}

/// A Betti entry is bounded by the adjacent face counts.
proof fn lemma_betti_entry_bound(c: SimplicialComplex, k: int, bk: int)
    requires
        c.wf(),
        c.homology_in_range(),
        k >= 0,
        betti_is(c.family(), k, bk),
    ensures
        crate::utils::abs_of(bk) <= face_sum(c.family(), k) - face_sum(c.family(), k - 2),
{
    let fam = c.family();
    assert(face_sum(fam, k) == face_sum(fam, k - 1) + k_faces_set(fam, k).len());
    if k >= 1 {
        assert(face_sum(fam, k - 1) == face_sum(fam, k - 2) + k_faces_set(fam, k - 1).len());
    } else {
        assert(face_sum(fam, k - 1) == 0);
        assert(face_sum(fam, k - 2) == 0);
    }
    if k == 0 {
        let (d, w) = choose|d: Seq<Seq<int>>, w: int|
            reduced_boundary(fam, 1, d, w) && bk == k_faces_set(fam, 0).len() - spec_rank(d, w);
        lemma_reduced_rank_range(fam, 1, d, w);
    } else {
        let (d1, w1, d2, w2) = choose|d1: Seq<Seq<int>>, w1: int, d2: Seq<Seq<int>>, w2: int|
            reduced_boundary(fam, k, d1, w1) && reduced_boundary(fam, k + 1, d2, w2) && bk == (
            k_faces_set(fam, k).len() - spec_rank(d2, w2)) - spec_rank(d1, w1);
        lemma_reduced_rank_range(fam, k, d1, w1);
        lemma_reduced_rank_range(fam, k + 1, d2, w2);
    }
}

/// The rank of a reduced boundary matrix lies between zero and its row count.
proof fn lemma_reduced_rank_range(fam: Set<Set<usize>>, k: int, d: Seq<Seq<int>>, w: int)
    requires
        reduced_boundary(fam, k, d, w),
    ensures
        0 <= spec_rank(d, w) <= k_faces_set(fam, k - 1).len(),
{
    let (lo, hi) = choose|lo: Seq<Seq<usize>>, hi: Seq<Seq<usize>>|
        is_face_list(lo, fam, k - 1) && is_face_list(hi, fam, k) && gf2_reachable(
            incidence_matrix(lo, hi),
            d,
        ) && diagonal_form(d, w) && w == hi.len() && d.len() == lo.len();
    crate::linear_algebra::lemma_diag_run_bounds(d, w, 0);
}

/// Appending one entry leaves earlier absolute prefix sums unchanged.
proof fn lemma_abs_prefix_frame(a: Seq<i32>, b: Seq<i32>, i: int)
    requires
        0 <= i <= a.len(),
        a.len() <= b.len(),
        forall|j: int| 0 <= j < a.len() ==> a[j] == b[j],
    ensures
        crate::utils::abs_prefix(a, i) == crate::utils::abs_prefix(b, i),
        crate::utils::alt_prefix(a, i) == crate::utils::alt_prefix(b, i),
    decreases i,
{
    if i > 0 {
        lemma_abs_prefix_frame(a, b, i - 1);
    }
}


/// The family of all pairwise intersections of members of two families.
pub open spec fn pairwise_intersections(a: Set<Set<usize>>, b: Set<Set<usize>>) -> Set<
    Set<usize>,
> {
    Set::new(
        |t: Set<usize>|
            exists|u: Set<usize>, v: Set<usize>|
                #![trigger a.contains(u), b.contains(v)]
                a.contains(u) && b.contains(v) && t == u.intersect(v),
    )
}

impl SimplicialComplex {
    /// The union of two complexes: the complex generated by both facet
    /// families together.
    pub fn union(&self, sc: Self) -> (r: Self)
        requires
            self.wf(),
            sc.wf(),
        ensures
            r.normal(),
            r.family() == maximal_sets(self.family().union(sc.family())),
    {
        let mut lists: Vec<Vec<usize>> = Vec::new();
        let mut i: usize = 0;
        while i < self.facets.len()
            invariant
                0 <= i <= self.facet_seqs().len(),
                self.wf(),
                lists@.len() == i,
                forall|k: int|
                    0 <= k < i ==> (#[trigger] lists@[k]@).to_set() == self.facet_seqs()[k].to_set()
                        && lists@[k]@.len() <= isize::MAX as int,
            decreases self.facet_seqs().len() - i,
        {
            lists.push(canonicalize(&self.facets[i].vertices));
            i = i + 1;
        }
        let ghost n1 = lists@.len();
        let mut j: usize = 0;
        while j < sc.facets.len()
            invariant
                0 <= j <= sc.facet_seqs().len(),
                self.wf(),
                sc.wf(),
                n1 == self.facet_seqs().len(),
                lists@.len() == n1 + j,
                forall|k: int|
                    0 <= k < n1 ==> (#[trigger] lists@[k]@).to_set() == self.facet_seqs()[k].to_set()
                        && lists@[k]@.len() <= isize::MAX as int,
                forall|k: int|
                    n1 <= k < n1 + j ==> (#[trigger] lists@[k]@).to_set() == sc.facet_seqs()[k
                        - n1].to_set() && lists@[k]@.len() <= isize::MAX as int,
            decreases sc.facet_seqs().len() - j,
        {
            let ghost old_lists = lists@;
            proof {
                assert(sc.facet_seqs()[j as int] == sc.facets@[j as int].vertices@);
            }
            lists.push(canonicalize(&sc.facets[j].vertices));
            proof {
                assert forall|k: int|
                    0 <= k < n1 implies (#[trigger] lists@[k]@).to_set() == self.facet_seqs()[
                    k
                ].to_set() && lists@[k]@.len() <= isize::MAX as int by {
                    assert(lists@[k] == old_lists[k]);
                }
                assert forall|k: int|
                    n1 <= k < n1 + j + 1 implies (#[trigger] lists@[k]@).to_set()
                        == sc.facet_seqs()[k - n1].to_set() && lists@[k]@.len() <= isize::MAX
                        as int by {
                    if k < n1 + j {
                        assert(lists@[k] == old_lists[k]);
                    } else {
                        assert(lists@[k] == lists@[lists@.len() - 1]);
                    }
                }
            }
            j = j + 1;
        }
        let r = Self::new_from_vec(lists);
        proof {
            lemma_family_membership(seq_views(lists@));
            lemma_family_membership(self.facet_seqs());
            lemma_family_membership(sc.facet_seqs());
            assert forall|t: Set<usize>|
                family_of(seq_views(lists@)).contains(t) implies self.family().union(
                sc.family(),
            ).contains(t) by {
                let k = choose|k: int| 0 <= k < lists@.len() && seq_views(lists@)[k].to_set() == t;
                if k < n1 {
                    assert(self.facet_seqs()[k].to_set() == t);
                } else {
                    assert(sc.facet_seqs()[k - n1].to_set() == t);
                }
            }
            assert forall|t: Set<usize>|
                self.family().union(sc.family()).contains(t) implies family_of(
                seq_views(lists@),
            ).contains(t) by {
                if self.family().contains(t) {
                    let k = choose|k: int|
                        0 <= k < self.facet_seqs().len() && self.facet_seqs()[k].to_set() == t;
                    assert(seq_views(lists@)[k].to_set() == t);
                } else {
                    let k = choose|k: int|
                        0 <= k < sc.facet_seqs().len() && sc.facet_seqs()[k].to_set() == t;
                    assert(seq_views(lists@)[n1 + k].to_set() == t);
                }
            }
            assert(family_of(seq_views(lists@)) =~= self.family().union(sc.family()));
        }
        r
    }

    /// The intersection of two complexes: generated by all pairwise
    /// intersections of facet vertex sets.
    #[verifier::rlimit(100)]
    pub fn intersection(self, sc: Self) -> (r: Self)
        requires
            self.wf(),
            sc.wf(),
        ensures
            r.normal(),
            r.family() == maximal_sets(pairwise_intersections(self.family(), sc.family())),
    {
        let mut lists: Vec<Vec<usize>> = Vec::new();
        let ghost mut ps: Seq<int> = Seq::empty();
        let ghost mut qs: Seq<int> = Seq::empty();
        let n1 = self.facets.len();
        let n2 = sc.facets.len();
        let mut i: usize = 0;
        while i < n1
            invariant
                0 <= i <= n1,
                n1 == self.facet_seqs().len(),
                n2 == sc.facet_seqs().len(),
                self.wf(),
                sc.wf(),
                lists@.len() == i * n2,
                ps.len() == lists@.len(),
                qs.len() == lists@.len(),
                forall|k: int|
                    #![all_triggers]
                    0 <= k < lists@.len() ==> lists@[k]@.len() <= isize::MAX as int && 0 <= ps[k]
                        < n1 && 0 <= qs[k] < n2 && lists@[k]@.to_set() == self.facet_seqs()[
                        ps[k]
                    ].to_set().intersect(sc.facet_seqs()[qs[k]].to_set()),
                forall|p: int, q: int|
                    0 <= p < i && 0 <= q < n2 ==> (#[trigger] lists@[p * n2 + q]@).to_set()
                        == self.facet_seqs()[p].to_set().intersect(sc.facet_seqs()[q].to_set()),
            decreases n1 - i,
        {
            let mut j: usize = 0;
            while j < n2
                invariant
                    0 <= j <= n2,
                    0 <= i < n1,
                    n1 == self.facet_seqs().len(),
                    n2 == sc.facet_seqs().len(),
                    self.wf(),
                    sc.wf(),
                    lists@.len() == i * n2 + j,
                    ps.len() == lists@.len(),
                    qs.len() == lists@.len(),
                    forall|k: int|
                        #![all_triggers]
                        0 <= k < lists@.len() ==> lists@[k]@.len() <= isize::MAX as int && 0 <= ps[
                            k
                        ] < n1 && 0 <= qs[k] < n2 && lists@[k]@.to_set() == self.facet_seqs()[
                            ps[k]
                        ].to_set().intersect(sc.facet_seqs()[qs[k]].to_set()),
                    forall|p: int, q: int|
                        0 <= p < i && 0 <= q < n2 ==> (#[trigger] lists@[p * n2 + q]@).to_set()
                            == self.facet_seqs()[p].to_set().intersect(sc.facet_seqs()[q].to_set()),
                    forall|q: int|
                        0 <= q < j ==> (#[trigger] lists@[i * n2 + q]@).to_set()
                            == self.facet_seqs()[i as int].to_set().intersect(
                            sc.facet_seqs()[q].to_set(),
                        ),
                decreases n2 - j,
            {
                let f = crate::simplex::simplex_intersection(&self.facets[i], &sc.facets[j]);
                proof {
                    crate::simplex::lemma_filter_membership_set(
                        self.facets@[i as int].vertices@,
                        sc.facets@[j as int].vertices@,
                    );
                    broadcast use vstd::seq_lib::group_filter_ensures;

                    assert(f.vertices@.len() <= self.facets@[i as int].vertices@.len());
                    assert(self.facet_seqs()[i as int] == self.facets@[i as int].vertices@);
                    assert(sc.facet_seqs()[j as int] == sc.facets@[j as int].vertices@);
                }
                let ghost old_lists = lists@;
                lists.push(f.vertices);
                proof {
                    ps = ps.push(i as int);
                    qs = qs.push(j as int);
                    assert forall|k: int|
                        #![all_triggers]
                        0 <= k < lists@.len() implies lists@[k]@.len() <= isize::MAX as int && 0
                        <= ps[k] < n1 && 0 <= qs[k] < n2 && lists@[k]@.to_set()
                        == self.facet_seqs()[ps[k]].to_set().intersect(
                        sc.facet_seqs()[qs[k]].to_set(),
                    ) by {
                        if k < old_lists.len() {
                            assert(lists@[k] == old_lists[k]);
                        } else {
                            assert(lists@[k] == f.vertices);
                            assert(ps[k] == i as int && qs[k] == j as int);
                        }
                    }
                    assert forall|p: int, q: int|
                        0 <= p < i && 0 <= q < n2 implies (#[trigger] lists@[p * n2 + q]@).to_set()
                            == self.facet_seqs()[p].to_set().intersect(
                        sc.facet_seqs()[q].to_set(),
                    ) by {
                        assert(p * n2 + q < i * n2) by (nonlinear_arith)
                            requires
                                0 <= p < i,
                                0 <= q < n2,
                        ;
                        assert(lists@[p * n2 + q] == old_lists[p * n2 + q]);
                    }
                    assert forall|q: int|
                        0 <= q < j + 1 implies (#[trigger] lists@[i * n2 + q]@).to_set()
                            == self.facet_seqs()[i as int].to_set().intersect(
                        sc.facet_seqs()[q].to_set(),
                    ) by {
                        if q < j {
                            assert(lists@[i * n2 + q] == old_lists[i * n2 + q]);
                        } else {
                            assert(i * n2 + q == old_lists.len());
                            assert(lists@[i * n2 + q] == f.vertices);
                        }
                    }
                }
                j = j + 1;
            }
            proof {
                assert((i + 1) * n2 == i * n2 + n2) by (nonlinear_arith);
                assert forall|p: int, q: int|
                    0 <= p < i + 1 && 0 <= q < n2 implies (#[trigger] lists@[p * n2 + q]@).to_set()
                        == self.facet_seqs()[p].to_set().intersect(
                    sc.facet_seqs()[q].to_set(),
                ) by {
                    if p == i as int {
                        assert(p * n2 + q == i * n2 + q);
                    }
                }
            }
            i = i + 1;
        }
        let r = Self::new_from_vec(lists);
        proof {
            lemma_family_membership(seq_views(lists@));
            lemma_family_membership(self.facet_seqs());
            lemma_family_membership(sc.facet_seqs());
            let pw = pairwise_intersections(self.family(), sc.family());
            assert forall|t: Set<usize>|
                family_of(seq_views(lists@)).contains(t) implies pw.contains(t) by {
                let k = choose|k: int| 0 <= k < lists@.len() && seq_views(lists@)[k].to_set() == t;
                let u = self.facet_seqs()[ps[k]].to_set();
                let v = sc.facet_seqs()[qs[k]].to_set();
                assert(lists@[k]@.to_set() == u.intersect(v));
                assert(self.family().contains(u) && sc.family().contains(v) && t == u.intersect(v));
            }
            assert forall|t: Set<usize>| pw.contains(t) implies family_of(
                seq_views(lists@),
            ).contains(t) by {
                let (u, v) = choose|u: Set<usize>, v: Set<usize>|
                    #![trigger self.family().contains(u), sc.family().contains(v)]
                    self.family().contains(u) && sc.family().contains(v) && t == u.intersect(v);
                let p = choose|p: int|
                    0 <= p < self.facet_seqs().len() && self.facet_seqs()[p].to_set() == u;
                let q = choose|q: int|
                    0 <= q < sc.facet_seqs().len() && sc.facet_seqs()[q].to_set() == v;
                assert(lists@[p * n2 + q]@.to_set() == t);
                assert(0 <= p * n2 + q < lists@.len()) by (nonlinear_arith)
                    requires
                        0 <= p < n1,
                        0 <= q < n2,
                        lists@.len() == n1 * n2,
                ;
                assert(seq_views(lists@)[p * n2 + q].to_set() == t);
            }
            assert(family_of(seq_views(lists@)) =~= pw);
        }
        r
    }

    /// True exactly when every facet of `sc` is a face of this complex.
    pub fn has_subcomplex(&self, sc: &SimplicialComplex) -> (r: bool)
        requires
            self.wf(),
            sc.wf(),
        ensures
            r == sc.family().subset_of(crate::family::faces_of(self.family())),
    {
        let mut i: usize = 0;
        while i < sc.facets.len()
            invariant
                0 <= i <= sc.facet_seqs().len(),
                self.wf(),
                sc.wf(),
                forall|k: int|
                    0 <= k < i ==> crate::family::faces_of(self.family()).contains(
                        (#[trigger] sc.facet_seqs()[k]).to_set(),
                    ),
            decreases sc.facet_seqs().len() - i,
        {
            let mut found = false;
            let mut j: usize = 0;
            while j < self.facets.len()
                invariant
                    0 <= j <= self.facet_seqs().len(),
                    0 <= i < sc.facet_seqs().len(),
                    self.wf(),
                    sc.wf(),
                    found ==> crate::family::faces_of(self.family()).contains(
                        sc.facet_seqs()[i as int].to_set(),
                    ),
                    !found ==> forall|k: int|
                        0 <= k < j ==> !sc.facet_seqs()[i as int].to_set().subset_of(
                            (#[trigger] self.facet_seqs()[k]).to_set(),
                        ),
                decreases self.facet_seqs().len() - j,
            {
                if self.facets[j].has_subface(&sc.facets[i]) {
                    proof {
                        lemma_family_membership(self.facet_seqs());
                        assert(sc.facet_seqs()[i as int] == sc.facets@[i as int].vertices@);
                        assert(self.facet_seqs()[j as int] == self.facets@[j as int].vertices@);
                        assert(exists|q: int|
                            0 <= q < self.facet_seqs().len() && self.facet_seqs()[q].to_set()
                                == self.facet_seqs()[j as int].to_set());
                        assert(self.family().contains(self.facet_seqs()[j as int].to_set()));
                        lemma_sorted_distinct_len(sc.facet_seqs()[i as int]);
                    }
                    found = true;
                }
                j = j + 1;
            }
            if !found {
                proof {
                    lemma_family_membership(self.facet_seqs());
                    assert(sc.facet_seqs()[i as int] == sc.facets@[i as int].vertices@);
                    let t = sc.facet_seqs()[i as int].to_set();
                    assert(!crate::family::faces_of(self.family()).contains(t)) by {
                        if crate::family::faces_of(self.family()).contains(t) {
                            let f = choose|f: Set<usize>| #[trigger]
                                self.family().contains(f) && t.subset_of(f);
                            let k = choose|k: int|
                                0 <= k < self.facet_seqs().len() && self.facet_seqs()[k].to_set()
                                    == f;
                            assert(false);
                        }
                    }
                    assert(sc.family().contains(t)) by {
                        lemma_family_membership(sc.facet_seqs());
                        assert(exists|q: int|
                            0 <= q < sc.facet_seqs().len() && sc.facet_seqs()[q].to_set() == t);
                    }
                }
                return false;
            }
            i = i + 1;
        }
        proof {
            lemma_family_membership(sc.facet_seqs());
            assert forall|t: Set<usize>| sc.family().contains(t) implies crate::family::faces_of(
                self.family(),
            ).contains(t) by {
                let k = choose|k: int|
                    0 <= k < sc.facet_seqs().len() && sc.facet_seqs()[k].to_set() == t;
            }
        }
        true
    }

    /// A complex is pure when all facets share the top dimension.
    pub fn is_pure(&self) -> (r: bool)
        requires
            self.wf(),
        ensures
            r == (self.dim_spec() >= 0 && forall|i: int|
                0 <= i < self.facet_seqs().len() ==> (#[trigger] self.facet_seqs()[i]).len()
                    == self.dim_spec() + 1),
    {
        let d = self.dimension();
        if d < 0 {
            return false;
        }
        proof {
            lemma_max_seq_len_upper(self.facet_seqs(), isize::MAX as int);
        }
        let mut i: usize = 0;
        while i < self.facets.len()
            invariant
                0 <= i <= self.facet_seqs().len(),
                self.wf(),
                d as int == self.dim_spec(),
                0 <= d < isize::MAX,
                forall|k: int|
                    0 <= k < i ==> (#[trigger] self.facet_seqs()[k]).len() == self.dim_spec() + 1,
            decreases self.facet_seqs().len() - i,
        {
            proof {
                assert(self.facet_seqs()[i as int] == self.facets@[i as int].vertices@);
            }
            if self.facets[i].vertices.len() != ((d + 1) as usize) {
                return false;
            }
            i = i + 1;
        }
        true
    }

    /// True exactly when every possible `(dim+1)`-subset of the vertex set is
    /// a face: the count of `dim`-faces equals the binomial coefficient.
    pub fn contains_full_k_skeleton(&self, dim: usize) -> (r: bool)
        requires
            self.wf(),
            dim < usize::MAX - 1,
        ensures
            r == (self.dim_spec() >= 0 && dim <= self.dim_spec() && k_faces_set(
                self.family(),
                dim as int,
            ).len() == spec_binomial(k_faces_set(self.family(), 0).len(), (dim + 1) as nat)),
    {
        let d = self.dimension();
        if d < 0 || dim > (d as usize) {
            return false;
        }
        let num_faces = self.k_faces(dim).len();
        let num_vertices = self.k_faces(0).len();
        let expected = crate::utils::binomial(num_vertices, dim + 1);
        match expected {
            Some(b) => num_faces == b,
            None => {
                proof {
                    assert(num_faces as int <= usize::MAX as int);
                }
                false
            },
        }
    }
}


/// Every face obtained from `t` by deleting one vertex is a face of the
/// complex; the empty face counts as present in any complex.
pub open spec fn boundary_in_complex(fam: Set<Set<usize>>, t: Set<usize>) -> bool {
    forall|x: usize| #[trigger]
        t.contains(x) ==> t.remove(x).len() == 0 || crate::family::faces_of(fam).contains(
            t.remove(x),
        )
}

/// The family with `t` adjoined to every member containing `s`.
pub open spec fn joined_family(fam: Set<Set<usize>>, s: Set<usize>, t: Set<usize>) -> Set<
    Set<usize>,
> {
    Set::new(
        |u: Set<usize>|
            exists|f: Set<usize>| #[trigger]
                fam.contains(f) && u == (if s.subset_of(f) {
                    f.union(t)
                } else {
                    f
                }),
    )
}

/// The members containing `s`, each with `s`'s vertices removed.
pub open spec fn link_family(fam: Set<Set<usize>>, s: Set<usize>) -> Set<Set<usize>> {
    Set::new(
        |u: Set<usize>|
            exists|f: Set<usize>| #[trigger] fam.contains(f) && s.subset_of(f) && u == f.difference(
                s,
            ),
    )
}

/// The nonempty faces of dimension at most `k`.
pub open spec fn skeleton_faces(fam: Set<Set<usize>>, k: int) -> Set<Set<usize>> {
    Set::new(
        |t: Set<usize>| crate::family::faces_of(fam).contains(t) && 1 <= t.len() <= k + 1,
    )
}

impl SimplicialComplex {
    /// Whether the given vertex list denotes a face of the complex.
    fn contains_face(&self, v: &Vec<usize>) -> (r: bool)
        requires
            self.wf(),
        ensures
            r == crate::family::faces_of(self.family()).contains(v@.to_set()),
    {
        let mut j: usize = 0;
        while j < self.facets.len()
            invariant
                0 <= j <= self.facet_seqs().len(),
                self.wf(),
                forall|k: int|
                    0 <= k < j ==> !v@.to_set().subset_of(
                        (#[trigger] self.facet_seqs()[k]).to_set(),
                    ),
            decreases self.facet_seqs().len() - j,
        {
            if vec_subset(v, &self.facets[j].vertices) {
                proof {
                    lemma_family_membership(self.facet_seqs());
                    assert(self.facet_seqs()[j as int] == self.facets@[j as int].vertices@);
                    assert(exists|q: int|
                        0 <= q < self.facet_seqs().len() && self.facet_seqs()[q].to_set()
                            == self.facet_seqs()[j as int].to_set());
                    assert(self.family().contains(self.facet_seqs()[j as int].to_set()));
                    broadcast use vstd::seq_lib::seq_to_set_is_finite;

                }
                return true;
            }
            j = j + 1;
        }
        proof {
            lemma_family_membership(self.facet_seqs());
            if crate::family::faces_of(self.family()).contains(v@.to_set()) {
                let f = choose|f: Set<usize>| #[trigger]
                    self.family().contains(f) && v@.to_set().subset_of(f);
                let k = choose|k: int|
                    0 <= k < self.facet_seqs().len() && self.facet_seqs()[k].to_set() == f;
                assert(false);
            }
        }
        false
    }

    /// Adds a face whose boundary is already present; any facet made
    /// non-maximal by the new face is absorbed, and the result is
    /// re-normalized.  Fails when some boundary face is missing.
    pub fn add_simplex(&mut self, simplex: Facet) -> (r: Result<(), ComplexError>)
        requires
            old(self).wf(),
            simplex.vertices@.no_duplicates(),
            simplex.vertices@.len() <= isize::MAX as int,
        ensures
            r is Ok <==> boundary_in_complex(old(self).family(), simplex.vset()),
            r is Ok ==> final(self).normal() && final(self).family() == maximal_sets(
                old(self).family().insert(simplex.vset()),
            ),
            r is Err ==> *final(self) == *old(self) && r == Err::<(), ComplexError>(
                ComplexError::StructuralViolation,
            ),
    {
        let sorted = simplex.sort();
        let ghost t = simplex.vset();
        let n = sorted.vertices.len();
        let mut i: usize = 0;
        while i < n
            invariant
                0 <= i <= n,
                old(self) == self,
                old(self).wf(),
                n == sorted.vertices@.len(),
                sorted.canonical(),
                sorted.vset() == t,
                t == simplex.vset(),
                forall|k: int|
                    0 <= k < i ==> t.remove(#[trigger] sorted.vertices@[k]).len() == 0
                        || crate::family::faces_of(self.family()).contains(
                        t.remove(sorted.vertices@[k]),
                    ),
            decreases n - i,
        {
            let d = crate::utils::remove_at(&sorted.vertices, i);
            let present = if d.len() == 0 {
                true
            } else {
                self.contains_face(&d)
            };
            proof {
                crate::family::lemma_sorted_remove_set(sorted.vertices@, i as int);
                assert(d@.to_set() == t.remove(sorted.vertices@[i as int]));
                crate::family::lemma_sorted_distinct_len(d@);
            }
            if !present {
                proof {
                    let x = sorted.vertices@[i as int];
                    assert(sorted.vertices@.contains(x));
                    assert(t.contains(x));
                    assert(!boundary_in_complex(old(self).family(), t));
                }
                return Err(ComplexError::StructuralViolation);
            }
            i = i + 1;
        }
        proof {
            assert forall|x: usize| #[trigger] t.contains(x) implies t.remove(x).len() == 0
                || crate::family::faces_of(self.family()).contains(t.remove(x)) by {
                let k = choose|k: int|
                    0 <= k < sorted.vertices@.len() && sorted.vertices@[k] == x;
            }
        }
        let mut lists: Vec<Vec<usize>> = Vec::new();
        let mut j: usize = 0;
        while j < self.facets.len()
            invariant
                0 <= j <= self.facet_seqs().len(),
                old(self) == self,
                old(self).wf(),
                lists@.len() == j,
                forall|k: int|
                    0 <= k < j ==> (#[trigger] lists@[k]@).to_set() == self.facet_seqs()[k].to_set()
                        && lists@[k]@.len() <= isize::MAX as int,
            decreases self.facet_seqs().len() - j,
        {
            let ghost old_lists = lists@;
            proof {
                assert(self.facet_seqs()[j as int] == self.facets@[j as int].vertices@);
            }
            lists.push(canonicalize(&self.facets[j].vertices));
            proof {
                assert forall|k: int|
                    0 <= k < j + 1 implies (#[trigger] lists@[k]@).to_set() == self.facet_seqs()[
                    k
                ].to_set() && lists@[k]@.len() <= isize::MAX as int by {
                    if k < j {
                        assert(lists@[k] == old_lists[k]);
                    } else {
                        assert(lists@[k] == lists@[lists@.len() - 1]);
                    }
                }
            }
            j = j + 1;
        }
        let ghost n1 = lists@.len();
        lists.push(sorted.vertices);
        let replacement = Self::new_from_vec(lists);
        proof {
            lemma_family_membership(seq_views(lists@));
            lemma_family_membership(old(self).facet_seqs());
            assert forall|u: Set<usize>|
                family_of(seq_views(lists@)).contains(u) implies old(self).family().insert(
                t,
            ).contains(u) by {
                let k = choose|k: int| 0 <= k < lists@.len() && seq_views(lists@)[k].to_set() == u;
                if k < n1 {
                    assert(old(self).facet_seqs()[k].to_set() == u);
                } else {
                    assert(seq_views(lists@)[k] == sorted.vertices@);
                }
            }
            assert forall|u: Set<usize>|
                old(self).family().insert(t).contains(u) implies family_of(
                seq_views(lists@),
            ).contains(u) by {
                if old(self).family().contains(u) {
                    let k = choose|k: int|
                        0 <= k < old(self).facet_seqs().len() && old(self).facet_seqs()[k].to_set()
                            == u;
                    assert(seq_views(lists@)[k].to_set() == u);
                } else {
                    assert(seq_views(lists@)[n1 as int].to_set() == t);
                }
            }
            assert(family_of(seq_views(lists@)) =~= old(self).family().insert(t));
        }
        *self = replacement;
        Ok(())
    }

    /// Replaces every facet containing `sigma` with that facet joined with
    /// `tau`; fails when `sigma` and `tau` share a vertex or `sigma` is not
    /// contained in any facet.
    pub fn join(self, sigma: Facet, tau: Facet) -> (r: Result<Self, ComplexError>)
        requires
            self.wf(),
            forall|i: int|
                0 <= i < self.facet_seqs().len() ==> (#[trigger] self.facet_seqs()[i]).len()
                    + tau.vertices@.len() <= isize::MAX as int,
        ensures
            r is Ok <==> (sigma.vset().disjoint(tau.vset()) && exists|f: Set<usize>| #[trigger]
                self.family().contains(f) && sigma.vset().subset_of(f)),
            r is Err ==> r == Err::<Self, ComplexError>(ComplexError::StructuralViolation),
            r is Ok ==> r->Ok_0.normal() && r->Ok_0.family() == maximal_sets(
                joined_family(self.family(), sigma.vset(), tau.vset()),
            ),
    {
        let inter = crate::simplex::simplex_intersection(&sigma, &tau);
        if inter.vertices.len() > 0 {
            proof {
                crate::simplex::lemma_filter_membership_set(sigma.vertices@, tau.vertices@);
                let x = inter.vertices@[0];
                assert(inter.vertices@.contains(x));
                assert(inter.vertices@.to_set().contains(x));
                assert(sigma.vset().contains(x) && tau.vset().contains(x));
            }
            return Err(ComplexError::StructuralViolation);
        }
        proof {
            crate::simplex::lemma_filter_membership_set(sigma.vertices@, tau.vertices@);
            assert forall|x: usize| !(sigma.vset().contains(x) && tau.vset().contains(x)) by {
                if sigma.vset().contains(x) && tau.vset().contains(x) {
                    assert(sigma.vset().intersect(tau.vset()).contains(x));
                    assert(inter.vertices@.to_set().contains(x));
                    assert(inter.vertices@.contains(x));
                    assert(false);
                }
            }
            assert(sigma.vset().disjoint(tau.vset()));
        }
        let mut lists: Vec<Vec<usize>> = Vec::new();
        let mut count: usize = 0;
        let mut j: usize = 0;
        while j < self.facets.len()
            invariant
                0 <= j <= self.facet_seqs().len(),
                self.wf(),
                forall|i: int|
                    0 <= i < self.facet_seqs().len() ==> (#[trigger] self.facet_seqs()[i]).len()
                        + tau.vertices@.len() <= isize::MAX as int,
                lists@.len() == j,
                count <= j,
                forall|k: int|
                    0 <= k < j ==> (#[trigger] lists@[k]@).to_set() == (
                    if sigma.vset().subset_of(self.facet_seqs()[k].to_set()) {
                        self.facet_seqs()[k].to_set().union(tau.vset())
                    } else {
                        self.facet_seqs()[k].to_set()
                    }) && lists@[k]@.len() <= isize::MAX as int,
                count > 0 <==> exists|k: int|
                    0 <= k < j && sigma.vset().subset_of(
                        (#[trigger] self.facet_seqs()[k]).to_set(),
                    ),
            decreases self.facet_seqs().len() - j,
        {
            proof {
                assert(self.facet_seqs()[j as int] == self.facets@[j as int].vertices@);
            }
            if self.facets[j].has_subface(&sigma) {
                let mut w = canonicalize(&self.facets[j].vertices);
                let ghost base = w@;
                let mut p: usize = 0;
                while p < tau.vertices.len()
                    invariant
                        0 <= p <= tau.vertices@.len(),
                        w@.len() == base.len() + p,
                        base.len() <= self.facets@[j as int].vertices@.len(),
                        base.to_set() == self.facets@[j as int].vertices@.to_set(),
                        w@.to_set() == base.to_set().union(
                            tau.vertices@.take(p as int).to_set(),
                        ),
                    decreases tau.vertices@.len() - p,
                {
                    w.push(tau.vertices[p]);
                    proof {
                        broadcast use vstd::prelude::Seq::lemma_push_to_set_commute;

                        assert(tau.vertices@.take(p + 1) =~= tau.vertices@.take(p as int).push(
                            tau.vertices@[p as int],
                        ));
                        assert(w@.to_set() =~= base.to_set().union(
                            tau.vertices@.take(p + 1).to_set(),
                        ));
                    }
                    p = p + 1;
                }
                proof {
                    assert(tau.vertices@.take(tau.vertices@.len() as int) =~= tau.vertices@);
                }
                lists.push(w);
                count = count + 1;
            } else {
                lists.push(canonicalize(&self.facets[j].vertices));
            }
            j = j + 1;
        }
        if count == 0 {
            proof {
                lemma_family_membership(self.facet_seqs());
                if exists|f: Set<usize>| #[trigger] self.family().contains(f)
                    && sigma.vset().subset_of(f) {
                    let f = choose|f: Set<usize>| #[trigger]
                        self.family().contains(f) && sigma.vset().subset_of(f);
                    let k = choose|k: int|
                        0 <= k < self.facet_seqs().len() && self.facet_seqs()[k].to_set() == f;
                    assert(false);
                }
            }
            return Err(ComplexError::StructuralViolation);
        }
        let r = Self::new_from_vec(lists);
        proof {
            lemma_family_membership(seq_views(lists@));
            lemma_family_membership(self.facet_seqs());
            let jf = joined_family(self.family(), sigma.vset(), tau.vset());
            assert forall|u: Set<usize>|
                family_of(seq_views(lists@)).contains(u) implies jf.contains(u) by {
                let k = choose|k: int| 0 <= k < lists@.len() && seq_views(lists@)[k].to_set() == u;
                let f = self.facet_seqs()[k].to_set();
                assert(self.family().contains(f));
            }
            assert forall|u: Set<usize>| jf.contains(u) implies family_of(
                seq_views(lists@),
            ).contains(u) by {
                let f = choose|f: Set<usize>| #[trigger]
                    self.family().contains(f) && u == (if sigma.vset().subset_of(f) {
                        f.union(tau.vset())
                    } else {
                        f
                    });
                let k = choose|k: int|
                    0 <= k < self.facet_seqs().len() && self.facet_seqs()[k].to_set() == f;
                assert(seq_views(lists@)[k].to_set() == u);
            }
            assert(family_of(seq_views(lists@)) =~= jf);
            let k0 = choose|k: int|
                0 <= k < self.facet_seqs().len() && sigma.vset().subset_of(
                    (#[trigger] self.facet_seqs()[k]).to_set(),
                );
            assert(self.family().contains(self.facet_seqs()[k0].to_set()));
        }
        Ok(r)
    }

    /// Keeps only the facets having `simplex` as a subface; fails on an
    /// empty query face or one that is not a face of the complex.
    #[verifier::rlimit(100)]
    pub fn star(self, simplex: &Facet) -> (r: Result<Self, ComplexError>)
        requires
            self.normal(),
        ensures
            r is Ok <==> (simplex.vertices@.len() >= 1 && crate::family::faces_of(
                self.family(),
            ).contains(simplex.vset())),
            r is Err ==> r == Err::<Self, ComplexError>(ComplexError::StructuralViolation),
            r is Ok ==> r->Ok_0.normal() && r->Ok_0.family() == self.family().filter(
                |f: Set<usize>| simplex.vset().subset_of(f),
            ),
    {
        if simplex.vertices.len() == 0 {
            return Err(ComplexError::StructuralViolation);
        }
        if !self.contains_face(&simplex.vertices) {
            return Err(ComplexError::StructuralViolation);
        }
        let mut lists: Vec<Vec<usize>> = Vec::new();
        let ghost pred = |f: Set<usize>| simplex.vset().subset_of(f);
        let ghost mut ks: Seq<int> = Seq::empty();
        let mut j: usize = 0;
        while j < self.facets.len()
            invariant
                0 <= j <= self.facet_seqs().len(),
                self.normal(),
                pred == (|f: Set<usize>| simplex.vset().subset_of(f)),
                ks.len() == lists@.len(),
                forall|m: int|
                    #![all_triggers]
                    0 <= m < lists@.len() ==> 0 <= ks[m] < self.facet_seqs().len() && lists@[
                        m
                    ]@.to_set() == self.facet_seqs()[ks[m]].to_set() && pred(
                        self.facet_seqs()[ks[m]].to_set(),
                    ) && lists@[m]@.len() <= isize::MAX as int,
                forall|k: int|
                    0 <= k < j && pred((#[trigger] self.facet_seqs()[k]).to_set()) ==> exists|
                        m: int,
                    | 0 <= m < lists@.len() && (#[trigger] lists@[m]@).to_set()
                        == self.facet_seqs()[k].to_set(),
            decreases self.facet_seqs().len() - j,
        {
            let ghost old_lists = lists@;
            proof {
                assert(self.facet_seqs()[j as int] == self.facets@[j as int].vertices@);
            }
            if self.facets[j].has_subface(simplex) {
                lists.push(canonicalize(&self.facets[j].vertices));
                proof {
                    ks = ks.push(j as int);
                    assert(lists@[lists@.len() - 1]@.to_set() == self.facet_seqs()[
                        j as int
                    ].to_set());
                }
            }
            proof {
                assert forall|k: int|
                    0 <= k < j + 1 && pred(
                        (#[trigger] self.facet_seqs()[k]).to_set(),
                    ) implies exists|m: int|
                    0 <= m < lists@.len() && (#[trigger] lists@[m]@).to_set()
                        == self.facet_seqs()[k].to_set() by {
                    if k < j {
                        let m = choose|m: int|
                            0 <= m < old_lists.len() && (#[trigger] old_lists[m]@).to_set()
                                == self.facet_seqs()[k].to_set();
                        assert(lists@[m]@.to_set() == self.facet_seqs()[k].to_set());
                    } else {
                        assert(lists@[lists@.len() - 1]@.to_set() == self.facet_seqs()[k].to_set());
                    }
                }
            }
            j = j + 1;
        }
        let r = Self::new_from_vec(lists);
        proof {
            lemma_family_membership(seq_views(lists@));
            lemma_family_membership(self.facet_seqs());
            let filtered = self.family().filter(pred);
            assert forall|u: Set<usize>|
                family_of(seq_views(lists@)).contains(u) implies filtered.contains(u) by {
                let m = choose|m: int| 0 <= m < lists@.len() && seq_views(lists@)[m].to_set() == u;
                let k = ks[m];
                assert(lists@[m]@.to_set() == self.facet_seqs()[k].to_set() && pred(
                    self.facet_seqs()[k].to_set(),
                ));
                assert(self.family().contains(self.facet_seqs()[k].to_set()));
            }
            assert forall|u: Set<usize>| filtered.contains(u) implies family_of(
                seq_views(lists@),
            ).contains(u) by {
                let k = choose|k: int|
                    0 <= k < self.facet_seqs().len() && self.facet_seqs()[k].to_set() == u;
                let m = choose|m: int|
                    0 <= m < lists@.len() && (#[trigger] lists@[m]@).to_set()
                        == self.facet_seqs()[k].to_set();
                assert(seq_views(lists@)[m].to_set() == u);
            }
            assert(family_of(seq_views(lists@)) =~= filtered);
            crate::family::lemma_maximal_subfamily(self.family(), filtered);
        }
        Ok(r)
    }
}


impl SimplicialComplex {
    /// The link of a face: the facets of the star with the face's vertices
    /// removed.  Fails exactly where `star` fails.
    #[verifier::rlimit(100)]
    pub fn link(self, simplex: &Facet) -> (r: Result<Self, ComplexError>)
        requires
            self.normal(),
        ensures
            r is Ok <==> (simplex.vertices@.len() >= 1 && crate::family::faces_of(
                self.family(),
            ).contains(simplex.vset())),
            r is Err ==> r == Err::<Self, ComplexError>(ComplexError::StructuralViolation),
            r is Ok ==> r->Ok_0.normal() && r->Ok_0.family() == maximal_sets(
                link_family(self.family(), simplex.vset()),
            ),
    {
        let ghost fam = self.family();
        let star = match self.star(simplex) {
            Ok(s) => s,
            Err(e) => {
                return Err(e);
            },
        };
        let mut lists: Vec<Vec<usize>> = Vec::new();
        let mut j: usize = 0;
        while j < star.facets.len()
            invariant
                0 <= j <= star.facet_seqs().len(),
                star.normal(),
                star.family() == fam.filter(|f: Set<usize>| simplex.vset().subset_of(f)),
                lists@.len() == j,
                forall|k: int|
                    0 <= k < j ==> (#[trigger] lists@[k]@).to_set() == star.facet_seqs()[
                        k
                    ].to_set().difference(simplex.vset()) && lists@[k]@.len() <= isize::MAX as int,
            decreases star.facet_seqs().len() - j,
        {
            let ghost old_lists = lists@;
            proof {
                assert(star.facet_seqs()[j as int] == star.facets@[j as int].vertices@);
                assert(sorted_distinct(star.facets@[j as int].vertices@));
            }
            let f = star.facets[j].clone_vertices_link(simplex);
            proof {
                crate::simplex::lemma_filter_nonmembership_set(
                    star.facets@[j as int].vertices@,
                    simplex.vertices@,
                );
                broadcast use vstd::seq_lib::group_filter_ensures;

            }
            lists.push(f);
            proof {
                assert forall|k: int|
                    0 <= k < j + 1 implies (#[trigger] lists@[k]@).to_set() == star.facet_seqs()[
                    k
                ].to_set().difference(simplex.vset()) && lists@[k]@.len() <= isize::MAX as int by {
                    if k < j {
                        assert(lists@[k] == old_lists[k]);
                    } else {
                        assert(lists@[k] == lists@[lists@.len() - 1]);
                    }
                }
            }
            j = j + 1;
        }
        let r = Self::new_from_vec(lists);
        proof {
            lemma_family_membership(seq_views(lists@));
            lemma_family_membership(star.facet_seqs());
            let lf = link_family(fam, simplex.vset());
            assert forall|u: Set<usize>|
                family_of(seq_views(lists@)).contains(u) implies lf.contains(u) by {
                let k = choose|k: int| 0 <= k < lists@.len() && seq_views(lists@)[k].to_set() == u;
                let f = star.facet_seqs()[k].to_set();
                assert(star.family().contains(f));
                assert(fam.contains(f) && simplex.vset().subset_of(f));
            }
            assert forall|u: Set<usize>| lf.contains(u) implies family_of(
                seq_views(lists@),
            ).contains(u) by {
                let f = choose|f: Set<usize>| #[trigger]
                    fam.contains(f) && simplex.vset().subset_of(f) && u == f.difference(
                        simplex.vset(),
                    );
                assert(star.family().contains(f));
                let k = choose|k: int|
                    0 <= k < star.facet_seqs().len() && star.facet_seqs()[k].to_set() == f;
                assert(seq_views(lists@)[k].to_set() == u);
            }
            assert(family_of(seq_views(lists@)) =~= lf);
        }
        Ok(r)
    }

    /// The complex generated by all faces of dimension at most `dim`.
    pub fn k_skeleton(self, dim: usize) -> (r: Self)
        requires
            self.wf(),
            dim < usize::MAX - 1,
        ensures
            r.normal(),
            r.family() == maximal_sets(skeleton_faces(self.family(), dim as int)),
    {
        let ghost fam = self.family();
        let mut lists: Vec<Vec<usize>> = Vec::new();
        let mut k: usize = 0;
        while k <= dim
            invariant
                0 <= k <= dim + 1,
                self.wf(),
                fam == self.family(),
                dim < usize::MAX - 1,
                forall|m: int|
                    0 <= m < lists@.len() ==> 1 <= (#[trigger] lists@[m]@).len() <= dim + 1
                        && lists@[m]@.len() <= isize::MAX as int && crate::family::faces_of(
                        fam,
                    ).contains(lists@[m]@.to_set()) && lists@[m]@.to_set().len()
                        == lists@[m]@.len(),
                forall|t: Set<usize>, k2: int|
                    0 <= k2 < k && #[trigger] k_faces_set(fam, k2).contains(t) ==> set_in(
                        seq_views(lists@),
                        t,
                    ),
            decreases dim + 1 - k,
        {
            let faces = self.k_faces(k);
            let mut p: usize = 0;
            while p < faces.len()
                invariant
                    0 <= p <= faces@.len(),
                    self.wf(),
                    fam == self.family(),
                    0 <= k <= dim,
                    dim < usize::MAX - 1,
                    forall|m: int|
                        0 <= m < faces@.len() ==> sorted_distinct(
                            (#[trigger] faces@[m]).vertices@,
                        ) && faces@[m].vertices@.len() == k + 1 && k_faces_set(
                            fam,
                            k as int,
                        ).contains(faces@[m].vertices@.to_set()),
                    forall|m: int|
                        0 <= m < lists@.len() ==> 1 <= (#[trigger] lists@[m]@).len() <= dim + 1
                            && lists@[m]@.len() <= isize::MAX as int && crate::family::faces_of(
                            fam,
                        ).contains(lists@[m]@.to_set()) && lists@[m]@.to_set().len()
                            == lists@[m]@.len(),
                    forall|t: Set<usize>, k2: int|
                        0 <= k2 < k && #[trigger] k_faces_set(fam, k2).contains(t) ==> set_in(
                            seq_views(lists@),
                            t,
                        ),
                    forall|m: int|
                        0 <= m < p ==> set_in(
                            seq_views(lists@),
                            (#[trigger] faces@[m]).vertices@.to_set(),
                        ),
                decreases faces@.len() - p,
            {
                let ghost old_lists = lists@;
                let w = canonicalize(&faces[p].vertices);
                proof {
                    lemma_sorted_distinct_canonical(w@, faces@[p as int].vertices@);
                    lemma_sorted_distinct_len(w@);
                    lemma_family_membership(self.facet_seqs());
                    let t0 = faces@[p as int].vertices@.to_set();
                    let f = choose|f: Set<usize>| #[trigger] fam.contains(f) && t0.subset_of(f);
                    let q = choose|q: int|
                        0 <= q < self.facet_seqs().len() && self.facet_seqs()[q].to_set() == f;
                    lemma_sorted_distinct_len(self.facet_seqs()[q]);
                    vstd::set_lib::lemma_len_subset(t0, f);
                    assert(w@.len() <= isize::MAX as int);
                    assert(crate::family::faces_of(fam).contains(w@.to_set()));
                }
                lists.push(w);
                proof {
                    assert forall|m: int|
                        0 <= m < lists@.len() implies 1 <= (#[trigger] lists@[m]@).len() <= dim + 1
                            && lists@[m]@.len() <= isize::MAX as int && crate::family::faces_of(
                        fam,
                    ).contains(lists@[m]@.to_set()) && lists@[m]@.to_set().len()
                        == lists@[m]@.len() by {
                        if m < old_lists.len() {
                            assert(lists@[m] == old_lists[m]);
                        } else {
                            assert(lists@[m]@ == w@);
                        }
                    }
                    assert(seq_views(lists@)[lists@.len() - 1].to_set() == faces@[
                        p as int
                    ].vertices@.to_set());
                    assert forall|t: Set<usize>, k2: int|
                        0 <= k2 < k && #[trigger] k_faces_set(fam, k2).contains(t) implies set_in(
                        seq_views(lists@),
                        t,
                    ) by {
                        let m = choose|m: int|
                            0 <= m < old_lists.len() && old_lists[m]@.to_set() == t;
                        assert(seq_views(lists@)[m].to_set() == t);
                    }
                    assert forall|m: int|
                        0 <= m < p + 1 implies set_in(
                        seq_views(lists@),
                        (#[trigger] faces@[m]).vertices@.to_set(),
                    ) by {
                        if m < p {
                            let m2 = choose|m2: int|
                                0 <= m2 < old_lists.len() && old_lists[m2]@.to_set() == faces@[
                                    m
                                ].vertices@.to_set();
                            assert(seq_views(lists@)[m2].to_set() == faces@[m].vertices@.to_set());
                        }
                    }
                }
                p = p + 1;
            }
            proof {
                assert forall|t: Set<usize>, k2: int|
                    0 <= k2 < k + 1 && #[trigger] k_faces_set(fam, k2).contains(t) implies set_in(
                    seq_views(lists@),
                    t,
                ) by {
                    if k2 == k {
                        let m = choose|m: int|
                            0 <= m < facet_views(faces@).len() && facet_views(faces@)[m].to_set()
                                == t;
                        assert(faces@[m].vertices@.to_set() == t);
                        assert(set_in(seq_views(lists@), faces@[m].vertices@.to_set()));
                    }
                }
            }
            k = k + 1;
        }
        let r = Self::new_from_vec(lists);
        proof {
            lemma_family_membership(seq_views(lists@));
            let sk = skeleton_faces(fam, dim as int);
            assert forall|t: Set<usize>|
                family_of(seq_views(lists@)).contains(t) implies sk.contains(t) by {
                let m = choose|m: int| 0 <= m < lists@.len() && seq_views(lists@)[m].to_set() == t;
                assert(t.len() == lists@[m]@.len());
            }
            assert forall|t: Set<usize>| sk.contains(t) implies family_of(
                seq_views(lists@),
            ).contains(t) by {
                assert(1 <= t.len() <= dim + 1);
                assert(k_faces_set(fam, t.len() - 1).contains(t));
                assert(0 <= t.len() - 1 < dim + 1);
                assert(set_in(seq_views(lists@), t));
                let m = choose|m: int| 0 <= m < lists@.len() && seq_views(lists@)[m].to_set() == t;
            }
            assert(family_of(seq_views(lists@)) =~= sk);
        }
        r
    }
}

impl Facet {
    /// The vertices of this face with `simplex`'s vertices removed, as an
    /// owned list; used to build links.
    fn clone_vertices_link(&self, simplex: &Facet) -> (r: Vec<usize>)
        requires
            sorted_distinct(self.vertices@),
        ensures
            r@ == self.vertices@.filter(|x: usize| !simplex.vertices@.contains(x)),
    {
        let copy = canonicalize(&self.vertices);
        proof {
            lemma_sorted_distinct_canonical(copy@, self.vertices@);
        }
        let f = Facet { vertices: copy };
        let linked = f.link(simplex);
        linked.vertices
    }
}


impl Facet {
    /// The complex generated by this face's boundary.
    pub fn boundary_as_complex(&self) -> (r: SimplicialComplex)
        requires
            self.vertices@.len() <= isize::MAX as int,
        ensures
            r.normal(),
            r.family() == maximal_sets(
                family_of(Seq::new(self.vertices@.len(), |i: int| self.vertices@.remove(i))),
            ),
    {
        let b = self.boundary();
        proof {
            assert forall|i: int|
                0 <= i < b@.len() implies (#[trigger] b@[i]).vertices@.len() <= isize::MAX
                as int by {
                assert(b@[i].vertices@ == self.vertices@.remove(i));
            }
        }
        let r = SimplicialComplex::new(b);
        proof {
            let views = b@.map_values(|f: Facet| f.vertices@);
            let direct = Seq::new(self.vertices@.len(), |i: int| self.vertices@.remove(i));
            assert(views =~= direct);
        }
        r
    }
}

impl PartialEq for SimplicialComplex {
    /// Two complexes are equal when they have the same number of facets and
    /// every facet of one occurs among the facets of the other.
    fn eq(&self, other: &Self) -> (r: bool) {
        if self.facets.len() != other.facets.len() {
            return false;
        }
        let mut i: usize = 0;
        while i < self.facets.len()
            invariant
                0 <= i <= self.facet_seqs().len(),
                self.facet_seqs().len() == other.facet_seqs().len(),
                forall|k: int|
                    0 <= k < i ==> list_in(other.facet_seqs(), #[trigger] self.facet_seqs()[k]),
            decreases self.facet_seqs().len() - i,
        {
            proof {
                assert(self.facet_seqs()[i as int] == self.facets@[i as int].vertices@);
                assert(facet_views(other.facets@) == other.facet_seqs());
            }
            if !face_member(&other.facets, &self.facets[i].vertices) {
                proof {
                    assert(!list_in(other.facet_seqs(), self.facet_seqs()[i as int]));
                }
                return false;
            }
            i = i + 1;
        }
        true
    }
}

impl Eq for SimplicialComplex {

}

impl vstd::std_specs::cmp::PartialEqSpecImpl for SimplicialComplex {
    open spec fn obeys_eq_spec() -> bool {
        true
    }

    open spec fn eq_spec(&self, other: &SimplicialComplex) -> bool {
        self.facet_seqs().len() == other.facet_seqs().len() && forall|i: int|
            0 <= i < self.facet_seqs().len() ==> list_in(
                other.facet_seqs(),
                #[trigger] self.facet_seqs()[i],
            )
    }
}

/// Law: normalized complexes with equal facet families are equal.  In
/// particular the sequential and parallel downward closures, whose contracts
/// pin the same facet family, always produce equal complexes.
pub proof fn lemma_family_eq_complexes(a: SimplicialComplex, b: SimplicialComplex)
    requires
        a.normal(),
        b.normal(),
        a.family() == b.family(),
    ensures
        vstd::std_specs::cmp::PartialEqSpec::eq_spec(&a, &b),
        vstd::std_specs::cmp::PartialEqSpec::eq_spec(&b, &a),
{
    crate::family::lemma_family_card(a.facet_seqs());
    crate::family::lemma_family_card(b.facet_seqs());
    lemma_family_membership(a.facet_seqs());
    lemma_family_membership(b.facet_seqs());
    assert(a.facet_seqs().len() == b.facet_seqs().len());
    assert forall|i: int| 0 <= i < a.facet_seqs().len() implies list_in(
        b.facet_seqs(),
        #[trigger] a.facet_seqs()[i],
    ) by {
        let t = a.facet_seqs()[i].to_set();
        assert(exists|q: int| 0 <= q < a.facet_seqs().len() && a.facet_seqs()[q].to_set() == t);
        assert(a.family().contains(t));
        assert(b.family().contains(t));
        let j = choose|j: int| 0 <= j < b.facet_seqs().len() && b.facet_seqs()[j].to_set() == t;
        lemma_sorted_distinct_canonical(a.facet_seqs()[i], b.facet_seqs()[j]);
        assert(b.facet_seqs()[j] == a.facet_seqs()[i]);
    }
    assert forall|i: int| 0 <= i < b.facet_seqs().len() implies list_in(
        a.facet_seqs(),
        #[trigger] b.facet_seqs()[i],
    ) by {
        let t = b.facet_seqs()[i].to_set();
        assert(exists|q: int| 0 <= q < b.facet_seqs().len() && b.facet_seqs()[q].to_set() == t);
        assert(b.family().contains(t));
        assert(a.family().contains(t));
        let j = choose|j: int| 0 <= j < a.facet_seqs().len() && a.facet_seqs()[j].to_set() == t;
        lemma_sorted_distinct_canonical(b.facet_seqs()[i], a.facet_seqs()[j]);
        assert(a.facet_seqs()[j] == b.facet_seqs()[i]);
    }
}

/// Law: rebuilding a face from its boundary and then adding the face back
/// yields exactly the complex of that face.  With the contracts of
/// `Facet::boundary_as_complex` (or `SimplicialComplex::new` on a boundary)
/// and `add_simplex`, this says the round trip equals `new` of the face alone.
pub proof fn lemma_boundary_roundtrip(t: Set<usize>, bdy: Set<Set<usize>>)
    requires
        t.finite(),
        bdy == t.map(|x: usize| t.remove(x)),
    ensures
        boundary_in_complex(maximal_sets(bdy), t),
        maximal_sets(maximal_sets(bdy).insert(t)) == Set::empty().insert(t),
        maximal_sets(Set::<Set<usize>>::empty().insert(t)) == Set::empty().insert(t),
{
    t.lemma_map_finite(|x: usize| t.remove(x));
    assert forall|u: Set<usize>| bdy.contains(u) implies u.subset_of(t) && u != t by {
        let x = choose|x: usize| t.contains(x) && t.remove(x) == u;
        assert(t.contains(x) && !u.contains(x));
    }
    assert forall|x: usize| #[trigger] t.contains(x) implies crate::family::faces_of(
        maximal_sets(bdy),
    ).contains(t.remove(x)) by {
        assert(bdy.contains(t.remove(x)));
        lemma_exists_maximal_superset(bdy, t.remove(x));
        let m = choose|m: Set<usize>| #[trigger] maximal_sets(bdy).contains(m) && t.remove(
            x,
        ).subset_of(m);
        broadcast use vstd::set_lib::lemma_set_remove_finite_iff;

        assert(t.remove(x).finite());
    }
    let grown = maximal_sets(bdy).insert(t);
    assert forall|u: Set<usize>| #[trigger] maximal_sets(grown).contains(u) implies u == t by {
        if u != t {
            assert(bdy.contains(u));
            assert(u.subset_of(t) && u != t);
            assert(grown.contains(t) && u.subset_of(t));
            assert(!is_maximal_in(u, grown));
        }
    }
    assert(is_maximal_in(t, grown)) by {
        assert forall|u: Set<usize>| grown.contains(u) && t.subset_of(u) implies t == u by {
            if u != t {
                assert(bdy.contains(u));
                assert(u.subset_of(t));
                assert(u =~= t);
            }
        }
    }
    assert(maximal_sets(grown) =~= Set::<Set<usize>>::empty().insert(t));
    assert(is_maximal_in(t, Set::<Set<usize>>::empty().insert(t)));
    assert(maximal_sets(Set::<Set<usize>>::empty().insert(t)) =~= Set::<Set<usize>>::empty().insert(
        t,
    ));
}


/// An external face of dimension `k`: a `(k+1)`-subset of the vertex set
/// that is not itself a face although all its one-element deletions are.
#[verifier::opaque]
pub open spec fn is_external_face(fam: Set<Set<usize>>, k: int, t: Set<usize>) -> bool {
    t.finite() && t.len() == k + 1 && t.subset_of(vertex_set_of(fam)) && !k_faces_set(
        fam,
        k,
    ).contains(t) && (forall|x: usize| #[trigger]
        t.contains(x) ==> k_faces_set(fam, k - 1).contains(t.remove(x)))
}

/// An external face of any dimension from one up to one above `d`.
pub open spec fn is_external_range(fam: Set<Set<usize>>, d: int, t: Set<usize>) -> bool {
    2 <= t.len() <= d + 2 && is_external_face(fam, t.len() - 1, t)
}

/// The Alexander dual family: the boundary faces of each facet's complement
/// within the vertex set, together with the complements of external faces.
pub open spec fn alexander_family(fam: Set<Set<usize>>, d: int) -> Set<Set<usize>> {
    Set::new(
        |u: Set<usize>|
            (exists|f: Set<usize>, x: usize|
                #![trigger fam.contains(f), vertex_set_of(fam).contains(x)]
                fam.contains(f) && vertex_set_of(fam).contains(x) && !f.contains(x) && u
                    == vertex_set_of(fam).difference(f).remove(x)) || (d >= 1 && exists|
                t: Set<usize>,
            | #[trigger] is_external_range(fam, d, t) && u == vertex_set_of(fam).difference(t)),
    )
}

impl SimplicialComplex {
    /// The sorted list of all vertices of the complex.
    fn vertex_list(&self) -> (r: Vec<usize>)
        requires
            self.wf(),
        ensures
            sorted_distinct(r@),
            r@.to_set() == vertex_set_of(self.family()),
            r@.len() == vertex_set_of(self.family()).len(),
    {
        let mut all: Vec<usize> = Vec::new();
        let mut i: usize = 0;
        while i < self.facets.len()
            invariant
                0 <= i <= self.facet_seqs().len(),
                self.wf(),
                forall|x: usize|
                    all@.to_set().contains(x) <==> exists|k: int|
                        0 <= k < i && (#[trigger] self.facet_seqs()[k]).to_set().contains(x),
            decreases self.facet_seqs().len() - i,
        {
            let ghost old_all = all@;
            let mut p: usize = 0;
            while p < self.facets[i].vertices.len()
                invariant
                    0 <= p <= self.facets@[i as int].vertices@.len(),
                    0 <= i < self.facet_seqs().len(),
                    self.wf(),
                    all@.to_set() == old_all.to_set().union(
                        self.facets@[i as int].vertices@.take(p as int).to_set(),
                    ),
                decreases self.facets@[i as int].vertices@.len() - p,
            {
                all.push(self.facets[i].vertices[p]);
                proof {
                    broadcast use vstd::prelude::Seq::lemma_push_to_set_commute;

                    assert(self.facets@[i as int].vertices@.take(p + 1) =~= self.facets@[
                        i as int
                    ].vertices@.take(p as int).push(self.facets@[i as int].vertices@[p as int]));
                    assert(all@.to_set() =~= old_all.to_set().union(
                        self.facets@[i as int].vertices@.take(p + 1).to_set(),
                    ));
                }
                p = p + 1;
            }
            proof {
                assert(self.facets@[i as int].vertices@.take(
                    self.facets@[i as int].vertices@.len() as int,
                ) =~= self.facets@[i as int].vertices@);
                assert(self.facet_seqs()[i as int] == self.facets@[i as int].vertices@);
                assert forall|x: usize|
                    all@.to_set().contains(x) <==> exists|k: int|
                        0 <= k < i + 1 && (#[trigger] self.facet_seqs()[k]).to_set().contains(
                            x,
                        ) by {
                    if all@.to_set().contains(x) {
                        if old_all.to_set().contains(x) {
                            let k = choose|k: int|
                                0 <= k < i && (#[trigger] self.facet_seqs()[k]).to_set().contains(
                                    x,
                                );
                            assert(0 <= k < i + 1 && self.facet_seqs()[k].to_set().contains(x));
                        } else {
                            assert(self.facet_seqs()[i as int].to_set().contains(x));
                        }
                    }
                }
            }
            i = i + 1;
        }
        let r = canonicalize(&all);
        proof {
            lemma_family_membership(self.facet_seqs());
            lemma_sorted_distinct_len(r@);
            assert forall|x: usize|
                r@.to_set().contains(x) <==> vertex_set_of(self.family()).contains(x) by {
                if r@.to_set().contains(x) {
                    let k = choose|k: int|
                        0 <= k < self.facet_seqs().len() && (#[trigger] self.facet_seqs()[
                            k
                        ]).to_set().contains(x);
                    assert(exists|q: int|
                        0 <= q < self.facet_seqs().len() && self.facet_seqs()[q].to_set()
                            == self.facet_seqs()[k].to_set());
                    assert(self.family().contains(self.facet_seqs()[k].to_set()));
                }
                if vertex_set_of(self.family()).contains(x) {
                    let f = choose|f: Set<usize>| #[trigger]
                        self.family().contains(f) && f.contains(x);
                    let k = choose|k: int|
                        0 <= k < self.facet_seqs().len() && self.facet_seqs()[k].to_set() == f;
                    assert(self.facet_seqs()[k].to_set().contains(x));
                }
            }
            assert(r@.to_set() =~= vertex_set_of(self.family()));
        }
        r
    }

    /// Decides whether a candidate vertex list is an external face: not a
    /// face itself, while its whole boundary is.
    fn external_test(
        &self,
        cand: &Vec<usize>,
        lo: &Vec<Facet>,
        hi: &Vec<Facet>,
        dim: usize,
    ) -> (r: bool)
        requires
            self.wf(),
            1 <= dim < usize::MAX - 1,
            sorted_distinct(cand@),
            cand@.len() == dim + 1,
            cand@.to_set().subset_of(vertex_set_of(self.family())),
            forall|m: int|
                0 <= m < lo@.len() ==> sorted_distinct((#[trigger] lo@[m]).vertices@)
                    && k_faces_set(self.family(), dim - 1).contains(lo@[m].vertices@.to_set()),
            forall|t: Set<usize>| #[trigger]
                k_faces_set(self.family(), dim - 1).contains(t) ==> set_in(facet_views(lo@), t),
            forall|m: int|
                0 <= m < hi@.len() ==> sorted_distinct((#[trigger] hi@[m]).vertices@)
                    && k_faces_set(self.family(), dim as int).contains(hi@[m].vertices@.to_set()),
            forall|t: Set<usize>| #[trigger]
                k_faces_set(self.family(), dim as int).contains(t) ==> set_in(facet_views(hi@), t),
        ensures
            r == is_external_face(self.family(), dim as int, cand@.to_set()),
    {
        let ghost fam = self.family();
        let ghost t = cand@.to_set();
        proof {
            reveal(is_external_face);
            lemma_sorted_distinct_len(cand@);
        }
        if face_member(&hi, cand) {
            proof {
                reveal(is_external_face);
                let m = choose|m: int|
                    0 <= m < facet_views(hi@).len() && facet_views(hi@)[m] == cand@;
                assert(hi@[m].vertices@.to_set() == t);
                assert(k_faces_set(fam, dim as int).contains(t));
            }
            return false;
        }
        proof {
            if k_faces_set(fam, dim as int).contains(t) {
                assert(set_in(facet_views(hi@), t));
                let m = choose|m: int|
                    0 <= m < facet_views(hi@).len() && facet_views(hi@)[m].to_set() == t;
                lemma_sorted_distinct_canonical(hi@[m].vertices@, cand@);
                assert(false);
            }
        }
        let mut p: usize = 0;
        while p < cand.len()
            invariant
                0 <= p <= cand@.len(),
                self.wf(),
                fam == self.family(),
                1 <= dim,
                sorted_distinct(cand@),
                t == cand@.to_set(),
                forall|m: int|
                    0 <= m < lo@.len() ==> sorted_distinct((#[trigger] lo@[m]).vertices@)
                        && k_faces_set(fam, dim - 1).contains(lo@[m].vertices@.to_set()),
                forall|t2: Set<usize>| #[trigger]
                    k_faces_set(fam, dim - 1).contains(t2) ==> set_in(facet_views(lo@), t2),
                forall|q: int|
                    0 <= q < p ==> k_faces_set(fam, dim - 1).contains(
                        t.remove(#[trigger] cand@[q]),
                    ),
            decreases cand@.len() - p,
        {
            let d = crate::utils::remove_at(cand, p);
            proof {
                crate::family::lemma_sorted_remove_set(cand@, p as int);
            }
            if !face_member(&lo, &d) {
                proof {
                    if k_faces_set(fam, dim - 1).contains(d@.to_set()) {
                        assert(set_in(facet_views(lo@), d@.to_set()));
                        let m = choose|m: int|
                            0 <= m < facet_views(lo@).len() && facet_views(lo@)[m].to_set()
                                == d@.to_set();
                        lemma_sorted_distinct_canonical(lo@[m].vertices@, d@);
                        assert(false);
                    }
                    let x = cand@[p as int];
                    assert(cand@.contains(x));
                    assert(t.contains(x));
                    assert(!k_faces_set(fam, dim - 1).contains(t.remove(x)));
                    reveal(is_external_face);
                }
                return false;
            }
            proof {
                let m = choose|m: int| 0 <= m < facet_views(lo@).len() && facet_views(lo@)[m] == d@;
                assert(lo@[m].vertices@.to_set() == d@.to_set());
                assert(k_faces_set(fam, dim - 1).contains(t.remove(cand@[p as int])));
            }
            p = p + 1;
        }
        proof {
            assert forall|x: usize| #[trigger] t.contains(x) implies k_faces_set(
                fam,
                dim - 1,
            ).contains(t.remove(x)) by {
                let q = choose|q: int| 0 <= q < cand@.len() && cand@[q] == x;
            }
            reveal(is_external_face);
        }
        true
    }

    /// The external faces of dimension `dim`: the `(dim+1)`-subsets of the
    /// vertex set that are not faces although their whole boundary is.
    #[verifier::rlimit(100)]
    #[verifier::loop_isolation(false)]
    pub fn k_external_faces(&self, dim: usize) -> (r: Vec<Facet>)
        requires
            self.wf(),
            1 <= dim < usize::MAX - 1,
        ensures
            forall|m: int|
                0 <= m < r@.len() ==> sorted_distinct((#[trigger] r@[m]).vertices@)
                    && is_external_face(self.family(), dim as int, r@[m].vertices@.to_set()),
            forall|m1: int, m2: int|
                0 <= m1 < m2 < r@.len() ==> r@[m1].vertices@ != r@[m2].vertices@,
            forall|t: Set<usize>| #[trigger]
                is_external_face(self.family(), dim as int, t) ==> set_in(facet_views(r@), t),
    {
        let ghost fam = self.family();
        let lo = self.k_faces(dim - 1);
        let hi = self.k_faces(dim);
        let verts = self.vertex_list();
        proof {
            crate::family::lemma_sorted_distinct_no_dup(verts@);
        }
        let cands = get_subvectors(&verts, dim + 1);
        proof {
            assert forall|c: int|
                0 <= c < cands@.len() implies sorted_distinct(#[trigger] cands@[c]@) && cands@[
                c
            ]@.to_set().subset_of(verts@.to_set()) by {
                crate::family::lemma_subsequence_sorted(cands@[c]@, verts@);
                crate::family::lemma_subsequence_elems(cands@[c]@, verts@);
            }
        }
        let mut r: Vec<Facet> = Vec::new();
        let ghost mut cs: Seq<int> = Seq::empty();
        let mut c: usize = 0;
        while c < cands.len()
            invariant
                0 <= c <= cands@.len(),
                cs.len() == r@.len(),
                forall|m: int|
                    #![all_triggers]
                    0 <= m < r@.len() ==> 0 <= cs[m] < c && r@[m].vertices@ == cands@[cs[m]]@
                        && is_external_face(fam, dim as int, r@[m].vertices@.to_set()),
                forall|m1: int, m2: int|
                    0 <= m1 < m2 < r@.len() ==> r@[m1].vertices@ != r@[m2].vertices@,
                forall|c2: int|
                    0 <= c2 < c && is_external_face(
                        fam,
                        dim as int,
                        (#[trigger] cands@[c2]@).to_set(),
                    ) ==> set_in(facet_views(r@), cands@[c2]@.to_set()),
            decreases cands@.len() - c,
        {
            let ghost old_r = r@;
            let keep = self.external_test(&cands[c], &lo, &hi, dim);
            if keep {
                proof {
                    assert forall|m: int|
                        0 <= m < old_r.len() implies old_r[m].vertices@ != cands@[c as int]@ by {
                        assert(old_r[m].vertices@ == cands@[cs[m]]@ && cs[m] < c);
                    }
                }
                let element = canonicalize(&cands[c]);
                proof {
                    lemma_sorted_distinct_canonical(element@, cands@[c as int]@);
                }
                r.push(Facet { vertices: element });
                proof {
                    cs = cs.push(c as int);
                }
            }
            proof {
                assert forall|c2: int|
                    0 <= c2 < c + 1 && is_external_face(
                        fam,
                        dim as int,
                        (#[trigger] cands@[c2]@).to_set(),
                    ) implies set_in(facet_views(r@), cands@[c2]@.to_set()) by {
                    if c2 < c {
                        let m = choose|m: int|
                            0 <= m < facet_views(old_r).len() && facet_views(old_r)[m].to_set()
                                == cands@[c2]@.to_set();
                        assert(facet_views(r@)[m].to_set() == cands@[c2]@.to_set());
                    } else {
                        assert(keep);
                        assert(facet_views(r@)[r@.len() - 1].to_set() == cands@[c2]@.to_set());
                    }
                }
            }
            c = c + 1;
        }
        proof {
            assert forall|t2: Set<usize>| #[trigger]
                is_external_face(self.family(), dim as int, t2) implies set_in(
                facet_views(r@),
                t2,
            ) by {
                reveal(is_external_face);
                assert(t2.subset_of(verts@.to_set()) && t2.finite() && t2.len() == dim + 1);
                let m = choose|m: int| 0 <= m < cands@.len() && cands@[m]@.to_set() == t2;
                assert(is_external_face(fam, dim as int, cands@[m]@.to_set()));
                assert(set_in(facet_views(r@), cands@[m]@.to_set()));
            }
        }
        r
    }
}


/// Appends canonical copies of one layer of faces to the accumulator,
/// entry by entry, leaving the existing prefix untouched.
fn append_external_layer(r: &mut Vec<Facet>, layer: &Vec<Facet>)
    requires
        forall|m: int| 0 <= m < layer@.len() ==> sorted_distinct((#[trigger] layer@[m]).vertices@),
    ensures
        final(r)@.len() == old(r)@.len() + layer@.len(),
        forall|m: int| 0 <= m < old(r)@.len() ==> #[trigger] final(r)@[m] == old(r)@[m],
        forall|m: int|
            0 <= m < layer@.len() ==> (#[trigger] final(r)@[old(r)@.len() + m]).vertices@
                == layer@[m].vertices@,
{
    let ghost base = r@;
    let mut p: usize = 0;
    while p < layer.len()
        invariant
            0 <= p <= layer@.len(),
            forall|m: int|
                0 <= m < layer@.len() ==> sorted_distinct((#[trigger] layer@[m]).vertices@),
            r@.len() == base.len() + p,
            forall|m: int| 0 <= m < base.len() ==> #[trigger] r@[m] == base[m],
            forall|m: int|
                0 <= m < p ==> (#[trigger] r@[base.len() + m]).vertices@ == layer@[m].vertices@,
        decreases layer@.len() - p,
    {
        let w = canonicalize(&layer[p].vertices);
        proof {
            lemma_sorted_distinct_canonical(w@, layer@[p as int].vertices@);
        }
        r.push(Facet { vertices: w });
        p = p + 1;
    }
}

impl SimplicialComplex {
    /// All external faces found by scanning candidate dimensions from one to
    /// one above the complex's dimension (none when the dimension is below one),
    /// each exactly once per layer.
    #[verifier::rlimit(100)]
    fn external_faces(&self) -> (r: Vec<Facet>)
        requires
            self.wf(),
        ensures
            forall|m: int|
                0 <= m < r@.len() ==> sorted_distinct((#[trigger] r@[m]).vertices@)
                    && is_external_range(
                    self.family(),
                    self.dim_spec(),
                    r@[m].vertices@.to_set(),
                ),
            self.dim_spec() >= 1 ==> forall|t: Set<usize>| #[trigger]
                is_external_range(self.family(), self.dim_spec(), t) ==> set_in(
                    facet_views(r@),
                    t,
                ),
            self.dim_spec() < 1 ==> r@.len() == 0,
    {
        let ghost fam = self.family();
        let ghost d = self.dim_spec();
        let d_isize = self.dimension();
        let mut r: Vec<Facet> = Vec::new();
        if d_isize < 1 {
            return r;
        }
        let d_usize = d_isize as usize;
        proof {
            lemma_max_seq_len_upper(self.facet_seqs(), isize::MAX as int);
            assert(d + 1 <= isize::MAX as int);
        }
        let mut k: usize = 1;
        while k <= d_usize + 1
            invariant
                1 <= k <= d_usize + 2,
                self.wf(),
                fam == self.family(),
                d == self.dim_spec(),
                1 <= d_usize,
                d_usize + 2 < usize::MAX,
                d_usize == d,
                forall|m: int|
                    0 <= m < r@.len() ==> sorted_distinct((#[trigger] r@[m]).vertices@)
                        && is_external_range(fam, d, r@[m].vertices@.to_set()),
                forall|t: Set<usize>, k2: int|
                    #![trigger is_external_face(fam, k2, t)]
                    1 <= k2 < k && is_external_face(fam, k2, t) && t.finite() && t.len() == k2 + 1
                        ==> set_in(facet_views(r@), t),
            decreases d_usize + 2 - k,
        {
            let layer = self.k_external_faces(k);
            let ghost before = r@;
            append_external_layer(&mut r, &layer);
            proof {
                assert forall|m: int|
                    0 <= m < r@.len() implies sorted_distinct((#[trigger] r@[m]).vertices@)
                        && is_external_range(fam, d, r@[m].vertices@.to_set()) by {
                    if m < before.len() {
                        assert(r@[m] == before[m]);
                    } else {
                        let m2 = m - before.len();
                        assert(r@[before.len() + m2].vertices@ == layer@[m2].vertices@);
                        assert(m == before.len() + m2);
                        assert(r@[m].vertices@ == layer@[m2].vertices@);
                        assert(is_external_face(fam, k as int, r@[m].vertices@.to_set()));
                        assert(r@[m].vertices@.to_set().len() == k + 1) by {
                            reveal(is_external_face);
                        }
                    }
                }
                assert forall|t: Set<usize>, k2: int|
                    #![trigger is_external_face(fam, k2, t)]
                    1 <= k2 < k + 1 && is_external_face(fam, k2, t) && t.finite() && t.len() == k2
                        + 1 implies set_in(facet_views(r@), t) by {
                    if k2 == k {
                        assert(set_in(facet_views(layer@), t));
                        let m = choose|m: int|
                            0 <= m < facet_views(layer@).len() && facet_views(layer@)[m].to_set()
                                == t;
                        assert(r@[before.len() + m].vertices@ == layer@[m].vertices@);
                        assert(facet_views(r@)[before.len() + m].to_set() == t);
                        assert(set_in(facet_views(r@), t));
                    } else {
                        assert(set_in(facet_views(before), t));
                        let m = choose|m: int|
                            0 <= m < facet_views(before).len() && facet_views(before)[m].to_set()
                                == t;
                        assert(r@[m] == before[m]);
                        assert(facet_views(r@)[m].to_set() == t);
                        assert(set_in(facet_views(r@), t));
                    }
                }
            }
            k = k + 1;
        }
        proof {
            assert forall|t: Set<usize>| #[trigger]
                is_external_range(fam, d, t) implies set_in(facet_views(r@), t) by {
                assert(2 <= t.len() <= d + 2);
                assert(is_external_face(fam, t.len() - 1, t));
                assert(t.finite()) by {
                    reveal(is_external_face);
                }
                assert(1 <= t.len() - 1 < d_usize + 2);
            }
        }
        r
    }
}

impl SimplicialComplex {
    /// The complements of each facet's boundary within the vertex set: for
    /// every facet and every vertex outside it, one list for the complement
    /// of the facet with that vertex also removed.
    #[verifier::rlimit(100)]
    fn dual_boundary_lists(&self, verts: &Vec<usize>) -> (lists: Vec<Vec<usize>>)
        requires
            self.wf(),
            sorted_distinct(verts@),
            verts@.to_set() == vertex_set_of(self.family()),
            verts@.len() <= isize::MAX as int,
        ensures
            forall|m: int|
                #![trigger lists@[m]]
                0 <= m < lists@.len() ==> lists@[m]@.len() <= isize::MAX as int && alexander_family(
                    self.family(),
                    self.dim_spec(),
                ).contains(lists@[m]@.to_set()),
            forall|k: int, x: usize|
                #![trigger vertex_set_of(self.family()).difference((self.facet_seqs()[k]).to_set()).remove(x)]
                0 <= k < self.facet_seqs().len() && vertex_set_of(self.family()).contains(x)
                    && !self.facet_seqs()[k].to_set().contains(x) ==> set_in(
                    seq_views(lists@),
                    vertex_set_of(self.family()).difference(self.facet_seqs()[k].to_set()).remove(
                        x,
                    ),
                ),
    {
        let ghost fam = self.family();
        let ghost d = self.dim_spec();
        let ghost vs = vertex_set_of(fam);
        let mut lists: Vec<Vec<usize>> = Vec::new();
        let mut i: usize = 0;
        while i < self.facets.len()
            invariant
                0 <= i <= self.facet_seqs().len(),
                self.wf(),
                fam == self.family(),
                d == self.dim_spec(),
                vs == vertex_set_of(fam),
                sorted_distinct(verts@),
                verts@.to_set() == vs,
                verts@.len() <= isize::MAX as int,
                forall|m: int|
                    #![trigger lists@[m]]
                    0 <= m < lists@.len() ==> lists@[m]@.len() <= isize::MAX as int
                        && alexander_family(fam, d).contains(lists@[m]@.to_set()),
                forall|k: int, x: usize|
                    #![trigger vs.difference((self.facet_seqs()[k]).to_set()).remove(x)]
                    0 <= k < i && vs.contains(x) && !self.facet_seqs()[k].to_set().contains(x)
                        ==> set_in(
                        seq_views(lists@),
                        vs.difference(self.facet_seqs()[k].to_set()).remove(x),
                    ),
            decreases self.facet_seqs().len() - i,
        {
            proof {
                assert(self.facet_seqs()[i as int] == self.facets@[i as int].vertices@);
            }
            let dualf = self.facets[i].dual(verts);
            proof {
                crate::simplex::lemma_filter_nonmembership_set(
                    verts@,
                    self.facets@[i as int].vertices@,
                );
                lemma_filter_sorted(verts@, self.facets@[i as int].vertices@);
                broadcast use vstd::seq_lib::group_filter_ensures;

            }
            let bdy = dualf.boundary();
            let ghost base = lists@;
            let ghost dv = dualf.vertices@;
            let mut b: usize = 0;
            while b < bdy.len()
                invariant
                    0 <= b <= bdy@.len(),
                    sorted_distinct(dv),
                    dv.len() <= isize::MAX as int,
                    bdy@.len() == dv.len(),
                    forall|q: int| 0 <= q < bdy@.len() ==> (#[trigger] bdy@[q]).vertices@
                        == dv.remove(q),
                    lists@.len() == base.len() + b,
                    forall|m: int| 0 <= m < base.len() ==> #[trigger] lists@[m] == base[m],
                    forall|q: int|
                        0 <= q < b ==> (#[trigger] lists@[base.len() + q]@).to_set()
                            == dv.to_set().remove(dv[q]) && lists@[base.len() + q]@.len()
                            <= isize::MAX as int,
                decreases bdy@.len() - b,
            {
                let w = canonicalize(&bdy[b].vertices);
                proof {
                    crate::family::lemma_sorted_remove_set(dv, b as int);
                    assert(bdy@[b as int].vertices@ == dv.remove(b as int));
                    assert(w@.to_set() == dv.to_set().remove(dv[b as int]));
                }
                lists.push(w);
                b = b + 1;
            }
            proof {
                lemma_family_membership(self.facet_seqs());
                let fset = self.facet_seqs()[i as int].to_set();
                assert(exists|q: int|
                    0 <= q < self.facet_seqs().len() && self.facet_seqs()[q].to_set() == fset);
                assert(fam.contains(fset));
                assert(dv.to_set() == vs.difference(fset));
                assert forall|m: int|
                    #![trigger lists@[m]]
                    0 <= m < lists@.len() implies lists@[m]@.len() <= isize::MAX as int
                        && alexander_family(fam, d).contains(lists@[m]@.to_set()) by {
                    if m < base.len() {
                        assert(lists@[m] == base[m]);
                    } else {
                        let q = m - base.len();
                        assert(lists@[base.len() + q]@.to_set() == dv.to_set().remove(dv[q]));
                        let x = dv[q];
                        assert(dv.contains(x));
                        assert(dv.to_set().contains(x));
                        assert(vs.contains(x) && !fset.contains(x));
                        assert(lists@[m]@.to_set() == vs.difference(fset).remove(x));
                        assert(alexander_family(fam, d).contains(lists@[m]@.to_set()));
                    }
                }
                assert forall|k: int, x: usize|
                    #![trigger vs.difference((self.facet_seqs()[k]).to_set()).remove(x)]
                    0 <= k < i + 1 && vs.contains(x) && !self.facet_seqs()[k].to_set().contains(
                        x,
                    ) implies set_in(
                    seq_views(lists@),
                    vs.difference(self.facet_seqs()[k].to_set()).remove(x),
                ) by {
                    if k < i {
                        let m = choose|m: int|
                            0 <= m < seq_views(base).len() && seq_views(base)[m].to_set()
                                == vs.difference(self.facet_seqs()[k].to_set()).remove(x);
                        assert(lists@[m] == base[m]);
                        assert(seq_views(lists@)[m].to_set() == vs.difference(
                            self.facet_seqs()[k].to_set(),
                        ).remove(x));
                        assert(set_in(
                            seq_views(lists@),
                            vs.difference(self.facet_seqs()[k].to_set()).remove(x),
                        ));
                    } else {
                        assert(dv.to_set().contains(x));
                        assert(dv.contains(x));
                        let q = choose|q: int| 0 <= q < dv.len() && dv[q] == x;
                        assert(lists@[base.len() + q]@.to_set() == dv.to_set().remove(dv[q]));
                        assert(seq_views(lists@)[base.len() + q].to_set() == vs.difference(
                            fset,
                        ).remove(x));
                        assert(set_in(seq_views(lists@), vs.difference(fset).remove(x)));
                    }
                }
            }
            i = i + 1;
        }
        lists
    }

    /// The combinatorial Alexander dual: for each facet the boundary faces of
    /// its complement within the vertex set, together with the complements of
    /// all external faces.
    #[verifier::rlimit(100)]
    pub fn combinatorial_alexander_dual(&self) -> (r: Self)
        requires
            self.wf(),
            vertex_set_of(self.family()).len() <= isize::MAX as int,
        ensures
            r.normal(),
            r.family() == maximal_sets(alexander_family(self.family(), self.dim_spec())),
    {
        let ghost fam = self.family();
        let ghost d = self.dim_spec();
        let ghost vs = vertex_set_of(fam);
        let verts = self.vertex_list();
        let mut lists = self.dual_boundary_lists(&verts);
        let externals = self.external_faces();
        let ghost before_ext = lists@;
        let mut e: usize = 0;
        while e < externals.len()
            invariant
                0 <= e <= externals@.len(),
                self.wf(),
                fam == self.family(),
                d == self.dim_spec(),
                vs == vertex_set_of(fam),
                sorted_distinct(verts@),
                verts@.to_set() == vs,
                verts@.len() <= isize::MAX as int,
                forall|m: int|
                    0 <= m < externals@.len() ==> sorted_distinct(
                        (#[trigger] externals@[m]).vertices@,
                    ) && is_external_range(fam, d, externals@[m].vertices@.to_set()),
                d < 1 ==> externals@.len() == 0,
                lists@.len() == before_ext.len() + e,
                forall|m: int| 0 <= m < before_ext.len() ==> #[trigger] lists@[m] == before_ext[m],
                forall|m: int|
                    0 <= m < e ==> (#[trigger] lists@[before_ext.len() + m]@).to_set()
                        == vs.difference(externals@[m].vertices@.to_set()) && lists@[before_ext.len()
                        + m]@.len() <= isize::MAX as int,
            decreases externals@.len() - e,
        {
            let w = externals[e].dual(&verts);
            proof {
                crate::simplex::lemma_filter_nonmembership_set(
                    verts@,
                    externals@[e as int].vertices@,
                );
                broadcast use vstd::seq_lib::group_filter_ensures;

                assert(w.vertices@.to_set() == vs.difference(
                    externals@[e as int].vertices@.to_set(),
                ));
            }
            lists.push(w.vertices);
            e = e + 1;
        }
        proof {
            assert forall|m: int|
                0 <= m < lists@.len() implies (#[trigger] lists@[m]@).len() <= isize::MAX as int by {
                if m < before_ext.len() {
                    assert(lists@[m] == before_ext[m]);
                } else {
                    let m2 = m - before_ext.len();
                    assert(lists@[before_ext.len() + m2]@.len() <= isize::MAX as int);
                }
            }
        }
        let r = Self::new_from_vec(lists);
        proof {
            lemma_family_membership(seq_views(lists@));
            let af = alexander_family(fam, d);
            assert forall|u: Set<usize>|
                family_of(seq_views(lists@)).contains(u) implies af.contains(u) by {
                let m = choose|m: int| 0 <= m < lists@.len() && seq_views(lists@)[m].to_set() == u;
                if m < before_ext.len() {
                    assert(lists@[m] == before_ext[m]);
                    assert(af.contains(before_ext[m]@.to_set()));
                } else {
                    let m2 = m - before_ext.len();
                    assert(lists@[before_ext.len() + m2]@.to_set() == vs.difference(
                        externals@[m2].vertices@.to_set(),
                    ));
                    assert(is_external_range(fam, d, externals@[m2].vertices@.to_set()));
                    assert(d >= 1);
                    assert(af.contains(u));
                }
            }
            assert forall|u: Set<usize>| af.contains(u) implies family_of(
                seq_views(lists@),
            ).contains(u) by {
                if exists|f: Set<usize>, x: usize|
                    #![trigger fam.contains(f), vertex_set_of(fam).contains(x)]
                    fam.contains(f) && vertex_set_of(fam).contains(x) && !f.contains(x) && u
                        == vertex_set_of(fam).difference(f).remove(x) {
                    let (f, x) = choose|f: Set<usize>, x: usize|
                        #![trigger fam.contains(f), vertex_set_of(fam).contains(x)]
                        fam.contains(f) && vertex_set_of(fam).contains(x) && !f.contains(x) && u
                            == vertex_set_of(fam).difference(f).remove(x);
                    lemma_family_membership(self.facet_seqs());
                    let k = choose|k: int|
                        0 <= k < self.facet_seqs().len() && self.facet_seqs()[k].to_set() == f;
                    assert(set_in(
                        seq_views(before_ext),
                        vs.difference(self.facet_seqs()[k].to_set()).remove(x),
                    ));
                    let m = choose|m: int|
                        0 <= m < seq_views(before_ext).len() && seq_views(before_ext)[m].to_set()
                            == vs.difference(self.facet_seqs()[k].to_set()).remove(x);
                    assert(lists@[m] == before_ext[m]);
                    assert(seq_views(lists@)[m].to_set() == u);
                } else {
                    assert(d >= 1);
                    let t = choose|t: Set<usize>| #[trigger]
                        is_external_range(fam, d, t) && u == vertex_set_of(fam).difference(t);
                    assert(set_in(facet_views(externals@), t));
                    let m0 = choose|m0: int|
                        0 <= m0 < facet_views(externals@).len() && facet_views(externals@)[
                            m0
                        ].to_set() == t;
                    assert(lists@[before_ext.len() + m0]@.to_set() == vs.difference(
                        externals@[m0].vertices@.to_set(),
                    ));
                    assert(externals@[m0].vertices@.to_set() == t);
                    assert(seq_views(lists@)[before_ext.len() + m0].to_set() == u);
                }
            }
            assert(family_of(seq_views(lists@)) =~= af);
        }
        r
    }
}

/// Filtering a strictly sorted list keeps it strictly sorted.
proof fn lemma_filter_sorted(a: Seq<usize>, b: Seq<usize>)
    requires
        sorted_distinct(a),
    ensures
        sorted_distinct(a.filter(|x: usize| !b.contains(x))),
    decreases a.len(),
{
    reveal(Seq::filter);
    broadcast use vstd::seq_lib::group_filter_ensures;

    let pred = |x: usize| !b.contains(x);
    if a.len() > 0 {
        assert forall|i: int, j: int|
            0 <= i < j < a.drop_last().len() implies a.drop_last()[i] < a.drop_last()[j] by {
            assert(a[i] < a[j]);
        }
        lemma_filter_sorted(a.drop_last(), b);
        let f = a.filter(pred);
        let fd = a.drop_last().filter(pred);
        assert forall|i: int, j: int| 0 <= i < j < f.len() implies f[i] < f[j] by {
            if pred(a.last()) {
                assert(f == fd.push(a.last()));
                if j < f.len() - 1 {
                    assert(f[i] == fd[i] && f[j] == fd[j]);
                } else {
                    assert(f[j] == a.last());
                    assert(f[i] == fd[i]);
                    crate::simplex::lemma_filter_elems(a.drop_last(), pred);
                    assert(fd.contains(fd[i]));
                    assert(a.drop_last().contains(fd[i]));
                    let q = choose|q: int|
                        0 <= q < a.drop_last().len() && a.drop_last()[q] == fd[i];
                    assert(a[q] < a.last());
                }
            } else {
                assert(f == fd);
            }
        }
    }
}


/// The facet family with facet `i` removed and every vertex kept as a face.
pub open spec fn pruned_base(c: SimplicialComplex, i: int) -> Set<Set<usize>> {
    family_of(c.facet_seqs().remove(i)).union(k_faces_set(c.family(), 0))
}

/// The machine bound of the homology pipeline, stated over a facet family
/// alone: every face sum stays within the 32-bit budget.
pub open spec fn family_in_range(fam: Set<Set<usize>>) -> bool {
    forall|k: int| k >= 0 ==> face_sum(fam, k) <= 0x1fff_ffff
}

/// Above the complex's dimension the face sums stop growing.
proof fn lemma_face_sum_stable(c: SimplicialComplex, k: int)
    requires
        c.wf(),
        k >= c.dim_spec(),
    ensures
        face_sum(c.family(), k) == face_sum(c.family(), c.dim_spec()),
    decreases k - c.dim_spec(),
{
    if k > c.dim_spec() {
        lemma_face_sum_stable(c, k - 1);
        if k >= 0 {
            lemma_no_faces_above(c, k);
        }
    }
}

/// For a well-formed complex the per-dimension bound and the family-level
/// bound agree.
pub proof fn lemma_family_in_range_iff(c: SimplicialComplex)
    requires
        c.wf(),
    ensures
        c.homology_in_range() <==> family_in_range(c.family()),
{
    let fam = c.family();
    let d = c.dim_spec();
    if family_in_range(fam) {
        if d >= 0 {
            assert(face_sum(fam, d) <= 0x1fff_ffff);
        } else {
            assert(face_sum(fam, d) == 0);
        }
    }
    if c.homology_in_range() {
        assert forall|k: int| k >= 0 implies face_sum(fam, k) <= 0x1fff_ffff by {
            if k <= d {
                lemma_face_sum_monotone(fam, k, d);
                lemma_face_sum_nonneg(fam, d);
            } else {
                lemma_face_sum_stable(c, k);
                lemma_face_sum_nonneg(fam, d);
                if d < 0 {
                    assert(face_sum(fam, d) == 0);
                }
            }
        }
    }
}

impl SimplicialComplex {
    /// The facets of the complex, for callers that render or inspect them.
    pub fn facet_list(&self) -> (r: &Vec<Facet>)
        ensures
            facet_views(r@) == self.facet_seqs(),
    {
        &self.facets
    }

    /// Decides the machine bound of the homology pipeline at run time, so
    /// that callers can establish it before asking for Betti numbers.
    pub fn betti_guard(&self) -> (r: bool)
        requires
            self.wf(),
        ensures
            r == self.homology_in_range(),
    {
        let ghost fam = self.family();
        let d_isize = self.dimension();
        if d_isize < 0 {
            return true;
        }
        let d = d_isize as usize;
        let mut acc: usize = 0;
        let mut k: usize = 0;
        while k <= d
            invariant
                0 <= k <= d + 1,
                d == self.dim_spec(),
                fam == self.family(),
                self.wf(),
                d < usize::MAX,
                acc == face_sum(fam, k - 1),
                acc <= 0x1fff_ffff,
            decreases d + 1 - k,
        {
            let faces = self.k_faces(k);
            proof {
                lemma_face_sum_nonneg(fam, k - 1);
            }
            if faces.len() > 0x1fff_ffff || acc + faces.len() > 0x1fff_ffff {
                proof {
                    lemma_face_sum_monotone(fam, k as int, d as int);
                }
                return false;
            }
            acc = acc + faces.len();
            k = k + 1;
        }
        true
    }

    /// Whether removing facet `i` (keeping the vertex set) leaves the complex
    /// connected; used as the probe of minimal connectivity.
    fn removal_keeps_connected(&self, i: usize) -> (r: bool)
        requires
            self.wf(),
            i < self.facet_seqs().len(),
        ensures
            family_in_range(maximal_sets(pruned_base(*self, i as int))) ==> exists|b: int|
                #[trigger] betti_is(maximal_sets(pruned_base(*self, i as int)), 0, b) && r == (b
                    == 1),
            !family_in_range(maximal_sets(pruned_base(*self, i as int))) ==> r == false,
    {
        let vertices = self.k_faces(0);
        let mut lists: Vec<Vec<usize>> = Vec::new();
        let mut j: usize = 0;
        while j < self.facets.len()
            invariant
                0 <= j <= self.facet_seqs().len(),
                self.wf(),
                i < self.facet_seqs().len(),
                lists@.len() == (if j <= i {
                    j as int
                } else {
                    j - 1
                }),
                forall|m: int|
                    #![trigger lists@[m]]
                    0 <= m < lists@.len() ==> lists@[m]@.to_set() == self.facet_seqs().remove(
                        i as int,
                    )[m].to_set() && lists@[m]@.len() <= isize::MAX as int,
            decreases self.facet_seqs().len() - j,
        {
            let ghost old_lists = lists@;
            proof {
                assert(self.facet_seqs()[j as int] == self.facets@[j as int].vertices@);
            }
            if j != i {
                lists.push(canonicalize(&self.facets[j].vertices));
                proof {
                    assert forall|m: int|
                        #![trigger lists@[m]]
                        0 <= m < lists@.len() implies lists@[m]@.to_set()
                            == self.facet_seqs().remove(i as int)[m].to_set() && lists@[m]@.len()
                            <= isize::MAX as int by {
                        if m < old_lists.len() {
                            assert(lists@[m] == old_lists[m]);
                        } else {
                            if j < i {
                                assert(self.facet_seqs().remove(i as int)[m]
                                    == self.facet_seqs()[j as int]);
                            } else {
                                assert(self.facet_seqs().remove(i as int)[m]
                                    == self.facet_seqs()[j as int]);
                            }
                        }
                    }
                }
            }
            j = j + 1;
        }
        let ghost n_base = lists@.len();
        let mut p: usize = 0;
        while p < vertices.len()
            invariant
                0 <= p <= vertices@.len(),
                self.wf(),
                i < self.facet_seqs().len(),
                n_base == self.facet_seqs().remove(i as int).len(),
                lists@.len() == n_base + p,
                forall|m: int|
                    #![trigger lists@[m]]
                    0 <= m < n_base ==> lists@[m]@.to_set() == self.facet_seqs().remove(i as int)[
                        m
                    ].to_set() && lists@[m]@.len() <= isize::MAX as int,
                forall|m: int|
                    0 <= m < vertices@.len() ==> k_faces_set(self.family(), 0).contains(
                        (#[trigger] vertices@[m]).vertices@.to_set(),
                    ) && vertices@[m].vertices@.len() == 1,
                forall|t: Set<usize>| #[trigger]
                    k_faces_set(self.family(), 0).contains(t) ==> set_in(
                        facet_views(vertices@),
                        t,
                    ),
                forall|m: int|
                    #![trigger lists@[m]]
                    n_base <= m < lists@.len() ==> lists@[m]@.to_set() == vertices@[m
                        - n_base].vertices@.to_set() && lists@[m]@.len() <= isize::MAX as int,
            decreases vertices@.len() - p,
        {
            let ghost old_lists = lists@;
            lists.push(canonicalize(&vertices[p].vertices));
            proof {
                assert forall|m: int|
                    #![trigger lists@[m]]
                    n_base <= m < lists@.len() implies lists@[m]@.to_set() == vertices@[m
                        - n_base].vertices@.to_set() && lists@[m]@.len() <= isize::MAX as int by {
                    if m < old_lists.len() {
                        assert(lists@[m] == old_lists[m]);
                    }
                }
                assert forall|m: int|
                    #![trigger lists@[m]]
                    0 <= m < n_base implies lists@[m]@.to_set() == self.facet_seqs().remove(
                    i as int,
                )[m].to_set() && lists@[m]@.len() <= isize::MAX as int by {
                    assert(lists@[m] == old_lists[m]);
                }
            }
            p = p + 1;
        }
        let pruned = Self::new_from_vec(lists);
        proof {
            lemma_family_membership(seq_views(lists@));
            lemma_family_membership(self.facet_seqs().remove(i as int));
            lemma_family_membership(facet_views(vertices@));
            assert forall|u: Set<usize>|
                family_of(seq_views(lists@)).contains(u) implies pruned_base(
                *self,
                i as int,
            ).contains(u) by {
                let m = choose|m: int| 0 <= m < lists@.len() && seq_views(lists@)[m].to_set() == u;
                if m < n_base {
                    assert(exists|q: int|
                        0 <= q < self.facet_seqs().remove(i as int).len() && self.facet_seqs().remove(
                            i as int,
                        )[q].to_set() == u);
                } else {
                    assert(k_faces_set(self.family(), 0).contains(u));
                }
            }
            assert forall|u: Set<usize>|
                pruned_base(*self, i as int).contains(u) implies family_of(
                seq_views(lists@),
            ).contains(u) by {
                if family_of(self.facet_seqs().remove(i as int)).contains(u) {
                    let q = choose|q: int|
                        0 <= q < self.facet_seqs().remove(i as int).len()
                            && self.facet_seqs().remove(i as int)[q].to_set() == u;
                    assert(seq_views(lists@)[q].to_set() == u);
                } else {
                    assert(k_faces_set(self.family(), 0).contains(u));
                    assert(set_in(facet_views(vertices@), u));
                    let m = choose|m: int|
                        0 <= m < facet_views(vertices@).len() && facet_views(vertices@)[m].to_set()
                            == u;
                    assert(seq_views(lists@)[n_base + m].to_set() == u);
                }
            }
            assert(family_of(seq_views(lists@)) =~= pruned_base(*self, i as int));
        }
        proof {
            lemma_family_in_range_iff(pruned);
        }
        if !pruned.betti_guard() {
            return false;
        }
        pruned.is_connected()
    }

    /// Connected, and no single facet can be removed (keeping the vertex
    /// set) without disconnecting the complex.  A true answer carries, for
    /// every facet, either disconnection evidence for its removal or the fact
    /// that the pruned complex escapes the machine bound; a false answer
    /// carries disconnection evidence for the complex itself or a facet whose
    /// removal keeps it connected.
    pub fn is_minimal_connected(&self) -> (r: bool)
        requires
            self.wf(),
            self.homology_in_range(),
        ensures
            r ==> (exists|b: int| #[trigger] betti_is(self.family(), 0, b) && b == 1) && (forall|
                i: int,
            |
                #![trigger pruned_base(*self, i)]
                0 <= i < self.facet_seqs().len() ==> !family_in_range(
                    maximal_sets(pruned_base(*self, i)),
                ) || (exists|b: int| #[trigger]
                    betti_is(maximal_sets(pruned_base(*self, i)), 0, b) && b != 1)),
            !r ==> (exists|b: int| #[trigger] betti_is(self.family(), 0, b) && b != 1) || (exists|
                i: int,
            |
                #![trigger pruned_base(*self, i)]
                0 <= i < self.facet_seqs().len() && family_in_range(
                    maximal_sets(pruned_base(*self, i)),
                ) && (exists|b: int| #[trigger]
                    betti_is(maximal_sets(pruned_base(*self, i)), 0, b) && b == 1)),
    {
        if !self.is_connected() {
            return false;
        }
        let mut i: usize = 0;
        while i < self.facets.len()
            invariant
                0 <= i <= self.facet_seqs().len(),
                self.wf(),
                exists|b: int| #[trigger] betti_is(self.family(), 0, b) && b == 1,
                forall|k: int|
                    #![trigger pruned_base(*self, k)]
                    0 <= k < i ==> !family_in_range(maximal_sets(pruned_base(*self, k))) || (exists|
                        b: int,
                    | #[trigger] betti_is(maximal_sets(pruned_base(*self, k)), 0, b) && b != 1),
            decreases self.facet_seqs().len() - i,
        {
            let connected = self.removal_keeps_connected(i);
            if connected {
                proof {
                    assert(family_in_range(maximal_sets(pruned_base(*self, i as int))));
                }
                return false;
            }
            i = i + 1;
        }
        true
    }

    /// The parallel variant of `is_minimal_connected`: the facet-removal
    /// probes run concurrently and may short-circuit in any order; the
    /// contract is that of the sequential variant.
    pub fn is_minimal_connected_par(&self) -> (r: bool)
        requires
            self.wf(),
            self.homology_in_range(),
        ensures
            r ==> (exists|b: int| #[trigger] betti_is(self.family(), 0, b) && b == 1) && (forall|
                i: int,
            |
                #![trigger pruned_base(*self, i)]
                0 <= i < self.facet_seqs().len() ==> !family_in_range(
                    maximal_sets(pruned_base(*self, i)),
                ) || (exists|b: int| #[trigger]
                    betti_is(maximal_sets(pruned_base(*self, i)), 0, b) && b != 1)),
            !r ==> (exists|b: int| #[trigger] betti_is(self.family(), 0, b) && b != 1) || (exists|
                i: int,
            |
                #![trigger pruned_base(*self, i)]
                0 <= i < self.facet_seqs().len() && family_in_range(
                    maximal_sets(pruned_base(*self, i)),
                ) && (exists|b: int| #[trigger]
                    betti_is(maximal_sets(pruned_base(*self, i)), 0, b) && b == 1)),
    {
        if !self.is_connected() {
            return false;
        }
        let any = par_any_removal_connected(self);
        !any
    }
}

/// Relies on rayon's `IntoParallelIterator::any` over the facet indices: the
/// result is true exactly when some probe returns true (a false answer means
/// every index was probed and none returned true); the probes are independent,
/// may run in any order, and may short-circuit on the first positive finding.
/// Each direction restates what the verified probe's own contract gives for
/// that outcome.
#[verifier::external_body]
fn par_any_removal_connected(c: &SimplicialComplex) -> (r: bool)
    requires
        c.wf(),
    ensures
        r ==> exists|i: int|
            #![trigger pruned_base(*c, i)]
            0 <= i < c.facet_seqs().len() && family_in_range(maximal_sets(pruned_base(*c, i))) && (
            exists|b: int| #[trigger] betti_is(maximal_sets(pruned_base(*c, i)), 0, b) && b == 1),
        !r ==> forall|i: int|
            #![trigger pruned_base(*c, i)]
            0 <= i < c.facet_seqs().len() ==> !family_in_range(maximal_sets(pruned_base(*c, i)))
                || (exists|b: int| #[trigger]
                betti_is(maximal_sets(pruned_base(*c, i)), 0, b) && b != 1),
{
    let n = c.facets.len();
    (0..n).into_par_iter().any(|i| c.removal_keeps_connected(i))
}


/// Law: a complex consisting of a single full simplex on a vertex set `vset`
/// has dimension `|vset| - 1`, exactly `|vset|` vertices, and exactly
/// `C(|vset|, k+1)` faces of each dimension `k` up to its dimension.  With
/// `contains_full_k_skeleton`'s contract this settles the full-skeleton test:
/// true for every `k` up to the dimension, and false one dimension above it
/// (there the contract's `k <= dimension` conjunct already fails).
pub proof fn lemma_full_simplex_skeleton(c: SimplicialComplex, vset: Set<usize>, k: int)
    requires
        c.normal(),
        c.family() == Set::<Set<usize>>::empty().insert(vset),
        0 <= k,
    ensures
        c.dim_spec() == vset.len() - 1,
        k_faces_set(c.family(), 0).len() == vset.len(),
        k < vset.len() ==> k_faces_set(c.family(), k).len() == spec_binomial(
            k_faces_set(c.family(), 0).len(),
            (k + 1) as nat,
        ),
{
    let fam = c.family();
    assert(fam.contains(vset));
    crate::family::lemma_family_finite(c.facet_seqs());
    assert(vset.finite());
    crate::family::lemma_family_card(c.facet_seqs());
    assert(fam.len() == c.facet_seqs().len());
    assert(fam =~= Set::<Set<usize>>::empty().insert(vset));
    assert(fam.len() == 1) by {
        assert(Set::<Set<usize>>::empty().insert(vset).len() == 1);
    }
    lemma_family_membership(c.facet_seqs());
    let i = choose|i: int| 0 <= i < c.facet_seqs().len() && c.facet_seqs()[i].to_set() == vset;
    assert(i == 0);
    lemma_sorted_distinct_len(c.facet_seqs()[0]);
    assert(c.facet_seqs()[0].len() == vset.len());
    assert(c.dim_spec() == vset.len() - 1) by {
        let fs = c.facet_seqs();
        assert(fs.drop_last().len() == 0);
        assert(max_seq_len(fs.drop_last()) == 0);
        assert(fs.last() == fs[0]);
        assert(max_seq_len(fs) == fs[0].len());
    }
    assert forall|j: int| 0 <= j implies k_faces_set(fam, j) =~= crate::family::k_subsets(
        vset,
        (j + 1) as nat,
    ) by {
        assert forall|t: Set<usize>|
            k_faces_set(fam, j).contains(t) <==> crate::family::k_subsets(
                vset,
                (j + 1) as nat,
            ).contains(t) by {
            if crate::family::k_subsets(vset, (j + 1) as nat).contains(t) {
                assert(fam.contains(vset) && t.subset_of(vset));
            }
            if k_faces_set(fam, j).contains(t) {
                let f = choose|f: Set<usize>| #[trigger] fam.contains(f) && t.subset_of(f);
                assert(f == vset);
            }
        }
    }
    crate::family::lemma_k_subsets_count(vset, 1);
    crate::family::lemma_binomial_one(vset.len());
    assert(k_faces_set(fam, 0).len() == vset.len());
    if k < vset.len() {
        crate::family::lemma_k_subsets_count(vset, (k + 1) as nat);
    }
}

} // verus!
