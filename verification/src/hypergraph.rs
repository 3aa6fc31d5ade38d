//! A hypergraph: a vertex list plus arbitrary, unvalidated hyperedges.  The
//! closure engine turns it into a valid simplicial complex, either upward
//! (keep the maximal sets) or downward (keep the subset-closed hull).

use crate::family::{down_core, family_of, lemma_maximal_idempotent, maximal_sets};
use crate::simplicial_complex::SimplicialComplex;
use crate::utils::{
    filter_downward_closed_sets, filter_maximal_sets, par_filter_downward_closed_sets, seq_views,
};
use vstd::prelude::*;

verus! {

/// A vertex list and a list of hyperedges of arbitrary sizes.
#[derive(Debug, Clone)]
pub struct Hypergraph {
    pub vertices: Vec<usize>,
    pub hyperedges: Vec<Vec<usize>>,
}

impl Hypergraph {
    /// The vertex lists the closure engine consumes: one singleton per vertex
    /// followed by the hyperedges.
    pub open spec fn combined_seqs(self) -> Seq<Seq<usize>> {
        self.vertices@.map_values(|x: usize| seq![x]) + seq_views(self.hyperedges@)
    }

    /// The family of sets the hypergraph denotes.
    pub open spec fn spec_family(self) -> Set<Set<usize>> {
        family_of(self.combined_seqs())
    }

    /// Every hyperedge fits in a face (a machine limit).
    pub open spec fn edges_in_range(self) -> bool {
        forall|i: int|
            0 <= i < self.hyperedges@.len() ==> (#[trigger] self.hyperedges@[i]@).len()
                <= isize::MAX as int
    }

    /// Each vertex as a singleton set, followed by the hyperedges.
    pub fn _combine_vertices_and_edges(self) -> (r: Vec<Vec<usize>>)
        ensures
            seq_views(r@).len() == self.combined_seqs().len(),
            forall|k: int|
                0 <= k < r@.len() ==> (#[trigger] r@[k]@).to_set()
                    == self.combined_seqs()[k].to_set() && r@[k]@.len()
                    <= self.combined_seqs()[k].len(),
            family_of(seq_views(r@)) == self.spec_family(),
    {
        let ghost combined = self.combined_seqs();
        let mut r: Vec<Vec<usize>> = Vec::new();
        let mut i: usize = 0;
        while i < self.vertices.len()
            invariant
                0 <= i <= self.vertices@.len(),
                r@.len() == i,
                forall|k: int| 0 <= k < i ==> (#[trigger] r@[k]@) == seq![self.vertices@[k]],
            decreases self.vertices@.len() - i,
        {
            let mut single: Vec<usize> = Vec::new();
            single.push(self.vertices[i]);
            proof {
                assert(single@ =~= seq![self.vertices@[i as int]]);
            }
            r.push(single);
            i = i + 1;
        }
        let ghost nv = r@.len();
        let mut j: usize = 0;
        while j < self.hyperedges.len()
            invariant
                0 <= j <= self.hyperedges@.len(),
                nv == self.vertices@.len(),
                r@.len() == nv + j,
                forall|k: int| 0 <= k < nv ==> (#[trigger] r@[k]@) == seq![self.vertices@[k]],
                forall|k: int|
                    nv <= k < nv + j ==> (#[trigger] r@[k]@).to_set() == self.hyperedges@[k
                        - nv]@.to_set() && r@[k]@.len() <= self.hyperedges@[k - nv]@.len(),
            decreases self.hyperedges@.len() - j,
        {
            let ghost old_r = r@;
            r.push(crate::utils::canonicalize(&self.hyperedges[j]));
            proof {
                assert forall|k: int|
                    nv <= k < nv + j + 1 implies (#[trigger] r@[k]@).to_set() == self.hyperedges@[k
                        - nv]@.to_set() && r@[k]@.len() <= self.hyperedges@[k - nv]@.len() by {
                    if k < nv + j {
                        assert(r@[k] == old_r[k]);
                    } else {
                        assert(r@[k] == r@[r@.len() - 1]);
                    }
                }
            }
            j = j + 1;
        }
        proof {
            assert forall|k: int|
                0 <= k < r@.len() implies (#[trigger] r@[k]@).to_set() == combined[k].to_set()
                    && r@[k]@.len() <= combined[k].len() by {
                if k < nv {
                    assert(combined[k] == seq![self.vertices@[k]]);
                    assert(r@[k]@ == seq![self.vertices@[k]]);
                } else {
                    assert(combined[k] == self.hyperedges@[k - nv]@);
                }
            }
            assert forall|k: int|
                0 <= k < seq_views(r@).len() implies (#[trigger] seq_views(r@)[k]).to_set()
                    == combined[k].to_set() by {
                assert(seq_views(r@)[k] == r@[k]@);
            }
            crate::family::lemma_family_eq_pointwise(seq_views(r@), combined);
        }
        r
    }

    /// The complex whose facets are the maximal sets of the hypergraph.
    pub fn upward_closure(self) -> (r: SimplicialComplex)
        requires
            self.edges_in_range(),
        ensures
            r.normal(),
            r.family() == maximal_sets(self.spec_family()),
    {
        let ghost fam = self.spec_family();
        let subsets = self._combine_vertices_and_edges();
        let filtered = filter_maximal_sets(subsets);
        proof {
            assert forall|i: int|
                0 <= i < filtered@.len() implies (#[trigger] filtered@[i]@).len() <= isize::MAX
                as int by {
                if filtered@[i]@.len() != 0 {
                    let j = choose|j: int|
                        0 <= j < subsets@.len() && (#[trigger] filtered@[i]@).to_set() == subsets@[
                            j
                        ]@.to_set() && filtered@[i]@.len() <= subsets@[j]@.len();
                    assert(subsets@[j]@.len() <= self.combined_seqs()[j].len());
                    if j < self.vertices@.len() {
                        assert(self.combined_seqs()[j] == seq![self.vertices@[j]]);
                    } else {
                        assert(self.combined_seqs()[j] == self.hyperedges@[j
                            - self.vertices@.len()]@);
                    }
                }
            }
        }
        let r = SimplicialComplex::new_from_vec(filtered);
        proof {
            lemma_maximal_idempotent(fam);
        }
        r
    }

    /// The complex of the downward-closed hull of the hypergraph, compressed
    /// to its maximal sets.
    pub fn downward_closure(self) -> (r: SimplicialComplex)
        requires
            self.edges_in_range(),
        ensures
            r.normal(),
            r.family() == maximal_sets(down_core(self.spec_family())),
    {
        let ghost fam = self.spec_family();
        let subsets = self._combine_vertices_and_edges();
        let filtered = filter_downward_closed_sets(subsets);
        proof {
            assert forall|i: int|
                0 <= i < filtered@.len() implies (#[trigger] filtered@[i]@).len() <= isize::MAX
                as int by {
                if filtered@[i]@.len() != 0 {
                    let j = choose|j: int|
                        0 <= j < subsets@.len() && (#[trigger] filtered@[i]@).to_set() == subsets@[
                            j
                        ]@.to_set() && filtered@[i]@.len() <= subsets@[j]@.len();
                    assert(subsets@[j]@.len() <= self.combined_seqs()[j].len());
                    if j < self.vertices@.len() {
                        assert(self.combined_seqs()[j] == seq![self.vertices@[j]]);
                    } else {
                        assert(self.combined_seqs()[j] == self.hyperedges@[j
                            - self.vertices@.len()]@);
                    }
                }
            }
        }
        let r = SimplicialComplex::new_from_vec(filtered);
        proof {
            lemma_maximal_idempotent(down_core(fam));
        }
        r
    }

    /// The downward closure computed with each size layer decided in
    /// parallel; its contract is that of `downward_closure`, so the two
    /// always produce equal complexes.
    pub fn par_downward_closure(self) -> (r: SimplicialComplex)
        requires
            self.edges_in_range(),
        ensures
            r.normal(),
            r.family() == maximal_sets(down_core(self.spec_family())),
    {
        let ghost fam = self.spec_family();
        let subsets = self._combine_vertices_and_edges();
        let filtered = par_filter_downward_closed_sets(subsets);
        proof {
            assert forall|i: int|
                0 <= i < filtered@.len() implies (#[trigger] filtered@[i]@).len() <= isize::MAX
                as int by {
                if filtered@[i]@.len() != 0 {
                    let j = choose|j: int|
                        0 <= j < subsets@.len() && (#[trigger] filtered@[i]@).to_set() == subsets@[
                            j
                        ]@.to_set() && filtered@[i]@.len() <= subsets@[j]@.len();
                    assert(subsets@[j]@.len() <= self.combined_seqs()[j].len());
                    if j < self.vertices@.len() {
                        assert(self.combined_seqs()[j] == seq![self.vertices@[j]]);
                    } else {
                        assert(self.combined_seqs()[j] == self.hyperedges@[j
                            - self.vertices@.len()]@);
                    }
                }
            }
        }
        let r = SimplicialComplex::new_from_vec(filtered);
        proof {
            lemma_maximal_idempotent(down_core(fam));
        }
        r
    }
}

} // verus!
