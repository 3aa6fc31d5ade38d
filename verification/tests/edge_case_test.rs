use simplicial_topology::hypergraph::Hypergraph;
use simplicial_topology::simplex::{simplex_intersection, simplex_join, Facet};
use simplicial_topology::simplicial_complex::SimplicialComplex;
use simplicial_topology::utils::{alternating_sum, filter_downward_closed_sets, get_subvectors};
use simplicial_topology::ComplexError;

#[test]
fn test_empty_betti_and_euler() {
    let sc = SimplicialComplex::new_from_vec(vec![]);
    assert_eq!(sc.betti_numbers(), Vec::<i32>::new());
    assert_eq!(sc.euler_characteristic(), Err(ComplexError::UndefinedOnEmpty));
}

#[test]
fn test_euler_values() {
    // A full triangle: one component, no holes.
    let triangle = SimplicialComplex::new_from_vec(vec![vec![1, 2, 3]]);
    assert_eq!(triangle.euler_characteristic(), Ok(1));
    // Its boundary, a circle: vertices - edges = 0.
    let circle = Facet::new(vec![1, 2, 3]).boundary_as_complex();
    assert_eq!(circle.euler_characteristic(), Ok(0));
}

#[test]
fn test_simplex_operations() {
    let sigma = Facet::new(vec![3, 1, 2]);
    let sorted = sigma.sort();
    assert_eq!(sorted.vertices, vec![1, 2, 3]);
    assert_eq!(sorted.dimension(), 2);
    let empty = Facet::new(vec![]);
    assert_eq!(empty.dimension(), -1);
    let tau = Facet::new(vec![4, 5]);
    let joined = simplex_join(&sorted, &tau);
    assert_eq!(joined.vertices, vec![1, 2, 3, 4, 5]);
    let meet = simplex_intersection(&Facet::new(vec![1, 2, 3]), &Facet::new(vec![2, 3, 4]));
    assert_eq!(meet.vertices, vec![2, 3]);
    assert!(Facet::new(vec![1, 2, 3]).has_subface(&Facet::new(vec![1, 3])));
    assert!(!Facet::new(vec![1, 2]).has_subface(&Facet::new(vec![3])));
}

#[test]
fn test_subvectors_exact() {
    let v: Vec<usize> = vec![1, 2, 3];
    let subs = get_subvectors(&v, 2);
    assert_eq!(subs.len(), 3);
    assert!(subs.contains(&vec![1, 2]));
    assert!(subs.contains(&vec![1, 3]));
    assert!(subs.contains(&vec![2, 3]));
}

#[test]
fn test_downward_closure_agreement() {
    let hg = Hypergraph {
        vertices: vec![1, 2, 3, 4, 5],
        hyperedges: vec![vec![1, 2], vec![2, 3], vec![1, 3], vec![1, 2, 3], vec![4, 5]],
    };
    let seq = hg.clone().downward_closure();
    let par = hg.par_downward_closure();
    assert_eq!(seq, par);
    // The triangle {1,2,3} has all edges; the edge {4,5} has both vertices.
    let expected = SimplicialComplex::new_from_vec(vec![vec![1, 2, 3], vec![4, 5]]);
    assert_eq!(seq, expected);
}

#[test]
fn test_downward_filter_exact() {
    let kept = filter_downward_closed_sets(vec![
        vec![1],
        vec![1, 2],
        vec![1, 2, 3],
        vec![4, 5],
    ]);
    // Only chains whose whole boundary was kept survive; [1,2] needs [2],
    // which is absent, so only the singleton remains.
    assert_eq!(kept, vec![vec![1]]);
}

#[test]
fn test_error_variants() {
    let mut sc = SimplicialComplex::new_from_vec(vec![vec![1], vec![2]]);
    // Boundary of {1,2,3} is not present.
    assert_eq!(
        sc.add_simplex(Facet::new(vec![1, 2, 3])),
        Err(ComplexError::StructuralViolation)
    );
    let sc2 = SimplicialComplex::new_from_vec(vec![vec![1, 2, 3]]);
    // Overlapping join operands are rejected.
    assert!(sc2
        .clone()
        .join(Facet::new(vec![1]), Facet::new(vec![1, 4]))
        .is_err());
    // Star of a non-member face is rejected.
    assert!(sc2.clone().star(&Facet::new(vec![9])).is_err());
    assert!(sc2.star(&Facet::new(vec![])).is_err());
}

#[test]
fn test_join_star_link() {
    let sc = SimplicialComplex::new_from_vec(vec![vec![1, 2], vec![3]]);
    let joined = sc.join(Facet::new(vec![1]), Facet::new(vec![4])).unwrap();
    let expected = SimplicialComplex::new_from_vec(vec![vec![1, 2, 4], vec![3]]);
    assert_eq!(joined, expected);

    let sc2 = SimplicialComplex::new_from_vec(vec![vec![1, 2, 3], vec![3, 4]]);
    let star = sc2.clone().star(&Facet::new(vec![1])).unwrap();
    assert_eq!(star, SimplicialComplex::new_from_vec(vec![vec![1, 2, 3]]));
    let link = sc2.link(&Facet::new(vec![3])).unwrap();
    assert_eq!(
        link,
        SimplicialComplex::new_from_vec(vec![vec![1, 2], vec![4]])
    );
}

#[test]
fn test_boundary_roundtrip() {
    let facet = Facet::new(vec![1, 2, 3, 4]);
    let mut sc = SimplicialComplex::new(facet.boundary());
    assert!(sc.add_simplex(facet.clone()).is_ok());
    assert_eq!(sc, SimplicialComplex::new(vec![facet]));
}

#[test]
fn test_union_intersection_boundaries() {
    let sigma = Facet::new(vec![1, 2, 3]);
    let tau = Facet::new(vec![1, 4, 5]);
    let combined = sigma.boundary_as_complex().union(tau.boundary_as_complex());
    let direct = SimplicialComplex::new_from_vec(vec![
        vec![1, 2],
        vec![2, 3],
        vec![1, 3],
        vec![1, 4],
        vec![4, 5],
        vec![1, 5],
    ]);
    assert_eq!(combined, direct);
    let other = SimplicialComplex::new_from_vec(vec![vec![3, 4, 5]]);
    let meet = direct.intersection(other);
    assert_eq!(
        meet,
        SimplicialComplex::new_from_vec(vec![vec![4, 5], vec![3]])
    );
}

#[test]
fn test_is_pure_and_dimension() {
    let pure = SimplicialComplex::new_from_vec(vec![vec![1, 2], vec![3, 4]]);
    assert!(pure.is_pure());
    assert_eq!(pure.dimension(), 1);
    let mixed = SimplicialComplex::new_from_vec(vec![vec![1, 2, 3], vec![4, 5]]);
    assert!(!mixed.is_pure());
    assert_eq!(mixed.dimension(), 2);
}

#[test]
fn test_minimal_connected() {
    // A path of two edges is minimally connected.
    let path = SimplicialComplex::new_from_vec(vec![vec![1, 2], vec![2, 3]]);
    assert!(path.is_minimal_connected());
    assert!(path.is_minimal_connected_par());
    // A triangle of edges stays connected after removing any one edge.
    let cycle = SimplicialComplex::new_from_vec(vec![vec![1, 2], vec![2, 3], vec![1, 3]]);
    assert!(!cycle.is_minimal_connected());
    assert!(!cycle.is_minimal_connected_par());
}

#[test]
fn test_alternating_sum_exact() {
    let v: Vec<i32> = vec![6, 12, 8];
    assert_eq!(alternating_sum(&v), 2);
    assert_eq!(alternating_sum(&Vec::new()), 0);
}

#[test]
fn test_k_faces_counts() {
    let sc = SimplicialComplex::new_from_vec(vec![vec![1, 2, 3, 4]]);
    assert_eq!(sc.k_faces(0).len(), 4);
    assert_eq!(sc.k_faces(1).len(), 6);
    assert_eq!(sc.k_faces(2).len(), 4);
    assert_eq!(sc.k_faces(3).len(), 1);
    assert_eq!(sc.k_faces(4).len(), 0);
}

#[test]
fn test_betti_guard() {
    let sc = SimplicialComplex::new_from_vec(vec![vec![1, 2, 3]]);
    assert!(sc.betti_guard());
}
