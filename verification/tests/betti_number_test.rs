use simplicial_topology::hypergraph::Hypergraph;
use simplicial_topology::simplex::Facet;
use simplicial_topology::simplicial_complex::SimplicialComplex;

#[test]
fn test_spheres() {
    for n in 3..10usize {
        let simplex: Facet = Facet::new((0..n).collect());
        let sc = SimplicialComplex::new(simplex.boundary());
        for i in 1..n - 2 {
            assert_eq!(sc.clone().kth_betti_number(i), 0)
        }
        assert_eq!(sc.kth_betti_number(n - 2), 1)
    }
}

#[test]
fn test_from_hypergraph_upward() {
    let hg = Hypergraph {
        vertices: vec![1, 2, 3, 4, 5, 6],
        hyperedges: vec![
            vec![1, 2],
            vec![2, 3],
            vec![3, 4],
            vec![1, 4],
            vec![2, 4],
            vec![1, 5],
            vec![1, 2, 3],
            vec![2, 3, 4],
            vec![1, 3, 4],
            vec![1, 2, 4],
        ],
    };
    let sc = hg.upward_closure();
    assert_eq!(sc.betti_numbers(), vec![2, 0, 1])
}

#[test]
fn test_from_hypergraph_downward() {
    let hg = Hypergraph {
        vertices: vec![1, 2, 3, 4, 5, 6],
        hyperedges: vec![
            vec![1, 2],
            vec![2, 3],
            vec![3, 1],
            vec![1, 4],
            vec![2, 4],
            vec![1, 5],
            vec![4, 1, 3],
            vec![1, 4, 2],
        ],
    };
    let sc = hg.par_downward_closure();
    assert_eq!(sc.betti_numbers(), vec![2, 1, 0])
}

#[test]
fn test_from_hypergraph_downward2() {
    let hg = Hypergraph {
        vertices: vec![1, 2, 3, 4],
        hyperedges: vec![
            vec![1, 2],
            vec![2, 3],
            vec![1, 3],
            vec![1, 4],
            vec![2, 4],
            vec![3, 4],
            vec![1, 2, 3],
            vec![1, 2, 4],
            vec![1, 3, 4],
            vec![2, 3, 4],
            vec![1, 2, 3, 4],
        ],
    };
    let sc = hg.par_downward_closure();
    let sc_golden = SimplicialComplex::new_from_vec(vec![vec![2, 1, 3, 4]]);
    assert_eq!(sc, sc_golden)
}

#[test]
fn test_alexander_duality() {
    let sigma: Facet = Facet::new(vec![1, 2, 3]);
    let tau: Facet = Facet::new(vec![1, 4, 5]);
    let mut sc: SimplicialComplex = sigma.boundary_as_complex().union(tau.boundary_as_complex());
    assert!(sc.add_simplex(Facet::new(vec![1, 2, 3])).is_ok());
    assert!(sc.add_simplex(Facet::new(vec![6])).is_ok());
    assert_eq!(sc.combinatorial_alexander_dual().betti_numbers(), vec![1, 0, 1, 1])
}
