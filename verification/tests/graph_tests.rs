use find_edge_swap::{build_ring, graph_from_edges, is_hamiltonian_cycle, is_two_regular};
use find_edge_swap::apply_perturbation;

#[test]
fn base_ring_is_hamiltonian_for_small_n() {
    for n in 3..8 {
        let g = build_ring(n);
        assert!(is_two_regular(&g));
        assert!(is_hamiltonian_cycle(&g));
    }
}

#[test]
fn two_disjoint_triangles_are_not_hamiltonian() {
    // degree two everywhere, but two connected components
    let edges = vec![(0, 1), (1, 2), (2, 0), (3, 4), (4, 5), (5, 3)];
    let g = graph_from_edges(6, &edges);
    assert!(is_two_regular(&g));
    assert!(!is_hamiltonian_cycle(&g));
}

#[test]
fn path_graph_is_not_hamiltonian() {
    // connected, but the endpoints have degree one
    let edges = vec![(0, 1), (1, 2), (2, 3)];
    let g = graph_from_edges(4, &edges);
    assert!(!is_two_regular(&g));
    assert!(!is_hamiltonian_cycle(&g));
}

#[test]
fn empty_graph_is_not_hamiltonian() {
    let edges = vec![];
    let g = graph_from_edges(0, &edges);
    assert!(!is_hamiltonian_cycle(&g));
}

#[test]
fn repeated_endpoint_pairs_are_inserted_once() {
    // the same edge named three times, in both orientations
    let edges = vec![(0, 1), (1, 0), (0, 1), (1, 2), (2, 0)];
    let g = graph_from_edges(3, &edges);
    assert_eq!(g.edges.len(), 3);
    assert!(is_hamiltonian_cycle(&g));
}

#[test]
fn ring_edges_for_n4_are_the_four_consecutive_pairs() {
    let g = build_ring(4);
    assert_eq!(g.edges.len(), 4);
    assert!(g.contains_edge(0, 1));
    assert!(g.contains_edge(1, 2));
    assert!(g.contains_edge(2, 3));
    assert!(g.contains_edge(3, 0));
    assert!(!g.contains_edge(0, 2));
    assert!(!g.contains_edge(1, 3));
}

#[test]
fn perturbation_swaps_one_ring_edge_for_a_candidate_edge() {
    let mut g = build_ring(4);
    // a -1 at position 0 removes the edge to the predecessor (0, 3) and
    // inserts the candidate edge (0, 2)
    apply_perturbation(&mut g, 0, -1, 2);
    assert!(!g.contains_edge(0, 3));
    assert!(g.contains_edge(0, 2));
    assert!(g.contains_edge(0, 1));
    assert!(g.contains_edge(1, 2));
    assert!(g.contains_edge(2, 3));
}

#[test]
fn zero_perturbation_leaves_the_graph_alone() {
    let mut g = build_ring(5);
    for i in 0..5 {
        apply_perturbation(&mut g, i, 0, 0);
    }
    assert_eq!(g.edges.len(), 5);
    assert!(is_hamiltonian_cycle(&g));
}

#[test]
fn two_perturbations_can_rebuild_a_hamiltonian_cycle() {
    let mut g = build_ring(4);
    // remove (0, 3), insert (0, 2); remove (1, 2), insert (1, 3):
    // the cycle 0-1-3-2-0 remains
    apply_perturbation(&mut g, 0, -1, 2);
    apply_perturbation(&mut g, 1, 1, 3);
    assert!(is_hamiltonian_cycle(&g));
}
