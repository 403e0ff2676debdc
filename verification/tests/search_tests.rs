use find_edge_swap::{build_ring, candidate_repairable, candidates, find_edge_swap,
    is_hamiltonian_cycle, prefix_candidate_sets, ConfigError};
use find_edge_swap::apply_perturbation;

#[test]
fn candidates_exclude_the_position_and_its_ring_neighbors() {
    // n = 4: each position admits exactly the opposite node
    assert_eq!(candidates(0, 4), vec![2]);
    assert_eq!(candidates(1, 4), vec![3]);
    assert_eq!(candidates(2, 4), vec![0]);
    assert_eq!(candidates(3, 4), vec![1]);
}

#[test]
fn candidates_collapse_for_n3_and_grow_with_n() {
    for i in 0..3 {
        assert_eq!(candidates(i, 3), Vec::<usize>::new());
    }
    assert_eq!(candidates(0, 5), vec![2, 3]);
    assert_eq!(candidates(4, 5), vec![1, 2]);
    assert_eq!(candidates(2, 6), vec![0, 4, 5]);
}

#[test]
fn prefix_candidate_sets_lists_one_set_per_free_position() {
    let sets = prefix_candidate_sets(5, 3);
    assert_eq!(sets.len(), 3);
    assert_eq!(sets[0], vec![2, 3]);
    assert_eq!(sets[1], vec![3, 4]);
    assert_eq!(sets[2], vec![0, 4]);
}

#[test]
fn invalid_configurations_are_rejected() {
    assert_eq!(find_edge_swap(2, 0, vec![0, 0]), Err(ConfigError::RingTooSmall));
    assert_eq!(find_edge_swap(4, 5, vec![]), Err(ConfigError::TooManyFreePositions));
    assert_eq!(find_edge_swap(4, 2, vec![0]), Err(ConfigError::SuffixLengthMismatch));
    assert_eq!(find_edge_swap(4, 2, vec![5, 0]), Err(ConfigError::LabelOutOfRange));
}

#[test]
fn all_loop_assignment_is_a_witness() {
    // every candidate edge is a self-loop, so no perturbation can close a
    // cycle again: the single candidate is returned as the witness
    assert_eq!(find_edge_swap(3, 0, vec![0, 1, 2]), Ok(Some(vec![0, 1, 2])));
    // but a single non-loop entry makes the candidate repairable: sigma[1]
    // names 1's ring predecessor, so removing and reinserting (1, 0)
    // restores the base triangle
    assert_eq!(find_edge_swap(3, 0, vec![0, 0, 0]), Ok(None));
}

#[test]
fn chord_assignment_on_square_is_repairable() {
    // remove (0, 3) and (1, 2), insert the chords (0, 2) and (1, 3):
    // the cycle 0-1-3-2-0 repairs the candidate
    assert!(candidate_repairable(4, &vec![2, 3, 0, 1]));
    assert_eq!(find_edge_swap(4, 0, vec![2, 3, 0, 1]), Ok(None));
}

#[test]
fn neighbor_assignment_is_repairable_by_remove_and_reinsert() {
    // sigma[1] = 0 is 1's ring predecessor: a -1 at position 1 removes the
    // edge (1, 0) and inserts it again, leaving the base ring itself
    assert!(candidate_repairable(4, &vec![0, 0, 0, 0]));
    assert_eq!(find_edge_swap(4, 0, vec![0, 0, 0, 0]), Ok(None));
}

#[test]
fn full_free_search_on_square_finds_no_witness() {
    // k = n = 4: each position admits only the opposite node, and the one
    // full candidate is repairable
    assert_eq!(find_edge_swap(4, 4, vec![]), Ok(None));
}

#[test]
fn empty_candidate_set_empties_the_outer_space() {
    // for n = 3 every position's candidate set is empty
    assert_eq!(find_edge_swap(3, 1, vec![0, 0]), Ok(None));
    assert_eq!(find_edge_swap(3, 3, vec![]), Ok(None));
}

#[test]
fn search_is_idempotent() {
    let first = find_edge_swap(3, 0, vec![0, 1, 2]);
    let second = find_edge_swap(3, 0, vec![0, 1, 2]);
    assert_eq!(first, second);
    let third = find_edge_swap(4, 4, vec![]);
    let fourth = find_edge_swap(4, 4, vec![]);
    assert_eq!(third, fourth);
}

#[test]
fn witness_admits_no_repair_checked_independently() {
    let sigma = match find_edge_swap(3, 0, vec![0, 1, 2]) {
        Ok(Some(sigma)) => sigma,
        other => panic!("expected a witness, got {:?}", other),
    };
    // replay every nonzero perturbation vector on a fresh ring: none may
    // yield a Hamiltonian cycle
    let values: [i8; 3] = [-1, 0, 1];
    for &e0 in &values {
        for &e1 in &values {
            for &e2 in &values {
                if e0 == 0 && e1 == 0 && e2 == 0 {
                    continue;
                }
                let mut g = build_ring(3);
                let e = [e0, e1, e2];
                for i in 0..3 {
                    apply_perturbation(&mut g, i, e[i], sigma[i]);
                }
                assert!(!is_hamiltonian_cycle(&g));
            }
        }
    }
}

#[test]
fn all_loop_assignment_is_not_repairable() {
    assert!(!candidate_repairable(3, &vec![0, 1, 2]));
    assert!(!candidate_repairable(4, &vec![0, 1, 2, 3]));
}

#[test]
fn repairable_candidate_really_has_a_repairing_vector() {
    // the repair found for the chord assignment, replayed by hand
    let sigma = vec![2, 3, 0, 1];
    let e: [i8; 4] = [-1, 1, 0, 0];
    let mut g = build_ring(4);
    for i in 0..4 {
        apply_perturbation(&mut g, i, e[i], sigma[i]);
    }
    assert!(is_hamiltonian_cycle(&g));
}
