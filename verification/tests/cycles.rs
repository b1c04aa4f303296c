//! Cycles: finding them, and which of them are reported.
use output_fuzz_common::graph_cycle_checker::find_cycle;
use output_fuzz_common::output_graph::{cycle_involves_cjs, is_immediate_cycle};
use output_fuzz_common::faults::{find_fault, is_ignored_cycle};

fn is_ignored(cycle: &[usize], chunk_has_cjs: &[bool]) -> bool {
    is_immediate_cycle(cycle) && cycle_involves_cjs(cycle, chunk_has_cjs)
}

/// Two chunks import each other directly and one of them is CommonJS.
#[test]
fn reported_immediate_cjs_cycle_is_ignored() {
    let static_edges = vec![(0, 2), (1, 0), (1, 2), (2, 0), (3, 0)];
    let chunk_has_cjs = vec![false, true, true, false];

    let cycle = find_cycle(4, &static_edges).expect("reported output graph is cyclic");

    assert!(
        is_immediate_cycle(&cycle),
        "reported cycle {cycle:?} is a two-chunk immediate cycle",
    );
    assert!(
        is_ignored(&cycle, &chunk_has_cjs),
        "immediate CJS cycle {cycle:?} must be ignored",
    );
}

/// The same topology without CommonJS modules is reported.
#[test]
fn pure_esm_immediate_cycle_is_reported() {
    let static_edges = vec![(0, 2), (1, 0), (1, 2), (2, 0), (3, 0)];
    let chunk_has_cjs = vec![false, false, false, false];

    let cycle = find_cycle(4, &static_edges).expect("output graph is cyclic");

    assert!(
        !is_ignored(&cycle, &chunk_has_cjs),
        "pure-ESM cycle {cycle:?} must not be ignored",
    );
}

/// A larger cycle is reported even when it passes through a CommonJS chunk.
#[test]
fn larger_cjs_cycle_is_reported() {
    let static_edges = vec![(0, 1), (1, 2), (2, 0)];
    let chunk_has_cjs = vec![false, true, false];

    let cycle = find_cycle(3, &static_edges).expect("output graph is cyclic");

    assert!(
        !is_immediate_cycle(&cycle),
        "cycle {cycle:?} spans three chunks and is not immediate",
    );
    assert!(
        !is_ignored(&cycle, &chunk_has_cjs),
        "non-immediate cycle {cycle:?} must stay reported",
    );
}

/// A CommonJS chunk beside the cycle makes no difference.
#[test]
fn cjs_chunk_outside_cycle_does_not_mask_defect() {
    let static_edges = vec![(0, 1), (1, 0), (3, 0)];
    let chunk_has_cjs = vec![false, false, false, true];

    let cycle = find_cycle(4, &static_edges).expect("output graph is cyclic");

    assert!(
        !is_ignored(&cycle, &chunk_has_cjs),
        "cycle {cycle:?} avoids the CJS chunk and must stay reported",
    );
}

#[test]
fn cycles_start_and_end_at_the_same_node() {
    assert_eq!(find_cycle(3, &[(0, 1), (1, 2), (2, 0)]), Some(vec![0, 1, 2, 0]));
    assert_eq!(find_cycle(2, &[(1, 1)]), Some(vec![1, 1]));
    assert_eq!(find_cycle(4, &[(0, 1), (2, 3), (3, 2)]), Some(vec![2, 3, 2]));
}

#[test]
fn acyclic_graphs_have_no_cycle() {
    assert_eq!(find_cycle(0, &[]), None);
    assert_eq!(find_cycle(3, &[]), None);
    assert_eq!(find_cycle(4, &[(0, 1), (0, 2), (1, 3), (2, 3)]), None);
}

#[test]
fn edges_beyond_the_nodes_are_not_followed() {
    assert_eq!(find_cycle(2, &[(0, 5), (5, 0), (1, 2)]), None);
}

#[test]
fn immediate_cycles_visit_two_nodes() {
    assert!(is_immediate_cycle(&[4, 7, 4]));
    assert!(!is_immediate_cycle(&[4, 4]));
    assert!(!is_immediate_cycle(&[4, 7, 9, 4]));
    assert!(!is_immediate_cycle(&[]));
}

#[test]
fn chunks_without_a_flag_hold_no_cjs_module() {
    assert!(!cycle_involves_cjs(&[5, 6, 5], &[true, true]));
    assert!(cycle_involves_cjs(&[5, 1, 5], &[false, true]));
    assert!(is_ignored_cycle(&[0, 1, 0], &[false, true]));
    assert!(!is_ignored_cycle(&[0, 1, 0], &[false, false]));
}

#[test]
fn faults_are_found_behind_tolerated_cycles() {
    let pair = [(0, 1), (1, 0)];
    assert_eq!(find_fault(2, &pair, &[true, false]), None);
    assert_eq!(find_fault(2, &pair, &[false, false]), Some(vec![0, 1, 0]));
    let beside = [(0, 1), (1, 0), (2, 3), (3, 4), (4, 2)];
    let flags = [true, false, true, true, true];
    assert_eq!(find_fault(5, &beside, &flags), Some(vec![2, 3, 4, 2]));
    assert_eq!(find_fault(2, &[(0, 1), (1, 0), (1, 1)], &[true, true]), Some(vec![1, 1]));
}

#[test]
fn larger_cycles_through_tolerated_pairs_are_found() {
    // Every pair of neighbours is tolerated; going all the way round is not.
    let ring = [(0, 1), (1, 0), (1, 2), (2, 1), (2, 0), (0, 2)];
    assert_eq!(find_fault(3, &ring, &[true, true, true]), Some(vec![0, 1, 2, 0]));
    let chain = [(0, 1), (1, 0), (1, 2), (2, 1)];
    assert_eq!(find_fault(3, &chain, &[false, true, false]), None);
    assert_eq!(find_fault(3, &chain, &[true, false, false]), Some(vec![1, 2, 1]));
}
