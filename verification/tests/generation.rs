//! Generated cases.
use output_fuzz_common::case::GraphCase;
use output_fuzz_common::case_parse::parse_case_spec;
use output_fuzz_common::case_spec::encode_case_spec;
use output_fuzz_common::generate::{
    build_case_from_masks, byte_selects_cjs, dynamic_edge_slots, external_edge_slots, select,
    static_edge_slots,
};
use output_fuzz_common::graph_cycle_checker::find_cycle;
use output_fuzz_common::hub::{build_hub_case, max_hub_children, max_hub_entries};
use output_fuzz_common::seed::{case_from_seed, SeedRng};
use output_fuzz_common::verdict::check_input;

#[test]
fn draws_follow_the_seed() {
    let mut rng = SeedRng::new(1);
    assert_eq!(rng.next_u64(), 0x47e4_ce4b_896c_dd1d);
    assert_eq!(rng.next_u64(), 0x23e6_b1f7_c713_b0c5);
    let mut rng = SeedRng::new(0);
    assert_eq!(rng.next_u64(), 0x0d83_b3e2_9a21_487a);
    assert_eq!(rng.next_u64(), 0x6bf2_2468_cc70_11dd);
}

#[test]
fn draws_do_not_fall_to_zero() {
    for seed in 0..20u64 {
        let mut rng = SeedRng::new(seed);
        for _ in 0..100 {
            assert_ne!(rng.next_u64(), 0);
        }
    }
}

#[test]
fn flags_are_drawn_with_their_share() {
    let mut rng = SeedRng::new(1);
    assert!(!rng.next_bool(1, 2));
    assert!(rng.next_bool(6, 10));
    assert!(!SeedRng::new(1).next_bool(0, 3));
    assert!(SeedRng::new(1).next_bool(3, 3));
}

#[test]
fn seeds_give_their_cases() {
    assert_eq!(
        encode_case_spec(&case_from_seed(0)),
        "n=3;e=2;c=0;s=0-1;d=1-0,1-0,2-0,2-1;r=0-1;x=3:1-0,1-1,1-2;\
         xs=0-0-1,0-1-3,0-2-3,1-0-2;p=1;o=1;t=0;m=1"
    );
    assert_eq!(
        encode_case_spec(&case_from_seed(23)),
        "n=3;e=0,1;c=2;s=0-1;d=0-1,0-1,0-2,1-0,2-0,2-1,2-1;r=0-1;x=3:0-1,1-2;\
         xs=0-0-3,0-1-2,0-2-0,1-0-0,1-1-2,1-2-2,2-0-0,2-1-0,2-2-1;p=0;o=0;t=1;m=0"
    );
    assert_eq!(
        encode_case_spec(&case_from_seed(28)),
        "n=4;e=2;c=2;s=0-3,1-3,2-3;d=0-1,1-0,1-2,1-2,1-3,1-3,2-0,2-1,2-1,2-3;r=0-3,1-3,2-3;\
         x=4:0-0,0-2,0-3,1-0,2-0,3-1;xs=0-2-2,0-3-1,1-0-0,1-1-2,1-3-2,2-2-1,2-3-0,3-0-3,3-2-2;\
         p=0;o=1;t=1;m=1"
    );
}

#[test]
fn seeded_cases_are_acyclic_and_read_back() {
    for seed in 0..200u64 {
        let case = case_from_seed(seed);
        assert!((3..=12).contains(&case.node_count));
        assert_eq!(find_cycle(case.node_count, &case.static_edges), None);
        assert_eq!(check_input(&case), Ok(()));
        let spec = encode_case_spec(&case);
        match parse_case_spec(seed, &spec) {
            Ok(read) => assert_eq!(encode_case_spec(&read), spec),
            Err(message) => panic!("{message}"),
        }
    }
}

#[test]
fn different_cases_have_different_specs() {
    let specs: Vec<String> = (0..50u64).map(|seed| encode_case_spec(&case_from_seed(seed))).collect();
    for (i, a) in specs.iter().enumerate() {
        for b in &specs[i + 1..] {
            assert_ne!(a, b);
        }
    }
}

fn masked(entry_mask: &[bool], seed: u64) -> GraphCase {
    build_case_from_masks(
        seed,
        3,
        5,
        true,
        false,
        true,
        entry_mask,
        &[false, true, false],
        &[true, false, true],
        &[0, 2, 1, 0, 0, 1],
        &[false, true, true],
        2,
        &[true, false, false, false, false, true],
        &[0, 4, 1, 5],
    )
}

#[test]
fn masks_fill_their_slots() {
    assert_eq!(
        encode_case_spec(&masked(&[true, false, true], 1)),
        "n=3;e=0,2;c=1;s=0-1,1-2;d=0-2,0-2,1-0,2-1;r=1-2;x=2:0-0,2-1;xs=0-1-3,1-0-0;\
         p=1;o=1;t=0;m=1"
    );
}

#[test]
fn masked_cases_have_entries_but_not_only_entries() {
    assert_eq!(masked(&[false, false, false], 8).entry_nodes, vec![2]);
    assert_eq!(masked(&[true, true, true], 8).entry_nodes, vec![0, 1]);
}

#[test]
fn slots_are_counted() {
    assert_eq!(static_edge_slots(12), 66);
    assert_eq!(dynamic_edge_slots(12), 132);
    assert_eq!(external_edge_slots(12, 4), 48);
    assert_eq!(static_edge_slots(3), 3);
    assert_eq!(dynamic_edge_slots(3), 6);
}

#[test]
fn every_fifth_byte_selects_cjs() {
    let chosen = (0u8..=255).filter(|byte| byte_selects_cjs(*byte)).count();
    assert_eq!(chosen, 52);
    assert!(byte_selects_cjs(0));
    assert!(byte_selects_cjs(255));
    assert!(!byte_selects_cjs(1));
    assert_eq!(select(&[true, false, true, true]), vec![0, 2, 3]);
}

#[test]
fn hubs_stand_between_entries_and_children() {
    let case = build_hub_case(9, 6, 1, false, true, false, 2, 2, 3, &[false, true]);
    assert_eq!(
        encode_case_spec(&case),
        "n=6;e=0,1;c=none;s=2-3,2-4,2-5;d=0-2,1-2,2-3,2-4,2-5;r=none;x=2:2-1;xs=none;\
         p=1;o=0;t=1;m=0"
    );
    assert_eq!(check_input(&case), Ok(()));
}

#[test]
fn hubs_have_no_more_children_than_nodes_and_an_external_import() {
    let case = build_hub_case(9, 5, 0, true, true, true, 1, 3, 4, &[false]);
    assert_eq!(case.static_edges, vec![(3, 4)]);
    assert_eq!(case.dynamic_edges, vec![(0, 3), (1, 3), (2, 3), (3, 4)]);
    assert_eq!(case.external_dynamic_edges, vec![(3, 0)]);
}

#[test]
fn hubs_are_limited() {
    assert_eq!(max_hub_entries(5), 3);
    assert_eq!(max_hub_entries(4), 2);
    assert_eq!(max_hub_children(12), 4);
    assert_eq!(max_hub_children(5), 3);
}

#[test]
fn cyclic_inputs_are_reported_with_their_path() {
    let mut case = case_from_seed(0);
    case.static_edges = vec![(0, 1), (1, 0)];
    assert_eq!(
        check_input(&case),
        Err("generated static input graph was unexpectedly cyclic at path: \
             `node0` -> `node1` -> `node0`"
            .to_string())
    );
}
