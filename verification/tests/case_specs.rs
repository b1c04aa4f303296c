//! Case specs: writing and reading.
use output_fuzz_common::case::{
    external_default_local_name, external_module_name, is_cjs_node, module_filename,
    preserve_entry_signatures_from_index, preserve_entry_signatures_to_index, GraphCase,
    PreserveEntrySignatures,
};
use output_fuzz_common::case_parse::{
    normalize_default_edges, normalize_edges, normalize_edges_allow_dupes, normalize_entry_nodes,
    normalize_external_edges, normalize_node_set, parse_case_spec,
};
use output_fuzz_common::case_spec::{
    decode_edge_list, decode_external_spec, decode_node_list, decode_triplet_list,
    encode_case_spec, encode_edge_list, encode_external_spec, encode_node_list,
    encode_triplet_list,
};

const SPEC: &str = "n=3;e=0,1;c=2;s=0-1;d=0-1,0-1,0-2,1-0,2-0,2-1,2-1;r=0-1;x=3:0-1,1-2;\
                    xs=0-0-3,0-1-2,1-2-2;p=1;o=0;t=1;m=0";

fn case() -> GraphCase {
    GraphCase {
        seed: 23,
        node_count: 3,
        entry_nodes: vec![0, 1],
        cjs_nodes: vec![2],
        static_edges: vec![(0, 1)],
        dynamic_edges: vec![(0, 1), (0, 1), (0, 2), (1, 0), (2, 0), (2, 1), (2, 1)],
        reexport_static_edges: vec![(0, 1)],
        external_module_count: 3,
        external_dynamic_edges: vec![(0, 1), (1, 2)],
        external_static_default_edges: vec![(0, 0, 3), (0, 1, 2), (1, 2, 2)],
        preserve_entry_signatures: PreserveEntrySignatures::Strict,
        strict_execution_order: false,
        treeshake: true,
        minify_internal_exports: false,
    }
}

fn assert_same(a: &GraphCase, b: &GraphCase) {
    assert_eq!(a.seed, b.seed);
    assert_eq!(a.node_count, b.node_count);
    assert_eq!(a.entry_nodes, b.entry_nodes);
    assert_eq!(a.cjs_nodes, b.cjs_nodes);
    assert_eq!(a.static_edges, b.static_edges);
    assert_eq!(a.dynamic_edges, b.dynamic_edges);
    assert_eq!(a.reexport_static_edges, b.reexport_static_edges);
    assert_eq!(a.external_module_count, b.external_module_count);
    assert_eq!(a.external_dynamic_edges, b.external_dynamic_edges);
    assert_eq!(a.external_static_default_edges, b.external_static_default_edges);
    assert_eq!(a.preserve_entry_signatures, b.preserve_entry_signatures);
    assert_eq!(a.strict_execution_order, b.strict_execution_order);
    assert_eq!(a.treeshake, b.treeshake);
    assert_eq!(a.minify_internal_exports, b.minify_internal_exports);
}

fn parse(seed: u64, spec: &str) -> GraphCase {
    match parse_case_spec(seed, spec) {
        Ok(case) => case,
        Err(message) => panic!("{message}"),
    }
}

fn complaint(spec: &str) -> String {
    match parse_case_spec(7, spec) {
        Ok(_) => panic!("`{spec}` was read"),
        Err(message) => message,
    }
}

#[test]
fn cases_are_written_field_by_field() {
    assert_eq!(encode_case_spec(&case()), SPEC);
}

#[test]
fn written_cases_read_back() {
    assert_same(&parse(23, SPEC), &case());
}

#[test]
fn empty_lists_are_written_as_none() {
    assert_eq!(encode_node_list(&[]), "none");
    assert_eq!(encode_edge_list(&[]), "none");
    assert_eq!(encode_triplet_list(&[]), "none");
    assert_eq!(encode_external_spec(0, &[(0, 1)]), "none");
    assert_eq!(encode_external_spec(2, &[]), "2:none");
}

#[test]
fn lists_read_back() {
    assert_eq!(encode_node_list(&[0, 10, 7]), "0,10,7");
    assert_eq!(decode_node_list("0,10,7"), Ok(vec![0, 10, 7]));
    assert_eq!(encode_edge_list(&[(0, 11), (3, 2)]), "0-11,3-2");
    assert_eq!(decode_edge_list("0-11,3-2"), Ok(vec![(0, 11), (3, 2)]));
    assert_eq!(encode_triplet_list(&[(0, 1, 2), (3, 4, 5)]), "0-1-2,3-4-5");
    assert_eq!(decode_triplet_list("0-1-2,3-4-5"), Ok(vec![(0, 1, 2), (3, 4, 5)]));
    assert_eq!(encode_external_spec(3, &[(0, 1)]), "3:0-1");
    assert_eq!(decode_external_spec("3:0-1"), Ok((3, vec![(0, 1)])));
}

#[test]
fn nothing_and_none_read_as_empty() {
    for value in ["", "none"] {
        assert_eq!(decode_node_list(value), Ok(vec![]));
        assert_eq!(decode_edge_list(value), Ok(vec![]));
        assert_eq!(decode_triplet_list(value), Ok(vec![]));
        assert_eq!(decode_external_spec(value), Ok((0, vec![])));
    }
    assert_eq!(decode_external_spec("2:"), Ok((2, vec![])));
}

#[test]
fn numbers_may_have_a_plus_sign_and_leading_zeros() {
    assert_eq!(decode_node_list("+1,007"), Ok(vec![1, 7]));
    assert_eq!(decode_node_list("18446744073709551615"), Ok(vec![usize::MAX]));
}

#[test]
fn malformed_lists_are_rejected() {
    assert_eq!(decode_node_list("1,x"), Err("invalid node index `x`".to_string()));
    assert_eq!(decode_node_list("1,"), Err("invalid node index ``".to_string()));
    assert_eq!(decode_node_list("+"), Err("invalid node index `+`".to_string()));
    assert_eq!(
        decode_node_list("18446744073709551616"),
        Err("invalid node index `18446744073709551616`".to_string())
    );
    assert_eq!(decode_edge_list("0-1,2"), Err("invalid edge `2`".to_string()));
    assert_eq!(decode_edge_list("a-1"), Err("invalid edge source `a`".to_string()));
    assert_eq!(decode_edge_list("1-2-3"), Err("invalid edge destination `2-3`".to_string()));
    assert_eq!(decode_triplet_list("1-2"), Err("invalid triplet `1-2`".to_string()));
    assert_eq!(decode_triplet_list("1-2-3-4"), Err("invalid triplet `1-2-3-4`".to_string()));
    assert_eq!(
        decode_triplet_list("1-x-3"),
        Err("invalid triplet field in `1-x-3`".to_string())
    );
    assert_eq!(
        decode_triplet_list("1-2-256"),
        Err("invalid triplet field in `1-2-256`".to_string())
    );
    assert_eq!(decode_external_spec("3"), Err("invalid external spec `3`".to_string()));
    assert_eq!(
        decode_external_spec("x:0-1"),
        Err("invalid external module count `x`".to_string())
    );
    assert_eq!(decode_external_spec("1:0"), Err("invalid edge `0`".to_string()));
}

#[test]
fn malformed_segments_are_rejected() {
    assert_eq!(complaint("n=3;oops"), "invalid case segment `oops`");
    assert_eq!(complaint("n=3;q=1"), "unknown case key `q`");
    assert_eq!(complaint("n=three"), "invalid node count `three`");
    assert_eq!(complaint("p=256"), "invalid preserveEntrySignatures index `256`");
    assert_eq!(complaint("o=yes"), "invalid strictExecutionOrder `yes`");
    assert_eq!(complaint("t=2"), "invalid treeshake `2`");
    assert_eq!(complaint("m="), "invalid minifyInternalExports ``");
    assert_eq!(complaint("e=a"), "invalid node index `a`");
}

#[test]
fn missing_fields_are_named() {
    assert_eq!(complaint(""), "missing case field `n`");
    assert_eq!(complaint("n=3"), "missing case field `e`");
    assert_eq!(complaint("n=3;e=0"), "missing case field `s`");
    assert_eq!(complaint("n=3;e=0;s="), "missing case field `d`");
    assert_eq!(complaint("n=3;e=0;s=;d="), "missing case field `r`");
    assert_eq!(complaint("n=3;e=0;s=;d=;r="), "missing case field `p`");
    assert_eq!(complaint("n=3;e=0;s=;d=;r=;p=0"), "missing case field `o`");
}

#[test]
fn node_counts_are_bounded() {
    assert_eq!(complaint("n=0"), "node count `0` is outside 1..=12");
    assert_eq!(complaint("n=13"), "node count `13` is outside 1..=12");
    assert_eq!(parse(7, "n=12;e=0;s=;d=;r=;p=0;o=1").node_count, 12);
}

#[test]
fn optional_fields_have_defaults() {
    let read = parse(7, "n=3;e=0;s=;d=;r=;p=0;o=1");
    assert_eq!(read.seed, 7);
    assert!(read.cjs_nodes.is_empty());
    assert_eq!(read.external_module_count, 0);
    assert!(read.external_dynamic_edges.is_empty());
    assert!(read.external_static_default_edges.is_empty());
    assert!(!read.treeshake);
    assert!(read.minify_internal_exports);
    assert!(read.strict_execution_order);
}

#[test]
fn later_segments_override_earlier_ones_and_empty_ones_are_skipped() {
    let read = parse(7, ";n=3;;e=0;s=;d=;r=;p=0;o=1;n=4;o=false;t=true;");
    assert_eq!(read.node_count, 4);
    assert!(!read.strict_execution_order);
    assert!(read.treeshake);
}

#[test]
fn what_is_read_is_tidied() {
    let read = parse(
        9,
        "n=4;e=2,0,2,9;c=3,1,3;s=1-2,0-1,1-2,2-2,0-9;d=3-0,0-1,0-1,1-1;r=0-1,0-2,1-2,0-1;\
         x=2:3-1,0-0,0-5,0-0;xs=2-1-3,0-0-1,0-0-2,1-9-0,1-1-4;p=6;o=1",
    );
    assert_eq!(read.entry_nodes, vec![0, 2]);
    assert_eq!(read.cjs_nodes, vec![1, 3]);
    assert_eq!(read.static_edges, vec![(0, 1), (1, 2)]);
    assert_eq!(read.dynamic_edges, vec![(0, 1), (0, 1), (3, 0)]);
    assert_eq!(read.reexport_static_edges, vec![(0, 1), (1, 2)]);
    assert_eq!(read.external_dynamic_edges, vec![(0, 0), (0, 0), (3, 1)]);
    assert_eq!(read.external_static_default_edges, vec![(0, 0, 1), (2, 1, 3)]);
    assert_eq!(read.preserve_entry_signatures, PreserveEntrySignatures::ExportsOnly);
}

#[test]
fn reading_what_was_written_of_a_reading_changes_nothing() {
    let first = parse(9, "n=4;e=2,0,2,9;c=3,1,3;s=1-2,0-1;d=3-0,0-1,0-1;r=0-1;x=1:3-0;p=7;o=0");
    let second = parse(9, &encode_case_spec(&first));
    assert_same(&first, &second);
}

#[test]
fn there_is_always_an_entry_and_one_node_that_is_none() {
    assert_eq!(normalize_entry_nodes(vec![], 4, 6), vec![2]);
    assert_eq!(normalize_entry_nodes(vec![9], 4, 7), vec![3]);
    assert_eq!(normalize_entry_nodes(vec![2, 1, 0], 3, 0), vec![0, 1]);
    assert_eq!(normalize_entry_nodes(vec![0], 1, 5), vec![0]);
    assert_eq!(normalize_entry_nodes(vec![2, 0, 2], 4, 0), vec![0, 2]);
}

#[test]
fn lists_are_sorted_and_restricted() {
    assert_eq!(normalize_node_set(vec![3, 1, 3, 5], 4), vec![1, 3]);
    assert_eq!(
        normalize_edges(vec![(2, 1), (0, 1), (2, 1), (1, 1), (0, 4)], 4),
        vec![(0, 1), (2, 1)]
    );
    assert_eq!(
        normalize_edges_allow_dupes(vec![(2, 1), (0, 1), (2, 1), (1, 1)], 4),
        vec![(0, 1), (2, 1), (2, 1)]
    );
    assert_eq!(
        normalize_external_edges(vec![(1, 1), (1, 0), (1, 2), (5, 0), (1, 0)], 4, 2),
        vec![(1, 0), (1, 0), (1, 1)]
    );
    assert_eq!(
        normalize_default_edges(vec![(1, 1, 3), (1, 0, 2), (1, 1, 0), (0, 0, 4)], 4, 2),
        vec![(1, 0, 2), (1, 1, 3)]
    );
}

#[test]
fn names_are_made_of_indices() {
    assert_eq!(external_module_name(3), "external-3");
    assert_eq!(external_default_local_name(2, 1), "dn_2_1");
    assert_eq!(module_filename(&case(), 1), "node1.js");
    assert_eq!(module_filename(&case(), 2), "node2.cjs");
    assert!(is_cjs_node(&case(), 2));
    assert!(!is_cjs_node(&case(), 0));
    assert_eq!(case().debug_text(), "GraphCase { seed: 23 }");
}

#[test]
fn signatures_and_indices_agree_both_ways() {
    for index in 0u8..=255 {
        let value = preserve_entry_signatures_from_index(index);
        assert_eq!(preserve_entry_signatures_to_index(value), index % 4);
    }
    assert_eq!(preserve_entry_signatures_from_index(5), PreserveEntrySignatures::Strict);
    assert_eq!(preserve_entry_signatures_from_index(3), PreserveEntrySignatures::False);
}

#[test]
fn specs_hold_no_quotes() {
    assert!(!encode_case_spec(&case()).contains('\''));
}

#[test]
fn the_order_of_segments_makes_no_difference() {
    let mut parts: Vec<&str> = SPEC.split(';').collect();
    for turn in 0..parts.len() {
        parts.rotate_left(1);
        if turn % 2 == 0 {
            parts.reverse();
        }
        assert_same(&parse(23, &parts.join(";")), &case());
        assert_same(&parse(23, &format!(";;{};", parts.join(";;"))), &case());
    }
}

#[test]
fn rejected_segments_are_rejected_in_any_order() {
    assert!(parse_case_spec(7, "n=3;e=0;s=;d=;r=;p=0;o=1;q=1").is_err());
    assert!(parse_case_spec(7, "q=1;o=1;p=0;r=;d=;s=;e=0;n=3").is_err());
}
