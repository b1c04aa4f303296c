//! Rendered modules, options, config files and fixtures.
use output_fuzz_common::case::{GraphCase, PreserveEntrySignatures};
use output_fuzz_common::case_parse::parse_case_spec;
use output_fuzz_common::case_spec::encode_case_spec;
use output_fuzz_common::fixture::{fixture_dir_name, fixture_files, fixture_for_case};
use output_fuzz_common::options::{
    bundler_options_for_case, external_names_for_case, input_items_for_case,
    preserve_entry_signatures_to_config_value, render_rolldown_config_js,
    treeshake_to_config_value, OutputFormat, TreeshakeOptions,
};
use output_fuzz_common::render::{
    edge_reexports, outgoing_nodes, own_name, paired_name, render_graph_modules,
};
use output_fuzz_common::seed::case_from_seed;
use std::path::PathBuf;

fn case() -> GraphCase {
    GraphCase {
        seed: 5,
        node_count: 3,
        entry_nodes: vec![0, 2],
        cjs_nodes: vec![2],
        static_edges: vec![(0, 1), (0, 2), (1, 2), (2, 1)],
        dynamic_edges: vec![(0, 1), (0, 1), (2, 0)],
        reexport_static_edges: vec![(0, 1), (0, 2)],
        external_module_count: 2,
        external_dynamic_edges: vec![(1, 1), (2, 0)],
        external_static_default_edges: vec![(1, 0, 3), (2, 1, 2)],
        preserve_entry_signatures: PreserveEntrySignatures::Strict,
        strict_execution_order: true,
        treeshake: false,
        minify_internal_exports: false,
    }
}

#[test]
fn modules_are_rendered_line_by_line() {
    let modules = render_graph_modules(&case());
    assert_eq!(modules.len(), 3);
    assert_eq!(modules[0].0, "node0.js");
    assert_eq!(
        modules[0].1,
        "globalThis.__acyclic_output_fuzz_0 = 0;\n\
         export { node_1 as reexport_0_1 } from \"./node1.js\";\n\
         import * as imported_0_2 from \"./node2.cjs\";\n\
         var use_0_2 = imported_0_2;\n\
         use_0_2.ref = 0;\n\
         export { use_0_2 };\n\
         void import(\"./node1.js\");\n\
         void import(\"./node1.js\");\n\
         var node_0 = {};\n\
         node_0.value = 0;\n\
         export { node_0 };\n"
    );
    assert_eq!(modules[1].0, "node1.js");
    assert_eq!(
        modules[1].1,
        "globalThis.__acyclic_output_fuzz_1 = 1;\n\
         import * as imported_1_2 from \"./node2.cjs\";\n\
         var use_1_2 = imported_1_2;\n\
         use_1_2.ref = 1;\n\
         export { use_1_2 };\n\
         void import(\"external-1\");\n\
         import dn_0_3 from \"external-0\";\n\
         globalThis.__use_dn_1_0_3 = dn_0_3;\n\
         var node_1 = {};\n\
         node_1.value = 1;\n\
         export { node_1 };\n"
    );
    assert_eq!(modules[2].0, "node2.cjs");
    assert_eq!(
        modules[2].1,
        "globalThis.__acyclic_output_fuzz_2 = 2;\n\
         const imported_2_1 = require(\"./node1.js\");\n\
         exports.use_2_1 = imported_2_1;\n\
         void require(\"./node0.js\");\n\
         void require(\"external-0\");\n\
         const dn_cjs_2_1 = require(\"external-1\");\n\
         exports.use_dn_2_1 = dn_cjs_2_1;\n\
         exports.node_2 = 2;\n"
    );
}

#[test]
fn names_and_edges_of_modules() {
    assert_eq!(own_name(4), "node_4");
    assert_eq!(paired_name("use_", 1, 12), "use_1_12");
    assert_eq!(outgoing_nodes(&vec![(0, 3), (1, 2), (0, 1), (0, 3)], 0), vec![3, 1, 3]);
    assert!(edge_reexports(&case(), 0, 1));
    assert!(!edge_reexports(&case(), 0, 2));
    assert!(!edge_reexports(&case(), 1, 2));
}

#[test]
fn edges_have_to_start_at_nodes() {
    assert!(case().edges_start_at_nodes());
    let mut broken = case();
    broken.external_static_default_edges.push((3, 0, 0));
    assert!(!broken.edges_start_at_nodes());
    let mut broken = case();
    broken.dynamic_edges.push((3, 0));
    assert!(!broken.edges_start_at_nodes());
}

#[test]
fn entry_points_import_their_modules() {
    let items = input_items_for_case(&case());
    assert_eq!(items.len(), 2);
    assert_eq!(items[0].name.as_deref(), Some("entry-0"));
    assert_eq!(items[0].import, "./node0.js");
    assert_eq!(items[1].name.as_deref(), Some("entry-2"));
    assert_eq!(items[1].import, "./node2.cjs");
    assert_eq!(external_names_for_case(&case()), vec!["external-0", "external-1"]);
}

#[test]
fn options_say_what_the_case_says() {
    let options = bundler_options_for_case(&case(), PathBuf::from("/somewhere"));
    assert_eq!(options.input.as_ref().map(|items| items.len()), Some(2));
    assert_eq!(options.cwd, Some(PathBuf::from("/somewhere")));
    assert_eq!(options.format, Some(OutputFormat::Esm));
    assert_eq!(options.treeshake, TreeshakeOptions::Boolean(false));
    assert_eq!(options.preserve_entry_signatures, Some(PreserveEntrySignatures::Strict));
    assert_eq!(options.strict_execution_order, Some(true));
    assert_eq!(options.minify_internal_exports, Some(false));
    assert_eq!(
        options.external,
        Some(vec!["external-0".to_string(), "external-1".to_string()])
    );
}

#[test]
fn without_external_modules_nothing_is_external() {
    let mut lonely = case();
    lonely.external_module_count = 0;
    let options = bundler_options_for_case(&lonely, PathBuf::from("."));
    assert_eq!(options.external, None);
    assert!(!render_rolldown_config_js(&lonely, &options).contains("external"));
}

#[test]
fn config_files_are_rendered() {
    let options = bundler_options_for_case(&case(), PathBuf::from("."));
    assert_eq!(
        render_rolldown_config_js(&case(), &options),
        "// Generated by `cargo run -p output_fuzz_common --bin generate_fixture -- --seed 5`\n\
         export default {\n\
         \x20 input: {\n\
         \x20   \"entry-0\": \"./node0.js\",\n\
         \x20   \"entry-2\": \"./node2.cjs\"\n\
         \x20 },\n\
         \x20 external: [\"external-0\", \"external-1\"],\n\
         \x20 treeshake: false,\n\
         \x20 preserveEntrySignatures: \"strict\",\n\
         \x20 output: {\n\
         \x20   strictExecutionOrder: true,\n\
         \x20   minifyInternalExports: false,\n\
         \x20 },\n\
         };\n"
    );
}

#[test]
fn config_files_fall_back_to_defaults() {
    let mut options = bundler_options_for_case(&case(), PathBuf::from("."));
    options.preserve_entry_signatures = None;
    options.strict_execution_order = None;
    options.minify_internal_exports = None;
    options.treeshake = TreeshakeOptions::Detailed;
    let config = render_rolldown_config_js(&case(), &options);
    assert!(config.contains("  preserveEntrySignatures: \"exports-only\",\n"));
    assert!(config.contains("    strictExecutionOrder: false,\n"));
    assert!(config.contains("    minifyInternalExports: true,\n"));
    assert!(config.contains("  treeshake: true,\n"));
}

#[test]
fn settings_have_config_values() {
    let value = preserve_entry_signatures_to_config_value;
    assert_eq!(value(PreserveEntrySignatures::AllowExtension), "\"allow-extension\"");
    assert_eq!(value(PreserveEntrySignatures::Strict), "\"strict\"");
    assert_eq!(value(PreserveEntrySignatures::ExportsOnly), "\"exports-only\"");
    assert_eq!(value(PreserveEntrySignatures::False), "false");
    assert_eq!(treeshake_to_config_value(&TreeshakeOptions::Boolean(false)), "false");
    assert_eq!(treeshake_to_config_value(&TreeshakeOptions::Boolean(true)), "true");
    assert_eq!(treeshake_to_config_value(&TreeshakeOptions::Detailed), "true");
}

#[test]
fn fixtures_hold_the_modules_and_the_config() {
    let options = bundler_options_for_case(&case(), PathBuf::from("."));
    let files = fixture_files(&case(), &options);
    let names: Vec<&str> = files.iter().map(|file| file.0.as_str()).collect();
    assert_eq!(names, vec!["node0.js", "node1.js", "node2.cjs", "rolldown.config.js"]);
    assert_eq!(files[..3], render_graph_modules(&case())[..]);
    assert_eq!(files[3].1, render_rolldown_config_js(&case(), &options));
    assert_eq!(fixture_for_case(&case(), PathBuf::from(".")), files);
}

#[test]
fn printed_cases_give_the_fixture_again() {
    for seed in 0..50u64 {
        let case = case_from_seed(seed);
        match parse_case_spec(seed, &encode_case_spec(&case)) {
            Ok(read) => assert_eq!(
                fixture_for_case(&read, PathBuf::from(".")),
                fixture_for_case(&case, PathBuf::from("."))
            ),
            Err(message) => panic!("{message}"),
        }
    }
}

#[test]
fn fixture_names_are_all_different() {
    for seed in 0..50u64 {
        let files = fixture_for_case(&case_from_seed(seed), PathBuf::from("."));
        for (i, a) in files.iter().enumerate() {
            for b in &files[i + 1..] {
                assert_ne!(a.0, b.0);
            }
        }
    }
}

#[test]
fn entry_points_import_files_of_the_fixture() {
    for seed in 0..50u64 {
        let case = case_from_seed(seed);
        let files = fixture_for_case(&case, PathBuf::from("."));
        for item in input_items_for_case(&case) {
            assert!(files.iter().any(|file| format!("./{}", file.0) == item.import));
        }
    }
}

#[test]
fn fixture_directories_are_named_by_seed_and_time() {
    assert_eq!(fixture_dir_name(7, 0), "seed-7-ts-0");
    assert_eq!(
        fixture_dir_name(u64::MAX, u128::MAX),
        "seed-18446744073709551615-ts-340282366920938463463374607431768211455"
    );
}
