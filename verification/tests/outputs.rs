//! What is checked of an output.
use output_fuzz_common::case::{GraphCase, PreserveEntrySignatures};
use output_fuzz_common::determinism::{compare_chunk_info, DeterminismCheck, DeterminismStep};
use output_fuzz_common::exports::{
    complain_of_exports, compute_expected_exports, distinct_texts, entry_node_of_chunk,
    missing_exports, validate_entry_exports,
};
use output_fuzz_common::output::{
    collect_chunk_info, BundleOutput, ChunkInfo, Output, OutputChunk,
};
use output_fuzz_common::output_graph::{
    build_output_dependency_graph, chunk_contains_cjs_module, output_files,
};
use output_fuzz_common::paths::{normalize_path, parent_path, resolve_specifier};
use output_fuzz_common::render::render_graph_modules;
use output_fuzz_common::syntax::{complain_of_syntax, validate_output_js_syntax};

fn list(items: &[&str]) -> Vec<String> {
    items.iter().map(|item| item.to_string()).collect()
}

fn chunk(filename: &str) -> OutputChunk {
    OutputChunk {
        filename: filename.to_string(),
        code: String::new(),
        imports: Vec::new(),
        exports: Vec::new(),
        dynamic_imports: Vec::new(),
        is_entry: false,
        facade_module_id: None,
        module_ids: Vec::new(),
    }
}

fn info(filename: &str, code: &str) -> ChunkInfo {
    ChunkInfo {
        filename: filename.to_string(),
        code: code.to_string(),
        imports: list(&["./a.js"]),
        exports: list(&["b"]),
        dynamic_imports: list(&["./c.js"]),
    }
}

fn case() -> GraphCase {
    GraphCase {
        seed: 5,
        node_count: 3,
        entry_nodes: vec![0, 2],
        cjs_nodes: vec![2],
        static_edges: vec![(0, 2), (0, 1), (1, 2), (2, 1)],
        dynamic_edges: vec![],
        reexport_static_edges: vec![(0, 1), (0, 2)],
        external_module_count: 0,
        external_dynamic_edges: vec![],
        external_static_default_edges: vec![],
        preserve_entry_signatures: PreserveEntrySignatures::Strict,
        strict_execution_order: true,
        treeshake: false,
        minify_internal_exports: false,
    }
}

// Determinism

#[test]
fn chunks_are_collected_by_filename() {
    let mut b = chunk("b.js");
    b.code = "1".to_string();
    b.imports = list(&["./a.js", "./c.js"]);
    b.exports = list(&["x"]);
    b.dynamic_imports = list(&["./d.js"]);
    let mut second_b = chunk("b.js");
    second_b.code = "2".to_string();
    let output = BundleOutput {
        assets: vec![
            Output::Chunk(b),
            Output::Asset,
            Output::Chunk(second_b),
            Output::Chunk(chunk("a.js")),
            Output::Chunk(chunk("B.js")),
        ],
    };
    let infos = collect_chunk_info(&output);
    let names: Vec<&str> = infos.iter().map(|info| info.filename.as_str()).collect();
    assert_eq!(names, vec!["B.js", "a.js", "b.js", "b.js"]);
    assert_eq!(infos[2].code, "1");
    assert_eq!(infos[2].imports, list(&["./a.js", "./c.js"]));
    assert_eq!(infos[2].exports, list(&["x"]));
    assert_eq!(infos[2].dynamic_imports, list(&["./d.js"]));
    assert_eq!(infos[3].code, "2");
}

#[test]
fn the_order_of_chunks_makes_no_difference() {
    let output = |names: [&str; 3]| BundleOutput {
        assets: names.iter().map(|name| Output::Chunk(chunk(name))).collect(),
    };
    let first = collect_chunk_info(&output(["c.js", "a.js", "b.js"]));
    let second = collect_chunk_info(&output(["b.js", "c.js", "a.js"]));
    assert_eq!(compare_chunk_info(&first, &second, 1, 1), Ok(()));
}

#[test]
fn same_chunks_pass() {
    assert_eq!(compare_chunk_info(&[], &[], 1, 1), Ok(()));
    assert_eq!(compare_chunk_info(&[info("a.js", "x")], &[info("a.js", "x")], 1, 1), Ok(()));
}

#[test]
fn differing_chunks_are_named() {
    let base = [info("a.js", "x"), info("b.js", "y")];
    let message = |chunks: &[ChunkInfo]| match compare_chunk_info(&base, chunks, 9, 2) {
        Ok(()) => panic!("the chunks differ"),
        Err(message) => message,
    };
    assert_eq!(
        message(&[info("a.js", "x")]),
        "Nondeterministic output: baseline produced 2 chunks, iteration 2 produced 1 chunks (seed 9)"
    );
    assert_eq!(
        message(&[info("a.js", "x"), info("c.js", "z")]),
        "Nondeterministic output: chunk filenames differ at iteration 2: 'b.js' vs 'c.js' (seed 9)"
    );
    assert_eq!(
        message(&[info("a.js", "q"), info("c.js", "z")]),
        "Nondeterministic output: code differs for chunk 'a.js' at iteration 2 (seed 9)"
    );
    let mut other = info("b.js", "y");
    other.imports.push("./z.js".to_string());
    other.exports.clear();
    assert_eq!(
        message(&[info("a.js", "x"), other]),
        "Nondeterministic output: imports differ for chunk 'b.js' at iteration 2 (seed 9)"
    );
    let mut other = info("b.js", "y");
    other.exports = list(&["c"]);
    assert_eq!(
        message(&[info("a.js", "x"), other]),
        "Nondeterministic output: exports differ for chunk 'b.js' at iteration 2 (seed 9)"
    );
    let mut other = info("b.js", "y");
    other.dynamic_imports.clear();
    assert_eq!(
        message(&[info("a.js", "x"), other]),
        "Nondeterministic output: dynamic_imports differ for chunk 'b.js' at iteration 2 (seed 9)"
    );
}

#[test]
fn a_case_is_bundled_four_times() {
    let mut check = DeterminismCheck::new(3);
    for _ in 0..3 {
        assert!(matches!(check.observe(vec![info("a.js", "x")]), DeterminismStep::Bundle));
    }
    assert!(matches!(check.observe(vec![info("a.js", "x")]), DeterminismStep::Finished));
}

#[test]
fn a_run_that_differs_ends_the_check() {
    let mut check = DeterminismCheck::new(3);
    assert!(matches!(check.observe(vec![info("a.js", "x")]), DeterminismStep::Bundle));
    assert!(matches!(check.observe(vec![info("a.js", "x")]), DeterminismStep::Bundle));
    match check.observe(vec![info("a.js", "y")]) {
        DeterminismStep::Failed(message) => assert_eq!(
            message,
            "Nondeterministic output: code differs for chunk 'a.js' at iteration 2 (seed 3)"
        ),
        _ => panic!("the last run differs"),
    }
}

// Paths

#[test]
fn paths_lose_their_dots() {
    assert_eq!(normalize_path("a/./b//c"), "a/b/c");
    assert_eq!(normalize_path("a/../b"), "b");
    assert_eq!(normalize_path("../../a"), "a");
    assert_eq!(normalize_path("/a/b/"), "a/b");
    assert_eq!(normalize_path("a/.."), "");
    assert_eq!(normalize_path(""), "");
    assert_eq!(normalize_path("..."), "...");
    assert_eq!(normalize_path(&normalize_path("x/./y/../z")), "x/z");
}

#[test]
fn parents_are_directories() {
    assert_eq!(parent_path("a/b/c.js"), "a/b");
    assert_eq!(parent_path("c.js"), "");
    assert_eq!(parent_path("./c.js"), "");
    assert_eq!(parent_path("a/b/"), "a");
    assert_eq!(parent_path(""), "");
    assert_eq!(parent_path("/c.js"), "");
}

#[test]
fn relative_specifiers_start_at_the_importer() {
    assert_eq!(resolve_specifier("entry.js", "./chunk.js"), "chunk.js");
    assert_eq!(resolve_specifier("a/entry.js", "./chunk.js"), "a/chunk.js");
    assert_eq!(resolve_specifier("a/b/entry.js", "../chunk.js"), "a/chunk.js");
    assert_eq!(resolve_specifier("a/entry.js", "../../chunk.js"), "chunk.js");
    assert_eq!(resolve_specifier("a/entry.js", ".hidden.js"), "a/.hidden.js");
    assert_eq!(resolve_specifier("a/entry.js", "./b/../c.js"), "a/c.js");
}

#[test]
fn other_specifiers_stay_as_they_are() {
    assert_eq!(resolve_specifier("a/entry.js", "external-0"), "external-0");
    assert_eq!(resolve_specifier("a/entry.js", "chunk.js"), "chunk.js");
    assert_eq!(resolve_specifier("a/entry.js", "/x/../y.js"), "/x/../y.js");
    assert_eq!(resolve_specifier("a/entry.js", ""), "");
}

// The graph of chunks

#[test]
fn imports_make_edges() {
    let mut entry = chunk("entry.js");
    entry.imports = list(&["./shared/a.js", "external-0", "./entry.js"]);
    entry.dynamic_imports = list(&["./shared/b.js"]);
    let mut a = chunk("shared/a.js");
    a.imports = list(&["../entry.js", "./b.js", "./missing.js"]);
    a.module_ids = list(&["/tmp/node1.js", "/tmp/node2.cjs"]);
    let mut b = chunk("shared/b.js");
    b.dynamic_imports = list(&["shared/a.js"]);
    let output = BundleOutput {
        assets: vec![Output::Chunk(entry), Output::Asset, Output::Chunk(a), Output::Chunk(b)],
    };
    let (files, static_edges, dynamic_edges, chunk_has_cjs) =
        build_output_dependency_graph(&output);
    assert_eq!(files, list(&["entry.js", "shared/a.js", "shared/b.js"]));
    assert_eq!(files, output_files(&output));
    assert_eq!(static_edges, vec![(0, 1), (0, 0), (1, 0), (1, 2)]);
    assert_eq!(dynamic_edges, vec![(0, 2), (2, 1)]);
    assert_eq!(chunk_has_cjs, vec![false, true, false]);
}

#[test]
fn of_chunks_with_the_same_file_the_last_counts() {
    let mut first = chunk("a.js");
    first.imports = list(&["./b.js"]);
    let mut b = chunk("b.js");
    b.imports = list(&["./a.js"]);
    let output = BundleOutput {
        assets: vec![Output::Chunk(first), Output::Chunk(b), Output::Chunk(chunk("a.js"))],
    };
    let (_, static_edges, _, _) = build_output_dependency_graph(&output);
    assert_eq!(static_edges, vec![(2, 1), (1, 2)]);
}

#[test]
fn cjs_modules_are_told_by_their_extension() {
    let mut esm = chunk("a.js");
    esm.module_ids = list(&["/tmp/node1.js", "/tmp/node1.cjs.js", "cjs"]);
    assert!(!chunk_contains_cjs_module(&esm));
    esm.module_ids.push("/tmp/node3.cjs".to_string());
    assert!(chunk_contains_cjs_module(&esm));
}

// Exports

#[test]
fn modules_are_expected_to_export_their_imports() {
    assert_eq!(
        compute_expected_exports(&case(), 0),
        list(&["node_0", "reexport_0_1", "use_0_2"])
    );
    assert_eq!(compute_expected_exports(&case(), 1), list(&["node_1", "use_1_2"]));
    assert!(compute_expected_exports(&case(), 2).is_empty());
}

#[test]
fn sources_export_the_expected_names_and_no_others() {
    for (node, (_, source)) in render_graph_modules(&case()).iter().enumerate() {
        let mut exported: Vec<String> = Vec::new();
        for line in source.lines() {
            if let Some(rest) = line.strip_prefix("export { ") {
                let inside = rest.split(" }").next().unwrap_or("");
                exported.push(inside.split(" as ").last().unwrap_or("").to_string());
            }
        }
        exported.sort();
        assert_eq!(exported, compute_expected_exports(&case(), node));
    }
}

fn entry(filename: &str, facade: Option<&str>, exports: &[&str]) -> OutputChunk {
    let mut entry = chunk(filename);
    entry.is_entry = true;
    entry.facade_module_id = facade.map(|id| id.to_string());
    entry.exports = list(exports);
    entry
}

fn one(chunk: OutputChunk) -> BundleOutput {
    BundleOutput { assets: vec![Output::Asset, Output::Chunk(chunk)] }
}

#[test]
fn chunks_stand_for_entries() {
    assert_eq!(entry_node_of_chunk(&case(), &entry("e.js", Some("/t/node0.js"), &[])), Some(0));
    assert_eq!(entry_node_of_chunk(&case(), &entry("e.js", Some("/t/node2.cjs"), &[])), Some(2));
    assert_eq!(entry_node_of_chunk(&case(), &entry("e.js", Some("/t/node1.js"), &[])), None);
    assert_eq!(entry_node_of_chunk(&case(), &entry("e.js", None, &[])), None);
    let mut inner = entry("e.js", Some("/t/node0.js"), &[]);
    inner.is_entry = false;
    assert_eq!(entry_node_of_chunk(&case(), &inner), None);
}

#[test]
fn kept_exports_pass() {
    let kept = ["use_0_2", "node_0", "more", "reexport_0_1"];
    let output = one(entry("entry-0.js", Some("/t/node0.js"), &kept));
    assert_eq!(validate_entry_exports(&case(), &output), Ok(()));
}

#[test]
fn missing_exports_are_listed() {
    let output = one(entry("entry-0.js", Some("/t/node0.js"), &["node_0", "a\"b", "node_0"]));
    assert_eq!(
        validate_entry_exports(&case(), &output),
        Err("Entry chunk 'entry-0.js' (node 0) is missing exports: \
             [\"reexport_0_1\", \"use_0_2\"]\n\
             Expected: [\"node_0\", \"reexport_0_1\", \"use_0_2\"]\n\
             Actual: {\"node_0\", \"a\\\"b\"}"
            .to_string())
    );
}

#[test]
fn exports_are_asked_of_strict_entries_only() {
    let output = || one(entry("entry-0.js", Some("/t/node0.js"), &[]));
    assert!(validate_entry_exports(&case(), &output()).is_err());
    for setting in [
        PreserveEntrySignatures::AllowExtension,
        PreserveEntrySignatures::ExportsOnly,
        PreserveEntrySignatures::False,
    ] {
        let mut lax = case();
        lax.preserve_entry_signatures = setting;
        assert_eq!(validate_entry_exports(&lax, &output()), Ok(()));
    }
    let cjs = one(entry("entry-2.js", Some("/t/node2.cjs"), &[]));
    assert_eq!(validate_entry_exports(&case(), &cjs), Ok(()));
    let unknown = one(entry("entry-1.js", Some("/t/node1.js"), &[]));
    assert_eq!(validate_entry_exports(&case(), &unknown), Ok(()));
}

#[test]
fn lists_of_exports_are_told_apart() {
    assert_eq!(missing_exports(&list(&["a", "b", "a"]), &list(&["b"])), list(&["a", "a"]));
    assert_eq!(distinct_texts(&list(&["b", "a", "b"])), list(&["b", "a"]));
    assert_eq!(
        complain_of_exports("f.js", 3, "[x]", "[y]", "{z}"),
        "Entry chunk 'f.js' (node 3) is missing exports: [x]\nExpected: [y]\nActual: {z}"
    );
}

// Syntax

#[test]
fn valid_chunks_pass() {
    let mut valid = chunk("a.js");
    valid.code = "import x from './b.js';\nexport { x };\nreturn;\n".to_string();
    assert_eq!(validate_output_js_syntax(&one(valid)), Ok(()));
}

#[test]
fn broken_chunks_are_reported_with_the_errors() {
    let mut valid = chunk("a.js");
    valid.code = "let a = 1;".to_string();
    let mut broken = chunk("b.js");
    broken.code = "let = = 1;".to_string();
    let output = BundleOutput { assets: vec![Output::Chunk(valid), Output::Chunk(broken)] };
    match validate_output_js_syntax(&output) {
        Ok(()) => panic!("the second chunk is broken"),
        Err(message) => {
            let lead = "Syntax error in output chunk 'b.js':\n";
            assert!(message.starts_with(lead));
            assert!(message.len() > lead.len());
        }
    }
}

#[test]
fn every_rendered_module_parses() {
    for (name, source) in render_graph_modules(&case()) {
        let mut module = chunk(&name);
        module.code = source;
        assert_eq!(validate_output_js_syntax(&one(module)), Ok(()));
    }
}

#[test]
fn parse_reports_are_turned_into_complaints() {
    assert_eq!(complain_of_syntax("a.js", false, &list(&[])), None);
    assert_eq!(
        complain_of_syntax("a.js", false, &list(&["one", "two"])),
        Some("Syntax error in output chunk 'a.js':\none\ntwo".to_string())
    );
    assert_eq!(
        complain_of_syntax("a.js", true, &list(&[])),
        Some("Syntax error in output chunk 'a.js':\n".to_string())
    );
}
