//! Reports of failed cases, and the links in them.
use base64::engine::general_purpose::STANDARD;
use base64::Engine;
use flate2::read::ZlibDecoder;
use output_fuzz_common::base64_text::encode_base64;
use output_fuzz_common::case::{GraphCase, PreserveEntrySignatures};
use output_fuzz_common::fixture::fixture_files;
use output_fuzz_common::options::{bundler_options_for_case, BundlerOptions};
use output_fuzz_common::output::{BundleOutput, Output, OutputChunk};
use output_fuzz_common::repl::{
    build_repl_url, encode_repl_hash, hash_from_compressed, link_for_hash,
};
use output_fuzz_common::report::{
    failure_message_with_link, fixture_command_for_case, format_failure_message,
    format_named_cycle, write_path,
};
use output_fuzz_common::verdict::{check_output, complain_of_input, judge_output};
use std::io::Read;
use std::path::PathBuf;

fn list(items: &[&str]) -> Vec<String> {
    items.iter().map(|item| item.to_string()).collect()
}

fn case() -> GraphCase {
    GraphCase {
        seed: 5,
        node_count: 3,
        entry_nodes: vec![0, 2],
        cjs_nodes: vec![2],
        static_edges: vec![(0, 1), (0, 2)],
        dynamic_edges: vec![(2, 0)],
        reexport_static_edges: vec![(0, 1)],
        external_module_count: 2,
        external_dynamic_edges: vec![(1, 1)],
        external_static_default_edges: vec![(1, 0, 3)],
        preserve_entry_signatures: PreserveEntrySignatures::Strict,
        strict_execution_order: true,
        treeshake: false,
        minify_internal_exports: false,
    }
}

fn options() -> BundlerOptions {
    bundler_options_for_case(&case(), PathBuf::from("."))
}

// Cycles and paths

#[test]
fn cycles_are_paths_between_names() {
    let names = list(&["a.js", "b.js"]);
    assert_eq!(
        format_named_cycle(&[0, 1, 0], &names, "chunk"),
        "- Path: `a.js` -> `b.js` -> `a.js`"
    );
    assert_eq!(
        format_named_cycle(&[0, 7, 0], &names, "chunk"),
        "- Path: `a.js` -> `chunk7` -> `a.js`"
    );
    assert_eq!(format_named_cycle(&[0], &names, "chunk"), "- (none)");
    assert_eq!(format_named_cycle(&[], &names, "chunk"), "- (none)");
    assert_eq!(write_path(&[], &names, "chunk"), "");
    assert_eq!(
        complain_of_input(&[2, 10, 2]),
        "generated static input graph was unexpectedly cyclic at path: \
         `node2` -> `node10` -> `node2`"
    );
}

// Links

#[test]
fn bytes_are_written_in_base64() {
    assert_eq!(encode_base64(b""), "");
    assert_eq!(encode_base64(b"f"), "Zg==");
    assert_eq!(encode_base64(b"fo"), "Zm8=");
    assert_eq!(encode_base64(b"foo"), "Zm9v");
    assert_eq!(encode_base64(b"foobar"), "Zm9vYmFy");
    assert_eq!(encode_base64(&[0xfb, 0xff, 0xfe]), "+//+");
}

#[test]
fn long_texts_are_encoded_block_by_block() {
    for len in [3071usize, 3072, 3073, 6144, 10_000] {
        let bytes: Vec<u8> = (0..len).map(|i| (i * 7 % 251) as u8).collect();
        assert_eq!(encode_base64(&bytes), STANDARD.encode(&bytes));
    }
}

fn inflated(hash: &str) -> String {
    let bytes = STANDARD.decode(hash).expect("the hash is base64");
    let mut text = String::new();
    ZlibDecoder::new(bytes.as_slice())
        .read_to_string(&mut text)
        .expect("the hash is compressed text");
    text
}

#[test]
fn hashes_hold_the_text_compressed() {
    for text in ["", "{}", "zäöü", &"ab".repeat(5000)] {
        assert_eq!(inflated(&encode_repl_hash(text)), text);
    }
    assert!(encode_repl_hash(&"ab".repeat(5000)).len() < 200);
}

#[test]
fn hashes_fall_back_to_the_text_itself() {
    assert_eq!(hash_from_compressed(b"foo", None), "Zm9v");
    assert_eq!(hash_from_compressed(b"foo", Some(b"fo".to_vec())), "Zm8=");
}

#[test]
fn links_fall_back_to_the_empty_playground() {
    assert_eq!(link_for_hash(None), "https://repl.rolldown.rs/");
    assert_eq!(link_for_hash(Some("Zm8=".to_string())), "https://repl.rolldown.rs/#Zm8=");
}

#[test]
fn links_hold_the_fixture() {
    let url = build_repl_url(&case(), &options());
    let hash = url.strip_prefix("https://repl.rolldown.rs/#").expect("the link has a hash");
    let text = inflated(hash);
    assert!(text.starts_with(
        "{\"f\":{\"node0.js\":{\"n\":\"node0.js\",\
         \"c\":\"globalThis.__acyclic_output_fuzz_0 = 0;\\n\
         export { node_1 as reexport_0_1 } from \\\"./node1.js\\\";\\n"
    ));
    assert!(text.contains("export { node_0 };\\n\",\"e\":true},\"node1.js\":{\"n\":\"node1.js\","));
    assert!(!text.contains('\n'));
    assert!(text.ends_with("},\"v\":\"latest\"}"));

    let state: serde_json::Value = serde_json::from_str(&text).expect("the text is JSON");
    let shown = state["f"].as_object().expect("the files are an object");
    let files = fixture_files(&case(), &options());
    assert_eq!(shown.len(), files.len());
    for ((key, value), (name, source)) in shown.iter().zip(&files) {
        assert_eq!(key, name);
        assert_eq!(value["n"], name.as_str());
        assert_eq!(value["c"], source.as_str());
    }
    assert_eq!(state["f"]["node0.js"]["e"], true);
    assert!(state["f"]["node1.js"].get("e").is_none());
    assert_eq!(state["f"]["node2.cjs"]["e"], true);
    assert!(state["f"]["rolldown.config.js"].get("e").is_none());
}

// Reports

#[test]
fn commands_name_the_case() {
    assert_eq!(
        fixture_command_for_case(&case()),
        "cargo run -p output_fuzz_common --bin generate_fixture -- --seed 5 --case \
         'n=3;e=0,2;c=2;s=0-1,0-2;d=2-0;r=0-1;x=2:1-1;xs=1-0-3;p=1;o=1;t=0;m=0' \
         --out ./fixtures/seed-5"
    );
}

#[test]
fn reports_show_input_and_output() {
    let files = list(&["a.js", "b.js"]);
    let message = failure_message_with_link(
        &case(),
        &options(),
        &files,
        &[(0, 1), (1, 0), (1, 9)],
        &[],
        Some(&[0, 1, 0]),
        "https://link",
    );
    assert_eq!(
        message,
        "## Failed Seed\n\
         `5`\n\n\
         ## Structure\n\
         - Nodes: `3`\n\
         - Entry nodes: `[0, 2]`\n\
         - CJS nodes: `[2]`\n\
         - Preserve entry signatures: `Some(Strict)`\n\
         - Strict execution order: `Some(true)`\n\
         - Minify internal exports: `Some(false)`\n\
         - External modules: `2`\n\n\
         ### Input Static Edges\n\
         - `node0` -> `node1`\n\
         - `node0` -> `node2`\n\n\
         ### Input Static Reexport Edges\n\
         - `node0` -> `node1`\n\n\
         ### Input Dynamic Edges\n\
         - `node2` -> `node0`\n\n\
         ### Input External Dynamic Edges\n\
         - `node1` -> `external-1`\n\n\
         ### Input External Static Default Imports\n\
         - `node1` -> `external-0` as `dn_0_3`\n\n\
         ### Output Files\n\
         - `a.js`\n\
         - `b.js`\n\n\
         ### Output Static Edges\n\
         - `a.js` -> `b.js`\n\
         - `b.js` -> `a.js`\n\n\
         ### Output Static Cycle\n\
         - Path: `a.js` -> `b.js` -> `a.js`\n\n\
         ### Output Dynamic Edges\n\
         - (none)\n\n\
         ### REPL URL\n\
         https://link\n\n\
         ### Generate Fixture\n\
         ```bash\n\
         cargo run -p output_fuzz_common --bin generate_fixture -- --seed 5 --case \
         'n=3;e=0,2;c=2;s=0-1,0-2;d=2-0;r=0-1;x=2:1-1;xs=1-0-3;p=1;o=1;t=0;m=0' \
         --out ./fixtures/seed-5\n\
         ```"
    );
}

#[test]
fn reports_say_that_there_is_nothing() {
    let mut bare = case();
    bare.cjs_nodes.clear();
    bare.static_edges.clear();
    bare.dynamic_edges.clear();
    bare.reexport_static_edges.clear();
    bare.external_dynamic_edges.clear();
    bare.external_static_default_edges.clear();
    let mut options = options();
    options.preserve_entry_signatures = None;
    options.strict_execution_order = None;
    options.minify_internal_exports = None;
    let message = format_failure_message(&bare, &options, &[], &[], &[], None);
    assert!(message.contains("- CJS nodes: `[]`\n"));
    assert!(message.contains("- Preserve entry signatures: `None`\n"));
    assert!(message.contains("- Strict execution order: `None`\n"));
    for title in [
        "Input Static Edges",
        "Input Static Reexport Edges",
        "Input Dynamic Edges",
        "Input External Dynamic Edges",
        "Input External Static Default Imports",
        "Output Files",
        "Output Static Edges",
        "Output Static Cycle",
        "Output Dynamic Edges",
    ] {
        assert!(message.contains(&format!("### {title}\n- (none)\n\n")));
    }
    let link = build_repl_url(&bare, &options);
    assert!(message.contains(&format!("### REPL URL\n{link}\n\n")));
}

// Verdicts

fn chunk(filename: &str, imports: &[&str], module_ids: &[&str]) -> Output {
    Output::Chunk(OutputChunk {
        filename: filename.to_string(),
        code: "export {};".to_string(),
        imports: list(imports),
        exports: Vec::new(),
        dynamic_imports: Vec::new(),
        is_entry: false,
        facade_module_id: None,
        module_ids: list(module_ids),
    })
}

fn cyclic(module_id: &str) -> BundleOutput {
    BundleOutput {
        assets: vec![
            chunk("a.js", &["./b.js"], &["/t/node0.js"]),
            chunk("b.js", &["./a.js"], &[module_id]),
        ],
    }
}

#[test]
fn sound_outputs_pass() {
    let output = BundleOutput {
        assets: vec![chunk("a.js", &["./b.js"], &[]), chunk("b.js", &["external-0"], &[])],
    };
    assert_eq!(check_output(&case(), &options(), &output), Ok(()));
}

#[test]
fn cycles_are_reported() {
    match check_output(&case(), &options(), &cyclic("/t/node1.js")) {
        Ok(()) => panic!("the output is cyclic"),
        Err(message) => assert!(message.contains("- Path: `a.js` -> `b.js` -> `a.js`\n")),
    }
}

#[test]
fn immediate_cycles_with_cjs_pass() {
    assert_eq!(check_output(&case(), &options(), &cyclic("/t/node2.cjs")), Ok(()));
}

#[test]
fn broken_syntax_fails() {
    let mut output = cyclic("/t/node2.cjs");
    if let Output::Chunk(chunk) = &mut output.assets[1] {
        chunk.code = "export {".to_string();
    }
    match check_output(&case(), &options(), &output) {
        Ok(()) => panic!("the second chunk is broken"),
        Err(message) => assert!(message.starts_with("Syntax error in output chunk 'b.js':\n")),
    }
}

#[test]
fn lost_exports_fail_whether_or_not_unused_code_is_dropped() {
    let mut output = BundleOutput { assets: vec![chunk("a.js", &[], &[])] };
    if let Output::Chunk(chunk) = &mut output.assets[0] {
        chunk.is_entry = true;
        chunk.facade_module_id = Some("/t/node0.js".to_string());
    }
    for treeshake in [false, true] {
        let mut strict = case();
        strict.treeshake = treeshake;
        match check_output(&strict, &options(), &output) {
            Ok(()) => panic!("the exports are lost"),
            Err(message) => assert!(message.starts_with("Entry chunk 'a.js' (node 0) is missing")),
        }
        strict.preserve_entry_signatures = PreserveEntrySignatures::ExportsOnly;
        assert_eq!(check_output(&strict, &options(), &output), Ok(()));
    }
}

#[test]
fn a_tolerated_cycle_hides_no_larger_one() {
    let mut output = cyclic("/t/node2.cjs");
    output.assets.push(chunk("c.js", &["./d.js"], &[]));
    output.assets.push(chunk("d.js", &["./e.js"], &["/t/node4.cjs"]));
    output.assets.push(chunk("e.js", &["./c.js"], &[]));
    match check_output(&case(), &options(), &output) {
        Ok(()) => panic!("three chunks form a cycle"),
        Err(message) => {
            assert!(message.contains("- Path: `c.js` -> `d.js` -> `e.js` -> `c.js`\n"))
        }
    }
}

#[test]
fn a_tolerated_cycle_hides_no_pair_without_cjs() {
    let mut output = cyclic("/t/node2.cjs");
    output.assets.push(chunk("c.js", &["./d.js"], &[]));
    output.assets.push(chunk("d.js", &["./c.js"], &[]));
    match check_output(&case(), &options(), &output) {
        Ok(()) => panic!("two chunks without CommonJS form a cycle"),
        Err(message) => assert!(message.contains("- Path: `c.js` -> `d.js` -> `c.js`\n")),
    }
}

#[test]
fn a_given_cycle_decides() {
    let output = cyclic("/t/node1.js");
    assert_eq!(judge_output(&case(), &options(), &output, None), Ok(()));
    assert!(judge_output(&case(), &options(), &output, Some(vec![0, 1, 0])).is_err());
}
