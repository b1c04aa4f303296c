//! Laws of the options of a case and of its config file.
use crate::case::{external_name, filename, CaseModel, PreserveEntrySignatures};
use crate::options::{
    bool_text, config_text, external_names, externals_config, item_config, items_of, options_of,
    or_default, signatures_config, treeshake_config, BundlerOptions, InputItem, ItemModel,
    OptionsModel, OutputFormat, TreeshakeOptions,
};
use crate::render::modules_of;
use crate::text::{
    decimal, decimal_is_injective, ends_with, joined, lemma_occurs, lemma_occurs_inside,
    lemma_together_push, occurs, texts, together,
};
use crate::text_laws::{
    endings_are_suffixes, joined_parts_occur, lemma_in_a_row, lemma_parts_chain, occurrences_nest,
    putting_together_is_concatenation,
};
use vstd::prelude::*;

verus! {

/// The options of a case carry each of its settings, under the option that has
/// its name, and nothing else decides on them.
pub proof fn options_carry_every_setting(case: CaseModel, cwd: std::path::PathBuf)
    ensures
        options_of(case, cwd).treeshake == TreeshakeOptions::Boolean(case.treeshake),
        options_of(case, cwd).minify_internal_exports == Some(case.minify_internal_exports),
        options_of(case, cwd).strict_execution_order == Some(case.strict_execution_order),
        options_of(case, cwd).preserve_entry_signatures == Some(case.preserve_entry_signatures),
        options_of(case, cwd).format == Some(OutputFormat::Esm),
        options_of(case, cwd).cwd == Some(cwd),
{
}

/// What is known of options is what the options hold, field by field.
pub proof fn options_are_seen_as_they_are(options: BundlerOptions, item: InputItem)
    ensures
        options@.cwd == options.cwd,
        options@.format == options.format,
        options@.treeshake == options.treeshake,
        options@.preserve_entry_signatures == options.preserve_entry_signatures,
        options@.strict_execution_order == options.strict_execution_order,
        options@.minify_internal_exports == options.minify_internal_exports,
        options.input is None ==> options@.input is None,
        options.input matches Some(items) ==> options@.input == Some(
            items@.map_values(|item: InputItem| item@),
        ),
        options.external is None ==> options@.external is None,
        options.external matches Some(names) ==> options@.external == Some(texts(names@)),
        item@.import == item.import@,
        item.name is None ==> item@.name is None,
        item.name matches Some(name) ==> item@.name == Some(name@),
{
}

/// A case has one entry point for each of its entry nodes, in their order: it
/// imports the file of the node, which is the rendered one, and no two entry
/// points of different nodes have the same name.
pub proof fn entry_points_import_rendered_files(
    case: CaseModel,
    cwd: std::path::PathBuf,
    i: int,
    j: int,
)
    requires
        0 <= i < case.entry_nodes.len(),
        0 <= j < case.entry_nodes.len(),
    ensures
        ({
            let items = options_of(case, cwd).input.unwrap();
            let node = case.entry_nodes[i];
            &&& options_of(case, cwd).input is Some
            &&& items.len() == case.entry_nodes.len()
            &&& node < case.node_count ==> items[i].import == "./"@ + modules_of(
                case,
            )[node as int].0
            &&& items[i].import == "./"@ + ("node"@ + decimal(node as nat) + (
            if case.cjs_nodes.contains(node) {
                ".cjs"@
            } else {
                ".js"@
            }))
            &&& items[i].name == Some("entry-"@ + decimal(node as nat))
            &&& items[i].name == items[j].name ==> case.entry_nodes[i] == case.entry_nodes[j]
        }),
{
    let items = items_of(case);
    let prefix = "entry-"@;
    let a = decimal(case.entry_nodes[i] as nat);
    let b = decimal(case.entry_nodes[j] as nat);
    assert(items[i].name == Some(prefix + a));
    assert(items[j].name == Some(prefix + b));
    if items[i].name == items[j].name {
        assert(prefix + a == prefix + b);
        assert((prefix + a).skip(prefix.len() as int) =~= a);
        assert((prefix + b).skip(prefix.len() as int) =~= b);
        decimal_is_injective(case.entry_nodes[i] as nat, case.entry_nodes[j] as nat);
    }
}

/// Every external module that a node of a well-formed case imports, under the
/// name that its source gives it, is declared external by the options, and as
/// many are declared as the case has.
pub proof fn imported_externals_are_declared(
    case: CaseModel,
    cwd: std::path::PathBuf,
    from: usize,
    ext: usize,
    variant: u8,
)
    requires
        case.well_formed(),
        case.external_dynamic_edges.contains((from, ext))
            || case.external_static_default_edges.contains((from, ext, variant)),
    ensures
        options_of(case, cwd).external matches Some(names) && names.len()
            == case.external_module_count && names.contains(external_name(ext))
            && names[ext as int] == "external-"@ + decimal(ext as nat),
{
    if case.external_dynamic_edges.contains((from, ext)) {
        let i = choose|i: int|
            0 <= i < case.external_dynamic_edges.len() && case.external_dynamic_edges[i] == (
                from,
                ext,
            );
        assert(case.external_dynamic_edges[i].1 < case.external_module_count);
    } else {
        let i = choose|i: int|
            0 <= i < case.external_static_default_edges.len()
                && case.external_static_default_edges[i] == (from, ext, variant);
        assert(case.external_static_default_edges[i].1 < case.external_module_count);
    }
    let names = external_names(case);
    assert(names[ext as int] == external_name(ext));
}

/// A case without external modules declares none.
pub proof fn no_externals_are_declared_without_any(case: CaseModel, cwd: std::path::PathBuf)
    requires
        case.external_module_count == 0,
    ensures
        options_of(case, cwd).external is None,
{
}

/// The parts of a config file before its settings.
spec fn config_front(case: CaseModel) -> Seq<Seq<char>> {
    Seq::empty().push(
        "// Generated by `cargo run -p output_fuzz_common --bin generate_fixture -- --seed "@,
    ).push(decimal(case.seed as nat)).push("`\nexport default {\n  input: {\n"@).push(
        joined(items_of(case).map_values(|item: ItemModel| item_config(item)), ",\n"@),
    ).push("\n  },\n"@).push(externals_config(external_names(case)))
}

/// The settings at the end of a config file.
spec fn config_tail(options: OptionsModel) -> Seq<Seq<char>> {
    Seq::empty().push("  treeshake: "@).push(treeshake_config(options.treeshake)).push(
        ",\n  preserveEntrySignatures: "@,
    ).push(
        signatures_config(
            or_default(options.preserve_entry_signatures, PreserveEntrySignatures::ExportsOnly),
        ),
    ).push(",\n  output: {\n    strictExecutionOrder: "@).push(
        bool_text(or_default(options.strict_execution_order, false)),
    ).push(",\n    minifyInternalExports: "@).push(
        bool_text(or_default(options.minify_internal_exports, true)),
    ).push(",\n  },\n};\n"@)
}

proof fn lemma_config_tail(options: OptionsModel)
    ensures
        together(config_tail(options)) == "  treeshake: "@ + treeshake_config(options.treeshake)
            + ",\n  preserveEntrySignatures: "@ + signatures_config(
            or_default(options.preserve_entry_signatures, PreserveEntrySignatures::ExportsOnly),
        ) + ",\n  output: {\n    strictExecutionOrder: "@ + bool_text(
            or_default(options.strict_execution_order, false),
        ) + ",\n    minifyInternalExports: "@ + bool_text(
            or_default(options.minify_internal_exports, true),
        ) + ",\n  },\n};\n"@,
{
    lemma_parts_chain(
        "  treeshake: "@,
        treeshake_config(options.treeshake),
        ",\n  preserveEntrySignatures: "@,
        signatures_config(
            or_default(options.preserve_entry_signatures, PreserveEntrySignatures::ExportsOnly),
        ),
        ",\n  output: {\n    strictExecutionOrder: "@,
        bool_text(or_default(options.strict_execution_order, false)),
        ",\n    minifyInternalExports: "@,
        bool_text(or_default(options.minify_internal_exports, true)),
        ",\n  },\n};\n"@,
    );
}

proof fn lemma_config_parts(case: CaseModel, options: OptionsModel)
    ensures
        config_text(case, options) == together(config_front(case) + config_tail(options)),
{
    let p0 = "// Generated by `cargo run -p output_fuzz_common --bin generate_fixture -- --seed "@;
    let p1 = decimal(case.seed as nat);
    let p2 = "`\nexport default {\n  input: {\n"@;
    let p3 = joined(items_of(case).map_values(|item: ItemModel| item_config(item)), ",\n"@);
    let p4 = "\n  },\n"@;
    let p5 = externals_config(external_names(case));
    let p6 = "  treeshake: "@;
    let p7 = treeshake_config(options.treeshake);
    let p8 = ",\n  preserveEntrySignatures: "@;
    let p9 = signatures_config(
        or_default(options.preserve_entry_signatures, PreserveEntrySignatures::ExportsOnly),
    );
    let p10 = ",\n  output: {\n    strictExecutionOrder: "@;
    let p11 = bool_text(or_default(options.strict_execution_order, false));
    let p12 = ",\n    minifyInternalExports: "@;
    let p13 = bool_text(or_default(options.minify_internal_exports, true));
    let p14 = ",\n  },\n};\n"@;
    lemma_parts_chain(p0, p1, p2, p3, p4, p5, p6, p7, p8);
    let first = Seq::empty().push(p0).push(p1).push(p2).push(p3).push(p4).push(p5).push(p6).push(
        p7,
    ).push(p8);
    lemma_together_push(first, p9);
    let s9 = first.push(p9);
    lemma_together_push(s9, p10);
    let s10 = s9.push(p10);
    lemma_together_push(s10, p11);
    let s11 = s10.push(p11);
    lemma_together_push(s11, p12);
    let s12 = s11.push(p12);
    lemma_together_push(s12, p13);
    let s13 = s12.push(p13);
    lemma_together_push(s13, p14);
    assert(config_front(case) + config_tail(options) =~= s13.push(p14));
}

/// A config file ends with the settings of the options, each under its own
/// name: whether unused code is dropped, how entry signatures are preserved,
/// whether the execution order is strict and whether internal exports are
/// minified. What is not set is as the bundler has it by default.
pub proof fn config_files_end_with_the_settings(case: CaseModel, options: OptionsModel)
    ensures
        ends_with(
            config_text(case, options),
            "  treeshake: "@ + (if options.treeshake == TreeshakeOptions::Boolean(false) {
                "false"@
            } else {
                "true"@
            }) + ",\n  preserveEntrySignatures: "@ + (match options.preserve_entry_signatures {
                Some(PreserveEntrySignatures::AllowExtension) => "\"allow-extension\""@,
                Some(PreserveEntrySignatures::Strict) => "\"strict\""@,
                Some(PreserveEntrySignatures::False) => "false"@,
                Some(PreserveEntrySignatures::ExportsOnly) | None => "\"exports-only\""@,
            }) + ",\n  output: {\n    strictExecutionOrder: "@ + (
            if options.strict_execution_order == Some(true) {
                "true"@
            } else {
                "false"@
            }) + ",\n    minifyInternalExports: "@ + (
            if options.minify_internal_exports == Some(false) {
                "false"@
            } else {
                "true"@
            }) + ",\n  },\n};\n"@,
        ),
{
    lemma_config_parts(case, options);
    let (front, tail) = (config_front(case), config_tail(options));
    putting_together_is_concatenation(front, tail);
    lemma_config_tail(options);
    endings_are_suffixes(config_text(case, options), together(tail));
    assert(config_text(case, options) == together(front) + together(tail));
}

/// The config file of a case ends with the settings of the case, each under
/// its own name.
pub proof fn config_files_have_the_settings_of_the_case(case: CaseModel, cwd: std::path::PathBuf)
    ensures
        ends_with(
            config_text(case, options_of(case, cwd)),
            "  treeshake: "@ + (if case.treeshake {
                "true"@
            } else {
                "false"@
            }) + ",\n  preserveEntrySignatures: "@ + (match case.preserve_entry_signatures {
                PreserveEntrySignatures::AllowExtension => "\"allow-extension\""@,
                PreserveEntrySignatures::Strict => "\"strict\""@,
                PreserveEntrySignatures::ExportsOnly => "\"exports-only\""@,
                PreserveEntrySignatures::False => "false"@,
            }) + ",\n  output: {\n    strictExecutionOrder: "@ + (if case.strict_execution_order {
                "true"@
            } else {
                "false"@
            }) + ",\n    minifyInternalExports: "@ + (if case.minify_internal_exports {
                "true"@
            } else {
                "false"@
            }) + ",\n  },\n};\n"@,
        ),
{
    config_files_end_with_the_settings(case, options_of(case, cwd));
}

/// The config file of a case has a line for each entry node, which gives the
/// entry point its name and names the rendered file of the node.
pub proof fn config_files_name_the_entry_files(case: CaseModel, options: OptionsModel, i: int)
    requires
        0 <= i < case.entry_nodes.len(),
        case.entry_nodes[i] < case.node_count,
    ensures
        occurs(
            "    \"entry-"@ + decimal(case.entry_nodes[i] as nat) + "\": \"./"@ + modules_of(
                case,
            )[case.entry_nodes[i] as int].0 + "\""@,
            config_text(case, options),
        ),
{
    let node = case.entry_nodes[i];
    let items = items_of(case);
    let lines = items.map_values(|item: ItemModel| item_config(item));
    let line = "    \"entry-"@ + decimal(node as nat) + "\": \"./"@ + filename(case, node)
        + "\""@;
    assert(lines[i] == item_config(items[i]));
    assert(lines[i] =~= line) by {
        reveal_strlit("    \"entry-");
        reveal_strlit("    \"");
        reveal_strlit("entry-");
        reveal_strlit("\": \"./");
        reveal_strlit("\": \"");
        reveal_strlit("./");
        assert("    \"entry-"@ =~= "    \""@ + "entry-"@);
        assert("\": \"./"@ =~= "\": \""@ + "./"@);
    }
    joined_parts_occur(lines, ",\n"@, i);
    lemma_config_parts(case, options);
    let parts = config_front(case) + config_tail(options);
    let inner = parts[2] + parts[3] + parts[4];
    lemma_in_a_row(parts, 2);
    assert(parts[3] == joined(lines, ",\n"@));
    lemma_occurs_inside(line, parts[2], parts[3], parts[4]);
    occurrences_nest(line, inner, config_text(case, options));
}

/// The config file of a case declares each of its external modules.
pub proof fn config_files_declare_the_externals(case: CaseModel, options: OptionsModel, ext: usize)
    requires
        ext < case.external_module_count,
    ensures
        occurs("\"external-"@ + decimal(ext as nat) + "\""@, externals_config(external_names(case))),
        occurs(externals_config(external_names(case)), config_text(case, options)),
        occurs("  external: ["@, externals_config(external_names(case))),
{
    let names = external_names(case);
    let quoted = names.map_values(|name: Seq<char>| "\""@ + name + "\""@);
    let name = "\"external-"@ + decimal(ext as nat) + "\""@;
    assert(names[ext as int] == external_name(ext));
    assert(quoted[ext as int] == "\""@ + external_name(ext) + "\""@);
    assert(quoted[ext as int] =~= name) by {
        reveal_strlit("\"external-");
        reveal_strlit("\"");
        reveal_strlit("external-");
        assert("\"external-"@ =~= "\""@ + "external-"@);
    }
    joined_parts_occur(quoted, ", "@, ext as int);
    let line = externals_config(names);
    assert(line =~= "  external: ["@ + joined(quoted, ", "@) + "],\n"@);
    lemma_occurs_inside(name, "  external: ["@, joined(quoted, ", "@), "],\n"@);
    assert(line =~= Seq::<char>::empty() + "  external: ["@ + (joined(quoted, ", "@) + "],\n"@));
    lemma_occurs(Seq::empty(), "  external: ["@, joined(quoted, ", "@) + "],\n"@);
    lemma_externals_line_occurs(case, options);
}

proof fn lemma_externals_line_occurs(case: CaseModel, options: OptionsModel)
    ensures
        occurs(externals_config(external_names(case)), config_text(case, options)),
{
    lemma_config_parts(case, options);
    let parts = config_front(case) + config_tail(options);
    let inner = parts[4] + parts[5] + parts[6];
    lemma_in_a_row(parts, 4);
    assert(parts[5] == externals_config(external_names(case)));
    lemma_occurs(parts[4], parts[5], parts[6]);
    occurrences_nest(parts[5], inner, config_text(case, options));
}

/// A config file starts with how it was made: for which seed.
pub proof fn config_files_name_their_seed(case: CaseModel, options: OptionsModel)
    ensures
        occurs(
            "// Generated by `cargo run -p output_fuzz_common --bin generate_fixture -- --seed "@
                + decimal(case.seed as nat) + "`\nexport default {\n  input: {\n"@,
            config_text(case, options),
        ),
{
    lemma_config_parts(case, options);
    lemma_in_a_row(config_front(case) + config_tail(options), 0);
}

} // verus!
