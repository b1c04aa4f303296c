//! The options a case is bundled with, and the config file that says the same.
use crate::case::{
    external_module_name, external_name, filename, module_filename, CaseModel, GraphCase,
    PreserveEntrySignatures,
};
use crate::text::{decimal, decimal_text, join_texts, joined, lemma_texts_push, texts};
use vstd::prelude::*;

verus! {

/// `std::path::PathBuf`, a path of the file system. Nothing is known of it
/// here: a path is handed on as it is.
#[verifier::external_type_specification]
#[verifier::external_body]
pub struct ExPathBuf(std::path::PathBuf);

/// The module format of the output.
#[derive(Clone, Copy, Debug, PartialEq, Eq, Structural)]
pub enum OutputFormat {
    Esm,
    Cjs,
    Iife,
    Umd,
}

/// Whether unused code is dropped: switched on or off, or set in detail.
#[derive(Clone, Copy, Debug, PartialEq, Eq, Structural)]
pub enum TreeshakeOptions {
    Boolean(bool),
    Detailed,
}

/// An entry point of a bundle: its name and what it imports.
pub struct InputItem {
    pub name: Option<String>,
    pub import: String,
}

/// The options that the harness sets; every other option keeps its default.
pub struct BundlerOptions {
    pub input: Option<Vec<InputItem>>,
    pub cwd: Option<std::path::PathBuf>,
    pub format: Option<OutputFormat>,
    pub treeshake: TreeshakeOptions,
    pub preserve_entry_signatures: Option<PreserveEntrySignatures>,
    pub strict_execution_order: Option<bool>,
    pub minify_internal_exports: Option<bool>,
    /// The modules that stay imports of the output.
    pub external: Option<Vec<String>>,
}

/// What an [`InputItem`] holds.
#[verifier::ext_equal]
pub struct ItemModel {
    pub name: Option<Seq<char>>,
    pub import: Seq<char>,
}

/// What [`BundlerOptions`] hold.
#[verifier::ext_equal]
pub struct OptionsModel {
    pub input: Option<Seq<ItemModel>>,
    pub cwd: Option<std::path::PathBuf>,
    pub format: Option<OutputFormat>,
    pub treeshake: TreeshakeOptions,
    pub preserve_entry_signatures: Option<PreserveEntrySignatures>,
    pub strict_execution_order: Option<bool>,
    pub minify_internal_exports: Option<bool>,
    pub external: Option<Seq<Seq<char>>>,
}

impl View for InputItem {
    type V = ItemModel;

    open spec fn view(&self) -> ItemModel {
        ItemModel {
            name: match self.name {
                Some(name) => Some(name@),
                None => None,
            },
            import: self.import@,
        }
    }
}

/// What a list of input items holds.
pub open spec fn item_views(items: Seq<InputItem>) -> Seq<ItemModel> {
    items.map_values(|item: InputItem| item@)
}

impl View for BundlerOptions {
    type V = OptionsModel;

    open spec fn view(&self) -> OptionsModel {
        OptionsModel {
            input: match self.input {
                Some(items) => Some(item_views(items@)),
                None => None,
            },
            cwd: self.cwd,
            format: self.format,
            treeshake: self.treeshake,
            preserve_entry_signatures: self.preserve_entry_signatures,
            strict_execution_order: self.strict_execution_order,
            minify_internal_exports: self.minify_internal_exports,
            external: match self.external {
                Some(names) => Some(texts(names@)),
                None => None,
            },
        }
    }
}

// ---------------------------------------------------------------------------
// The options of a case
// ---------------------------------------------------------------------------

/// The entry point for an entry node.
pub open spec fn item_of(case: CaseModel, index: usize) -> ItemModel {
    ItemModel {
        name: Some("entry-"@ + decimal(index as nat)),
        import: "./"@ + filename(case, index),
    }
}

/// The entry points of a case, in the order of its entry nodes.
pub open spec fn items_of(case: CaseModel) -> Seq<ItemModel> {
    case.entry_nodes.map_values(|index: usize| item_of(case, index))
}

/// The names of the external modules of a case.
pub open spec fn external_names(case: CaseModel) -> Seq<Seq<char>> {
    Seq::new(case.external_module_count as nat, |i: int| external_name(i as usize))
}

/// The options that a case is bundled with in the directory `cwd`.
pub open spec fn options_of(case: CaseModel, cwd: std::path::PathBuf) -> OptionsModel {
    OptionsModel {
        input: Some(items_of(case)),
        cwd: Some(cwd),
        format: Some(OutputFormat::Esm),
        treeshake: TreeshakeOptions::Boolean(case.treeshake),
        preserve_entry_signatures: Some(case.preserve_entry_signatures),
        strict_execution_order: Some(case.strict_execution_order),
        minify_internal_exports: Some(case.minify_internal_exports),
        external: if case.external_module_count > 0 {
            Some(external_names(case))
        } else {
            None
        },
    }
}

/// Lists the entry points of a case.
pub fn input_items_for_case(case: &GraphCase) -> (items: Vec<InputItem>)
    ensures
        item_views(items@) == items_of(case@),
{
    let mut items: Vec<InputItem> = Vec::new();
    for i in 0..case.entry_nodes.len()
        invariant
            item_views(items@) == items_of(case@).take(i as int),
    {
        let index: usize = case.entry_nodes[i];
        let mut name = "entry-".to_owned();
        name.append(decimal_text(index as u128).as_str());
        let mut import = "./".to_owned();
        import.append(module_filename(case, index).as_str());
        let item = InputItem { name: Some(name), import };
        assert(item@ == item_of(case@, index));
        assert(item_views(items@.push(item)) =~= item_views(items@).push(item@));
        assert(items_of(case@).take(i + 1) =~= items_of(case@).take(i as int).push(
            items_of(case@)[i as int],
        ));
        items.push(item);
    }
    assert(items_of(case@).take(case.entry_nodes@.len() as int) =~= items_of(case@));
    items
}

/// Lists the names of the external modules of a case.
pub fn external_names_for_case(case: &GraphCase) -> (names: Vec<String>)
    ensures
        texts(names@) == external_names(case@),
{
    let mut names: Vec<String> = Vec::new();
    for i in 0..case.external_module_count
        invariant
            texts(names@) == external_names(case@).take(i as int),
    {
        let name = external_module_name(i);
        proof {
            lemma_texts_push(names@, name);
            assert(external_names(case@).take(i + 1) =~= external_names(case@).take(i as int).push(
                external_names(case@)[i as int],
            ));
        }
        names.push(name);
    }
    assert(external_names(case@).take(case.external_module_count as int) =~= external_names(case@));
    names
}

/// The options that bundle a case in the directory `cwd`.
pub fn bundler_options_for_case(case: &GraphCase, cwd: std::path::PathBuf) -> (options:
    BundlerOptions)
    ensures
        options@ == options_of(case@, cwd),
        options.cwd == Some(cwd),
        options.format == Some(OutputFormat::Esm),
        options.treeshake == TreeshakeOptions::Boolean(case.treeshake),
        options.preserve_entry_signatures == Some(case.preserve_entry_signatures),
        options.strict_execution_order == Some(case.strict_execution_order),
        options.minify_internal_exports == Some(case.minify_internal_exports),
        options.input matches Some(items) && items@.len() == case.entry_nodes@.len(),
        options.external is Some <==> case.external_module_count > 0,
        options.external matches Some(names) ==> names@.len() == case.external_module_count,
{
    let external = if case.external_module_count > 0 {
        Some(external_names_for_case(case))
    } else {
        None
    };
    let input = input_items_for_case(case);
    assert(item_views(input@).len() == items_of(case@).len());
    assert(external matches Some(names) ==> texts(names@).len() == external_names(case@).len());
    BundlerOptions {
        input: Some(input),
        cwd: Some(cwd),
        format: Some(OutputFormat::Esm),
        treeshake: TreeshakeOptions::Boolean(case.treeshake),
        preserve_entry_signatures: Some(case.preserve_entry_signatures),
        strict_execution_order: Some(case.strict_execution_order),
        minify_internal_exports: Some(case.minify_internal_exports),
        external,
    }
}

// ---------------------------------------------------------------------------
// The config file
// ---------------------------------------------------------------------------

/// `true` or `false`.
pub open spec fn bool_text(value: bool) -> Seq<char> {
    if value {
        "true"@
    } else {
        "false"@
    }
}

/// How a config file says how entry signatures are preserved.
pub open spec fn signatures_config(value: PreserveEntrySignatures) -> Seq<char> {
    match value {
        PreserveEntrySignatures::AllowExtension => "\"allow-extension\""@,
        PreserveEntrySignatures::Strict => "\"strict\""@,
        PreserveEntrySignatures::ExportsOnly => "\"exports-only\""@,
        PreserveEntrySignatures::False => "false"@,
    }
}

/// How a config file says whether unused code is dropped.
pub open spec fn treeshake_config(value: TreeshakeOptions) -> Seq<char> {
    match value {
        TreeshakeOptions::Boolean(on) => bool_text(on),
        TreeshakeOptions::Detailed => "true"@,
    }
}

/// `value`, or `default` where there is none.
pub open spec fn or_default<T>(value: Option<T>, default: T) -> T {
    match value {
        Some(v) => v,
        None => default,
    }
}

/// An entry point as a line of a config file.
pub open spec fn item_config(item: ItemModel) -> Seq<char> {
    "    \""@ + or_default(item.name, "entry"@) + "\": \""@ + item.import + "\""@
}

/// The external modules as a line of a config file, where there are any.
pub open spec fn externals_config(names: Seq<Seq<char>>) -> Seq<char> {
    if names.len() > 0 {
        "  external: ["@ + joined(
            names.map_values(|name: Seq<char>| "\""@ + name + "\""@),
            ", "@,
        ) + "],\n"@
    } else {
        Seq::empty()
    }
}

/// A config file for given entry points, external modules and settings.
pub open spec fn config_layout(
    seed: u64,
    items: Seq<ItemModel>,
    externals: Seq<Seq<char>>,
    options: OptionsModel,
) -> Seq<char> {
    "// Generated by `cargo run -p output_fuzz_common --bin generate_fixture -- --seed "@ + decimal(
        seed as nat,
    ) + "`\nexport default {\n  input: {\n"@ + joined(
        items.map_values(|item: ItemModel| item_config(item)),
        ",\n"@,
    ) + "\n  },\n"@ + externals_config(externals) + "  treeshake: "@ + treeshake_config(
        options.treeshake,
    ) + ",\n  preserveEntrySignatures: "@ + signatures_config(
        or_default(options.preserve_entry_signatures, PreserveEntrySignatures::ExportsOnly),
    ) + ",\n  output: {\n    strictExecutionOrder: "@ + bool_text(
        or_default(options.strict_execution_order, false),
    ) + ",\n    minifyInternalExports: "@ + bool_text(
        or_default(options.minify_internal_exports, true),
    ) + ",\n  },\n};\n"@
}

/// The config file of a case: its own entry points and external modules, and
/// the settings of the options.
pub open spec fn config_text(case: CaseModel, options: OptionsModel) -> Seq<char> {
    config_layout(case.seed, items_of(case), external_names(case), options)
}

/// The config file of a case says what the options of the case say: their
/// entry points, their external modules and their settings.
pub proof fn config_says_what_options_say(case: CaseModel, cwd: std::path::PathBuf)
    ensures
        ({
            let options = options_of(case, cwd);
            config_text(case, options) == config_layout(
                case.seed,
                options.input.unwrap(),
                or_default(options.external, Seq::empty()),
                options,
            )
        }),
{
    if case.external_module_count == 0 {
        assert(external_names(case) =~= Seq::<Seq<char>>::empty());
    }
}

fn bool_name(value: bool) -> (s: String)
    ensures
        s@ == bool_text(value),
{
    if value {
        "true".to_owned()
    } else {
        "false".to_owned()
    }
}

pub fn preserve_entry_signatures_to_config_value(value: PreserveEntrySignatures) -> (s:
    &'static str)
    ensures
        s@ == signatures_config(value),
        s@ == (match value {
            PreserveEntrySignatures::AllowExtension => "\"allow-extension\""@,
            PreserveEntrySignatures::Strict => "\"strict\""@,
            PreserveEntrySignatures::ExportsOnly => "\"exports-only\""@,
            PreserveEntrySignatures::False => "false"@,
        }),
{
    match value {
        PreserveEntrySignatures::AllowExtension => "\"allow-extension\"",
        PreserveEntrySignatures::Strict => "\"strict\"",
        PreserveEntrySignatures::ExportsOnly => "\"exports-only\"",
        PreserveEntrySignatures::False => "false",
    }
}

pub fn treeshake_to_config_value(value: &TreeshakeOptions) -> (s: &'static str)
    ensures
        s@ == treeshake_config(*value),
        s@ == if *value == TreeshakeOptions::Boolean(false) {
            "false"@
        } else {
            "true"@
        },
{
    match value {
        TreeshakeOptions::Boolean(false) => "false",
        TreeshakeOptions::Boolean(true) => "true",
        TreeshakeOptions::Detailed => "true",
    }
}

fn render_item(item: &InputItem) -> (s: String)
    ensures
        s@ == item_config(item@),
{
    let mut s = "    \"".to_owned();
    match &item.name {
        Some(name) => s.append(name.as_str()),
        None => s.append("entry"),
    }
    s.append("\": \"");
    s.append(item.import.as_str());
    s.append("\"");
    s
}

fn render_items(case: &GraphCase) -> (s: String)
    ensures
        s@ == joined(items_of(case@).map_values(|item: ItemModel| item_config(item)), ",\n"@),
{
    let items = input_items_for_case(case);
    let ghost lines = items_of(case@).map_values(|item: ItemModel| item_config(item));
    let mut parts: Vec<String> = Vec::new();
    for i in 0..items.len()
        invariant
            item_views(items@) == items_of(case@),
            lines == items_of(case@).map_values(|item: ItemModel| item_config(item)),
            texts(parts@) == lines.take(i as int),
    {
        let part = render_item(&items[i]);
        proof {
            lemma_texts_push(parts@, part);
            assert(item_views(items@)[i as int] == items@[i as int]@);
            assert(lines.take(i + 1) =~= lines.take(i as int).push(lines[i as int]));
        }
        parts.push(part);
    }
    proof {
        assert(item_views(items@).len() == items@.len());
        assert(lines.take(items@.len() as int) =~= lines);
    }
    join_texts(&parts, ",\n")
}

fn render_externals(case: &GraphCase) -> (s: String)
    ensures
        s@ == externals_config(external_names(case@)),
{
    let names = external_names_for_case(case);
    assert(external_names(case@).len() == names@.len());
    if names.len() == 0 {
        return String::new();
    }
    let ghost quoted = external_names(case@).map_values(|name: Seq<char>| "\""@ + name + "\""@);
    let mut parts: Vec<String> = Vec::new();
    for i in 0..names.len()
        invariant
            texts(names@) == external_names(case@),
            quoted == external_names(case@).map_values(|name: Seq<char>| "\""@ + name + "\""@),
            texts(parts@) == quoted.take(i as int),
    {
        let mut part = "\"".to_owned();
        part.append(names[i].as_str());
        part.append("\"");
        proof {
            lemma_texts_push(parts@, part);
            assert(texts(names@)[i as int] == names@[i as int]@);
            assert(quoted.take(i + 1) =~= quoted.take(i as int).push(quoted[i as int]));
        }
        parts.push(part);
    }
    assert(quoted.take(names@.len() as int) =~= quoted);
    let mut s = "  external: [".to_owned();
    s.append(join_texts(&parts, ", ").as_str());
    s.append("],\n");
    s
}

/// Renders the config file of a case.
pub fn render_rolldown_config_js(case: &GraphCase, options: &BundlerOptions) -> (s: String)
    ensures
        s@ == config_text(case@, options@),
{
    let preserve_entry_signatures = match options.preserve_entry_signatures {
        Some(value) => value,
        None => PreserveEntrySignatures::ExportsOnly,
    };
    let strict_execution_order = match options.strict_execution_order {
        Some(value) => value,
        None => false,
    };
    let minify_internal_exports = match options.minify_internal_exports {
        Some(value) => value,
        None => true,
    };
    let mut s =
        "// Generated by `cargo run -p output_fuzz_common --bin generate_fixture -- --seed ".to_owned();
    s.append(decimal_text(case.seed as u128).as_str());
    s.append("`\nexport default {\n  input: {\n");
    s.append(render_items(case).as_str());
    s.append("\n  },\n");
    s.append(render_externals(case).as_str());
    s.append("  treeshake: ");
    s.append(treeshake_to_config_value(&options.treeshake));
    s.append(",\n  preserveEntrySignatures: ");
    s.append(preserve_entry_signatures_to_config_value(preserve_entry_signatures));
    s.append(",\n  output: {\n    strictExecutionOrder: ");
    s.append(bool_name(strict_execution_order).as_str());
    s.append(",\n    minifyInternalExports: ");
    s.append(bool_name(minify_internal_exports).as_str());
    s.append(",\n  },\n};\n");
    s
}

} // verus!
