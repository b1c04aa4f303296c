//! Fixtures: the files that reproduce a case outside the harness.
use crate::case::{filename, CaseModel, GraphCase};
use crate::case_parse::case_read;
use crate::case_spec::case_text;
use crate::options::{
    bundler_options_for_case, config_text, items_of, options_of, render_rolldown_config_js,
    BundlerOptions, OptionsModel,
};
use crate::render::{file_view, file_views, modules_of, render_graph_modules};
use crate::round_trip::cases_read_back;
use crate::text::{
    decimal, decimal_is_injective, decimal_reads_back, decimal_text, is_digit,
    lemma_split_at_first,
};
use vstd::prelude::*;

verus! {

/// The name of the config file.
pub open spec fn config_name() -> Seq<char> {
    "rolldown.config.js"@
}

/// The files of a fixture: the modules of the case, then the config file.
pub open spec fn fixture_of(case: CaseModel, options: OptionsModel) -> Seq<(Seq<char>, Seq<char>)> {
    modules_of(case).push((config_name(), config_text(case, options)))
}

// ---------------------------------------------------------------------------
// Laws
// ---------------------------------------------------------------------------

proof fn lemma_stem(case: CaseModel, index: usize) -> (rest: Seq<char>)
    ensures
        filename(case, index) == ("node"@ + decimal(index as nat)).push('.') + rest,
        !("node"@ + decimal(index as nat)).contains('.'),
        "node"@.len() == 4,
        "node"@[0] == 'n',
{
    reveal_strlit("node");
    reveal_strlit(".cjs");
    reveal_strlit(".js");
    decimal_reads_back(index as nat, usize::MAX as nat);
    let stem = "node"@ + decimal(index as nat);
    let ending = if case.is_cjs(index) {
        ".cjs"@
    } else {
        ".js"@
    };
    let rest = ending.skip(1);
    assert(ending =~= seq!['.'] + rest);
    assert(filename(case, index) =~= stem.push('.') + rest);
    assert forall|i: int| 0 <= i < stem.len() implies stem[i] != '.' by {
        if i >= 4 {
            assert(is_digit(decimal(index as nat)[i - 4]));
        }
    }
    rest
}

/// Different nodes are held by different files.
pub proof fn files_tell_nodes_apart(case: CaseModel, a: usize, b: usize)
    requires
        filename(case, a) == filename(case, b),
    ensures
        a == b,
{
    let rest_a = lemma_stem(case, a);
    let rest_b = lemma_stem(case, b);
    let stem_a = "node"@ + decimal(a as nat);
    let stem_b = "node"@ + decimal(b as nat);
    lemma_split_at_first(stem_a, '.', rest_a);
    lemma_split_at_first(stem_b, '.', rest_b);
    assert(stem_a == stem_b);
    assert(stem_a.skip(4) =~= decimal(a as nat));
    assert(stem_b.skip(4) =~= decimal(b as nat));
    decimal_is_injective(a as nat, b as nat);
}

/// A fixture holds the rendered files of the case, in their order, and behind
/// them the config file.
pub proof fn fixtures_hold_modules_and_config(case: CaseModel, options: OptionsModel, i: int)
    requires
        0 <= i < case.node_count,
    ensures
        fixture_of(case, options).len() == case.node_count + 1,
        fixture_of(case, options)[i] == modules_of(case)[i],
        fixture_of(case, options)[case.node_count as int] == (
            "rolldown.config.js"@,
            config_text(case, options),
        ),
{
}

/// No two files of a fixture have the same name.
pub proof fn fixture_names_are_distinct(case: CaseModel, options: OptionsModel)
    ensures
        forall|i: int, j: int|
            0 <= i < j < fixture_of(case, options).len() ==> (#[trigger] fixture_of(
                case,
                options,
            )[i]).0 != (#[trigger] fixture_of(case, options)[j]).0,
{
    let files = fixture_of(case, options);
    assert forall|i: int, j: int| 0 <= i < j < files.len() implies (#[trigger] files[i]).0 != (
    #[trigger] files[j]).0 by {
        let rest = lemma_stem(case, i as usize);
        if j < modules_of(case).len() {
            if files[i].0 == files[j].0 {
                files_tell_nodes_apart(case, i as usize, j as usize);
            }
        } else {
            reveal_strlit("rolldown.config.js");
            assert(files[i].0[0] == 'n');
            assert(files[j].0[0] == 'r');
        }
    }
}

/// What an entry point of a case imports is a file of its fixture.
pub proof fn entries_import_fixture_files(case: CaseModel, options: OptionsModel, k: int)
    requires
        case.entries_well_formed(),
        0 <= k < items_of(case).len(),
    ensures
        exists|i: int|
            0 <= i < modules_of(case).len() && items_of(case)[k].import == "./"@ + (
            #[trigger] fixture_of(case, options)[i]).0,
{
    let i = case.entry_nodes[k] as int;
    assert(fixture_of(case, options)[i].0 == filename(case, i as usize));
}

/// What is read from the text of a case gives the fixture of the case: the
/// command that a failure prints writes the files of the case that failed.
pub proof fn printed_cases_give_their_fixture(case: CaseModel, dir: std::path::PathBuf)
    requires
        case.well_formed(),
    ensures
        case_read(case.seed, case_text(case)) matches Ok(read) && fixture_of(
            read,
            options_of(read, dir),
        ) == fixture_of(case, options_of(case, dir)),
{
    cases_read_back(case);
}

// ---------------------------------------------------------------------------
// Rendering
// ---------------------------------------------------------------------------

/// Renders the files of a fixture.
pub fn fixture_files(case: &GraphCase, options: &BundlerOptions) -> (files: Vec<(String, String)>)
    requires
        case@.edges_start_at_nodes(),
    ensures
        file_views(files@) == fixture_of(case@, options@),
{
    let mut files = render_graph_modules(case);
    let config = ("rolldown.config.js".to_owned(), render_rolldown_config_js(case, options));
    assert(file_views(files@.push(config)) =~= file_views(files@).push(file_view(config)));
    files.push(config);
    files
}

/// Renders the files of the fixture of a case in the directory `dir`.
pub fn fixture_for_case(case: &GraphCase, dir: std::path::PathBuf) -> (files: Vec<
    (String, String),
>)
    requires
        case@.edges_start_at_nodes(),
    ensures
        file_views(files@) == fixture_of(case@, options_of(case@, dir)),
{
    let options = bundler_options_for_case(case, dir);
    fixture_files(case, &options)
}

/// The directory of a fixture by the seed of its case and the time in
/// nanoseconds.
pub fn fixture_dir_name(seed: u64, timestamp: u128) -> (name: String)
    ensures
        name@ == "seed-"@ + decimal(seed as nat) + "-ts-"@ + decimal(timestamp as nat),
{
    let mut name = "seed-".to_owned();
    name.append(decimal_text(seed as u128).as_str());
    name.append("-ts-");
    name.append(decimal_text(timestamp).as_str());
    name
}

} // verus!
