//! The report of a failed case.
use crate::case::{
    external_default_local_name, external_default_name, external_module_name, external_name,
    CaseModel, GraphCase, PreserveEntrySignatures,
};
use crate::case_spec::{case_text, encode_case_spec};
use crate::options::{bool_text, BundlerOptions, OptionsModel};
use crate::repl::{build_repl_url, repl_url};
use crate::text::{
    bracket, bracketed, decimal, decimal_text, join_texts, joined, lemma_map_take,
    lemma_occurs, lemma_occurs_inside, lemma_texts_push, occurs, texts,
};
use vstd::prelude::*;

verus! {

// ---------------------------------------------------------------------------
// What a report says
// ---------------------------------------------------------------------------

/// An edge between two names as a line of a list.
pub open spec fn edge_line(from: Seq<char>, to: Seq<char>) -> Seq<char> {
    "- `"@ + from + "` -> `"@ + to + "`"@
}

/// How a report names a node.
pub open spec fn node_label(node: usize) -> Seq<char> {
    "node"@ + decimal(node as nat)
}

/// The line for an edge between two nodes.
pub open spec fn node_edge_line(edge: (usize, usize)) -> Seq<char> {
    edge_line(node_label(edge.0), node_label(edge.1))
}

/// The line for an edge to an external module.
pub open spec fn external_edge_line(edge: (usize, usize)) -> Seq<char> {
    edge_line(node_label(edge.0), external_name(edge.1))
}

/// The line for the default import of an external module.
pub open spec fn default_edge_line(triplet: (usize, usize, u8)) -> Seq<char> {
    edge_line(node_label(triplet.0), external_name(triplet.1)) + " as `"@ + external_default_name(
        triplet.1,
        triplet.2,
    ) + "`"@
}

/// The lines for edges between output files; edges that name no file are left
/// out.
pub open spec fn file_edge_lines(files: Seq<Seq<char>>, edges: Seq<(usize, usize)>) -> Seq<
    Seq<char>,
>
    decreases edges.len(),
{
    if edges.len() == 0 {
        Seq::empty()
    } else {
        let before = file_edge_lines(files, edges.drop_last());
        let edge = edges.last();
        if edge.0 < files.len() && edge.1 < files.len() {
            before.push(edge_line(files[edge.0 as int], files[edge.1 as int]))
        } else {
            before
        }
    }
}

/// The lines for output files.
pub open spec fn file_lines(files: Seq<Seq<char>>) -> Seq<Seq<char>> {
    files.map_values(|file: Seq<char>| "- `"@ + file + "`"@)
}

/// Lines one below the other, or a line that says that there are none.
pub open spec fn list_text(lines: Seq<Seq<char>>) -> Seq<char> {
    if lines.len() == 0 {
        "- (none)"@
    } else {
        joined(lines, "\n"@)
    }
}

/// The name with a given index, or the index behind a prefix where there is no
/// such name.
pub open spec fn name_or_index(names: Seq<Seq<char>>, prefix: Seq<char>, index: usize) -> Seq<
    char,
> {
    if index < names.len() {
        names[index as int]
    } else {
        prefix + decimal(index as nat)
    }
}

/// The names along a path, in backquotes.
pub open spec fn path_names(path: Seq<usize>, names: Seq<Seq<char>>, prefix: Seq<char>) -> Seq<
    Seq<char>,
> {
    path.map_values(|index: usize| "`"@ + name_or_index(names, prefix, index) + "`"@)
}

/// A cycle as a path between names.
pub open spec fn cycle_text(cycle: Seq<usize>, names: Seq<Seq<char>>, prefix: Seq<char>) -> Seq<
    char,
> {
    if cycle.len() < 2 {
        "- (none)"@
    } else {
        "- Path: "@ + joined(path_names(cycle, names, prefix), " -> "@)
    }
}

/// The cycle of an output, if it has one.
pub open spec fn output_cycle_text(cycle: Option<Seq<usize>>, files: Seq<Seq<char>>) -> Seq<char> {
    match cycle {
        Some(cycle) => cycle_text(cycle, files, "chunk"@),
        None => "- (none)"@,
    }
}

/// Nodes as a list in brackets.
pub open spec fn nodes_debug(nodes: Seq<usize>) -> Seq<char> {
    bracketed("["@, nodes.map_values(|node: usize| decimal(node as nat)), "]"@)
}

/// The name of a setting.
pub open spec fn signatures_debug(value: PreserveEntrySignatures) -> Seq<char> {
    match value {
        PreserveEntrySignatures::AllowExtension => "AllowExtension"@,
        PreserveEntrySignatures::Strict => "Strict"@,
        PreserveEntrySignatures::ExportsOnly => "ExportsOnly"@,
        PreserveEntrySignatures::False => "False"@,
    }
}

/// An option by what is in it.
pub open spec fn option_debug(value: Option<Seq<char>>) -> Seq<char> {
    match value {
        Some(value) => "Some("@ + value + ")"@,
        None => "None"@,
    }
}

/// An optional setting.
pub open spec fn optional_signatures_debug(value: Option<PreserveEntrySignatures>) -> Seq<char> {
    option_debug(
        match value {
            Some(value) => Some(signatures_debug(value)),
            None => None,
        },
    )
}

/// An optional flag.
pub open spec fn optional_bool_debug(value: Option<bool>) -> Seq<char> {
    option_debug(
        match value {
            Some(value) => Some(bool_text(value)),
            None => None,
        },
    )
}

/// The command that writes the fixture of a case.
pub open spec fn fixture_command(case: CaseModel) -> Seq<char> {
    "cargo run -p output_fuzz_common --bin generate_fixture -- --seed "@ + decimal(
        case.seed as nat,
    ) + " --case '"@ + case_text(case) + "' --out ./fixtures/seed-"@ + decimal(case.seed as nat)
}

/// What a report says of the case.
pub open spec fn structure_text(case: CaseModel, options: OptionsModel) -> Seq<char> {
    "## Failed Seed\n`"@ + decimal(case.seed as nat) + "`\n\n## Structure\n- Nodes: `"@ + decimal(
        case.node_count as nat,
    ) + "`\n- Entry nodes: `"@ + nodes_debug(case.entry_nodes) + "`\n- CJS nodes: `"@
        + nodes_debug(case.cjs_nodes) + "`\n- Preserve entry signatures: `"@
        + optional_signatures_debug(options.preserve_entry_signatures)
        + "`\n- Strict execution order: `"@ + optional_bool_debug(options.strict_execution_order)
        + "`\n- Minify internal exports: `"@ + optional_bool_debug(options.minify_internal_exports)
        + "`\n- External modules: `"@ + decimal(case.external_module_count as nat) + "`\n\n"@
}

/// What a report says of the edges of the case.
pub open spec fn input_text(case: CaseModel) -> Seq<char> {
    "### Input Static Edges\n"@ + list_text(
        case.static_edges.map_values(|e: (usize, usize)| node_edge_line(e)),
    ) + "\n\n### Input Static Reexport Edges\n"@ + list_text(
        case.reexport_static_edges.map_values(|e: (usize, usize)| node_edge_line(e)),
    ) + "\n\n### Input Dynamic Edges\n"@ + list_text(
        case.dynamic_edges.map_values(|e: (usize, usize)| node_edge_line(e)),
    ) + "\n\n### Input External Dynamic Edges\n"@ + list_text(
        case.external_dynamic_edges.map_values(|e: (usize, usize)| external_edge_line(e)),
    ) + "\n\n### Input External Static Default Imports\n"@ + list_text(
        case.external_static_default_edges.map_values(
            |t: (usize, usize, u8)| default_edge_line(t),
        ),
    ) + "\n\n"@
}

/// What a report says of the output.
pub open spec fn output_text(
    files: Seq<Seq<char>>,
    static_edges: Seq<(usize, usize)>,
    dynamic_edges: Seq<(usize, usize)>,
    cycle: Option<Seq<usize>>,
) -> Seq<char> {
    "### Output Files\n"@ + list_text(file_lines(files)) + "\n\n### Output Static Edges\n"@
        + list_text(file_edge_lines(files, static_edges)) + "\n\n### Output Static Cycle\n"@
        + output_cycle_text(cycle, files) + "\n\n### Output Dynamic Edges\n"@ + list_text(
        file_edge_lines(files, dynamic_edges),
    ) + "\n\n"@
}

/// What a report says of how to look at the case.
pub open spec fn reproduction_text(case: CaseModel, url: Seq<char>) -> Seq<char> {
    "### REPL URL\n"@ + url + "\n\n### Generate Fixture\n```bash\n"@ + fixture_command(case)
        + "\n```"@
}

/// The report of a failed case, with a link to it.
pub open spec fn failure_text(
    case: CaseModel,
    options: OptionsModel,
    files: Seq<Seq<char>>,
    static_edges: Seq<(usize, usize)>,
    dynamic_edges: Seq<(usize, usize)>,
    cycle: Option<Seq<usize>>,
    url: Seq<char>,
) -> Seq<char> {
    structure_text(case, options) + input_text(case) + output_text(
        files,
        static_edges,
        dynamic_edges,
        cycle,
    ) + reproduction_text(case, url)
}

/// A report shows the cycle of the output, the link to the case and the command
/// that writes its fixture.
pub proof fn reports_say_how_to_reproduce(
    case: CaseModel,
    options: OptionsModel,
    files: Seq<Seq<char>>,
    static_edges: Seq<(usize, usize)>,
    dynamic_edges: Seq<(usize, usize)>,
    cycle: Option<Seq<usize>>,
    url: Seq<char>,
)
    ensures
        ({
            let report = failure_text(
                case,
                options,
                files,
                static_edges,
                dynamic_edges,
                cycle,
                url,
            );
            &&& occurs(output_cycle_text(cycle, files), report)
            &&& occurs(url, report)
            &&& occurs(fixture_command(case), report)
        }),
{
    let nothing = Seq::<char>::empty();
    let report = failure_text(case, options, files, static_edges, dynamic_edges, cycle, url);
    let before = structure_text(case, options) + input_text(case);
    let output = output_text(files, static_edges, dynamic_edges, cycle);
    let reproduction = reproduction_text(case, url);
    let lead = "### Output Files\n"@ + list_text(file_lines(files))
        + "\n\n### Output Static Edges\n"@ + list_text(file_edge_lines(files, static_edges))
        + "\n\n### Output Static Cycle\n"@;
    let shown = output_cycle_text(cycle, files);
    let tail = output.skip((lead + shown).len() as int);
    assert(lead + shown + tail =~= output);
    lemma_occurs(lead, shown, tail);
    lemma_occurs_inside(shown, before, output, reproduction);
    let link_lead = "### REPL URL\n"@;
    let link_tail = reproduction.skip((link_lead + url).len() as int);
    assert(link_lead + url + link_tail =~= reproduction);
    lemma_occurs(link_lead, url, link_tail);
    lemma_occurs_inside(url, before + output, reproduction, nothing);
    let command = fixture_command(case);
    let command_lead = link_lead + url + "\n\n### Generate Fixture\n```bash\n"@;
    assert(command_lead + command + "\n```"@ =~= reproduction);
    lemma_occurs(command_lead, command, "\n```"@);
    lemma_occurs_inside(command, before + output, reproduction, nothing);
    assert(before + output + reproduction + nothing =~= report);
}

// ---------------------------------------------------------------------------
// Writing
// ---------------------------------------------------------------------------

fn write_edge(from: &str, to: &str) -> (s: String)
    ensures
        s@ == edge_line(from@, to@),
{
    let mut s = "- `".to_owned();
    s.append(from);
    s.append("` -> `");
    s.append(to);
    s.append("`");
    s
}

fn write_node(node: usize) -> (s: String)
    ensures
        s@ == node_label(node),
{
    let mut s = "node".to_owned();
    s.append(decimal_text(node as u128).as_str());
    s
}

fn write_list(lines: &Vec<String>) -> (s: String)
    ensures
        s@ == list_text(texts(lines@)),
{
    assert(texts(lines@).len() == lines@.len());
    if lines.len() == 0 {
        "- (none)".to_owned()
    } else {
        join_texts(lines, "\n")
    }
}

fn write_node_edges(edges: &Vec<(usize, usize)>) -> (s: String)
    ensures
        s@ == list_text(edges@.map_values(|e: (usize, usize)| node_edge_line(e))),
{
    let mut lines: Vec<String> = Vec::new();
    for i in 0..edges.len()
        invariant
            texts(lines@) == edges@.take(i as int).map_values(
                |e: (usize, usize)| node_edge_line(e),
            ),
    {
        let line = write_edge(write_node(edges[i].0).as_str(), write_node(edges[i].1).as_str());
        proof {
            lemma_texts_push(lines@, line);
            lemma_map_take(edges@, |e: (usize, usize)| node_edge_line(e), i as int);
        }
        lines.push(line);
    }
    assert(edges@.take(edges@.len() as int) =~= edges@);
    write_list(&lines)
}

fn write_external_edges(edges: &Vec<(usize, usize)>) -> (s: String)
    ensures
        s@ == list_text(edges@.map_values(|e: (usize, usize)| external_edge_line(e))),
{
    let mut lines: Vec<String> = Vec::new();
    for i in 0..edges.len()
        invariant
            texts(lines@) == edges@.take(i as int).map_values(
                |e: (usize, usize)| external_edge_line(e),
            ),
    {
        let line = write_edge(
            write_node(edges[i].0).as_str(),
            external_module_name(edges[i].1).as_str(),
        );
        proof {
            lemma_texts_push(lines@, line);
            lemma_map_take(edges@, |e: (usize, usize)| external_edge_line(e), i as int);
        }
        lines.push(line);
    }
    assert(edges@.take(edges@.len() as int) =~= edges@);
    write_list(&lines)
}

fn write_default_edges(triplets: &Vec<(usize, usize, u8)>) -> (s: String)
    ensures
        s@ == list_text(triplets@.map_values(|t: (usize, usize, u8)| default_edge_line(t))),
{
    let mut lines: Vec<String> = Vec::new();
    for i in 0..triplets.len()
        invariant
            texts(lines@) == triplets@.take(i as int).map_values(
                |t: (usize, usize, u8)| default_edge_line(t),
            ),
    {
        let (from, ext, variant) = triplets[i];
        let mut line = write_edge(
            write_node(from).as_str(),
            external_module_name(ext).as_str(),
        );
        line.append(" as `");
        line.append(external_default_local_name(ext, variant).as_str());
        line.append("`");
        proof {
            lemma_texts_push(lines@, line);
            lemma_map_take(triplets@, |t: (usize, usize, u8)| default_edge_line(t), i as int);
        }
        lines.push(line);
    }
    assert(triplets@.take(triplets@.len() as int) =~= triplets@);
    write_list(&lines)
}

fn write_file_edges(files: &[String], edges: &[(usize, usize)]) -> (s: String)
    ensures
        s@ == list_text(file_edge_lines(texts(files@), edges@)),
{
    let ghost names = texts(files@);
    let mut lines: Vec<String> = Vec::new();
    assert(texts(lines@) =~= Seq::<Seq<char>>::empty());
    for i in 0..edges.len()
        invariant
            names == texts(files@),
            texts(lines@) == file_edge_lines(names, edges@.take(i as int)),
    {
        assert(edges@.take(i + 1).drop_last() =~= edges@.take(i as int));
        let (from, to) = edges[i];
        if from < files.len() && to < files.len() {
            let line = write_edge(files[from].as_str(), files[to].as_str());
            proof {
                assert(names[from as int] == files@[from as int]@);
                assert(names[to as int] == files@[to as int]@);
                lemma_texts_push(lines@, line);
            }
            lines.push(line);
        }
    }
    assert(edges@.take(edges@.len() as int) =~= edges@);
    write_list(&lines)
}

fn write_files(files: &[String]) -> (s: String)
    ensures
        s@ == list_text(file_lines(texts(files@))),
{
    let ghost all = file_lines(texts(files@));
    let mut lines: Vec<String> = Vec::new();
    for i in 0..files.len()
        invariant
            all == file_lines(texts(files@)),
            texts(lines@) == all.take(i as int),
    {
        let mut line = "- `".to_owned();
        line.append(files[i].as_str());
        line.append("`");
        proof {
            assert(texts(files@)[i as int] == files@[i as int]@);
            lemma_texts_push(lines@, line);
            assert(all.take(i + 1) =~= all.take(i as int).push(all[i as int]));
        }
        lines.push(line);
    }
    assert(all.take(files@.len() as int) =~= all);
    write_list(&lines)
}

/// Writes a path as names in backquotes with arrows between them.
pub fn write_path(path: &[usize], names: &[String], fallback_prefix: &str) -> (s: String)
    ensures
        s@ == joined(path_names(path@, texts(names@), fallback_prefix@), " -> "@),
{
    let ghost all = path_names(path@, texts(names@), fallback_prefix@);
    let mut parts: Vec<String> = Vec::new();
    for i in 0..path.len()
        invariant
            all == path_names(path@, texts(names@), fallback_prefix@),
            texts(parts@) == all.take(i as int),
    {
        let index: usize = path[i];
        let mut part = "`".to_owned();
        if index < names.len() {
            assert(texts(names@)[index as int] == names@[index as int]@);
            part.append(names[index].as_str());
        } else {
            let mut name = fallback_prefix.to_owned();
            name.append(decimal_text(index as u128).as_str());
            part.append(name.as_str());
        }
        part.append("`");
        proof {
            lemma_texts_push(parts@, part);
            assert(all.take(i + 1) =~= all.take(i as int).push(all[i as int]));
        }
        parts.push(part);
    }
    assert(all.take(path@.len() as int) =~= all);
    join_texts(&parts, " -> ")
}

/// Writes a cycle as a path between names.
pub fn format_named_cycle(cycle: &[usize], names: &[String], fallback_prefix: &str) -> (s: String)
    ensures
        s@ == cycle_text(cycle@, texts(names@), fallback_prefix@),
{
    if cycle.len() < 2 {
        return "- (none)".to_owned();
    }
    let mut s = "- Path: ".to_owned();
    s.append(write_path(cycle, names, fallback_prefix).as_str());
    s
}

fn write_nodes(nodes: &Vec<usize>) -> (s: String)
    ensures
        s@ == nodes_debug(nodes@),
{
    let mut parts: Vec<String> = Vec::new();
    for i in 0..nodes.len()
        invariant
            texts(parts@) == nodes@.take(i as int).map_values(|node: usize| decimal(node as nat)),
    {
        let part = decimal_text(nodes[i] as u128);
        proof {
            lemma_texts_push(parts@, part);
            lemma_map_take(nodes@, |node: usize| decimal(node as nat), i as int);
        }
        parts.push(part);
    }
    assert(nodes@.take(nodes@.len() as int) =~= nodes@);
    bracket("[", &parts, "]")
}

fn write_signatures(value: Option<PreserveEntrySignatures>) -> (s: String)
    ensures
        s@ == optional_signatures_debug(value),
{
    match value {
        Some(value) => {
            let name = match value {
                PreserveEntrySignatures::AllowExtension => "AllowExtension",
                PreserveEntrySignatures::Strict => "Strict",
                PreserveEntrySignatures::ExportsOnly => "ExportsOnly",
                PreserveEntrySignatures::False => "False",
            };
            let mut s = "Some(".to_owned();
            s.append(name);
            s.append(")");
            s
        },
        None => "None".to_owned(),
    }
}

fn write_flag(value: Option<bool>) -> (s: String)
    ensures
        s@ == optional_bool_debug(value),
{
    match value {
        Some(value) => {
            let mut s = "Some(".to_owned();
            if value {
                s.append("true");
            } else {
                s.append("false");
            }
            s.append(")");
            s
        },
        None => "None".to_owned(),
    }
}

/// The command that writes the fixture of a case.
pub fn fixture_command_for_case(case: &GraphCase) -> (s: String)
    ensures
        s@ == fixture_command(case@),
        s@ == "cargo run -p output_fuzz_common --bin generate_fixture -- --seed "@ + decimal(
            case.seed as nat,
        ) + " --case '"@ + case_text(case@) + "' --out ./fixtures/seed-"@ + decimal(
            case.seed as nat,
        ),
{
    let seed = decimal_text(case.seed as u128);
    let mut s = "cargo run -p output_fuzz_common --bin generate_fixture -- --seed ".to_owned();
    s.append(seed.as_str());
    s.append(" --case '");
    s.append(encode_case_spec(case).as_str());
    s.append("' --out ./fixtures/seed-");
    s.append(seed.as_str());
    s
}

fn write_structure(case: &GraphCase, options: &BundlerOptions) -> (s: String)
    ensures
        s@ == structure_text(case@, options@),
{
    let mut s = "## Failed Seed\n`".to_owned();
    s.append(decimal_text(case.seed as u128).as_str());
    s.append("`\n\n## Structure\n- Nodes: `");
    s.append(decimal_text(case.node_count as u128).as_str());
    s.append("`\n- Entry nodes: `");
    s.append(write_nodes(&case.entry_nodes).as_str());
    s.append("`\n- CJS nodes: `");
    s.append(write_nodes(&case.cjs_nodes).as_str());
    s.append("`\n- Preserve entry signatures: `");
    s.append(write_signatures(options.preserve_entry_signatures).as_str());
    s.append("`\n- Strict execution order: `");
    s.append(write_flag(options.strict_execution_order).as_str());
    s.append("`\n- Minify internal exports: `");
    s.append(write_flag(options.minify_internal_exports).as_str());
    s.append("`\n- External modules: `");
    s.append(decimal_text(case.external_module_count as u128).as_str());
    s.append("`\n\n");
    s
}

fn write_input(case: &GraphCase) -> (s: String)
    ensures
        s@ == input_text(case@),
{
    let mut s = "### Input Static Edges\n".to_owned();
    s.append(write_node_edges(&case.static_edges).as_str());
    s.append("\n\n### Input Static Reexport Edges\n");
    s.append(write_node_edges(&case.reexport_static_edges).as_str());
    s.append("\n\n### Input Dynamic Edges\n");
    s.append(write_node_edges(&case.dynamic_edges).as_str());
    s.append("\n\n### Input External Dynamic Edges\n");
    s.append(write_external_edges(&case.external_dynamic_edges).as_str());
    s.append("\n\n### Input External Static Default Imports\n");
    s.append(write_default_edges(&case.external_static_default_edges).as_str());
    s.append("\n\n");
    s
}

/// The cycle in an option.
pub open spec fn optional_path(cycle: Option<&[usize]>) -> Option<Seq<usize>> {
    match cycle {
        Some(cycle) => Some(cycle@),
        None => None,
    }
}

fn write_output(
    output_files: &[String],
    output_static_edges: &[(usize, usize)],
    output_dynamic_edges: &[(usize, usize)],
    output_static_cycle: Option<&[usize]>,
) -> (s: String)
    ensures
        s@ == output_text(
            texts(output_files@),
            output_static_edges@,
            output_dynamic_edges@,
            optional_path(output_static_cycle),
        ),
{
    let mut s = "### Output Files\n".to_owned();
    s.append(write_files(output_files).as_str());
    s.append("\n\n### Output Static Edges\n");
    s.append(write_file_edges(output_files, output_static_edges).as_str());
    s.append("\n\n### Output Static Cycle\n");
    match output_static_cycle {
        Some(cycle) => s.append(format_named_cycle(cycle, output_files, "chunk").as_str()),
        None => s.append("- (none)"),
    }
    s.append("\n\n### Output Dynamic Edges\n");
    s.append(write_file_edges(output_files, output_dynamic_edges).as_str());
    s.append("\n\n");
    s
}

/// Writes the report of a failed case, with a link to it.
pub fn failure_message_with_link(
    case: &GraphCase,
    options: &BundlerOptions,
    output_files: &[String],
    output_static_edges: &[(usize, usize)],
    output_dynamic_edges: &[(usize, usize)],
    output_static_cycle: Option<&[usize]>,
    url: &str,
) -> (message: String)
    ensures
        message@ == failure_text(
            case@,
            options@,
            texts(output_files@),
            output_static_edges@,
            output_dynamic_edges@,
            optional_path(output_static_cycle),
            url@,
        ),
{
    let mut reproduction = "### REPL URL\n".to_owned();
    reproduction.append(url);
    reproduction.append("\n\n### Generate Fixture\n```bash\n");
    reproduction.append(fixture_command_for_case(case).as_str());
    reproduction.append("\n```");
    let mut message = write_structure(case, options);
    message.append(write_input(case).as_str());
    message.append(
        write_output(
            output_files,
            output_static_edges,
            output_dynamic_edges,
            output_static_cycle,
        ).as_str(),
    );
    message.append(reproduction.as_str());
    message
}

/// Writes the report of a failed case: what the case is, what came out, and
/// how to look at it.
pub fn format_failure_message(
    case: &GraphCase,
    options: &BundlerOptions,
    output_files: &[String],
    output_static_edges: &[(usize, usize)],
    output_dynamic_edges: &[(usize, usize)],
    output_static_cycle: Option<&[usize]>,
) -> (message: String)
    requires
        case@.edges_start_at_nodes(),
    ensures
        message@ == failure_text(
            case@,
            options@,
            texts(output_files@),
            output_static_edges@,
            output_dynamic_edges@,
            optional_path(output_static_cycle),
            repl_url(case@, options@),
        ),
{
    let url = build_repl_url(case, options);
    failure_message_with_link(
        case,
        options,
        output_files,
        output_static_edges,
        output_dynamic_edges,
        output_static_cycle,
        url.as_str(),
    )
}

} // verus!
