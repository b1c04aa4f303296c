//! Laws of what a report shows.
use crate::case::{CaseModel, PreserveEntrySignatures};
use crate::case_spec::case_text;
use crate::options::OptionsModel;
use crate::report::{
    cycle_text, default_edge_line, edge_line, external_edge_line, failure_text, file_edge_lines,
    file_lines, fixture_command, input_text, list_text, name_or_index, node_edge_line,
    nodes_debug, optional_bool_debug, optional_signatures_debug, output_cycle_text, output_text,
    path_names, reproduction_text, structure_text,
};
use crate::text::{decimal, joined, lemma_occurs, lemma_together_push, occurs, together};
use crate::text_laws::{
    joined_parts_occur, joining_is_concatenation, lemma_five_parts, lemma_in_a_row,
    lemma_longer_chain, lemma_parts_chain,
};
use vstd::prelude::*;

verus! {

/// An edge is shown by the names of its two ends, and the default import of an
/// external module also by the name that it binds.
pub proof fn edges_are_shown_by_their_ends(
    from: Seq<char>,
    to: Seq<char>,
    e: (usize, usize),
    t: (usize, usize, u8),
)
    ensures
        edge_line(from, to) == "- `"@ + from + "` -> `"@ + to + "`"@,
        node_edge_line(e) == "- `"@ + ("node"@ + decimal(e.0 as nat)) + "` -> `"@ + ("node"@
            + decimal(e.1 as nat)) + "`"@,
        external_edge_line(e) == "- `"@ + ("node"@ + decimal(e.0 as nat)) + "` -> `"@ + (
        "external-"@ + decimal(e.1 as nat)) + "`"@,
        default_edge_line(t) == "- `"@ + ("node"@ + decimal(t.0 as nat)) + "` -> `"@ + (
        "external-"@ + decimal(t.1 as nat)) + "`"@ + " as `"@ + ("dn_"@ + decimal(t.1 as nat)
            + "_"@ + decimal(t.2 as nat)) + "`"@,
{
}

/// A list shows every one of its lines, in order and one below the other, and
/// says so where there is none.
pub proof fn lists_show_every_line(a: Seq<Seq<char>>, b: Seq<Seq<char>>, k: int)
    ensures
        0 <= k < a.len() ==> occurs(a[k], list_text(a)),
        a.len() > 0 && b.len() > 0 ==> list_text(a + b) == list_text(a) + "\n"@ + list_text(b),
        a.len() == 1 ==> list_text(a) == a[0],
        a.len() == 0 ==> list_text(a) == "- (none)"@,
{
    if 0 <= k < a.len() {
        joined_parts_occur(a, "\n"@, k);
    }
    if a.len() > 0 && b.len() > 0 {
        joining_is_concatenation(a, b, "\n"@);
    }
}

/// The edges between output files are shown one after another, by the names of
/// the files; an edge that names no file is passed over.
pub proof fn file_edges_are_shown_in_order(
    files: Seq<Seq<char>>,
    a: Seq<(usize, usize)>,
    b: Seq<(usize, usize)>,
    e: (usize, usize),
)
    ensures
        file_edge_lines(files, a + b) == file_edge_lines(files, a) + file_edge_lines(files, b),
        file_edge_lines(files, seq![e]) == (if e.0 < files.len() && e.1 < files.len() {
            seq!["- `"@ + files[e.0 as int] + "` -> `"@ + files[e.1 as int] + "`"@]
        } else {
            Seq::<Seq<char>>::empty()
        }),
    decreases b.len(),
{
    let one = seq![e];
    let none = one.drop_last();
    assert(none.len() == 0);
    assert(file_edge_lines(files, none) =~= Seq::<Seq<char>>::empty());
    assert(file_edge_lines(files, one) =~= (if e.0 < files.len() && e.1 < files.len() {
        seq!["- `"@ + files[e.0 as int] + "` -> `"@ + files[e.1 as int] + "`"@]
    } else {
        Seq::<Seq<char>>::empty()
    }));
    if b.len() == 0 {
        assert(a + b =~= a);
        assert(file_edge_lines(files, a + b) =~= file_edge_lines(files, a) + file_edge_lines(
            files,
            b,
        ));
    } else {
        file_edges_are_shown_in_order(files, a, b.drop_last(), e);
        assert((a + b).drop_last() =~= a + b.drop_last());
        assert(file_edge_lines(files, a + b) =~= file_edge_lines(files, a) + file_edge_lines(
            files,
            b,
        ));
    }
}

/// Every output file has its line.
pub proof fn files_are_shown_by_their_names(files: Seq<Seq<char>>, k: int)
    requires
        0 <= k < files.len(),
    ensures
        file_lines(files).len() == files.len(),
        file_lines(files)[k] == "- `"@ + files[k] + "`"@,
{
}

/// A cycle is shown as the names along it, from the first to the last; where
/// there is no name, by a prefix and the index.
pub proof fn cycles_are_shown_step_by_step(
    cycle: Seq<usize>,
    names: Seq<Seq<char>>,
    prefix: Seq<char>,
    next: usize,
)
    requires
        cycle.len() >= 1,
    ensures
        ({
            let shown = "`"@ + (if next < names.len() {
                names[next as int]
            } else {
                prefix + decimal(next as nat)
            }) + "`"@;
            &&& cycle.len() >= 2 ==> cycle_text(cycle.push(next), names, prefix) == cycle_text(
                cycle,
                names,
                prefix,
            ) + " -> "@ + shown
            &&& cycle.len() == 1 ==> cycle_text(cycle, names, prefix) == "- (none)"@
            &&& cycle.len() == 1 ==> cycle_text(cycle.push(next), names, prefix) == "- Path: "@ + (
            "`"@ + name_or_index(names, prefix, cycle[0]) + "`"@) + " -> "@ + shown
            &&& name_or_index(names, prefix, next) == if next < names.len() {
                names[next as int]
            } else {
                prefix + decimal(next as nat)
            }
        }),
{
    let longer = cycle.push(next);
    let parts = path_names(longer, names, prefix);
    assert(parts.drop_last() =~= path_names(cycle, names, prefix));
    let last = "`"@ + name_or_index(names, prefix, next) + "`"@;
    assert(parts.last() == last);
    assert(joined(parts, " -> "@) == joined(path_names(cycle, names, prefix), " -> "@) + " -> "@
        + last);
    if cycle.len() == 1 {
        assert(joined(path_names(cycle, names, prefix), " -> "@) == path_names(
            cycle,
            names,
            prefix,
        )[0]);
    }
    assert(cycle_text(longer, names, prefix) =~= "- Path: "@ + joined(
        path_names(cycle, names, prefix),
        " -> "@,
    ) + " -> "@ + last);
}

/// Settings are shown as options with their names in them.
pub proof fn settings_are_shown_by_name(value: PreserveEntrySignatures, on: bool)
    ensures
        optional_signatures_debug(Some(value)) == "Some("@ + (match value {
            PreserveEntrySignatures::AllowExtension => "AllowExtension"@,
            PreserveEntrySignatures::Strict => "Strict"@,
            PreserveEntrySignatures::ExportsOnly => "ExportsOnly"@,
            PreserveEntrySignatures::False => "False"@,
        }) + ")"@,
        optional_signatures_debug(None) == "None"@,
        optional_bool_debug(Some(on)) == "Some("@ + (if on {
            "true"@
        } else {
            "false"@
        }) + ")"@,
        optional_bool_debug(None) == "None"@,
{
}

/// The parts of what a report says of a case.
spec fn structure_parts(case: CaseModel, options: OptionsModel) -> Seq<Seq<char>> {
    Seq::empty().push("## Failed Seed\n`"@).push(decimal(case.seed as nat)).push(
        "`\n\n## Structure\n- Nodes: `"@,
    ).push(decimal(case.node_count as nat)).push("`\n- Entry nodes: `"@).push(
        nodes_debug(case.entry_nodes),
    ).push("`\n- CJS nodes: `"@).push(nodes_debug(case.cjs_nodes)).push(
        "`\n- Preserve entry signatures: `"@,
    ).push(optional_signatures_debug(options.preserve_entry_signatures)).push(
        "`\n- Strict execution order: `"@,
    ).push(optional_bool_debug(options.strict_execution_order)).push(
        "`\n- Minify internal exports: `"@,
    ).push(optional_bool_debug(options.minify_internal_exports)).push("`\n- External modules: `"@).push(
        decimal(case.external_module_count as nat),
    ).push("`\n\n"@)
}

proof fn lemma_structure(case: CaseModel, options: OptionsModel)
    ensures
        structure_text(case, options) == together(structure_parts(case, options)),
{
    let p0 = "## Failed Seed\n`"@;
    let p1 = decimal(case.seed as nat);
    let p2 = "`\n\n## Structure\n- Nodes: `"@;
    let p3 = decimal(case.node_count as nat);
    let p4 = "`\n- Entry nodes: `"@;
    let p5 = nodes_debug(case.entry_nodes);
    let p6 = "`\n- CJS nodes: `"@;
    let p7 = nodes_debug(case.cjs_nodes);
    let p8 = "`\n- Preserve entry signatures: `"@;
    lemma_parts_chain(p0, p1, p2, p3, p4, p5, p6, p7, p8);
    let first = Seq::empty().push(p0).push(p1).push(p2).push(p3).push(p4).push(p5).push(p6).push(
        p7,
    ).push(p8);
    lemma_longer_chain(
        first,
        optional_signatures_debug(options.preserve_entry_signatures),
        "`\n- Strict execution order: `"@,
        optional_bool_debug(options.strict_execution_order),
        "`\n- Minify internal exports: `"@,
        optional_bool_debug(options.minify_internal_exports),
        "`\n- External modules: `"@,
        decimal(case.external_module_count as nat),
        "`\n\n"@,
    );
}

/// A report shows the structure of the case: its seed, how many nodes and
/// external modules it has, its entries and CommonJS modules, and the settings
/// of the options, each behind what it is.
pub proof fn reports_show_the_structure(case: CaseModel, options: OptionsModel)
    ensures
        ({
            let shown = structure_text(case, options);
            &&& occurs(
                "## Failed Seed\n`"@ + decimal(case.seed as nat)
                    + "`\n\n## Structure\n- Nodes: `"@,
                shown,
            )
            &&& occurs(
                "`\n\n## Structure\n- Nodes: `"@ + decimal(case.node_count as nat)
                    + "`\n- Entry nodes: `"@,
                shown,
            )
            &&& occurs(
                "`\n- Entry nodes: `"@ + nodes_debug(case.entry_nodes) + "`\n- CJS nodes: `"@,
                shown,
            )
            &&& occurs(
                "`\n- CJS nodes: `"@ + nodes_debug(case.cjs_nodes)
                    + "`\n- Preserve entry signatures: `"@,
                shown,
            )
            &&& occurs(
                "`\n- Preserve entry signatures: `"@ + optional_signatures_debug(
                    options.preserve_entry_signatures,
                ) + "`\n- Strict execution order: `"@,
                shown,
            )
            &&& occurs(
                "`\n- Strict execution order: `"@ + optional_bool_debug(
                    options.strict_execution_order,
                ) + "`\n- Minify internal exports: `"@,
                shown,
            )
            &&& occurs(
                "`\n- Minify internal exports: `"@ + optional_bool_debug(
                    options.minify_internal_exports,
                ) + "`\n- External modules: `"@,
                shown,
            )
            &&& occurs(
                "`\n- External modules: `"@ + decimal(case.external_module_count as nat)
                    + "`\n\n"@,
                shown,
            )
        }),
{
    lemma_structure(case, options);
    let parts = structure_parts(case, options);
    lemma_in_a_row(parts, 0);
    lemma_in_a_row(parts, 2);
    lemma_in_a_row(parts, 4);
    lemma_in_a_row(parts, 6);
    lemma_in_a_row(parts, 8);
    lemma_in_a_row(parts, 10);
    lemma_in_a_row(parts, 12);
    lemma_in_a_row(parts, 14);
}

/// Nodes are shown as a list in brackets.
pub proof fn nodes_are_shown_in_brackets(nodes: Seq<usize>, node: usize)
    ensures
        nodes_debug(Seq::empty()) == "["@ + Seq::<char>::empty() + "]"@,
        nodes_debug(seq![node]) == "["@ + decimal(node as nat) + "]"@,
        nodes.len() > 0 ==> nodes_debug(nodes.push(node)) == "["@ + (joined(
            nodes.map_values(|n: usize| decimal(n as nat)),
            ", "@,
        ) + ", "@ + decimal(node as nat)) + "]"@,
{
    let write = |n: usize| decimal(n as nat);
    let none = Seq::<usize>::empty().map_values(write);
    assert(none.len() == 0);
    assert(joined(none, ", "@) =~= Seq::<char>::empty());
    let one = seq![node].map_values(write);
    assert(one.len() == 1 && one[0] == decimal(node as nat));
    let all = nodes.push(node).map_values(write);
    assert(all.drop_last() =~= nodes.map_values(write));
    assert(all.last() == decimal(node as nat));
}

/// A report lists all edges of the case, each kind under its heading: the
/// static, the reexporting and the dynamic ones, those to external modules and
/// the default imports.
pub proof fn reports_list_every_input_edge(case: CaseModel)
    ensures
        ({
            let shown = input_text(case);
            &&& occurs(
                "### Input Static Edges\n"@ + list_text(
                    case.static_edges.map_values(|e: (usize, usize)| node_edge_line(e)),
                ) + "\n\n### Input Static Reexport Edges\n"@,
                shown,
            )
            &&& occurs(
                "\n\n### Input Static Reexport Edges\n"@ + list_text(
                    case.reexport_static_edges.map_values(|e: (usize, usize)| node_edge_line(e)),
                ) + "\n\n### Input Dynamic Edges\n"@,
                shown,
            )
            &&& occurs(
                "\n\n### Input Dynamic Edges\n"@ + list_text(
                    case.dynamic_edges.map_values(|e: (usize, usize)| node_edge_line(e)),
                ) + "\n\n### Input External Dynamic Edges\n"@,
                shown,
            )
            &&& occurs(
                "\n\n### Input External Dynamic Edges\n"@ + list_text(
                    case.external_dynamic_edges.map_values(
                        |e: (usize, usize)| external_edge_line(e),
                    ),
                ) + "\n\n### Input External Static Default Imports\n"@,
                shown,
            )
            &&& occurs(
                "\n\n### Input External Static Default Imports\n"@ + list_text(
                    case.external_static_default_edges.map_values(
                        |t: (usize, usize, u8)| default_edge_line(t),
                    ),
                ) + "\n\n"@,
                shown,
            )
        }),
{
    let p0 = "### Input Static Edges\n"@;
    let p1 = list_text(case.static_edges.map_values(|e: (usize, usize)| node_edge_line(e)));
    let p2 = "\n\n### Input Static Reexport Edges\n"@;
    let p3 = list_text(
        case.reexport_static_edges.map_values(|e: (usize, usize)| node_edge_line(e)),
    );
    let p4 = "\n\n### Input Dynamic Edges\n"@;
    let p5 = list_text(case.dynamic_edges.map_values(|e: (usize, usize)| node_edge_line(e)));
    let p6 = "\n\n### Input External Dynamic Edges\n"@;
    let p7 = list_text(
        case.external_dynamic_edges.map_values(|e: (usize, usize)| external_edge_line(e)),
    );
    let p8 = "\n\n### Input External Static Default Imports\n"@;
    let p9 = list_text(
        case.external_static_default_edges.map_values(
            |t: (usize, usize, u8)| default_edge_line(t),
        ),
    );
    let p10 = "\n\n"@;
    lemma_parts_chain(p0, p1, p2, p3, p4, p5, p6, p7, p8);
    let first = Seq::empty().push(p0).push(p1).push(p2).push(p3).push(p4).push(p5).push(p6).push(
        p7,
    ).push(p8);
    lemma_together_push(first, p9);
    lemma_together_push(first.push(p9), p10);
    let parts = first.push(p9).push(p10);
    assert(input_text(case) == together(parts));
    lemma_in_a_row(parts, 0);
    lemma_in_a_row(parts, 2);
    lemma_in_a_row(parts, 4);
    lemma_in_a_row(parts, 6);
    lemma_in_a_row(parts, 8);
}

/// A report lists the output files, the static and the dynamic edges between
/// them, and the cycle, each under its heading.
pub proof fn reports_list_the_output(
    files: Seq<Seq<char>>,
    static_edges: Seq<(usize, usize)>,
    dynamic_edges: Seq<(usize, usize)>,
    cycle: Option<Seq<usize>>,
)
    ensures
        ({
            let shown = output_text(files, static_edges, dynamic_edges, cycle);
            &&& occurs(
                "### Output Files\n"@ + list_text(file_lines(files))
                    + "\n\n### Output Static Edges\n"@,
                shown,
            )
            &&& occurs(
                "\n\n### Output Static Edges\n"@ + list_text(file_edge_lines(files, static_edges))
                    + "\n\n### Output Static Cycle\n"@,
                shown,
            )
            &&& occurs(
                "\n\n### Output Static Cycle\n"@ + (match cycle {
                    Some(path) => cycle_text(path, files, "chunk"@),
                    None => "- (none)"@,
                }) + "\n\n### Output Dynamic Edges\n"@,
                shown,
            )
            &&& occurs(
                "\n\n### Output Dynamic Edges\n"@ + list_text(
                    file_edge_lines(files, dynamic_edges),
                ) + "\n\n"@,
                shown,
            )
        }),
{
    let p0 = "### Output Files\n"@;
    let p1 = list_text(file_lines(files));
    let p2 = "\n\n### Output Static Edges\n"@;
    let p3 = list_text(file_edge_lines(files, static_edges));
    let p4 = "\n\n### Output Static Cycle\n"@;
    let p5 = output_cycle_text(cycle, files);
    let p6 = "\n\n### Output Dynamic Edges\n"@;
    let p7 = list_text(file_edge_lines(files, dynamic_edges));
    let p8 = "\n\n"@;
    lemma_parts_chain(p0, p1, p2, p3, p4, p5, p6, p7, p8);
    let parts = Seq::empty().push(p0).push(p1).push(p2).push(p3).push(p4).push(p5).push(p6).push(
        p7,
    ).push(p8);
    assert(output_text(files, static_edges, dynamic_edges, cycle) == together(parts));
    lemma_in_a_row(parts, 0);
    lemma_in_a_row(parts, 2);
    lemma_in_a_row(parts, 4);
    lemma_in_a_row(parts, 6);
}

proof fn lemma_four_parts(a: Seq<char>, b: Seq<char>, c: Seq<char>, d: Seq<char>)
    ensures
        occurs(a, a + b + c + d),
        occurs(b, a + b + c + d),
        occurs(c, a + b + c + d),
        occurs(d, a + b + c + d),
{
    let whole = a + b + c + d;
    let nothing = Seq::<char>::empty();
    assert(whole =~= nothing + a + (b + c + d));
    lemma_occurs(nothing, a, b + c + d);
    assert(whole =~= a + b + (c + d));
    lemma_occurs(a, b, c + d);
    assert(whole =~= (a + b) + c + d);
    lemma_occurs(a + b, c, d);
    assert(whole =~= (a + b + c) + d + nothing);
    lemma_occurs(a + b + c, d, nothing);
}

/// A report is made of its four sections: the structure of the case, its
/// edges, the output, and how to look at the case again.
pub proof fn reports_have_four_sections(
    case: CaseModel,
    options: OptionsModel,
    files: Seq<Seq<char>>,
    static_edges: Seq<(usize, usize)>,
    dynamic_edges: Seq<(usize, usize)>,
    cycle: Option<Seq<usize>>,
    url: Seq<char>,
)
    ensures
        ({
            let report = failure_text(
                case,
                options,
                files,
                static_edges,
                dynamic_edges,
                cycle,
                url,
            );
            &&& occurs(structure_text(case, options), report)
            &&& occurs(input_text(case), report)
            &&& occurs(output_text(files, static_edges, dynamic_edges, cycle), report)
            &&& occurs(reproduction_text(case, url), report)
        }),
{
    lemma_four_parts(
        structure_text(case, options),
        input_text(case),
        output_text(files, static_edges, dynamic_edges, cycle),
        reproduction_text(case, url),
    );
}

/// A report shows the link to the case, and the command that writes its
/// fixture: with the seed and the text of the case.
pub proof fn reports_show_the_link_and_the_command(case: CaseModel, url: Seq<char>)
    ensures
        occurs(
            "### REPL URL\n"@ + url + "\n\n### Generate Fixture\n```bash\n"@,
            reproduction_text(case, url),
        ),
        occurs(
            "\n\n### Generate Fixture\n```bash\n"@ + fixture_command(case) + "\n```"@,
            reproduction_text(case, url),
        ),
        occurs(
            " --case '"@ + case_text(case) + "' --out ./fixtures/seed-"@,
            fixture_command(case),
        ),
        occurs(
            "cargo run -p output_fuzz_common --bin generate_fixture -- --seed "@ + decimal(
                case.seed as nat,
            ) + " --case '"@,
            fixture_command(case),
        ),
{
    let none = Seq::<Seq<char>>::empty();
    let q0 = "cargo run -p output_fuzz_common --bin generate_fixture -- --seed "@;
    let q1 = decimal(case.seed as nat);
    let q2 = " --case '"@;
    let q3 = case_text(case);
    let q4 = "' --out ./fixtures/seed-"@;
    lemma_five_parts(q0, q1, q2, q3, q4);
    let row = none.push(q0).push(q1).push(q2).push(q3).push(q4);
    lemma_together_push(row, q1);
    let command = row.push(q1);
    assert(fixture_command(case) == together(command));
    lemma_in_a_row(command, 0);
    lemma_in_a_row(command, 2);
    let p0 = "### REPL URL\n"@;
    let p2 = "\n\n### Generate Fixture\n```bash\n"@;
    let p3 = fixture_command(case);
    let p4 = "\n```"@;
    lemma_five_parts(p0, url, p2, p3, p4);
    let parts = none.push(p0).push(url).push(p2).push(p3).push(p4);
    assert(reproduction_text(case, url) == together(parts));
    lemma_in_a_row(parts, 0);
    lemma_in_a_row(parts, 2);
}

} // verus!
