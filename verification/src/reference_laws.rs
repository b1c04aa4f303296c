//! What the source of a module refers to: the files and the external modules
//! that it imports, requires or loads.
use crate::case::{external_default_name, external_name, filename, CaseModel};
use crate::render::{
    default_imports_are_made_in_order, default_outgoing, edges_lead_to_their_ends, modules_of, node_name, outgoing, pair_name,
    reexport_name, source_text, use_name,
};
use crate::source_laws::{
    all_default_lines, default_lines, dynamic_lines, external_lines, footer_lines, header_line,
    imported_lines, lemma_source_split, lines_for, load_statement, required_lines, source_lines,
    static_lines,
};
use crate::text::{
    decimal, decimal_is_injective, decimal_reads_back, is_digit, lemma_split_at_first, split,
    split_at_first,
};
use crate::text_laws::cuts_are_at_the_first;
use vstd::prelude::*;

verus! {

// ---------------------------------------------------------------------------
// References
// ---------------------------------------------------------------------------

/// What a line refers to, with what stands before it: the text between its
/// first two quotation marks, and the text before the first.
pub open spec fn reference_in(line: Seq<char>) -> Option<(Seq<char>, Seq<char>)> {
    match split_at_first(line, '"') {
        Some((opening, rest)) => match split_at_first(rest, '"') {
            Some((reference, _)) => Some((opening, reference)),
            None => None,
        },
        None => None,
    }
}

/// What some lines refer to, one line after another.
pub open spec fn references_in(lines: Seq<Seq<char>>) -> Seq<(Seq<char>, Seq<char>)>
    decreases lines.len(),
{
    if lines.len() == 0 {
        Seq::empty()
    } else {
        let before = references_in(lines.drop_last());
        match reference_in(lines.last()) {
            Some(reference) => before.push(reference),
            None => before,
        }
    }
}

proof fn lemma_references_concat(a: Seq<Seq<char>>, b: Seq<Seq<char>>)
    ensures
        references_in(a + b) == references_in(a) + references_in(b),
    decreases b.len(),
{
    if b.len() == 0 {
        assert(a + b =~= a);
        assert(references_in(a + b) =~= references_in(a) + references_in(b));
    } else {
        lemma_references_concat(a, b.drop_last());
        assert((a + b).drop_last() =~= a + b.drop_last());
        assert(references_in(a + b) =~= references_in(a) + references_in(b));
    }
}

proof fn lemma_references_one(line: Seq<char>)
    ensures
        references_in(seq![line]) == (match reference_in(line) {
            Some(reference) => seq![reference],
            None => Seq::<(Seq<char>, Seq<char>)>::empty(),
        }),
{
    let none = seq![line].drop_last();
    assert(none.len() == 0);
    assert(references_in(none) =~= Seq::<(Seq<char>, Seq<char>)>::empty());
    assert(references_in(seq![line]) =~= (match reference_in(line) {
        Some(reference) => seq![reference],
        None => Seq::<(Seq<char>, Seq<char>)>::empty(),
    }));
}

/// Lines for items that each refer to one thing.
proof fn lemma_references_for<T>(
    items: Seq<T>,
    lines: spec_fn(T) -> Seq<Seq<char>>,
    reference: spec_fn(T) -> (Seq<char>, Seq<char>),
)
    requires
        forall|k: int|
            0 <= k < items.len() ==> references_in(lines(#[trigger] items[k])) == seq![
                reference(items[k]),
            ],
    ensures
        references_in(lines_for(items, lines)) == items.map_values(reference),
    decreases items.len(),
{
    if items.len() > 0 {
        let front = items.drop_last();
        assert forall|k: int| 0 <= k < front.len() implies references_in(
            lines(#[trigger] front[k]),
        ) == seq![reference(front[k])] by {
            assert(items[k] == front[k]);
        }
        lemma_references_for(front, lines, reference);
        lemma_references_concat(lines_for(front, lines), lines(items.last()));
        assert(items[items.len() - 1] == items.last());
        assert(items.map_values(reference) =~= front.map_values(reference) + seq![
            reference(items.last()),
        ]);
    } else {
        assert(items.map_values(reference) =~= Seq::<(Seq<char>, Seq<char>)>::empty());
    }
}

/// Whether a text holds no quotation mark.
spec fn is_bare(s: Seq<char>) -> bool {
    forall|i: int| 0 <= i < s.len() ==> #[trigger] s[i] != '"'
}

proof fn lemma_bare_line(line: Seq<char>)
    requires
        is_bare(line),
    ensures
        references_in(seq![line]) == Seq::<(Seq<char>, Seq<char>)>::empty(),
{
    cuts_are_at_the_first(line, '"');
    if let Some((before, after)) = split_at_first(line, '"') {
        assert(line[before.len() as int] == '"');
    }
    lemma_references_one(line);
}

proof fn lemma_referring_line(
    line: Seq<char>,
    opening: Seq<char>,
    reference: Seq<char>,
    closing: Seq<char>,
)
    requires
        is_bare(opening),
        is_bare(reference),
        line == opening + seq!['"'] + reference + seq!['"'] + closing,
    ensures
        references_in(seq![line]) == seq![(opening, reference)],
{
    let rest = reference.push('"') + closing;
    assert(line =~= opening.push('"') + rest);
    lemma_split_at_first(opening, '"', rest);
    lemma_split_at_first(reference, '"', closing);
    lemma_references_one(line);
}

proof fn lemma_two_lines(a: Seq<char>, b: Seq<char>)
    requires
        is_bare(b),
    ensures
        references_in(seq![a, b]) == references_in(seq![a]),
{
    assert(seq![a, b] =~= seq![a] + seq![b]);
    lemma_references_concat(seq![a], seq![b]);
    lemma_bare_line(b);
    assert(references_in(seq![a, b]) =~= references_in(seq![a]));
}

// ---------------------------------------------------------------------------
// Literals and names
// ---------------------------------------------------------------------------

proof fn lemma_bare_literals()
    ensures
        is_bare("const "@),
        is_bare(" = require("@),
        is_bare("exports."@),
        is_bare(" = "@),
        is_bare(";"@),
        is_bare("export { "@),
        is_bare(" };"@),
        is_bare(" as "@),
        is_bare(" } from "@),
        is_bare("./"@),
        is_bare("import * as "@),
        is_bare(" from "@),
        is_bare("var "@),
        is_bare(".ref = "@),
        is_bare("void require("@),
        is_bare("void import("@),
        is_bare("import "@),
        is_bare("globalThis."@),
        is_bare("globalThis.__acyclic_output_fuzz_"@),
        is_bare("_"@),
        is_bare(" = {};"@),
        is_bare(".value = "@),
        is_bare("imported_"@),
        is_bare("use_"@),
        is_bare("reexport_"@),
        is_bare("node_"@),
        is_bare("dn_cjs_"@),
        is_bare("use_dn_"@),
        is_bare("__use_dn_"@),
        is_bare("node"@),
        is_bare(".cjs"@),
        is_bare(".js"@),
        is_bare("external-"@),
        is_bare("dn_"@),
{
    reveal_strlit("const ");
    reveal_strlit(" = require(");
    reveal_strlit("exports.");
    reveal_strlit(" = ");
    reveal_strlit(";");
    reveal_strlit("export { ");
    reveal_strlit(" };");
    reveal_strlit(" as ");
    reveal_strlit(" } from ");
    reveal_strlit("./");
    reveal_strlit("import * as ");
    reveal_strlit(" from ");
    reveal_strlit("var ");
    reveal_strlit(".ref = ");
    reveal_strlit("void require(");
    reveal_strlit("void import(");
    reveal_strlit("import ");
    reveal_strlit("globalThis.");
    reveal_strlit("globalThis.__acyclic_output_fuzz_");
    reveal_strlit("_");
    reveal_strlit(" = {};");
    reveal_strlit(".value = ");
    reveal_strlit("imported_");
    reveal_strlit("use_");
    reveal_strlit("reexport_");
    reveal_strlit("node_");
    reveal_strlit("dn_cjs_");
    reveal_strlit("use_dn_");
    reveal_strlit("__use_dn_");
    reveal_strlit("node");
    reveal_strlit(".cjs");
    reveal_strlit(".js");
    reveal_strlit("external-");
    reveal_strlit("dn_");
}

proof fn lemma_quotation_marks()
    ensures
        " = require(\"./"@ == " = require("@ + seq!['"'] + "./"@,
        " = require(\""@ == " = require("@ + seq!['"'],
        " from \"./"@ == " from "@ + seq!['"'] + "./"@,
        " from \""@ == " from "@ + seq!['"'],
        " } from \""@ == " } from "@ + seq!['"'],
        "void require(\""@ == "void require("@ + seq!['"'],
        "void import(\""@ == "void import("@ + seq!['"'],
        "\");"@ == seq!['"'] + ");"@,
        "\";"@ == seq!['"'] + ";"@,
{
    reveal_strlit(" = require(\"./");
    reveal_strlit(" = require(\"");
    reveal_strlit(" = require(");
    reveal_strlit("./");
    reveal_strlit(" from \"./");
    reveal_strlit(" from \"");
    reveal_strlit(" from ");
    reveal_strlit(" } from \"");
    reveal_strlit(" } from ");
    reveal_strlit("void require(\"");
    reveal_strlit("void require(");
    reveal_strlit("void import(\"");
    reveal_strlit("void import(");
    reveal_strlit("\");");
    reveal_strlit(");");
    reveal_strlit("\";");
    reveal_strlit(";");
    assert(" = require(\"./"@ =~= " = require("@ + seq!['"'] + "./"@);
    assert(" = require(\""@ =~= " = require("@ + seq!['"']);
    assert(" from \"./"@ =~= " from "@ + seq!['"'] + "./"@);
    assert(" from \""@ =~= " from "@ + seq!['"']);
    assert(" } from \""@ =~= " } from "@ + seq!['"']);
    assert("void require(\""@ =~= "void require("@ + seq!['"']);
    assert("void import(\""@ =~= "void import("@ + seq!['"']);
    assert("\");"@ =~= seq!['"'] + ");"@);
    assert("\";"@ =~= seq!['"'] + ";"@);
}

proof fn lemma_bare_number(n: nat)
    ensures
        is_bare(decimal(n)),
{
    decimal_reads_back(n, n);
    assert forall|i: int| 0 <= i < decimal(n).len() implies #[trigger] decimal(n)[i] != '"' by {
        assert(is_digit(decimal(n)[i]));
    }
}

proof fn lemma_bare_pair(prefix: Seq<char>, a: usize, b: usize)
    requires
        is_bare(prefix),
    ensures
        is_bare(pair_name(prefix, a, b)),
{
    lemma_bare_literals();
    lemma_bare_number(a as nat);
    lemma_bare_number(b as nat);
}

proof fn lemma_bare_file(case: CaseModel, index: usize)
    ensures
        is_bare(filename(case, index)),
        is_bare("./"@ + filename(case, index)),
{
    lemma_bare_literals();
    lemma_bare_number(index as nat);
}

proof fn lemma_bare_external(ext: usize, variant: u8)
    ensures
        is_bare(external_name(ext)),
        is_bare(external_default_name(ext, variant)),
{
    lemma_bare_literals();
    lemma_bare_number(ext as nat);
    lemma_bare_number(variant as nat);
}

proof fn lemma_bare_names(from: usize, to: usize)
    ensures
        is_bare(node_name(to)),
        is_bare(use_name(from, to)),
        is_bare(reexport_name(from, to)),
        is_bare(pair_name("imported_"@, from, to)),
{
    lemma_bare_literals();
    lemma_bare_number(to as nat);
    lemma_bare_pair("use_"@, from, to);
    lemma_bare_pair("reexport_"@, from, to);
    lemma_bare_pair("imported_"@, from, to);
}

// ---------------------------------------------------------------------------
// What each kind of line refers to
// ---------------------------------------------------------------------------

/// What a static import of a module starts with.
pub open spec fn static_opening(case: CaseModel, from: usize, to: usize) -> Seq<char> {
    let pair = decimal(from as nat) + "_"@ + decimal(to as nat);
    if case.cjs_nodes.contains(from) {
        "const imported_"@ + pair + " = require("@
    } else if case.reexport_static_edges.contains((from, to)) && !case.cjs_nodes.contains(to) {
        "export { node_"@ + decimal(to as nat) + " as reexport_"@ + pair + " } from "@
    } else {
        "import * as imported_"@ + pair + " from "@
    }
}

/// What a statement starts with that loads something while a module runs.
pub open spec fn load_opening(case: CaseModel, from: usize) -> Seq<char> {
    if case.cjs_nodes.contains(from) {
        "void require("@
    } else {
        "void import("@
    }
}

/// What an import of the default of an external module starts with.
pub open spec fn default_opening(case: CaseModel, from: usize, ext: usize, variant: u8) -> Seq<
    char,
> {
    if case.cjs_nodes.contains(from) {
        "const dn_cjs_"@ + decimal(from as nat) + "_"@ + decimal(ext as nat) + " = require("@
    } else {
        "import dn_"@ + decimal(ext as nat) + "_"@ + decimal(variant as nat) + " from "@
    }
}

proof fn lemma_name_prefixes()
    ensures
        "const imported_"@ == "const "@ + "imported_"@,
        "import * as imported_"@ == "import * as "@ + "imported_"@,
        "export { node_"@ == "export { "@ + "node_"@,
        " as reexport_"@ == " as "@ + "reexport_"@,
        "const dn_cjs_"@ == "const "@ + "dn_cjs_"@,
        "import dn_"@ == "import "@ + "dn_"@,
{
    reveal_strlit("const imported_");
    reveal_strlit("const ");
    reveal_strlit("imported_");
    reveal_strlit("import * as imported_");
    reveal_strlit("import * as ");
    reveal_strlit("export { node_");
    reveal_strlit("export { ");
    reveal_strlit("node_");
    reveal_strlit(" as reexport_");
    reveal_strlit(" as ");
    reveal_strlit("reexport_");
    reveal_strlit("const dn_cjs_");
    reveal_strlit("dn_cjs_");
    reveal_strlit("import dn_");
    reveal_strlit("import ");
    reveal_strlit("dn_");
    assert("const imported_"@ =~= "const "@ + "imported_"@);
    assert("import * as imported_"@ =~= "import * as "@ + "imported_"@);
    assert("export { node_"@ =~= "export { "@ + "node_"@);
    assert(" as reexport_"@ =~= " as "@ + "reexport_"@);
    assert("const dn_cjs_"@ =~= "const "@ + "dn_cjs_"@);
    assert("import dn_"@ =~= "import "@ + "dn_"@);
}

proof fn lemma_required_reference(case: CaseModel, from: usize, to: usize)
    requires
        case.is_cjs(from),
    ensures
        references_in(required_lines(case, from, to)) == seq![
            (static_opening(case, from, to), "./"@ + filename(case, to)),
        ],
{
    lemma_bare_literals();
    lemma_bare_names(from, to);
    lemma_bare_file(case, to);
    lemma_quotation_marks();
    lemma_name_prefixes();
    let imported = pair_name("imported_"@, from, to);
    let lines = required_lines(case, from, to);
    let opening = "const "@ + imported + " = require("@;
    assert(lines =~= seq![lines[0], lines[1]]);
    assert(lines[0] =~= opening + seq!['"'] + ("./"@ + filename(case, to)) + seq!['"'] + ");"@);
    lemma_referring_line(lines[0], opening, "./"@ + filename(case, to), ");"@);
    lemma_two_lines(lines[0], lines[1]);
    assert(static_opening(case, from, to) =~= opening);
}

proof fn lemma_reexported_reference(case: CaseModel, from: usize, to: usize)
    requires
        !case.is_cjs(from),
        case.reexports(from, to),
    ensures
        references_in(imported_lines(case, from, to)) == seq![
            (static_opening(case, from, to), "./"@ + filename(case, to)),
        ],
{
    lemma_bare_literals();
    lemma_bare_names(from, to);
    lemma_bare_file(case, to);
    lemma_quotation_marks();
    lemma_name_prefixes();
    let lines = imported_lines(case, from, to);
    let opening = "export { "@ + node_name(to) + " as "@ + reexport_name(from, to) + " } from "@;
    assert(lines =~= seq![lines[0]]);
    assert(lines[0] =~= opening + seq!['"'] + ("./"@ + filename(case, to)) + seq!['"'] + ";"@);
    lemma_referring_line(lines[0], opening, "./"@ + filename(case, to), ";"@);
    assert(static_opening(case, from, to) =~= opening);
}

proof fn lemma_imported_reference(case: CaseModel, from: usize, to: usize)
    requires
        !case.is_cjs(from),
        !case.reexports(from, to),
    ensures
        references_in(imported_lines(case, from, to)) == seq![
            (static_opening(case, from, to), "./"@ + filename(case, to)),
        ],
{
    lemma_bare_literals();
    lemma_bare_names(from, to);
    lemma_bare_file(case, to);
    lemma_bare_number(from as nat);
    lemma_quotation_marks();
    lemma_name_prefixes();
    let imported = pair_name("imported_"@, from, to);
    let lines = imported_lines(case, from, to);
    let opening = "import * as "@ + imported + " from "@;
    let pair = seq![lines[0], lines[1]];
    assert(lines =~= pair + seq![lines[2]] + seq![lines[3]]);
    assert(lines[0] =~= opening + seq!['"'] + ("./"@ + filename(case, to)) + seq!['"'] + ";"@);
    lemma_referring_line(lines[0], opening, "./"@ + filename(case, to), ";"@);
    lemma_two_lines(lines[0], lines[1]);
    lemma_bare_line(lines[2]);
    lemma_bare_line(lines[3]);
    lemma_references_concat(pair, seq![lines[2]]);
    lemma_references_concat(pair + seq![lines[2]], seq![lines[3]]);
    assert(static_opening(case, from, to) =~= opening);
    assert(references_in(lines) =~= seq![(opening, "./"@ + filename(case, to))]);
}

proof fn lemma_load_reference(case: CaseModel, from: usize, path: Seq<char>)
    requires
        is_bare(path),
    ensures
        references_in(seq![load_statement(case.is_cjs(from), path)]) == seq![
            (load_opening(case, from), path),
        ],
{
    lemma_bare_literals();
    lemma_quotation_marks();
    let line = load_statement(case.is_cjs(from), path);
    let opening = load_opening(case, from);
    assert(line =~= opening + seq!['"'] + path + seq!['"'] + ");"@);
    lemma_referring_line(line, opening, path, ");"@);
}

proof fn lemma_default_reference(case: CaseModel, from: usize, ext: usize, variant: u8)
    ensures
        references_in(default_lines(case, from, ext, variant)) == seq![
            (default_opening(case, from, ext, variant), external_name(ext)),
        ],
{
    lemma_bare_literals();
    lemma_bare_pair("dn_cjs_"@, from, ext);
    lemma_bare_pair("use_dn_"@, from, ext);
    lemma_bare_pair("__use_dn_"@, from, ext);
    lemma_bare_external(ext, variant);
    lemma_bare_number(variant as nat);
    lemma_quotation_marks();
    lemma_name_prefixes();
    let lines = default_lines(case, from, ext, variant);
    let opening = default_opening(case, from, ext, variant);
    assert(lines =~= seq![lines[0], lines[1]]);
    if case.is_cjs(from) {
        let start = "const "@ + pair_name("dn_cjs_"@, from, ext) + " = require("@;
        assert(opening =~= start);
        assert(lines[0] =~= start + seq!['"'] + external_name(ext) + seq!['"'] + ");"@);
        lemma_referring_line(lines[0], start, external_name(ext), ");"@);
    } else {
        let start = "import "@ + external_default_name(ext, variant) + " from "@;
        assert(opening =~= start);
        assert(lines[0] =~= start + seq!['"'] + external_name(ext) + seq!['"'] + ";"@);
        lemma_referring_line(lines[0], start, external_name(ext), ";"@);
    }
    lemma_two_lines(lines[0], lines[1]);
}

proof fn lemma_footer_reference(case: CaseModel, from: usize)
    ensures
        references_in(footer_lines(case, from)) == Seq::<(Seq<char>, Seq<char>)>::empty(),
        references_in(seq![header_line(from)]) == Seq::<(Seq<char>, Seq<char>)>::empty(),
{
    lemma_bare_literals();
    lemma_bare_names(from, from);
    lemma_bare_number(from as nat);
    lemma_bare_line(header_line(from));
    let lines = footer_lines(case, from);
    if case.is_cjs(from) {
        assert(lines =~= seq![lines[0]]);
        lemma_bare_line(lines[0]);
    } else {
        let pair = seq![lines[0], lines[1]];
        assert(lines =~= pair + seq![lines[2]]);
        lemma_two_lines(lines[0], lines[1]);
        lemma_bare_line(lines[0]);
        lemma_bare_line(lines[2]);
        lemma_references_concat(pair, seq![lines[2]]);
        assert(references_in(lines) =~= Seq::<(Seq<char>, Seq<char>)>::empty());
    }
}

// ---------------------------------------------------------------------------
// The laws
// ---------------------------------------------------------------------------

/// Whether every edge ends at a node of a case.
pub open spec fn all_end_below(edges: Seq<(usize, usize)>, n: usize) -> bool {
    forall|i: int| 0 <= i < edges.len() ==> (#[trigger] edges[i]).1 < n
}

/// The path of the file at a position of what a case is rendered to.
pub open spec fn path_to(case: CaseModel, to: usize) -> Seq<char> {
    "./"@ + modules_of(case)[to as int].0
}

/// The static imports of a module, by how they start and what they refer to.
pub open spec fn static_references(case: CaseModel, from: usize) -> Seq<(Seq<char>, Seq<char>)> {
    outgoing(case.static_edges, from).map_values(
        |to: usize| (static_opening(case, from, to), path_to(case, to)),
    )
}

/// What a module loads of the other modules while it runs.
pub open spec fn dynamic_references(case: CaseModel, from: usize) -> Seq<(Seq<char>, Seq<char>)> {
    outgoing(case.dynamic_edges, from).map_values(
        |to: usize| (load_opening(case, from), path_to(case, to)),
    )
}

/// What a module loads of the external modules while it runs.
pub open spec fn external_references(case: CaseModel, from: usize) -> Seq<(Seq<char>, Seq<char>)> {
    outgoing(case.external_dynamic_edges, from).map_values(
        |ext: usize| (load_opening(case, from), "external-"@ + decimal(ext as nat)),
    )
}

/// The external modules whose defaults a module imports.
pub open spec fn default_references(case: CaseModel, from: usize) -> Seq<(Seq<char>, Seq<char>)> {
    default_outgoing(case.external_static_default_edges, from).map_values(
        |d: (usize, u8)|
            (default_opening(case, from, d.0, d.1), "external-"@ + decimal(d.0 as nat)),
    )
}

proof fn lemma_ends_below(case: CaseModel, edges: Seq<(usize, usize)>, from: usize)
    requires
        all_end_below(edges, case.node_count),
    ensures
        forall|k: int|
            0 <= k < outgoing(edges, from).len() ==> {
                &&& (#[trigger] outgoing(edges, from)[k]) < case.node_count
                &&& path_to(case, outgoing(edges, from)[k]) == "./"@ + filename(
                    case,
                    outgoing(edges, from)[k],
                )
            },
{
    let ends = outgoing(edges, from);
    assert forall|k: int| 0 <= k < ends.len() implies ({
        &&& (#[trigger] ends[k]) < case.node_count
        &&& path_to(case, ends[k]) == "./"@ + filename(case, ends[k])
    }) by {
        assert(ends.contains(ends[k]));
        edges_lead_to_their_ends(edges, from, ends[k]);
        let i = choose|i: int| 0 <= i < edges.len() && edges[i] == (from, ends[k]);
        assert(edges[i].1 < case.node_count);
        assert(modules_of(case)[ends[k] as int].0 == filename(case, ends[k]));
    }
}

proof fn lemma_static_references(case: CaseModel, from: usize)
    requires
        all_end_below(case.static_edges, case.node_count),
    ensures
        references_in(static_lines(case, from)) == static_references(case, from),
{
    let ends = outgoing(case.static_edges, from);
    let reference = |to: usize| (static_opening(case, from, to), path_to(case, to));
    lemma_ends_below(case, case.static_edges, from);
    if case.is_cjs(from) {
        let lines = |to: usize| required_lines(case, from, to);
        assert forall|k: int| 0 <= k < ends.len() implies references_in(lines(#[trigger] ends[k]))
            == seq![reference(ends[k])] by {
            lemma_required_reference(case, from, ends[k]);
        }
        lemma_references_for(ends, lines, reference);
    } else {
        let lines = |to: usize| imported_lines(case, from, to);
        assert forall|k: int| 0 <= k < ends.len() implies references_in(lines(#[trigger] ends[k]))
            == seq![reference(ends[k])] by {
            if case.reexports(from, ends[k]) {
                lemma_reexported_reference(case, from, ends[k]);
            } else {
                lemma_imported_reference(case, from, ends[k]);
            }
        }
        lemma_references_for(ends, lines, reference);
    }
}

proof fn lemma_dynamic_references(case: CaseModel, from: usize)
    requires
        all_end_below(case.dynamic_edges, case.node_count),
    ensures
        references_in(dynamic_lines(case, from)) == dynamic_references(case, from),
{
    let ends = outgoing(case.dynamic_edges, from);
    let reference = |to: usize| (load_opening(case, from), path_to(case, to));
    let lines = |to: usize| seq![load_statement(case.is_cjs(from), "./"@ + filename(case, to))];
    lemma_ends_below(case, case.dynamic_edges, from);
    assert forall|k: int| 0 <= k < ends.len() implies references_in(lines(#[trigger] ends[k]))
        == seq![reference(ends[k])] by {
        lemma_bare_file(case, ends[k]);
        lemma_load_reference(case, from, "./"@ + filename(case, ends[k]));
    }
    lemma_references_for(ends, lines, reference);
}

proof fn lemma_outside_references(case: CaseModel, from: usize)
    ensures
        references_in(external_lines(case, from)) == external_references(case, from),
        references_in(all_default_lines(case, from)) == default_references(case, from),
{
    let ends = outgoing(case.external_dynamic_edges, from);
    let reference = |ext: usize| (load_opening(case, from), "external-"@ + decimal(ext as nat));
    let lines = |ext: usize| seq![load_statement(case.is_cjs(from), external_name(ext))];
    assert forall|k: int| 0 <= k < ends.len() implies references_in(lines(#[trigger] ends[k]))
        == seq![reference(ends[k])] by {
        lemma_bare_external(ends[k], 0);
        lemma_load_reference(case, from, external_name(ends[k]));
    }
    lemma_references_for(ends, lines, reference);
    let defaults = default_outgoing(case.external_static_default_edges, from);
    let reference = |d: (usize, u8)|
        (default_opening(case, from, d.0, d.1), "external-"@ + decimal(d.0 as nat));
    let lines = |d: (usize, u8)| default_lines(case, from, d.0, d.1);
    assert forall|k: int| 0 <= k < defaults.len() implies references_in(
        lines(#[trigger] defaults[k]),
    ) == seq![reference(defaults[k])] by {
        lemma_default_reference(case, from, defaults[k].0, defaults[k].1);
    }
    lemma_references_for(defaults, lines, reference);
}

/// The source of a module refers to exactly what its edges lead to, one edge
/// after another: to the rendered files of its static and then of its dynamic
/// edges, and to the external modules that it loads and whose defaults it
/// imports. A CommonJS module requires all of them, any other imports them.
pub proof fn sources_refer_to_what_their_edges_lead_to(case: CaseModel, from: usize)
    requires
        all_end_below(case.static_edges, case.node_count),
        all_end_below(case.dynamic_edges, case.node_count),
    ensures
        references_in(split(source_text(case, from), '\n')) == static_references(case, from)
            + dynamic_references(case, from) + external_references(case, from)
            + default_references(case, from),
{
    lemma_static_references(case, from);
    lemma_dynamic_references(case, from);
    lemma_outside_references(case, from);
    lemma_whole_source(case, from);
}

/// What a source refers to, section by section.
proof fn lemma_whole_source(case: CaseModel, from: usize)
    ensures
        references_in(split(source_text(case, from), '\n')) == references_in(
            static_lines(case, from),
        ) + references_in(dynamic_lines(case, from)) + references_in(external_lines(case, from))
            + references_in(all_default_lines(case, from)),
{
    let nothing = Seq::<char>::empty();
    let l1 = seq![header_line(from)];
    let l2 = l1 + static_lines(case, from);
    let l3 = l2 + dynamic_lines(case, from);
    let l4 = l3 + external_lines(case, from);
    let l5 = l4 + all_default_lines(case, from);
    let l6 = l5 + footer_lines(case, from);
    lemma_source_split(case, from);
    lemma_footer_reference(case, from);
    lemma_references_concat(l1, static_lines(case, from));
    lemma_references_concat(l2, dynamic_lines(case, from));
    lemma_references_concat(l3, external_lines(case, from));
    lemma_references_concat(l4, all_default_lines(case, from));
    lemma_references_concat(l5, footer_lines(case, from));
    lemma_bare_line(nothing);
    lemma_references_concat(l6, seq![nothing]);
    assert(source_lines(case, from).push(nothing) =~= l6 + seq![nothing]);
    assert(references_in(l6 + seq![nothing]) =~= references_in(static_lines(case, from))
        + references_in(dynamic_lines(case, from)) + references_in(external_lines(case, from))
        + references_in(all_default_lines(case, from)));
}

/// The path of a node by its number: a `.cjs` file for a CommonJS module, and a
/// `.js` file for any other.
pub open spec fn numbered_path(case: CaseModel, to: usize) -> Seq<char> {
    "./"@ + ("node"@ + decimal(to as nat) + (if case.cjs_nodes.contains(to) {
        ".cjs"@
    } else {
        ".js"@
    }))
}

/// The source of a module refers to one file for each of its static and dynamic
/// edges, named by the number of the node that the edge leads to, also where
/// there is no such node; and then to the external modules.
pub proof fn sources_refer_to_numbered_files(case: CaseModel, from: usize)
    ensures
        references_in(split(source_text(case, from), '\n')) == outgoing(
            case.static_edges,
            from,
        ).map_values(|to: usize| (static_opening(case, from, to), numbered_path(case, to)))
            + outgoing(case.dynamic_edges, from).map_values(
            |to: usize| (load_opening(case, from), numbered_path(case, to)),
        ) + external_references(case, from) + default_references(case, from),
{
    let static_ends = outgoing(case.static_edges, from);
    let dynamic_ends = outgoing(case.dynamic_edges, from);
    let static_named = static_ends.map_values(
        |to: usize| (static_opening(case, from, to), numbered_path(case, to)),
    );
    let dynamic_named = dynamic_ends.map_values(
        |to: usize| (load_opening(case, from), numbered_path(case, to)),
    );
    lemma_static_named(case, from);
    lemma_dynamic_named(case, from);
    lemma_outside_references(case, from);
    lemma_whole_source(case, from);
    assert(references_in(static_lines(case, from)) == static_named);
    assert(references_in(dynamic_lines(case, from)) == dynamic_named);
}

proof fn lemma_static_named(case: CaseModel, from: usize)
    ensures
        references_in(static_lines(case, from)) == outgoing(case.static_edges, from).map_values(
            |to: usize| (static_opening(case, from, to), numbered_path(case, to)),
        ),
{
    let ends = outgoing(case.static_edges, from);
    let reference = |to: usize| (static_opening(case, from, to), numbered_path(case, to));
    if case.is_cjs(from) {
        let lines = |to: usize| required_lines(case, from, to);
        assert forall|k: int| 0 <= k < ends.len() implies references_in(lines(#[trigger] ends[k]))
            == seq![reference(ends[k])] by {
            lemma_required_reference(case, from, ends[k]);
        }
        lemma_references_for(ends, lines, reference);
    } else {
        let lines = |to: usize| imported_lines(case, from, to);
        assert forall|k: int| 0 <= k < ends.len() implies references_in(lines(#[trigger] ends[k]))
            == seq![reference(ends[k])] by {
            if case.reexports(from, ends[k]) {
                lemma_reexported_reference(case, from, ends[k]);
            } else {
                lemma_imported_reference(case, from, ends[k]);
            }
        }
        lemma_references_for(ends, lines, reference);
    }
}

proof fn lemma_dynamic_named(case: CaseModel, from: usize)
    ensures
        references_in(dynamic_lines(case, from)) == outgoing(case.dynamic_edges, from).map_values(
            |to: usize| (load_opening(case, from), numbered_path(case, to)),
        ),
{
    let ends = outgoing(case.dynamic_edges, from);
    let reference = |to: usize| (load_opening(case, from), numbered_path(case, to));
    let lines = |to: usize| seq![load_statement(case.is_cjs(from), "./"@ + filename(case, to))];
    assert forall|k: int| 0 <= k < ends.len() implies references_in(lines(#[trigger] ends[k]))
        == seq![reference(ends[k])] by {
        lemma_bare_file(case, ends[k]);
        lemma_load_reference(case, from, "./"@ + filename(case, ends[k]));
    }
    lemma_references_for(ends, lines, reference);
}

/// Whether the source of a module refers to something.
pub open spec fn refers_to(case: CaseModel, from: usize, reference: Seq<char>) -> bool {
    exists|opening: Seq<char>| #[trigger]
        references_in(split(source_text(case, from), '\n')).contains((opening, reference))
}

/// Whether a reference is a path relative to where it stands.
pub open spec fn is_relative_path(reference: Seq<char>) -> bool {
    reference.len() > 0 && reference[0] == '.'
}

proof fn lemma_four_contain<T>(a: Seq<T>, b: Seq<T>, c: Seq<T>, d: Seq<T>, x: T)
    ensures
        (a + b + c + d).contains(x) <==> a.contains(x) || b.contains(x) || c.contains(x)
            || d.contains(x),
{
    let all = a + b + c + d;
    if all.contains(x) {
        let i = choose|i: int| 0 <= i < all.len() && all[i] == x;
        if i < a.len() {
            assert(a[i] == x);
        } else if i < a.len() + b.len() {
            assert(b[i - a.len()] == x);
        } else if i < a.len() + b.len() + c.len() {
            assert(c[i - a.len() - b.len()] == x);
        } else {
            assert(d[i - a.len() - b.len() - c.len()] == x);
        }
    }
    if a.contains(x) {
        let i = choose|i: int| 0 <= i < a.len() && a[i] == x;
        assert(all[i] == x);
    }
    if b.contains(x) {
        let i = choose|i: int| 0 <= i < b.len() && b[i] == x;
        assert(all[a.len() + i] == x);
    }
    if c.contains(x) {
        let i = choose|i: int| 0 <= i < c.len() && c[i] == x;
        assert(all[a.len() + b.len() + i] == x);
    }
    if d.contains(x) {
        let i = choose|i: int| 0 <= i < d.len() && d[i] == x;
        assert(all[a.len() + b.len() + c.len() + i] == x);
    }
}

/// Every dynamic edge loads the rendered file of the node that it leads to,
/// and every static edge imports it: with `require` in a CommonJS module, and
/// with `import` or `export` in any other.
pub proof fn edges_load_rendered_files(case: CaseModel, from: usize, to: usize)
    requires
        all_end_below(case.static_edges, case.node_count),
        all_end_below(case.dynamic_edges, case.node_count),
    ensures
        case.dynamic_edges.contains((from, to)) ==> to < modules_of(case).len() && references_in(
            split(source_text(case, from), '\n'),
        ).contains(
            (
                if case.cjs_nodes.contains(from) {
                    "void require("@
                } else {
                    "void import("@
                },
                "./"@ + modules_of(case)[to as int].0,
            ),
        ),
        case.static_edges.contains((from, to)) ==> to < modules_of(case).len() && references_in(
            split(source_text(case, from), '\n'),
        ).contains(
            (
                if case.cjs_nodes.contains(from) {
                    "const imported_"@ + (decimal(from as nat) + "_"@ + decimal(to as nat))
                        + " = require("@
                } else if case.reexport_static_edges.contains((from, to))
                    && !case.cjs_nodes.contains(to) {
                    "export { node_"@ + decimal(to as nat) + " as reexport_"@ + (decimal(
                        from as nat,
                    ) + "_"@ + decimal(to as nat)) + " } from "@
                } else {
                    "import * as imported_"@ + (decimal(from as nat) + "_"@ + decimal(to as nat))
                        + " from "@
                },
                "./"@ + modules_of(case)[to as int].0,
            ),
        ),
{
    sources_refer_to_what_their_edges_lead_to(case, from);
    let a = static_references(case, from);
    let b = dynamic_references(case, from);
    let c = external_references(case, from);
    let d = default_references(case, from);
    if case.dynamic_edges.contains((from, to)) {
        let i = choose|i: int| 0 <= i < case.dynamic_edges.len() && case.dynamic_edges[i] == (from, to);
        assert(case.dynamic_edges[i].1 < case.node_count);
        let ends = outgoing(case.dynamic_edges, from);
        edges_lead_to_their_ends(case.dynamic_edges, from, to);
        let k = choose|k: int| 0 <= k < ends.len() && ends[k] == to;
        assert(b[k] == (load_opening(case, from), path_to(case, to)));
        lemma_four_contain(a, b, c, d, b[k]);
    }
    if case.static_edges.contains((from, to)) {
        let i = choose|i: int| 0 <= i < case.static_edges.len() && case.static_edges[i] == (from, to);
        assert(case.static_edges[i].1 < case.node_count);
        let ends = outgoing(case.static_edges, from);
        edges_lead_to_their_ends(case.static_edges, from, to);
        let k = choose|k: int| 0 <= k < ends.len() && ends[k] == to;
        assert(a[k] == (static_opening(case, from, to), path_to(case, to)));
        lemma_four_contain(a, b, c, d, a[k]);
    }
}

/// The relative paths in the source of a module are exactly those of the
/// rendered files of the nodes that its static and dynamic edges lead to: every
/// one names a file of the same rendering.
pub proof fn relative_paths_name_rendered_files(case: CaseModel, from: usize, path: Seq<char>)
    requires
        all_end_below(case.static_edges, case.node_count),
        all_end_below(case.dynamic_edges, case.node_count),
        is_relative_path(path),
    ensures
        refers_to(case, from, path) <==> exists|to: usize|
            (case.static_edges.contains((from, to)) || case.dynamic_edges.contains((from, to)))
                && to < modules_of(case).len() && path == "./"@ + (
            #[trigger] modules_of(case)[to as int]).0,
{
    sources_refer_to_what_their_edges_lead_to(case, from);
    let a = static_references(case, from);
    let b = dynamic_references(case, from);
    let c = external_references(case, from);
    let d = default_references(case, from);
    let all = references_in(split(source_text(case, from), '\n'));
    if refers_to(case, from, path) {
        let opening = choose|opening: Seq<char>| #[trigger] all.contains((opening, path));
        lemma_four_contain(a, b, c, d, (opening, path));
        lemma_external_paths(case, from, opening, path);
        if a.contains((opening, path)) {
            let k = choose|k: int| 0 <= k < a.len() && a[k] == (opening, path);
            lemma_end_of(case, case.static_edges, from, k);
            let to = outgoing(case.static_edges, from)[k];
            assert(path == "./"@ + modules_of(case)[to as int].0);
        } else {
            let k = choose|k: int| 0 <= k < b.len() && b[k] == (opening, path);
            lemma_end_of(case, case.dynamic_edges, from, k);
            let to = outgoing(case.dynamic_edges, from)[k];
            assert(path == "./"@ + modules_of(case)[to as int].0);
        }
    }
    if exists|to: usize|
        (case.static_edges.contains((from, to)) || case.dynamic_edges.contains((from, to))) && to
            < modules_of(case).len() && path == "./"@ + (#[trigger] modules_of(case)[to as int]).0 {
        let to = choose|to: usize|
            (case.static_edges.contains((from, to)) || case.dynamic_edges.contains((from, to)))
                && to < modules_of(case).len() && path == "./"@ + (
            #[trigger] modules_of(case)[to as int]).0;
        edges_load_rendered_files(case, from, to);
        if case.static_edges.contains((from, to)) {
            assert(all.contains((static_opening(case, from, to), path)));
        } else {
            assert(all.contains((load_opening(case, from), path)));
        }
    }
}

proof fn lemma_end_of(case: CaseModel, edges: Seq<(usize, usize)>, from: usize, k: int)
    requires
        all_end_below(edges, case.node_count),
        0 <= k < outgoing(edges, from).len(),
    ensures
        edges.contains((from, outgoing(edges, from)[k])),
        outgoing(edges, from)[k] < modules_of(case).len(),
{
    let ends = outgoing(edges, from);
    assert(ends.contains(ends[k]));
    edges_lead_to_their_ends(edges, from, ends[k]);
    let i = choose|i: int| 0 <= i < edges.len() && edges[i] == (from, ends[k]);
    assert(edges[i].1 < case.node_count);
}

proof fn lemma_external_paths(
    case: CaseModel,
    from: usize,
    opening: Seq<char>,
    path: Seq<char>,
)
    requires
        is_relative_path(path),
    ensures
        !external_references(case, from).contains((opening, path)),
        !default_references(case, from).contains((opening, path)),
{
    reveal_strlit("external-");
    let c = external_references(case, from);
    let d = default_references(case, from);
    if c.contains((opening, path)) {
        let k = choose|k: int| 0 <= k < c.len() && c[k] == (opening, path);
        assert(c[k].1[0] == 'e');
    }
    if d.contains((opening, path)) {
        let k = choose|k: int| 0 <= k < d.len() && d[k] == (opening, path);
        assert(d[k].1[0] == 'e');
    }
}

/// Every dynamic edge to an external module loads it, and every default import
/// imports it: under the name of its variant in an ES module, and as a whole in
/// a CommonJS module.
pub proof fn external_edges_load_external_modules(
    case: CaseModel,
    from: usize,
    ext: usize,
    variant: u8,
)
    ensures
        ({
            let references = references_in(split(source_text(case, from), '\n'));
            let name = "external-"@ + decimal(ext as nat);
            &&& case.external_dynamic_edges.contains((from, ext)) ==> references.contains(
                (
                    if case.cjs_nodes.contains(from) {
                        "void require("@
                    } else {
                        "void import("@
                    },
                    name,
                ),
            )
            &&& case.external_static_default_edges.contains((from, ext, variant))
                ==> references.contains(
                (
                    if case.cjs_nodes.contains(from) {
                        "const dn_cjs_"@ + decimal(from as nat) + "_"@ + decimal(ext as nat)
                            + " = require("@
                    } else {
                        "import dn_"@ + decimal(ext as nat) + "_"@ + decimal(variant as nat)
                            + " from "@
                    },
                    name,
                ),
            )
        }),
{
    sources_refer_to_numbered_files(case, from);
    let a = outgoing(case.static_edges, from).map_values(
        |to: usize| (static_opening(case, from, to), numbered_path(case, to)),
    );
    let b = outgoing(case.dynamic_edges, from).map_values(
        |to: usize| (load_opening(case, from), numbered_path(case, to)),
    );
    let c = external_references(case, from);
    let d = default_references(case, from);
    if case.external_dynamic_edges.contains((from, ext)) {
        let ends = outgoing(case.external_dynamic_edges, from);
        edges_lead_to_their_ends(case.external_dynamic_edges, from, ext);
        let k = choose|k: int| 0 <= k < ends.len() && ends[k] == ext;
        assert(c[k] == (load_opening(case, from), "external-"@ + decimal(ext as nat)));
        lemma_four_contain(a, b, c, d, c[k]);
    }
    if case.external_static_default_edges.contains((from, ext, variant)) {
        let k = lemma_default_found(case.external_static_default_edges, from, ext, variant);
        assert(d[k] == (
            default_opening(case, from, ext, variant),
            "external-"@ + decimal(ext as nat),
        ));
        lemma_four_contain(a, b, c, d, d[k]);
    }
}

/// Two modules that import the default of an external module under different
/// variants bind it to different names; each imports it from that module.
pub proof fn variants_bind_different_names(
    case: CaseModel,
    from: usize,
    ext: usize,
    variant: u8,
    other: u8,
)
    requires
        !case.cjs_nodes.contains(from),
    ensures
        default_opening(case, from, ext, variant) == default_opening(case, from, ext, other)
            ==> variant == other,
{
    let prefix = "import dn_"@ + decimal(ext as nat) + "_"@;
    let a = decimal(variant as nat);
    let b = decimal(other as nat);
    let end = " from "@;
    let s = default_opening(case, from, ext, variant);
    if s == default_opening(case, from, ext, other) {
        assert(s.subrange(prefix.len() as int, s.len() - end.len()) =~= a);
        assert(default_opening(case, from, ext, other).subrange(
            prefix.len() as int,
            s.len() - end.len(),
        ) =~= b);
        decimal_is_injective(variant as nat, other as nat);
    }
}

// ---------------------------------------------------------------------------
// What a module does with what it imports
// ---------------------------------------------------------------------------

proof fn lemma_lines_for_contain<T>(
    items: Seq<T>,
    lines: spec_fn(T) -> Seq<Seq<char>>,
    k: int,
    line: Seq<char>,
)
    requires
        0 <= k < items.len(),
        lines(items[k]).contains(line),
    ensures
        lines_for(items, lines).contains(line),
    decreases items.len(),
{
    let front = items.drop_last();
    let before = lines_for(front, lines);
    let all = lines_for(items, lines);
    if k < front.len() {
        assert(front[k] == items[k]);
        lemma_lines_for_contain(front, lines, k, line);
        let i = choose|i: int| 0 <= i < before.len() && before[i] == line;
        assert(all[i] == line);
    } else {
        let own = lines(items.last());
        let i = choose|i: int| 0 <= i < own.len() && own[i] == line;
        assert(all[before.len() + i] == line);
    }
}

proof fn lemma_source_contains(case: CaseModel, from: usize, line: Seq<char>)
    requires
        line == header_line(from) || static_lines(case, from).contains(line) || all_default_lines(
            case,
            from,
        ).contains(line) || footer_lines(case, from).contains(line),
    ensures
        split(source_text(case, from), '\n').contains(line),
{
    lemma_source_split(case, from);
    let l1 = seq![header_line(from)];
    let l2 = static_lines(case, from);
    let l3 = dynamic_lines(case, from);
    let l4 = external_lines(case, from);
    let l5 = all_default_lines(case, from);
    let l6 = footer_lines(case, from);
    let all = l1 + l2 + l3 + l4 + l5 + l6;
    let whole = all.push(Seq::empty());
    assert(whole == split(source_text(case, from), '\n'));
    if line == header_line(from) {
        assert(whole[0] == line);
    } else if l2.contains(line) {
        let i = choose|i: int| 0 <= i < l2.len() && l2[i] == line;
        assert(whole[1 + i] == line);
    } else if l5.contains(line) {
        let i = choose|i: int| 0 <= i < l5.len() && l5[i] == line;
        assert(whole[1 + l2.len() + l3.len() + l4.len() + i] == line);
    } else {
        let i = choose|i: int| 0 <= i < l6.len() && l6[i] == line;
        assert(whole[1 + l2.len() + l3.len() + l4.len() + l5.len() + i] == line);
    }
}

/// A module marks itself as run, and exports its own number: under its name
/// from an ES module, and as a property of `exports` from a CommonJS module.
pub proof fn modules_export_their_numbers(case: CaseModel, from: usize)
    ensures
        ({
            let lines = split(source_text(case, from), '\n');
            let number = decimal(from as nat);
            &&& lines.contains(
                "globalThis.__acyclic_output_fuzz_"@ + number + " = "@ + number + ";"@,
            )
            &&& case.cjs_nodes.contains(from) ==> lines.contains(
                "exports."@ + ("node_"@ + number) + " = "@ + number + ";"@,
            )
            &&& !case.cjs_nodes.contains(from) ==> lines.contains(
                "var "@ + ("node_"@ + number) + " = {};"@,
            ) && lines.contains("node_"@ + number + ".value = "@ + number + ";"@)
        }),
{
    lemma_source_contains(case, from, header_line(from));
    let footer = footer_lines(case, from);
    assert(footer.contains(footer[0]));
    lemma_source_contains(case, from, footer[0]);
    if !case.is_cjs(from) {
        assert(footer.contains(footer[1]));
        lemma_source_contains(case, from, footer[1]);
    }
}

/// A module uses what it imports along a static edge: an ES module that does
/// not reexport it keeps it in a variable of its own, marked with its number,
/// and a CommonJS module sets it as a property of `exports`.
pub proof fn modules_use_what_they_import(case: CaseModel, from: usize, to: usize)
    requires
        case.static_edges.contains((from, to)),
    ensures
        ({
            let lines = split(source_text(case, from), '\n');
            let number = decimal(from as nat);
            let pair = number + "_"@ + decimal(to as nat);
            let imported = "imported_"@ + pair;
            let used = "use_"@ + pair;
            &&& case.cjs_nodes.contains(from) ==> lines.contains(
                "exports."@ + used + " = "@ + imported + ";"@,
            )
            &&& !case.cjs_nodes.contains(from) && (!case.reexport_static_edges.contains((from, to))
                || case.cjs_nodes.contains(to)) ==> lines.contains(
                "var "@ + used + " = "@ + imported + ";"@,
            ) && lines.contains(used + ".ref = "@ + number + ";"@)
        }),
{
    let number = decimal(from as nat);
    let pair = number + "_"@ + decimal(to as nat);
    let ends = outgoing(case.static_edges, from);
    edges_lead_to_their_ends(case.static_edges, from, to);
    let k = choose|k: int| 0 <= k < ends.len() && ends[k] == to;
    lemma_paired("imported_"@, from, to);
    lemma_paired("use_"@, from, to);
    if case.is_cjs(from) {
        let lines = |to: usize| required_lines(case, from, to);
        let own = required_lines(case, from, to);
        assert(own.contains(own[1]));
        lemma_lines_for_contain(ends, lines, k, own[1]);
        lemma_source_contains(case, from, own[1]);
    } else if !case.reexports(from, to) {
        let lines = |to: usize| imported_lines(case, from, to);
        let own = imported_lines(case, from, to);
        assert(own.contains(own[1]));
        assert(own.contains(own[2]));
        lemma_lines_for_contain(ends, lines, k, own[1]);
        lemma_lines_for_contain(ends, lines, k, own[2]);
        lemma_source_contains(case, from, own[1]);
        lemma_source_contains(case, from, own[2]);
    }
}

proof fn lemma_default_found(
    triplets: Seq<(usize, usize, u8)>,
    from: usize,
    ext: usize,
    variant: u8,
) -> (k: int)
    requires
        triplets.contains((from, ext, variant)),
    ensures
        0 <= k < default_outgoing(triplets, from).len(),
        default_outgoing(triplets, from)[k] == (ext, variant),
{
    let i = choose|i: int| 0 <= i < triplets.len() && triplets[i] == (from, ext, variant);
    let before = triplets.take(i);
    let one = seq![triplets[i]];
    let after = triplets.skip(i + 1);
    assert(triplets =~= before + (one + after));
    default_imports_are_made_in_order(before, one + after, triplets[i], from);
    default_imports_are_made_in_order(one, after, triplets[i], from);
    let k = default_outgoing(before, from).len() as int;
    assert(default_outgoing(triplets, from)[k] == (ext, variant));
    k
}

proof fn lemma_default_used(case: CaseModel, from: usize, ext: usize, variant: u8)
    requires
        case.external_static_default_edges.contains((from, ext, variant)),
    ensures
        split(source_text(case, from), '\n').contains(default_lines(case, from, ext, variant)[1]),
{
    let triplets = case.external_static_default_edges;
    let k = lemma_default_found(triplets, from, ext, variant);
    let lines = |d: (usize, u8)| default_lines(case, from, d.0, d.1);
    let own = default_lines(case, from, ext, variant);
    assert(own.len() == 2);
    assert(own.contains(own[1]));
    lemma_lines_for_contain(default_outgoing(triplets, from), lines, k, own[1]);
    lemma_source_contains(case, from, own[1]);
}

/// A module uses the defaults that it imports from external modules, under the
/// name that the import binds.
pub proof fn modules_use_the_defaults_they_import(
    case: CaseModel,
    from: usize,
    ext: usize,
    variant: u8,
)
    requires
        case.external_static_default_edges.contains((from, ext, variant)),
    ensures
        ({
            let lines = split(source_text(case, from), '\n');
            let pair = decimal(from as nat) + "_"@ + decimal(ext as nat);
            &&& case.cjs_nodes.contains(from) ==> lines.contains(
                "exports."@ + ("use_dn_"@ + pair) + " = "@ + ("dn_cjs_"@ + pair) + ";"@,
            )
            &&& !case.cjs_nodes.contains(from) ==> lines.contains(
                "globalThis."@ + ("__use_dn_"@ + pair) + "_"@ + decimal(variant as nat) + " = "@
                    + ("dn_"@ + decimal(ext as nat) + "_"@ + decimal(variant as nat)) + ";"@,
            )
        }),
{
    lemma_default_used(case, from, ext, variant);
    lemma_default_second(case, from, ext, variant);
}

proof fn lemma_paired(prefix: Seq<char>, a: usize, b: usize)
    ensures
        prefix + (decimal(a as nat) + "_"@ + decimal(b as nat)) == pair_name(prefix, a, b),
{
    assert(prefix + (decimal(a as nat) + "_"@ + decimal(b as nat)) =~= pair_name(prefix, a, b));
}

proof fn lemma_default_second(case: CaseModel, from: usize, ext: usize, variant: u8)
    ensures
        ({
            let pair = decimal(from as nat) + "_"@ + decimal(ext as nat);
            default_lines(case, from, ext, variant)[1] == if case.cjs_nodes.contains(from) {
                "exports."@ + ("use_dn_"@ + pair) + " = "@ + ("dn_cjs_"@ + pair) + ";"@
            } else {
                "globalThis."@ + ("__use_dn_"@ + pair) + "_"@ + decimal(variant as nat) + " = "@
                    + ("dn_"@ + decimal(ext as nat) + "_"@ + decimal(variant as nat)) + ";"@
            }
        }),
{
    lemma_paired("use_dn_"@, from, ext);
    lemma_paired("__use_dn_"@, from, ext);
    lemma_paired("dn_cjs_"@, from, ext);
}

/// The rendering of a case has one file for each node, at the position of the
/// node: a `.cjs` file for a CommonJS module, and a `.js` file for any other,
/// with the number of the node in its name.
pub proof fn files_are_named_by_their_nodes(case: CaseModel, i: usize)
    requires
        i < case.node_count,
    ensures
        modules_of(case).len() == case.node_count,
        modules_of(case)[i as int].0 == "node"@ + decimal(i as nat) + (if case.cjs_nodes.contains(
            i,
        ) {
            ".cjs"@
        } else {
            ".js"@
        }),
        modules_of(case)[i as int].1 == source_text(case, i),
{
}

} // verus!
