//! What the source of a module exports.
use crate::case::{external_default_name, external_name, filename, CaseModel};
use crate::exports::{
    expected_exports, expected_exports_are_those_made, import_export_name,
};
use crate::render::{
    default_import_text, default_imports_text, default_outgoing, dynamic_imports_text,
    external_imports_text, footer_text, header_text, load_line, node_name, outgoing, pair_name,
    reexport_name, source_text, static_import_text, static_imports_text, use_name,
};
use crate::text::{
    decimal, decimal_reads_back, is_digit, joined, lemma_split_at_first, split,
    split_undoes_join, together,
};
use vstd::prelude::*;

verus! {

// ---------------------------------------------------------------------------
// Export statements
// ---------------------------------------------------------------------------

/// Whether a text holds no space, as an identifier holds none.
pub open spec fn is_word(s: Seq<char>) -> bool {
    !s.contains(' ')
}

/// The statement that exports a local name.
pub open spec fn export_statement(name: Seq<char>) -> Seq<char> {
    "export { "@ + name + " };"@
}

/// The statement that exports a name of another module under a given name.
pub open spec fn reexport_statement(
    local: Seq<char>,
    name: Seq<char>,
    path: Seq<char>,
) -> Seq<char> {
    "export { "@ + local + " as "@ + name + " } from \""@ + path + "\";"@
}

/// Whether a line is a statement that exports something under `name`.
pub open spec fn exports_name(line: Seq<char>, name: Seq<char>) -> bool {
    &&& is_word(name)
    &&& line == export_statement(name) || exists|local: Seq<char>, path: Seq<char>|
        is_word(local) && line == #[trigger] reexport_statement(local, name, path)
}

/// Whether a line starts as export statements do.
pub open spec fn starts_export(line: Seq<char>) -> bool {
    line.len() >= 7 && line.take(7) == "export "@
}

/// Whether one of some lines exports something under `name`.
pub open spec fn exports_in(lines: Seq<Seq<char>>, name: Seq<char>) -> bool {
    exists|k: int| 0 <= k < lines.len() && exports_name(#[trigger] lines[k], name)
}

// ---------------------------------------------------------------------------
// Lines
// ---------------------------------------------------------------------------

/// Lines as text: each is ended by a line feed.
pub open spec fn lined(lines: Seq<Seq<char>>) -> Seq<char>
    decreases lines.len(),
{
    if lines.len() == 0 {
        Seq::empty()
    } else {
        lined(lines.drop_last()) + lines.last().push('\n')
    }
}

proof fn lemma_lined_concat(a: Seq<Seq<char>>, b: Seq<Seq<char>>)
    ensures
        lined(a + b) == lined(a) + lined(b),
    decreases b.len(),
{
    if b.len() == 0 {
        assert(a + b =~= a);
        assert(lined(a) + lined(b) =~= lined(a));
    } else {
        lemma_lined_concat(a, b.drop_last());
        assert((a + b).drop_last() =~= a + b.drop_last());
        assert(lined(a) + lined(b.drop_last()) + b.last().push('\n') =~= lined(a) + (lined(
            b.drop_last(),
        ) + b.last().push('\n')));
    }
}

proof fn lemma_lined_one(line: Seq<char>)
    ensures
        lined(seq![line]) == line.push('\n'),
{
    assert(seq![line].drop_last() =~= Seq::<Seq<char>>::empty());
    assert(lined(seq![line].drop_last()) =~= Seq::<char>::empty());
    assert(lined(seq![line]) =~= line.push('\n'));
}

/// Whether a text holds no line feed.
spec fn is_flat(s: Seq<char>) -> bool {
    forall|i: int| 0 <= i < s.len() ==> #[trigger] s[i] != '\n'
}

proof fn lemma_split_lines(lines: Seq<Seq<char>>)
    requires
        lines.len() > 0,
        forall|k: int| 0 <= k < lines.len() ==> is_flat(#[trigger] lines[k]),
    ensures
        split(lined(lines), '\n') == lines.push(Seq::empty()),
{
    let parts = lines.push(Seq::<char>::empty());
    lemma_lined_joined(lines);
    assert(parts.drop_last() =~= lines);
    assert(joined(parts, seq!['\n']) =~= lined(lines));
    assert forall|k: int| 0 <= k < parts.len() implies !(#[trigger] parts[k]).contains('\n') by {
        if k < lines.len() {
            assert(is_flat(lines[k]));
        }
    }
    split_undoes_join(parts, '\n');
}

proof fn lemma_lined_joined(lines: Seq<Seq<char>>)
    requires
        lines.len() > 0,
    ensures
        lined(lines) == joined(lines, seq!['\n']) + seq!['\n'],
    decreases lines.len(),
{
    let front = lines.drop_last();
    if lines.len() == 1 {
        assert(front =~= Seq::<Seq<char>>::empty());
        assert(lined(front) =~= Seq::<char>::empty());
        assert(lined(lines) =~= joined(lines, seq!['\n']) + seq!['\n']);
    } else {
        lemma_lined_joined(front);
        assert(lined(lines) =~= joined(lines, seq!['\n']) + seq!['\n']);
    }
}

/// The lines for some items, one item after another.
pub open spec fn lines_for<T>(items: Seq<T>, lines: spec_fn(T) -> Seq<Seq<char>>) -> Seq<Seq<char>>
    decreases items.len(),
{
    if items.len() == 0 {
        Seq::empty()
    } else {
        lines_for(items.drop_last(), lines) + lines(items.last())
    }
}

proof fn lemma_together_lined<T>(
    items: Seq<T>,
    text: spec_fn(T) -> Seq<char>,
    lines: spec_fn(T) -> Seq<Seq<char>>,
)
    requires
        forall|x: T| #[trigger] text(x) == lined(lines(x)),
    ensures
        together(items.map_values(text)) == lined(lines_for(items, lines)),
    decreases items.len(),
{
    if items.len() > 0 {
        let front = items.drop_last();
        lemma_together_lined(front, text, lines);
        assert(items.map_values(text).drop_last() =~= front.map_values(text));
        assert(items.map_values(text).last() == text(items.last()));
        lemma_lined_concat(lines_for(front, lines), lines(items.last()));
    }
}

// ---------------------------------------------------------------------------
// What lines export
// ---------------------------------------------------------------------------

/// Whether some lines are free of line feeds, export under the given names and
/// no others, and have no other statements that start as exports do.
spec fn exports_exactly(lines: Seq<Seq<char>>, names: Seq<Seq<char>>) -> bool {
    &&& forall|k: int| 0 <= k < lines.len() ==> is_flat(#[trigger] lines[k])
    &&& forall|k: int|
        0 <= k < lines.len() && starts_export(#[trigger] lines[k]) ==> exists|name: Seq<char>|
            exports_name(lines[k], name)
    &&& forall|name: Seq<char>| #[trigger] exports_in(lines, name) <==> names.contains(name)
}

proof fn lemma_concat_contains<T>(a: Seq<T>, b: Seq<T>, x: T)
    ensures
        (a + b).contains(x) <==> a.contains(x) || b.contains(x),
{
    if (a + b).contains(x) {
        let i = choose|i: int| 0 <= i < (a + b).len() && (a + b)[i] == x;
        if i < a.len() {
            assert(a[i] == x);
        } else {
            assert(b[i - a.len()] == x);
        }
    }
    if a.contains(x) {
        let i = choose|i: int| 0 <= i < a.len() && a[i] == x;
        assert((a + b)[i] == x);
    }
    if b.contains(x) {
        let i = choose|i: int| 0 <= i < b.len() && b[i] == x;
        assert((a + b)[a.len() + i] == x);
    }
}

proof fn lemma_exports_concat(
    a: Seq<Seq<char>>,
    m: Seq<Seq<char>>,
    b: Seq<Seq<char>>,
    n: Seq<Seq<char>>,
)
    requires
        exports_exactly(a, m),
        exports_exactly(b, n),
    ensures
        exports_exactly(a + b, m + n),
{
    let all = a + b;
    assert forall|k: int| 0 <= k < all.len() implies is_flat(#[trigger] all[k]) by {
        if k < a.len() {
            assert(all[k] == a[k]);
        } else {
            assert(all[k] == b[k - a.len()]);
        }
    }
    assert forall|k: int| 0 <= k < all.len() && starts_export(#[trigger] all[k]) implies exists|
        name: Seq<char>,
    | exports_name(all[k], name) by {
        if k < a.len() {
            assert(all[k] == a[k]);
        } else {
            assert(all[k] == b[k - a.len()]);
        }
    }
    assert forall|name: Seq<char>| #[trigger] exports_in(all, name) <==> (m + n).contains(
        name,
    ) by {
        lemma_concat_contains(m, n, name);
        assert(exports_in(a, name) <==> m.contains(name));
        assert(exports_in(b, name) <==> n.contains(name));
        if exports_in(all, name) {
            let k = choose|k: int| 0 <= k < all.len() && exports_name(#[trigger] all[k], name);
            if k < a.len() {
                assert(exports_name(a[k], name));
            } else {
                assert(exports_name(b[k - a.len()], name));
            }
        }
        if exports_in(a, name) {
            let k = choose|k: int| 0 <= k < a.len() && exports_name(#[trigger] a[k], name);
            assert(exports_name(all[k], name));
        }
        if exports_in(b, name) {
            let k = choose|k: int| 0 <= k < b.len() && exports_name(#[trigger] b[k], name);
            assert(exports_name(all[a.len() + k], name));
        }
    }
}

/// Whether a line does not start as export statements do.
spec fn is_plain(line: Seq<char>) -> bool {
    line.len() == 0 || line[0] != 'e' || line.len() < 7 || line[6] != ' '
}

proof fn lemma_export_marks()
    ensures
        "export "@.len() == 7,
        "export "@[0] == 'e',
        "export "@[6] == ' ',
        "export { "@.len() == 9,
        "export { "@.take(7) == "export "@,
        "export { "@[0] == 'e',
        "export { "@[6] == ' ',
        " };"@.len() == 3,
        " };"@[1] == '}',
        "\";"@.len() == 2,
        "\";"@[0] == '"',
        " as "@ == seq![' '] + "as "@,
        "as "@.len() == 3,
        " } from \""@ == seq![' '] + "} from \""@,
{
    reveal_strlit("export ");
    reveal_strlit("export { ");
    reveal_strlit(" };");
    reveal_strlit("\";");
    reveal_strlit(" as ");
    reveal_strlit("as ");
    reveal_strlit(" } from \"");
    reveal_strlit("} from \"");
    assert("export { "@.take(7) =~= "export "@);
    assert(" as "@ =~= seq![' '] + "as "@);
    assert(" } from \""@ =~= seq![' '] + "} from \""@);
}

proof fn lemma_plain_line(line: Seq<char>)
    requires
        is_plain(line),
        is_flat(line),
    ensures
        exports_exactly(seq![line], Seq::empty()),
{
    lemma_export_marks();
    let lines = seq![line];
    if starts_export(line) {
        assert(line.take(7)[0] == line[0] && line.take(7)[6] == line[6]);
    }
    assert forall|name: Seq<char>| !#[trigger] exports_in(lines, name) by {
        if exports_in(lines, name) {
            let k = choose|k: int| 0 <= k < lines.len() && exports_name(#[trigger] lines[k], name);
            assert(lines[k] == line);
            if line != export_statement(name) {
                let (local, path) = choose|local: Seq<char>, path: Seq<char>|
                    is_word(local) && line == #[trigger] reexport_statement(local, name, path);
                assert(line[0] == "export { "@[0] && line[6] == "export { "@[6]);
            } else {
                assert(line[0] == "export { "@[0] && line[6] == "export { "@[6]);
            }
        }
    }
    assert forall|name: Seq<char>| #[trigger] exports_in(lines, name) <==> Seq::<
        Seq<char>,
    >::empty().contains(name) by {}
}

/// An export statement ends otherwise than a reexport statement.
proof fn lemma_statements_differ(
    name: Seq<char>,
    local: Seq<char>,
    other: Seq<char>,
    path: Seq<char>,
)
    ensures
        export_statement(name) != reexport_statement(local, other, path),
{
    lemma_export_marks();
    let a = export_statement(name);
    let b = reexport_statement(local, other, path);
    assert(a[a.len() - 2] == '}');
    assert(b[b.len() - 2] == '"');
}

proof fn lemma_same_export(a: Seq<char>, b: Seq<char>)
    requires
        export_statement(a) == export_statement(b),
    ensures
        a == b,
{
    lemma_export_marks();
    let s = export_statement(a);
    assert(s.subrange(9, s.len() - 3) =~= a);
    assert(export_statement(b).subrange(9, s.len() - 3) =~= b);
}

proof fn lemma_same_reexport(
    local: Seq<char>,
    name: Seq<char>,
    path: Seq<char>,
    local2: Seq<char>,
    name2: Seq<char>,
    path2: Seq<char>,
)
    requires
        is_word(local),
        is_word(name),
        is_word(local2),
        is_word(name2),
        reexport_statement(local, name, path) == reexport_statement(local2, name2, path2),
    ensures
        name == name2,
{
    lemma_export_marks();
    let tail = "} from \""@ + path + "\";"@;
    let tail2 = "} from \""@ + path2 + "\";"@;
    let rest = "as "@ + (name.push(' ') + tail);
    let rest2 = "as "@ + (name2.push(' ') + tail2);
    let s = reexport_statement(local, name, path);
    assert(s.skip(9) =~= local.push(' ') + rest);
    assert(reexport_statement(local2, name2, path2).skip(9) =~= local2.push(' ') + rest2);
    lemma_split_at_first(local, ' ', rest);
    lemma_split_at_first(local2, ' ', rest2);
    assert(rest == rest2);
    assert(rest.skip(3) =~= name.push(' ') + tail);
    assert(rest2.skip(3) =~= name2.push(' ') + tail2);
    lemma_split_at_first(name, ' ', tail);
    lemma_split_at_first(name2, ' ', tail2);
}

proof fn lemma_export_line(name: Seq<char>)
    requires
        is_word(name),
        is_flat(export_statement(name)),
    ensures
        exports_exactly(seq![export_statement(name)], seq![name]),
{
    let line = export_statement(name);
    let lines = seq![line];
    assert(exports_name(lines[0], name));
    assert forall|other: Seq<char>| #[trigger] exports_in(lines, other) <==> seq![name].contains(
        other,
    ) by {
        if exports_in(lines, other) {
            let k = choose|k: int|
                0 <= k < lines.len() && exports_name(#[trigger] lines[k], other);
            if line == export_statement(other) {
                lemma_same_export(name, other);
            } else {
                let (local, path) = choose|local: Seq<char>, path: Seq<char>|
                    is_word(local) && line == #[trigger] reexport_statement(local, other, path);
                lemma_statements_differ(name, local, other, path);
            }
            assert(seq![name][0] == other);
        }
    }
}

proof fn lemma_reexport_line(local: Seq<char>, name: Seq<char>, path: Seq<char>)
    requires
        is_word(local),
        is_word(name),
        is_flat(reexport_statement(local, name, path)),
    ensures
        exports_exactly(seq![reexport_statement(local, name, path)], seq![name]),
{
    let line = reexport_statement(local, name, path);
    let lines = seq![line];
    assert(exports_name(lines[0], name));
    assert forall|other: Seq<char>| #[trigger] exports_in(lines, other) <==> seq![name].contains(
        other,
    ) by {
        if exports_in(lines, other) {
            let k = choose|k: int|
                0 <= k < lines.len() && exports_name(#[trigger] lines[k], other);
            if line == export_statement(other) {
                lemma_statements_differ(other, local, name, path);
            } else {
                let (local2, path2) = choose|local2: Seq<char>, path2: Seq<char>|
                    is_word(local2) && line == #[trigger] reexport_statement(local2, other, path2);
                lemma_same_reexport(local, name, path, local2, other, path2);
            }
            assert(seq![name][0] == other);
        }
    }
}

/// Lines for items that each export under one name.
proof fn lemma_exports_for<T>(
    items: Seq<T>,
    lines: spec_fn(T) -> Seq<Seq<char>>,
    name: spec_fn(T) -> Seq<char>,
)
    requires
        forall|x: T| exports_exactly(#[trigger] lines(x), seq![name(x)]),
    ensures
        exports_exactly(lines_for(items, lines), items.map_values(name)),
    decreases items.len(),
{
    if items.len() > 0 {
        let front = items.drop_last();
        let x = items.last();
        lemma_exports_for(front, lines, name);
        lemma_exports_concat(
            lines_for(front, lines),
            front.map_values(name),
            lines(x),
            seq![name(x)],
        );
        assert(items.map_values(name) =~= front.map_values(name) + seq![name(x)]);
    } else {
        lemma_no_lines();
        assert(items.map_values(name) =~= Seq::<Seq<char>>::empty());
    }
}

/// Lines for items that export nothing.
proof fn lemma_no_exports_for<T>(items: Seq<T>, lines: spec_fn(T) -> Seq<Seq<char>>)
    requires
        forall|x: T| exports_exactly(#[trigger] lines(x), Seq::empty()),
    ensures
        exports_exactly(lines_for(items, lines), Seq::empty()),
    decreases items.len(),
{
    lemma_no_lines();
    if items.len() > 0 {
        let front = items.drop_last();
        let nothing = Seq::<Seq<char>>::empty();
        lemma_no_exports_for(front, lines);
        lemma_exports_concat(lines_for(front, lines), nothing, lines(items.last()), nothing);
        assert(nothing + nothing =~= nothing);
    }
}

proof fn lemma_no_lines()
    ensures
        exports_exactly(Seq::empty(), Seq::empty()),
{
    assert forall|name: Seq<char>| !#[trigger] exports_in(Seq::empty(), name) by {}
    assert forall|name: Seq<char>| #[trigger] exports_in(Seq::empty(), name) <==> Seq::<
        Seq<char>,
    >::empty().contains(name) by {}
}

// ---------------------------------------------------------------------------
// The lines of a module
// ---------------------------------------------------------------------------

proof fn lemma_flat_literals()
    ensures
        is_flat("const "@),
        is_flat(" = require(\"./"@),
        is_flat("\");"@),
        is_flat("exports."@),
        is_flat(" = "@),
        is_flat(";"@),
        is_flat("export { "@),
        is_flat(" };"@),
        is_flat(" as "@),
        is_flat(" } from \""@),
        is_flat("./"@),
        is_flat("import * as "@),
        is_flat(" from \"./"@),
        is_flat("\";"@),
        is_flat("var "@),
        is_flat(".ref = "@),
        is_flat("void require(\""@),
        is_flat("void import(\""@),
        is_flat(" = require(\""@),
        is_flat("import "@),
        is_flat(" from \""@),
        is_flat("globalThis."@),
        is_flat("globalThis.__acyclic_output_fuzz_"@),
        is_flat("_"@),
        is_flat(" = {};"@),
        is_flat(".value = "@),
        is_flat("imported_"@),
        is_flat("use_"@),
        is_flat("reexport_"@),
        is_flat("node_"@),
        is_flat("dn_cjs_"@),
        is_flat("use_dn_"@),
        is_flat("__use_dn_"@),
        is_flat("node"@),
        is_flat(".cjs"@),
        is_flat(".js"@),
        is_flat("external-"@),
        is_flat("dn_"@),
{
    reveal_strlit("const ");
    reveal_strlit(" = require(\"./");
    reveal_strlit("\");");
    reveal_strlit("exports.");
    reveal_strlit(" = ");
    reveal_strlit(";");
    reveal_strlit("export { ");
    reveal_strlit(" };");
    reveal_strlit(" as ");
    reveal_strlit(" } from \"");
    reveal_strlit("./");
    reveal_strlit("import * as ");
    reveal_strlit(" from \"./");
    reveal_strlit("\";");
    reveal_strlit("var ");
    reveal_strlit(".ref = ");
    reveal_strlit("void require(\"");
    reveal_strlit("void import(\"");
    reveal_strlit(" = require(\"");
    reveal_strlit("import ");
    reveal_strlit(" from \"");
    reveal_strlit("globalThis.");
    reveal_strlit("globalThis.__acyclic_output_fuzz_");
    reveal_strlit("_");
    reveal_strlit(" = {};");
    reveal_strlit(".value = ");
    reveal_strlit("imported_");
    reveal_strlit("use_");
    reveal_strlit("reexport_");
    reveal_strlit("node_");
    reveal_strlit("dn_cjs_");
    reveal_strlit("use_dn_");
    reveal_strlit("__use_dn_");
    reveal_strlit("node");
    reveal_strlit(".cjs");
    reveal_strlit(".js");
    reveal_strlit("external-");
    reveal_strlit("dn_");
}

proof fn lemma_line_ends()
    ensures
        "\");\n"@ == "\");"@.push('\n'),
        "\";\n"@ == "\";"@.push('\n'),
        ";\n"@ == ";"@.push('\n'),
        " };\n"@ == " };"@.push('\n'),
        " = {};\n"@ == " = {};"@.push('\n'),
        " } from \"./"@ == " } from \""@ + "./"@,
{
    reveal_strlit("\");\n");
    reveal_strlit("\");");
    reveal_strlit("\";\n");
    reveal_strlit("\";");
    reveal_strlit(";\n");
    reveal_strlit(";");
    reveal_strlit(" };\n");
    reveal_strlit(" };");
    reveal_strlit(" = {};\n");
    reveal_strlit(" = {};");
    reveal_strlit(" } from \"./");
    reveal_strlit(" } from \"");
    reveal_strlit("./");
    assert("\");\n"@ =~= "\");"@.push('\n'));
    assert("\";\n"@ =~= "\";"@.push('\n'));
    assert(";\n"@ =~= ";"@.push('\n'));
    assert(" };\n"@ =~= " };"@.push('\n'));
    assert(" = {};\n"@ =~= " = {};"@.push('\n'));
    assert(" } from \"./"@ =~= " } from \""@ + "./"@);
}

proof fn lemma_first_chars()
    ensures
        "const "@.len() > 0 && "const "@[0] == 'c',
        "import * as "@.len() > 0 && "import * as "@[0] == 'i',
        "var "@.len() > 0 && "var "@[0] == 'v',
        "use_"@.len() > 0 && "use_"@[0] == 'u',
        "void require(\""@.len() > 0 && "void require(\""@[0] == 'v',
        "void import(\""@.len() > 0 && "void import(\""@[0] == 'v',
        "import "@.len() > 0 && "import "@[0] == 'i',
        "globalThis."@.len() > 0 && "globalThis."@[0] == 'g',
        "globalThis.__acyclic_output_fuzz_"@.len() > 0 && "globalThis.__acyclic_output_fuzz_"@[0] == 'g',
        "node_"@.len() > 0 && "node_"@[0] == 'n',
        "exports."@.len() > 6 && "exports."@[6] == 's',
{
    reveal_strlit("const ");
    reveal_strlit("import * as ");
    reveal_strlit("var ");
    reveal_strlit("use_");
    reveal_strlit("void require(\"");
    reveal_strlit("void import(\"");
    reveal_strlit("import ");
    reveal_strlit("globalThis.");
    reveal_strlit("globalThis.__acyclic_output_fuzz_");
    reveal_strlit("node_");
    reveal_strlit("exports.");
}

proof fn lemma_flat_number(n: nat)
    ensures
        is_flat(decimal(n)),
        !decimal(n).contains(' '),
{
    decimal_reads_back(n, n);
    assert forall|i: int| 0 <= i < decimal(n).len() implies #[trigger] decimal(n)[i] != '\n'
        && decimal(n)[i] != ' ' by {
        assert(is_digit(decimal(n)[i]));
    }
}

proof fn lemma_flat_pair(prefix: Seq<char>, a: usize, b: usize)
    requires
        is_flat(prefix),
    ensures
        is_flat(pair_name(prefix, a, b)),
{
    lemma_flat_literals();
    lemma_flat_number(a as nat);
    lemma_flat_number(b as nat);
}

proof fn lemma_flat_file(case: CaseModel, index: usize)
    ensures
        is_flat(filename(case, index)),
{
    lemma_flat_literals();
    lemma_flat_number(index as nat);
}

proof fn lemma_flat_external(ext: usize, variant: u8)
    ensures
        is_flat(external_name(ext)),
        is_flat(external_default_name(ext, variant)),
{
    lemma_flat_literals();
    lemma_flat_number(ext as nat);
    lemma_flat_number(variant as nat);
}

/// The exported names are words.
proof fn lemma_names_are_words(from: usize, to: usize)
    ensures
        is_word(node_name(to)),
        is_word(use_name(from, to)),
        is_word(reexport_name(from, to)),
        is_flat(node_name(to)),
        is_flat(use_name(from, to)),
        is_flat(reexport_name(from, to)),
{
    lemma_flat_literals();
    lemma_flat_number(from as nat);
    lemma_flat_number(to as nat);
    reveal_strlit("_");
    reveal_strlit("use_");
    reveal_strlit("reexport_");
    reveal_strlit("node_");
    let (f, t) = (decimal(from as nat), decimal(to as nat));
    assert forall|i: int| 0 <= i < f.len() implies #[trigger] f[i] != ' ' by {
        assert(f.contains(f[i]));
    }
    assert forall|i: int| 0 <= i < t.len() implies #[trigger] t[i] != ' ' by {
        assert(t.contains(t[i]));
    }
    assert forall|i: int| 0 <= i < node_name(to).len() implies node_name(to)[i] != ' ' by {}
    assert forall|i: int| 0 <= i < use_name(from, to).len() implies use_name(from, to)[i]
        != ' ' by {}
    assert forall|i: int| 0 <= i < reexport_name(from, to).len() implies reexport_name(from, to)[i]
        != ' ' by {}
}

/// The line that every module starts with.
pub open spec fn header_line(from: usize) -> Seq<char> {
    "globalThis.__acyclic_output_fuzz_"@ + decimal(from as nat) + " = "@ + decimal(from as nat)
        + ";"@
}

proof fn lemma_header(from: usize)
    ensures
        header_text(from) == lined(seq![header_line(from)]),
        exports_exactly(seq![header_line(from)], Seq::empty()),
{
    lemma_line_ends();
    lemma_lined_one(header_line(from));
    assert(header_text(from) =~= header_line(from).push('\n'));
    lemma_flat_literals();
    lemma_first_chars();
    lemma_flat_number(from as nat);
    lemma_plain_line(header_line(from));
}

/// Two lines without exports.
proof fn lemma_two_plain(a: Seq<char>, b: Seq<char>)
    requires
        is_plain(a),
        is_flat(a),
        is_plain(b),
        is_flat(b),
    ensures
        exports_exactly(seq![a, b], Seq::empty()),
        lined(seq![a, b]) == a.push('\n') + b.push('\n'),
{
    let nothing = Seq::<Seq<char>>::empty();
    lemma_plain_line(a);
    lemma_plain_line(b);
    lemma_exports_concat(seq![a], nothing, seq![b], nothing);
    assert(nothing + nothing =~= nothing);
    assert(seq![a] + seq![b] =~= seq![a, b]);
    lemma_lined_concat(seq![a], seq![b]);
    lemma_lined_one(a);
    lemma_lined_one(b);
}

/// The static import of a CommonJS module.
pub open spec fn required_lines(case: CaseModel, from: usize, to: usize) -> Seq<Seq<char>> {
    let imported = pair_name("imported_"@, from, to);
    seq![
        "const "@ + imported + " = require(\"./"@ + filename(case, to) + "\");"@,
        "exports."@ + use_name(from, to) + " = "@ + imported + ";"@,
    ]
}

proof fn lemma_required(case: CaseModel, from: usize, to: usize)
    requires
        case.is_cjs(from),
    ensures
        static_import_text(case, from, to) == lined(required_lines(case, from, to)),
        exports_exactly(required_lines(case, from, to), Seq::empty()),
{
    lemma_flat_literals();
    lemma_first_chars();
    lemma_flat_pair("imported_"@, from, to);
    lemma_names_are_words(from, to);
    lemma_flat_file(case, to);
    let lines = required_lines(case, from, to);
    assert(lines[1][6] == "exports."@[6]);
    lemma_two_plain(lines[0], lines[1]);
    assert(lines =~= seq![lines[0], lines[1]]);
    lemma_line_ends();
    assert(static_import_text(case, from, to) =~= lines[0].push('\n') + lines[1].push('\n'));
}

/// The static import of an ES module.
pub open spec fn imported_lines(case: CaseModel, from: usize, to: usize) -> Seq<Seq<char>> {
    let imported = pair_name("imported_"@, from, to);
    let used = use_name(from, to);
    if case.reexports(from, to) {
        seq![
            reexport_statement(node_name(to), reexport_name(from, to), "./"@ + filename(case, to)),
        ]
    } else {
        seq![
            "import * as "@ + imported + " from \"./"@ + filename(case, to) + "\";"@,
            "var "@ + used + " = "@ + imported + ";"@,
        ] + seq![used + ".ref = "@ + decimal(from as nat) + ";"@] + seq![export_statement(used)]
    }
}

proof fn lemma_reexported(case: CaseModel, from: usize, to: usize)
    requires
        !case.is_cjs(from),
        case.reexports(from, to),
    ensures
        static_import_text(case, from, to) == lined(imported_lines(case, from, to)),
        exports_exactly(imported_lines(case, from, to), seq![reexport_name(from, to)]),
{
    lemma_flat_literals();
    lemma_names_are_words(from, to);
    lemma_flat_file(case, to);
    let path = "./"@ + filename(case, to);
    let line = reexport_statement(node_name(to), reexport_name(from, to), path);
    assert(is_flat(path));
    assert(is_flat(line));
    lemma_reexport_line(node_name(to), reexport_name(from, to), path);
    lemma_lined_one(line);
    lemma_line_ends();
    assert(static_import_text(case, from, to) =~= line.push('\n'));
}

proof fn lemma_imported_flat(case: CaseModel, from: usize, to: usize)
    requires
        !case.reexports(from, to),
    ensures
        imported_lines(case, from, to).len() == 4,
        forall|k: int| 0 <= k < 4 ==> is_flat(#[trigger] imported_lines(case, from, to)[k]),
        forall|k: int| 0 <= k < 3 ==> is_plain(#[trigger] imported_lines(case, from, to)[k]),
{
    lemma_flat_literals();
    lemma_first_chars();
    lemma_flat_pair("imported_"@, from, to);
    lemma_names_are_words(from, to);
    lemma_flat_file(case, to);
    lemma_flat_number(from as nat);
    let lines = imported_lines(case, from, to);
    assert(is_flat(lines[0]) && lines[0][0] == "import * as "@[0]);
    assert(is_flat(lines[1]) && lines[1][0] == "var "@[0]);
    assert(is_flat(lines[2]) && lines[2][0] == "use_"@[0]);
    assert(is_flat(lines[3]));
}

proof fn lemma_imported_text(case: CaseModel, from: usize, to: usize)
    requires
        !case.is_cjs(from),
        !case.reexports(from, to),
    ensures
        static_import_text(case, from, to) == ({
            let lines = imported_lines(case, from, to);
            lines[0].push('\n') + lines[1].push('\n') + lines[2].push('\n') + lines[3].push('\n')
        }),
{
    lemma_line_ends();
    let lines = imported_lines(case, from, to);
    assert(static_import_text(case, from, to) =~= lines[0].push('\n') + lines[1].push('\n')
        + lines[2].push('\n') + lines[3].push('\n'));
}

proof fn lemma_imported(case: CaseModel, from: usize, to: usize)
    requires
        !case.is_cjs(from),
        !case.reexports(from, to),
    ensures
        static_import_text(case, from, to) == lined(imported_lines(case, from, to)),
        exports_exactly(imported_lines(case, from, to), seq![use_name(from, to)]),
{
    lemma_imported_flat(case, from, to);
    lemma_imported_text(case, from, to);
    lemma_names_are_words(from, to);
    let nothing = Seq::<Seq<char>>::empty();
    let used = use_name(from, to);
    let lines = imported_lines(case, from, to);
    let pair = seq![lines[0], lines[1]];
    let third = seq![lines[2]];
    let fourth = seq![lines[3]];
    assert(lines =~= pair + third + fourth);
    lemma_two_plain(lines[0], lines[1]);
    lemma_plain_line(lines[2]);
    lemma_export_line(used);
    lemma_exports_concat(pair, nothing, third, nothing);
    assert(nothing + nothing =~= nothing);
    lemma_exports_concat(pair + third, nothing, fourth, seq![used]);
    assert(nothing + seq![used] =~= seq![used]);
    lemma_lined_concat(pair, third);
    lemma_lined_concat(pair + third, fourth);
    lemma_lined_one(lines[2]);
    lemma_lined_one(lines[3]);
}

/// A statement that loads `path` while a module runs.
pub open spec fn load_statement(cjs: bool, path: Seq<char>) -> Seq<char> {
    (if cjs {
        "void require(\""@
    } else {
        "void import(\""@
    }) + path + "\");"@
}

proof fn lemma_load(cjs: bool, path: Seq<char>)
    requires
        is_flat(path),
    ensures
        load_line(cjs, path) == lined(seq![load_statement(cjs, path)]),
        exports_exactly(seq![load_statement(cjs, path)], Seq::empty()),
{
    lemma_flat_literals();
    lemma_first_chars();
    let line = load_statement(cjs, path);
    assert(is_flat(line));
    assert(line[0] == 'v');
    lemma_plain_line(line);
    lemma_lined_one(line);
    lemma_line_ends();
    assert(load_line(cjs, path) =~= line.push('\n'));
}

/// The default import of an external module.
pub open spec fn default_lines(case: CaseModel, from: usize, ext: usize, variant: u8) -> Seq<Seq<char>> {
    let name = external_name(ext);
    if case.is_cjs(from) {
        let local = pair_name("dn_cjs_"@, from, ext);
        seq![
            "const "@ + local + " = require(\""@ + name + "\");"@,
            "exports."@ + pair_name("use_dn_"@, from, ext) + " = "@ + local + ";"@,
        ]
    } else {
        let local = external_default_name(ext, variant);
        seq![
            "import "@ + local + " from \""@ + name + "\";"@,
            "globalThis."@ + pair_name("__use_dn_"@, from, ext) + "_"@ + decimal(variant as nat)
                + " = "@ + local + ";"@,
        ]
    }
}

proof fn lemma_default(case: CaseModel, from: usize, ext: usize, variant: u8)
    ensures
        default_import_text(case, from, ext, variant) == lined(
            default_lines(case, from, ext, variant),
        ),
        exports_exactly(default_lines(case, from, ext, variant), Seq::empty()),
{
    lemma_flat_literals();
    lemma_first_chars();
    lemma_flat_pair("dn_cjs_"@, from, ext);
    lemma_flat_pair("use_dn_"@, from, ext);
    lemma_flat_pair("__use_dn_"@, from, ext);
    lemma_flat_external(ext, variant);
    lemma_flat_number(variant as nat);
    let lines = default_lines(case, from, ext, variant);
    assert(is_flat(lines[0]));
    assert(is_flat(lines[1]));
    if case.is_cjs(from) {
        assert(lines[0][0] == "const "@[0]);
        assert(lines[1][6] == "exports."@[6]);
    } else {
        assert(lines[0][0] == "import "@[0]);
        assert(lines[1][0] == "globalThis."@[0]);
    }
    lemma_two_plain(lines[0], lines[1]);
    assert(lines =~= seq![lines[0], lines[1]]);
    lemma_line_ends();
    assert(default_import_text(case, from, ext, variant) =~= lines[0].push('\n')
        + lines[1].push('\n'));
}

/// The lines that export the value of a module.
pub open spec fn footer_lines(case: CaseModel, from: usize) -> Seq<Seq<char>> {
    let name = node_name(from);
    if case.is_cjs(from) {
        seq!["exports."@ + name + " = "@ + decimal(from as nat) + ";"@]
    } else {
        seq!["var "@ + name + " = {};"@, name + ".value = "@ + decimal(from as nat) + ";"@]
            + seq![export_statement(name)]
    }
}

/// The exports of the end of a module.
spec fn footer_names(case: CaseModel, from: usize) -> Seq<Seq<char>> {
    if case.is_cjs(from) {
        Seq::empty()
    } else {
        seq![node_name(from)]
    }
}

proof fn lemma_footer(case: CaseModel, from: usize)
    ensures
        footer_text(case, from) == lined(footer_lines(case, from)),
        exports_exactly(footer_lines(case, from), footer_names(case, from)),
{
    lemma_flat_literals();
    lemma_first_chars();
    lemma_names_are_words(from, from);
    lemma_flat_number(from as nat);
    lemma_line_ends();
    let name = node_name(from);
    let nothing = Seq::<Seq<char>>::empty();
    if case.is_cjs(from) {
        let line = "exports."@ + name + " = "@ + decimal(from as nat) + ";"@;
        assert(is_flat(line));
        assert(line[6] == "exports."@[6]);
        lemma_plain_line(line);
        lemma_lined_one(line);
        assert(footer_text(case, from) =~= line.push('\n'));
    } else {
        let first = "var "@ + name + " = {};"@;
        let second = name + ".value = "@ + decimal(from as nat) + ";"@;
        let third = export_statement(name);
        assert(is_flat(first));
        assert(is_flat(second));
        assert(is_flat(third));
        assert(second[0] == "node_"@[0]);
        lemma_two_plain(first, second);
        lemma_export_line(name);
        lemma_exports_concat(seq![first, second], nothing, seq![third], seq![name]);
        assert(nothing + seq![name] =~= seq![name]);
        lemma_lined_concat(seq![first, second], seq![third]);
        lemma_lined_one(third);
        assert(footer_text(case, from) =~= first.push('\n') + second.push('\n')
            + third.push('\n'));
    }
}

// ---------------------------------------------------------------------------
// The law
// ---------------------------------------------------------------------------

/// The lines of the static imports of a module.
pub open spec fn static_lines(case: CaseModel, from: usize) -> Seq<Seq<char>> {
    if case.is_cjs(from) {
        lines_for(
            outgoing(case.static_edges, from),
            |to: usize| required_lines(case, from, to),
        )
    } else {
        lines_for(
            outgoing(case.static_edges, from),
            |to: usize| imported_lines(case, from, to),
        )
    }
}

/// The exports of the static imports of a module.
spec fn static_names(case: CaseModel, from: usize) -> Seq<Seq<char>> {
    if case.is_cjs(from) {
        Seq::empty()
    } else {
        outgoing(case.static_edges, from).map_values(
            |to: usize| import_export_name(case, from, to),
        )
    }
}

proof fn lemma_static(case: CaseModel, from: usize)
    ensures
        static_imports_text(case, from) == lined(static_lines(case, from)),
        exports_exactly(static_lines(case, from), static_names(case, from)),
{
    let targets = outgoing(case.static_edges, from);
    let text = |to: usize| static_import_text(case, from, to);
    if case.is_cjs(from) {
        let lines = |to: usize| required_lines(case, from, to);
        assert forall|to: usize| #[trigger] text(to) == lined(lines(to)) by {
            lemma_required(case, from, to);
        }
        assert forall|to: usize| exports_exactly(#[trigger] lines(to), Seq::empty()) by {
            lemma_required(case, from, to);
        }
        lemma_together_lined(targets, text, lines);
        lemma_no_exports_for(targets, lines);
    } else {
        let lines = |to: usize| imported_lines(case, from, to);
        let name = |to: usize| import_export_name(case, from, to);
        assert forall|to: usize| #[trigger] text(to) == lined(lines(to)) by {
            if case.reexports(from, to) {
                lemma_reexported(case, from, to);
            } else {
                lemma_imported(case, from, to);
            }
        }
        assert forall|to: usize| exports_exactly(#[trigger] lines(to), seq![name(to)]) by {
            if case.reexports(from, to) {
                lemma_reexported(case, from, to);
            } else {
                lemma_imported(case, from, to);
            }
        }
        lemma_together_lined(targets, text, lines);
        lemma_exports_for(targets, lines, name);
    }
}

/// The lines of the dynamic imports of a module.
pub open spec fn dynamic_lines(case: CaseModel, from: usize) -> Seq<Seq<char>> {
    lines_for(
        outgoing(case.dynamic_edges, from),
        |to: usize| seq![load_statement(case.is_cjs(from), "./"@ + filename(case, to))],
    )
}

proof fn lemma_dynamic(case: CaseModel, from: usize)
    ensures
        dynamic_imports_text(case, from) == lined(dynamic_lines(case, from)),
        exports_exactly(dynamic_lines(case, from), Seq::empty()),
{
    let targets = outgoing(case.dynamic_edges, from);
    let text = |to: usize| load_line(case.is_cjs(from), "./"@ + filename(case, to));
    let lines = |to: usize| seq![load_statement(case.is_cjs(from), "./"@ + filename(case, to))];
    assert forall|to: usize| #[trigger] text(to) == lined(lines(to)) by {
        lemma_flat_literals();
        lemma_flat_file(case, to);
        lemma_load(case.is_cjs(from), "./"@ + filename(case, to));
    }
    assert forall|to: usize| exports_exactly(#[trigger] lines(to), Seq::empty()) by {
        lemma_flat_literals();
        lemma_flat_file(case, to);
        lemma_load(case.is_cjs(from), "./"@ + filename(case, to));
    }
    lemma_together_lined(targets, text, lines);
    lemma_no_exports_for(targets, lines);
}

/// The lines of the dynamic imports of external modules.
pub open spec fn external_lines(case: CaseModel, from: usize) -> Seq<Seq<char>> {
    lines_for(
        outgoing(case.external_dynamic_edges, from),
        |ext: usize| seq![load_statement(case.is_cjs(from), external_name(ext))],
    )
}

proof fn lemma_external(case: CaseModel, from: usize)
    ensures
        external_imports_text(case, from) == lined(external_lines(case, from)),
        exports_exactly(external_lines(case, from), Seq::empty()),
{
    let targets = outgoing(case.external_dynamic_edges, from);
    let text = |ext: usize| load_line(case.is_cjs(from), external_name(ext));
    let lines = |ext: usize| seq![load_statement(case.is_cjs(from), external_name(ext))];
    assert forall|ext: usize| #[trigger] text(ext) == lined(lines(ext)) by {
        lemma_flat_external(ext, 0);
        lemma_load(case.is_cjs(from), external_name(ext));
    }
    assert forall|ext: usize| exports_exactly(#[trigger] lines(ext), Seq::empty()) by {
        lemma_flat_external(ext, 0);
        lemma_load(case.is_cjs(from), external_name(ext));
    }
    lemma_together_lined(targets, text, lines);
    lemma_no_exports_for(targets, lines);
}

/// The lines of the default imports of a module.
pub open spec fn all_default_lines(case: CaseModel, from: usize) -> Seq<Seq<char>> {
    lines_for(
        default_outgoing(case.external_static_default_edges, from),
        |d: (usize, u8)| default_lines(case, from, d.0, d.1),
    )
}

proof fn lemma_defaults(case: CaseModel, from: usize)
    ensures
        default_imports_text(case, from) == lined(all_default_lines(case, from)),
        exports_exactly(all_default_lines(case, from), Seq::empty()),
{
    let targets = default_outgoing(case.external_static_default_edges, from);
    let text = |d: (usize, u8)| default_import_text(case, from, d.0, d.1);
    let lines = |d: (usize, u8)| default_lines(case, from, d.0, d.1);
    assert forall|d: (usize, u8)| #[trigger] text(d) == lined(lines(d)) by {
        lemma_default(case, from, d.0, d.1);
    }
    assert forall|d: (usize, u8)| exports_exactly(#[trigger] lines(d), Seq::empty()) by {
        lemma_default(case, from, d.0, d.1);
    }
    lemma_together_lined(targets, text, lines);
    lemma_no_exports_for(targets, lines);
}

/// The lines of a module.
pub open spec fn source_lines(case: CaseModel, from: usize) -> Seq<Seq<char>> {
    seq![header_line(from)] + static_lines(case, from) + dynamic_lines(case, from)
        + external_lines(case, from) + all_default_lines(case, from) + footer_lines(case, from)
}

proof fn lemma_source(case: CaseModel, from: usize)
    ensures
        source_text(case, from) == lined(source_lines(case, from)),
        exports_exactly(
            source_lines(case, from),
            static_names(case, from) + footer_names(case, from),
        ),
{
    let nothing = Seq::<Seq<char>>::empty();
    let names = static_names(case, from);
    let l1 = seq![header_line(from)];
    let l2 = l1 + static_lines(case, from);
    let l3 = l2 + dynamic_lines(case, from);
    let l4 = l3 + external_lines(case, from);
    let l5 = l4 + all_default_lines(case, from);
    lemma_header(from);
    lemma_static(case, from);
    lemma_dynamic(case, from);
    lemma_external(case, from);
    lemma_defaults(case, from);
    lemma_footer(case, from);
    assert(nothing + names =~= names);
    assert(names + nothing =~= names);
    lemma_exports_concat(l1, nothing, static_lines(case, from), names);
    lemma_exports_concat(l2, names, dynamic_lines(case, from), nothing);
    lemma_exports_concat(l3, names, external_lines(case, from), nothing);
    lemma_exports_concat(l4, names, all_default_lines(case, from), nothing);
    lemma_exports_concat(l5, names, footer_lines(case, from), footer_names(case, from));
    lemma_lined_concat(l1, static_lines(case, from));
    lemma_lined_concat(l2, dynamic_lines(case, from));
    lemma_lined_concat(l3, external_lines(case, from));
    lemma_lined_concat(l4, all_default_lines(case, from));
    lemma_lined_concat(l5, footer_lines(case, from));
}

/// The source of a module is its lines, each ended by a line feed.
pub proof fn lemma_source_split(case: CaseModel, from: usize)
    ensures
        split(source_text(case, from), '\n') == source_lines(case, from).push(Seq::empty()),
{
    lemma_source(case, from);
    lemma_split_lines(source_lines(case, from));
}

/// The export statements in the source of a module export under the names that
/// are expected of it and under no others; a CommonJS module, of which none are
/// expected, has no export statement. Every line that starts as an export
/// statement is one.
pub proof fn sources_export_exactly_what_is_expected(case: CaseModel, node: usize)
    ensures
        ({
            let lines = split(source_text(case, node), '\n');
            &&& forall|name: Seq<char>| #[trigger]
                exports_in(lines, name) <==> expected_exports(case, node).contains(name)
            &&& forall|k: int|
                0 <= k < lines.len() && starts_export(#[trigger] lines[k]) ==> exists|
                    name: Seq<char>,
                | exports_name(lines[k], name)
        }),
{
    let nothing = Seq::<char>::empty();
    let none = Seq::<Seq<char>>::empty();
    let names = static_names(case, node) + footer_names(case, node);
    let lines = source_lines(case, node);
    lemma_source(case, node);
    lemma_split_lines(lines);
    lemma_plain_line(nothing);
    lemma_exports_concat(lines, names, seq![nothing], none);
    assert(lines.push(nothing) =~= lines + seq![nothing]);
    assert(names + none =~= names);
    assert forall|name: Seq<char>| #[trigger]
        names.contains(name) <==> expected_exports(case, node).contains(name) by {
        lemma_concat_contains(static_names(case, node), footer_names(case, node), name);
        if !case.is_cjs(node) {
            expected_exports_are_those_made(case, node, name);
            lemma_concat_contains(seq![node_name(node)], static_names(case, node), name);
        }
    }
}

} // verus!
