//! A case read from its own text is the case again.
use crate::case::{signatures_index, CaseModel, PreserveEntrySignatures};
use crate::case_parse::{case_read, field_read, segment_read, segments_read, FieldsModel};
use crate::case_spec::{
    all_read, case_text, edge_list_text, edge_read, edge_text, edges_read, external_read,
    external_text, flag_read, flag_text, names_nothing, node_list_text, node_read, nodes_read,
    triplet_list_text, triplet_read, triplet_text, triplets_read,
};
use crate::text::{
    decimal, decimal_reads_back, is_digit, joined, lemma_split_at_first, parsed_unsigned, split,
    split_undoes_join,
};
use crate::tidy_laws::{cases_read_are_well_formed, fields_of, tidying_keeps_well_formed_cases};
use vstd::prelude::*;

verus! {

// ---------------------------------------------------------------------------
// What values are made of
// ---------------------------------------------------------------------------

/// The characters that values are written with: digits, what separates
/// numbers, and the letters of `none`.
spec fn is_value_char(c: char) -> bool {
    is_digit(c) || c == ',' || c == '-' || c == ':' || c == 'n' || c == 'o' || c == 'e'
}

spec fn is_value(s: Seq<char>) -> bool {
    forall|i: int| 0 <= i < s.len() ==> is_value_char(#[trigger] s[i])
}

proof fn lemma_marks()
    ensures
        ","@ == seq![','],
        "-"@ == seq!['-'],
        ":"@ == seq![':'],
        is_value(","@),
        is_value("-"@),
        is_value(":"@),
        is_value("none"@),
        "none"@.len() == 4,
        "none"@[0] == 'n',
{
    reveal_strlit(",");
    reveal_strlit("-");
    reveal_strlit(":");
    reveal_strlit("none");
    assert(","@ =~= seq![',']);
    assert("-"@ =~= seq!['-']);
    assert(":"@ =~= seq![':']);
}

proof fn lemma_joined_is_value(parts: Seq<Seq<char>>, sep: Seq<char>)
    requires
        forall|i: int| 0 <= i < parts.len() ==> is_value(#[trigger] parts[i]),
        is_value(sep),
    ensures
        is_value(joined(parts, sep)),
    decreases parts.len(),
{
    if parts.len() > 1 {
        let front = parts.drop_last();
        assert forall|i: int| 0 <= i < front.len() implies is_value(#[trigger] front[i]) by {
            assert(front[i] == parts[i]);
        }
        lemma_joined_is_value(front, sep);
        assert(is_value(parts[parts.len() - 1]));
    } else if parts.len() == 1 {
        assert(is_value(parts[0]));
    }
}

proof fn lemma_joined_starts(parts: Seq<Seq<char>>, sep: Seq<char>)
    requires
        parts.len() > 0,
        parts[0].len() > 0,
    ensures
        joined(parts, sep).len() > 0,
        joined(parts, sep)[0] == parts[0][0],
    decreases parts.len(),
{
    if parts.len() > 1 {
        lemma_joined_starts(parts.drop_last(), sep);
    }
}

// ---------------------------------------------------------------------------
// Lists
// ---------------------------------------------------------------------------

proof fn lemma_all_read<T>(
    items: Seq<T>,
    write: spec_fn(T) -> Seq<char>,
    read: spec_fn(Seq<char>) -> Result<T, Seq<char>>,
)
    requires
        forall|i: int|
            0 <= i < items.len() ==> read(#[trigger] write(items[i])) == Ok::<T, Seq<char>>(
                items[i],
            ),
    ensures
        all_read(items.map_values(write), read) == Ok::<Seq<T>, Seq<char>>(items),
    decreases items.len(),
{
    let parts = items.map_values(write);
    if items.len() > 0 {
        let front = items.drop_last();
        assert forall|i: int| 0 <= i < front.len() implies read(#[trigger] write(front[i])) == Ok::<
            T,
            Seq<char>,
        >(front[i]) by {
            assert(front[i] == items[i]);
        }
        lemma_all_read(front, write, read);
        assert(parts.drop_last() =~= front.map_values(write));
        assert(parts.last() == write(items[items.len() - 1]));
        assert(front.push(items.last()) == items);
    } else {
        assert(items =~= Seq::<T>::empty());
    }
}

/// What holds of one written item of a list: it starts with a digit, is a
/// value without a comma, and reads back.
spec fn writes_item<T>(
    item: T,
    write: spec_fn(T) -> Seq<char>,
    read: spec_fn(Seq<char>) -> Result<T, Seq<char>>,
) -> bool {
    &&& write(item).len() > 0
    &&& is_digit(write(item)[0])
    &&& is_value(write(item))
    &&& !write(item).contains(',')
    &&& read(write(item)) == Ok::<T, Seq<char>>(item)
}

proof fn lemma_list<T>(
    items: Seq<T>,
    write: spec_fn(T) -> Seq<char>,
    read: spec_fn(Seq<char>) -> Result<T, Seq<char>>,
)
    requires
        items.len() > 0,
        forall|i: int| 0 <= i < items.len() ==> #[trigger] writes_item(items[i], write, read),
    ensures
        ({
            let value = joined(items.map_values(write), ","@);
            &&& is_value(value)
            &&& !names_nothing(value)
            &&& all_read(split(value, ','), read) == Ok::<Seq<T>, Seq<char>>(items)
        }),
{
    lemma_marks();
    let parts = items.map_values(write);
    assert forall|i: int| 0 <= i < parts.len() implies is_value(#[trigger] parts[i])
        && !parts[i].contains(',') by {
        assert(writes_item(items[i], write, read));
    }
    assert(writes_item(items[0], write, read));
    lemma_joined_is_value(parts, ","@);
    lemma_joined_starts(parts, ","@);
    split_undoes_join(parts, ',');
    assert forall|i: int| 0 <= i < items.len() implies read(#[trigger] write(items[i])) == Ok::<
        T,
        Seq<char>,
    >(items[i]) by {
        assert(writes_item(items[i], write, read));
    }
    lemma_all_read(items, write, read);
}

proof fn lemma_number(n: nat, max: nat)
    requires
        n <= max,
    ensures
        parsed_unsigned(decimal(n), max) == Some(n),
        decimal(n).len() > 0,
        is_digit(decimal(n)[0]),
        is_value(decimal(n)),
        !decimal(n).contains(','),
        !decimal(n).contains('-'),
        !decimal(n).contains(':'),
{
    decimal_reads_back(n, max);
    assert forall|c: char| decimal(n).contains(c) implies is_digit(c) by {
        let i = choose|i: int| 0 <= i < decimal(n).len() && decimal(n)[i] == c;
        assert(is_digit(decimal(n)[i]));
    }
}

/// A list of nodes reads back as it was.
pub proof fn node_lists_read_back(nodes: Seq<usize>)
    ensures
        nodes_read(node_list_text(nodes)) == Ok::<Seq<usize>, Seq<char>>(nodes),
{
    lemma_node_list(nodes);
}

proof fn lemma_node_list(nodes: Seq<usize>)
    ensures
        nodes_read(node_list_text(nodes)) == Ok::<Seq<usize>, Seq<char>>(nodes),
        is_value(node_list_text(nodes)),
{
    lemma_marks();
    if nodes.len() > 0 {
        let write = |n: usize| decimal(n as nat);
        let read = |part: Seq<char>| node_read(part);
        assert forall|i: int| 0 <= i < nodes.len() implies #[trigger] writes_item(
            nodes[i],
            write,
            read,
        ) by {
            lemma_number(nodes[i] as nat, usize::MAX as nat);
        }
        lemma_list(nodes, write, read);
    } else {
        assert(nodes =~= Seq::<usize>::empty());
    }
}

/// An edge reads back as it was.
pub proof fn edges_read_back(edge: (usize, usize))
    ensures
        edge_read(edge_text(edge)) == Ok::<(usize, usize), Seq<char>>(edge),
{
    lemma_marks();
    let a = decimal(edge.0 as nat);
    let b = decimal(edge.1 as nat);
    lemma_number(edge.0 as nat, usize::MAX as nat);
    lemma_number(edge.1 as nat, usize::MAX as nat);
    assert(edge_text(edge) =~= a.push('-') + b);
    lemma_split_at_first(a, '-', b);
}

/// A list of edges reads back as it was.
pub proof fn edge_lists_read_back(edges: Seq<(usize, usize)>)
    ensures
        edges_read(edge_list_text(edges)) == Ok::<Seq<(usize, usize)>, Seq<char>>(edges),
{
    lemma_edge_list(edges);
}

proof fn lemma_edge_list(edges: Seq<(usize, usize)>)
    ensures
        edges_read(edge_list_text(edges)) == Ok::<Seq<(usize, usize)>, Seq<char>>(edges),
        is_value(edge_list_text(edges)),
{
    lemma_marks();
    if edges.len() > 0 {
        let write = |e: (usize, usize)| edge_text(e);
        let read = |part: Seq<char>| edge_read(part);
        assert forall|i: int| 0 <= i < edges.len() implies #[trigger] writes_item(
            edges[i],
            write,
            read,
        ) by {
            let e = edges[i];
            lemma_number(e.0 as nat, usize::MAX as nat);
            lemma_number(e.1 as nat, usize::MAX as nat);
            edges_read_back(e);
            lemma_plus_free(decimal(e.0 as nat), "-"@, ',');
            lemma_plus_free(decimal(e.0 as nat) + "-"@, decimal(e.1 as nat), ',');
        }
        lemma_list(edges, write, read);
    } else {
        assert(edges =~= Seq::<(usize, usize)>::empty());
    }
}

proof fn lemma_plus_free(a: Seq<char>, b: Seq<char>, c: char)
    requires
        !a.contains(c),
        !b.contains(c),
    ensures
        !(a + b).contains(c),
{
    if (a + b).contains(c) {
        let i = choose|i: int| 0 <= i < (a + b).len() && (a + b)[i] == c;
        if i < a.len() {
            assert(a[i] == c);
        } else {
            assert(b[i - a.len()] == c);
        }
    }
}

/// A triplet reads back as it was.
pub proof fn triplets_read_back(triplet: (usize, usize, u8))
    ensures
        triplet_read(triplet_text(triplet)) == Ok::<(usize, usize, u8), Seq<char>>(triplet),
{
    lemma_marks();
    let a = decimal(triplet.0 as nat);
    let b = decimal(triplet.1 as nat);
    let c = decimal(triplet.2 as nat);
    lemma_number(triplet.0 as nat, usize::MAX as nat);
    lemma_number(triplet.1 as nat, usize::MAX as nat);
    lemma_number(triplet.2 as nat, u8::MAX as nat);
    let parts = seq![a, b, c];
    assert(parts.drop_last() =~= seq![a, b]);
    assert(seq![a, b].drop_last() =~= seq![a]);
    assert(joined(seq![a], "-"@) == a);
    assert(joined(seq![a, b], "-"@) == a + "-"@ + b);
    assert(joined(parts, "-"@) == triplet_text(triplet));
    split_undoes_join(parts, '-');
}

/// A list of triplets reads back as it was.
pub proof fn triplet_lists_read_back(triplets: Seq<(usize, usize, u8)>)
    ensures
        triplets_read(triplet_list_text(triplets)) == Ok::<Seq<(usize, usize, u8)>, Seq<char>>(
            triplets,
        ),
{
    lemma_triplet_list(triplets);
}

proof fn lemma_triplet_list(triplets: Seq<(usize, usize, u8)>)
    ensures
        triplets_read(triplet_list_text(triplets)) == Ok::<Seq<(usize, usize, u8)>, Seq<char>>(
            triplets,
        ),
        is_value(triplet_list_text(triplets)),
{
    lemma_marks();
    if triplets.len() > 0 {
        let write = |t: (usize, usize, u8)| triplet_text(t);
        let read = |part: Seq<char>| triplet_read(part);
        assert forall|i: int| 0 <= i < triplets.len() implies #[trigger] writes_item(
            triplets[i],
            write,
            read,
        ) by {
            let t = triplets[i];
            let a = decimal(t.0 as nat);
            let b = decimal(t.1 as nat);
            let c = decimal(t.2 as nat);
            lemma_number(t.0 as nat, usize::MAX as nat);
            lemma_number(t.1 as nat, usize::MAX as nat);
            lemma_number(t.2 as nat, u8::MAX as nat);
            triplets_read_back(t);
            lemma_plus_free(a, "-"@, ',');
            lemma_plus_free(a + "-"@, b, ',');
            lemma_plus_free(a + "-"@ + b, "-"@, ',');
            lemma_plus_free(a + "-"@ + b + "-"@, c, ',');
        }
        lemma_list(triplets, write, read);
    } else {
        assert(triplets =~= Seq::<(usize, usize, u8)>::empty());
    }
}

/// The number of external modules and the edges to them read back as they
/// were; where there is no external module, there must be no edge to one.
pub proof fn external_specs_read_back(count: usize, edges: Seq<(usize, usize)>)
    requires
        count == 0 ==> edges.len() == 0,
    ensures
        external_read(external_text(count, edges)) == Ok::<
            (usize, Seq<(usize, usize)>),
            Seq<char>,
        >((count, edges)),
{
    lemma_external(count, edges);
}

proof fn lemma_external(count: usize, edges: Seq<(usize, usize)>)
    requires
        count == 0 ==> edges.len() == 0,
    ensures
        external_read(external_text(count, edges)) == Ok::<
            (usize, Seq<(usize, usize)>),
            Seq<char>,
        >((count, edges)),
        is_value(external_text(count, edges)),
{
    lemma_marks();
    if count == 0 {
        assert(edges =~= Seq::<(usize, usize)>::empty());
    } else {
        let n = decimal(count as nat);
        lemma_number(count as nat, usize::MAX as nat);
        lemma_edge_list(edges);
        let value = external_text(count, edges);
        assert(value =~= n.push(':') + edge_list_text(edges));
        lemma_split_at_first(n, ':', edge_list_text(edges));
        assert(value[0] == n[0]);
        assert(!names_nothing(value));
    }
}

proof fn lemma_flag(flag: bool, what: Seq<char>)
    ensures
        flag_read(flag_text(flag), what) == Ok::<bool, Seq<char>>(flag),
        is_value(flag_text(flag)),
{
    lemma_number(1, 1);
    lemma_number(0, 1);
    reveal_strlit("1");
    reveal_strlit("0");
    reveal_strlit("true");
    assert(decimal(1) =~= "1"@);
    assert(decimal(0) =~= "0"@);
    assert("0"@[0] == '0');
    assert("1"@[0] == '1');
    assert("true"@.len() == 4);
}

// ---------------------------------------------------------------------------
// Segments
// ---------------------------------------------------------------------------

/// A field as `key=value`.
spec fn segment(key: Seq<char>, value: Seq<char>) -> Seq<char> {
    key.push('=') + value
}

proof fn lemma_segment(fields: FieldsModel, key: Seq<char>, value: Seq<char>)
    requires
        !key.contains('='),
    ensures
        segment_read(fields, segment(key, value)) == field_read(fields, key, value),
{
    lemma_split_at_first(key, '=', value);
}

/// The keys in the order in which a case is written.
spec fn key(k: int) -> Seq<char> {
    if k == 0 {
        "n"@
    } else if k == 1 {
        "e"@
    } else if k == 2 {
        "c"@
    } else if k == 3 {
        "s"@
    } else if k == 4 {
        "d"@
    } else if k == 5 {
        "r"@
    } else if k == 6 {
        "x"@
    } else if k == 7 {
        "xs"@
    } else if k == 8 {
        "p"@
    } else if k == 9 {
        "o"@
    } else if k == 10 {
        "t"@
    } else {
        "m"@
    }
}

/// What a case has under each key.
spec fn value(case: CaseModel, k: int) -> Seq<char> {
    if k == 0 {
        decimal(case.node_count as nat)
    } else if k == 1 {
        node_list_text(case.entry_nodes)
    } else if k == 2 {
        node_list_text(case.cjs_nodes)
    } else if k == 3 {
        edge_list_text(case.static_edges)
    } else if k == 4 {
        edge_list_text(case.dynamic_edges)
    } else if k == 5 {
        edge_list_text(case.reexport_static_edges)
    } else if k == 6 {
        external_text(case.external_module_count, case.external_dynamic_edges)
    } else if k == 7 {
        triplet_list_text(case.external_static_default_edges)
    } else if k == 8 {
        decimal(signatures_index(case.preserve_entry_signatures) as nat)
    } else if k == 9 {
        flag_text(case.strict_execution_order)
    } else if k == 10 {
        flag_text(case.treeshake)
    } else {
        flag_text(case.minify_internal_exports)
    }
}

/// The segments that a case is written as.
spec fn segments_of(case: CaseModel) -> Seq<Seq<char>> {
    Seq::new(12, |k: int| segment(key(k), value(case, k)))
}

proof fn lemma_keys()
    ensures
        "n"@.len() == 1 && "n"@[0] == 'n',
        "e"@.len() == 1 && "e"@[0] == 'e',
        "c"@.len() == 1 && "c"@[0] == 'c',
        "s"@.len() == 1 && "s"@[0] == 's',
        "d"@.len() == 1 && "d"@[0] == 'd',
        "r"@.len() == 1 && "r"@[0] == 'r',
        "x"@.len() == 1 && "x"@[0] == 'x',
        "xs"@.len() == 2 && "xs"@[0] == 'x',
        "p"@.len() == 1 && "p"@[0] == 'p',
        "o"@.len() == 1 && "o"@[0] == 'o',
        "t"@.len() == 1 && "t"@[0] == 't',
        "m"@.len() == 1 && "m"@[0] == 'm',
        "xs"@[1] == 's',
{
    reveal_strlit("n");
    reveal_strlit("e");
    reveal_strlit("c");
    reveal_strlit("s");
    reveal_strlit("d");
    reveal_strlit("r");
    reveal_strlit("x");
    reveal_strlit("xs");
    reveal_strlit("p");
    reveal_strlit("o");
    reveal_strlit("t");
    reveal_strlit("m");
}

proof fn lemma_key(k: int)
    requires
        0 <= k < 12,
    ensures
        !key(k).contains('='),
        !key(k).contains(';'),
{
    lemma_keys();
}

/// How the segment of each key starts in the text of a case.
spec fn lead(k: int) -> Seq<char> {
    if k == 0 {
        "n="@
    } else if k == 1 {
        ";e="@
    } else if k == 2 {
        ";c="@
    } else if k == 3 {
        ";s="@
    } else if k == 4 {
        ";d="@
    } else if k == 5 {
        ";r="@
    } else if k == 6 {
        ";x="@
    } else if k == 7 {
        ";xs="@
    } else if k == 8 {
        ";p="@
    } else if k == 9 {
        ";o="@
    } else if k == 10 {
        ";t="@
    } else {
        ";m="@
    }
}

proof fn lemma_lead(k: int)
    requires
        0 < k < 12,
    ensures
        lead(k) == seq![';'] + key(k).push('='),
{
    lemma_keys();
    reveal_strlit(";e=");
    reveal_strlit(";c=");
    reveal_strlit(";s=");
    reveal_strlit(";d=");
    reveal_strlit(";r=");
    reveal_strlit(";x=");
    reveal_strlit(";xs=");
    reveal_strlit(";p=");
    reveal_strlit(";o=");
    reveal_strlit(";t=");
    reveal_strlit(";m=");
    assert(lead(k) =~= seq![';'] + key(k).push('='));
}

proof fn lemma_first_lead()
    ensures
        "n="@ == "n"@.push('='),
{
    lemma_keys();
    reveal_strlit("n=");
    assert("n="@ =~= "n"@.push('='));
}

/// The text of a case up to its segment `k`.
spec fn text_up_to(case: CaseModel, k: int) -> Seq<char>
    decreases k,
{
    if k <= 0 {
        lead(0) + value(case, 0)
    } else {
        text_up_to(case, k - 1) + lead(k) + value(case, k)
    }
}

proof fn lemma_text_up_to(case: CaseModel, k: int)
    requires
        0 <= k < 12,
    ensures
        joined(segments_of(case).take(k + 1), seq![';']) == text_up_to(case, k),
    decreases k,
{
    let shorter = segments_of(case).take(k);
    let longer = segments_of(case).take(k + 1);
    assert(longer.last() == segment(key(k), value(case, k)));
    if k == 0 {
        lemma_first_lead();
    } else {
        lemma_text_up_to(case, k - 1);
        lemma_lead(k);
        assert(longer.drop_last() == shorter);
        let before = text_up_to(case, k - 1);
        assert(before + seq![';'] + segment(key(k), value(case, k)) =~= before + lead(k) + value(
            case,
            k,
        ));
    }
}

proof fn lemma_case_text(case: CaseModel)
    ensures
        case_text(case) == joined(segments_of(case), seq![';']),
{
    lemma_text_up_to(case, 11);
    assert(segments_of(case).take(12) =~= segments_of(case));
    reveal_with_fuel(text_up_to, 12);
}

proof fn lemma_value(case: CaseModel, k: int)
    requires
        0 <= k < 12,
        case.external_module_count == 0 ==> case.external_dynamic_edges.len() == 0,
    ensures
        is_value(value(case, k)),
{
    if k == 0 {
        lemma_number(case.node_count as nat, usize::MAX as nat);
    } else if k == 1 {
        lemma_node_list(case.entry_nodes);
    } else if k == 2 {
        lemma_node_list(case.cjs_nodes);
    } else if k == 3 {
        lemma_edge_list(case.static_edges);
    } else if k == 4 {
        lemma_edge_list(case.dynamic_edges);
    } else if k == 5 {
        lemma_edge_list(case.reexport_static_edges);
    } else if k == 6 {
        lemma_external(case.external_module_count, case.external_dynamic_edges);
    } else if k == 7 {
        lemma_triplet_list(case.external_static_default_edges);
    } else if k == 8 {
        lemma_number(signatures_index(case.preserve_entry_signatures) as nat, u8::MAX as nat);
    } else if k == 9 {
        lemma_flag(case.strict_execution_order, "invalid strictExecutionOrder"@);
    } else if k == 10 {
        lemma_flag(case.treeshake, "invalid treeshake"@);
    } else {
        lemma_flag(case.minify_internal_exports, "invalid minifyInternalExports"@);
    }
}

proof fn lemma_segment_whole(case: CaseModel, k: int)
    requires
        0 <= k < 12,
        case.external_module_count == 0 ==> case.external_dynamic_edges.len() == 0,
    ensures
        !segment(key(k), value(case, k)).contains(';'),
{
    lemma_key(k);
    lemma_value(case, k);
    let s = segment(key(k), value(case, k));
    if s.contains(';') {
        let i = choose|i: int| 0 <= i < s.len() && s[i] == ';';
        if i < key(k).len() {
            assert(key(k)[i] == ';');
        } else if i > key(k).len() {
            assert(is_value_char(value(case, k)[i - key(k).len() - 1]));
        }
    }
}

proof fn lemma_split_case(case: CaseModel)
    requires
        case.external_module_count == 0 ==> case.external_dynamic_edges.len() == 0,
    ensures
        split(case_text(case), ';') == segments_of(case),
{
    let segments = segments_of(case);
    assert forall|i: int| 0 <= i < segments.len() implies !(#[trigger] segments[i]).contains(
        ';',
    ) by {
        lemma_segment_whole(case, i);
    }
    lemma_case_text(case);
    split_undoes_join(segments, ';');
}

/// What is read of a case from its first `k` segments.
spec fn fields_after(case: CaseModel, k: int) -> FieldsModel {
    let all = fields_of(case);
    FieldsModel {
        node_count: if k > 0 {
            all.node_count
        } else {
            None
        },
        entries: if k > 1 {
            all.entries
        } else {
            None
        },
        cjs_nodes: if k > 2 {
            all.cjs_nodes
        } else {
            None
        },
        static_edges: if k > 3 {
            all.static_edges
        } else {
            None
        },
        dynamic_edges: if k > 4 {
            all.dynamic_edges
        } else {
            None
        },
        reexport_edges: if k > 5 {
            all.reexport_edges
        } else {
            None
        },
        external: if k > 6 {
            all.external
        } else {
            None
        },
        default_edges: if k > 7 {
            all.default_edges
        } else {
            None
        },
        preserve_index: if k > 8 {
            all.preserve_index
        } else {
            None
        },
        strict_execution_order: if k > 9 {
            all.strict_execution_order
        } else {
            None
        },
        treeshake: if k > 10 {
            all.treeshake
        } else {
            None
        },
        minify_internal_exports: if k > 11 {
            all.minify_internal_exports
        } else {
            None
        },
    }
}

proof fn lemma_field(case: CaseModel, k: int)
    requires
        0 <= k < 12,
        case.external_module_count == 0 ==> case.external_dynamic_edges.len() == 0,
    ensures
        field_read(fields_after(case, k), key(k), value(case, k)) == Ok::<FieldsModel, Seq<char>>(
            fields_after(case, k + 1),
        ),
{
    lemma_keys();
    if k == 0 {
        lemma_number(case.node_count as nat, usize::MAX as nat);
    } else if k == 1 {
        lemma_node_list(case.entry_nodes);
    } else if k == 2 {
        lemma_node_list(case.cjs_nodes);
    } else if k == 3 {
        lemma_edge_list(case.static_edges);
    } else if k == 4 {
        lemma_edge_list(case.dynamic_edges);
    } else if k == 5 {
        lemma_edge_list(case.reexport_static_edges);
    } else if k == 6 {
        lemma_external(case.external_module_count, case.external_dynamic_edges);
    } else if k == 7 {
        lemma_triplet_list(case.external_static_default_edges);
    } else if k == 8 {
        lemma_number(signatures_index(case.preserve_entry_signatures) as nat, u8::MAX as nat);
    } else if k == 9 {
        lemma_flag(case.strict_execution_order, "invalid strictExecutionOrder"@);
    } else if k == 10 {
        lemma_flag(case.treeshake, "invalid treeshake"@);
    } else {
        lemma_flag(case.minify_internal_exports, "invalid minifyInternalExports"@);
    }
}

proof fn lemma_segments_read(case: CaseModel, k: int)
    requires
        0 <= k <= 12,
        case.external_module_count == 0 ==> case.external_dynamic_edges.len() == 0,
    ensures
        segments_read(segments_of(case).take(k)) == Ok::<FieldsModel, Seq<char>>(
            fields_after(case, k),
        ),
    decreases k,
{
    let longer = segments_of(case).take(k);
    if k == 0 {
        assert(longer =~= Seq::<Seq<char>>::empty());
    } else {
        lemma_segments_read(case, k - 1);
        assert(longer.drop_last() == segments_of(case).take(k - 1));
        assert(longer.last() == segment(key(k - 1), value(case, k - 1)));
        lemma_key(k - 1);
        lemma_segment(fields_after(case, k - 1), key(k - 1), value(case, k - 1));
        lemma_field(case, k - 1);
    }
}

// ---------------------------------------------------------------------------
// The laws
// ---------------------------------------------------------------------------

/// A well-formed case, read from its text with its seed, is the case again:
/// what a failure prints is enough to get its case back.
pub proof fn cases_read_back(case: CaseModel)
    requires
        case.well_formed(),
    ensures
        case_read(case.seed, case_text(case)) == Ok::<CaseModel, Seq<char>>(case),
{
    assert(case.external_module_count == 0 ==> case.external_dynamic_edges.len() == 0) by {
        if case.external_dynamic_edges.len() > 0 {
            assert(case.external_dynamic_edges[0].1 < case.external_module_count);
        }
    }
    lemma_split_case(case);
    lemma_segments_read(case, 12);
    assert(segments_of(case).take(12) =~= segments_of(case));
    tidying_keeps_well_formed_cases(case);
}

proof fn lemma_joined_free(parts: Seq<Seq<char>>, sep: Seq<char>, c: char)
    requires
        forall|i: int| 0 <= i < parts.len() ==> !(#[trigger] parts[i]).contains(c),
        !sep.contains(c),
    ensures
        !joined(parts, sep).contains(c),
    decreases parts.len(),
{
    if parts.len() > 1 {
        let front = parts.drop_last();
        assert forall|i: int| 0 <= i < front.len() implies !(#[trigger] front[i]).contains(c) by {
            assert(front[i] == parts[i]);
        }
        lemma_joined_free(front, sep, c);
        assert(!parts[parts.len() - 1].contains(c));
        lemma_plus_free(joined(front, sep), sep, c);
        lemma_plus_free(joined(front, sep) + sep, parts.last(), c);
    } else if parts.len() == 1 {
        assert(!parts[0].contains(c));
    }
}

/// The text of a well-formed case holds no single quote: it can stand between
/// single quotes in a command.
pub proof fn case_texts_can_be_quoted(case: CaseModel)
    requires
        case.well_formed(),
    ensures
        !case_text(case).contains('\''),
{
    assert(case.external_module_count == 0 ==> case.external_dynamic_edges.len() == 0) by {
        if case.external_dynamic_edges.len() > 0 {
            assert(case.external_dynamic_edges[0].1 < case.external_module_count);
        }
    }
    let segments = segments_of(case);
    assert forall|k: int| 0 <= k < segments.len() implies !(#[trigger] segments[k]).contains(
        '\'',
    ) by {
        lemma_value(case, k);
        lemma_keys();
        assert(!key(k).push('=').contains('\''));
        assert(!value(case, k).contains('\''));
        lemma_plus_free(key(k).push('='), value(case, k), '\'');
    }
    assert(!seq![';'].contains('\''));
    lemma_joined_free(segments, seq![';'], '\'');
    lemma_case_text(case);
}

/// Well-formed cases with the same text and seed are the same.
pub proof fn texts_tell_cases_apart(a: CaseModel, b: CaseModel)
    requires
        a.well_formed(),
        b.well_formed(),
        a.seed == b.seed,
        case_text(a) == case_text(b),
    ensures
        a == b,
{
    cases_read_back(a);
    cases_read_back(b);
}

/// Writing a case that was read and reading it again changes nothing.
pub proof fn reading_settles(seed: u64, case_spec: Seq<char>)
    ensures
        case_read(seed, case_spec) matches Ok(case) ==> case_read(seed, case_text(case)) == Ok::<
            CaseModel,
            Seq<char>,
        >(case),
{
    cases_read_are_well_formed(seed, case_spec);
    if let Ok(case) = case_read(seed, case_spec) {
        cases_read_back(case);
    }
}

/// The text of a case has a segment for each of its parts, in a fixed order
/// and each under its own key: the nodes, the entries, the CommonJS modules,
/// the static, the dynamic and the reexporting edges, the external modules, the
/// default imports, and the four settings, where `1` is on and `0` is off.
pub proof fn case_texts_have_a_segment_for_each_part(case: CaseModel)
    requires
        case.external_module_count == 0 ==> case.external_dynamic_edges.len() == 0,
    ensures
        ({
            let parts = split(case_text(case), ';');
            &&& parts.len() == 12
            &&& parts[0] == "n="@ + decimal(case.node_count as nat)
            &&& parts[1] == "e="@ + node_list_text(case.entry_nodes)
            &&& parts[2] == "c="@ + node_list_text(case.cjs_nodes)
            &&& parts[3] == "s="@ + edge_list_text(case.static_edges)
            &&& parts[4] == "d="@ + edge_list_text(case.dynamic_edges)
            &&& parts[5] == "r="@ + edge_list_text(case.reexport_static_edges)
            &&& parts[6] == "x="@ + external_text(
                case.external_module_count,
                case.external_dynamic_edges,
            )
            &&& parts[7] == "xs="@ + triplet_list_text(case.external_static_default_edges)
            &&& parts[8] == (match case.preserve_entry_signatures {
                PreserveEntrySignatures::AllowExtension => "p=0"@,
                PreserveEntrySignatures::Strict => "p=1"@,
                PreserveEntrySignatures::ExportsOnly => "p=2"@,
                PreserveEntrySignatures::False => "p=3"@,
            })
            &&& parts[9] == if case.strict_execution_order {
                "o=1"@
            } else {
                "o=0"@
            }
            &&& parts[10] == if case.treeshake {
                "t=1"@
            } else {
                "t=0"@
            }
            &&& parts[11] == if case.minify_internal_exports {
                "m=1"@
            } else {
                "m=0"@
            }
        }),
{
    lemma_split_case(case);
    let parts = segments_of(case);
    lemma_key_literals();
    lemma_digit_literals();
    assert(parts[0] =~= "n="@ + decimal(case.node_count as nat));
    assert(parts[1] =~= "e="@ + node_list_text(case.entry_nodes));
    assert(parts[2] =~= "c="@ + node_list_text(case.cjs_nodes));
    assert(parts[3] =~= "s="@ + edge_list_text(case.static_edges));
    assert(parts[4] =~= "d="@ + edge_list_text(case.dynamic_edges));
    assert(parts[5] =~= "r="@ + edge_list_text(case.reexport_static_edges));
    assert(parts[6] =~= "x="@ + external_text(
        case.external_module_count,
        case.external_dynamic_edges,
    ));
    assert(parts[7] =~= "xs="@ + triplet_list_text(case.external_static_default_edges));
}

proof fn lemma_key_literals()
    ensures
        "n="@ == "n"@.push('='),
        "e="@ == "e"@.push('='),
        "c="@ == "c"@.push('='),
        "s="@ == "s"@.push('='),
        "d="@ == "d"@.push('='),
        "r="@ == "r"@.push('='),
        "x="@ == "x"@.push('='),
        "xs="@ == "xs"@.push('='),
{
    lemma_keys();
    reveal_strlit("n=");
    reveal_strlit("e=");
    reveal_strlit("c=");
    reveal_strlit("s=");
    reveal_strlit("d=");
    reveal_strlit("r=");
    reveal_strlit("x=");
    reveal_strlit("xs=");
    assert("n="@ =~= "n"@.push('='));
    assert("e="@ =~= "e"@.push('='));
    assert("c="@ =~= "c"@.push('='));
    assert("s="@ =~= "s"@.push('='));
    assert("d="@ =~= "d"@.push('='));
    assert("r="@ =~= "r"@.push('='));
    assert("x="@ =~= "x"@.push('='));
    assert("xs="@ =~= "xs"@.push('='));
}

proof fn lemma_digit_literals()
    ensures
        "p=0"@ == segment("p"@, decimal(0)),
        "p=1"@ == segment("p"@, decimal(1)),
        "p=2"@ == segment("p"@, decimal(2)),
        "p=3"@ == segment("p"@, decimal(3)),
        "o=0"@ == segment("o"@, decimal(0)),
        "o=1"@ == segment("o"@, decimal(1)),
        "t=0"@ == segment("t"@, decimal(0)),
        "t=1"@ == segment("t"@, decimal(1)),
        "m=0"@ == segment("m"@, decimal(0)),
        "m=1"@ == segment("m"@, decimal(1)),
{
    lemma_keys();
    reveal_strlit("p=0");
    reveal_strlit("p=1");
    reveal_strlit("p=2");
    reveal_strlit("p=3");
    reveal_strlit("o=0");
    reveal_strlit("o=1");
    reveal_strlit("t=0");
    reveal_strlit("t=1");
    reveal_strlit("m=0");
    reveal_strlit("m=1");
    assert("p=0"@ =~= segment("p"@, decimal(0)));
    assert("p=1"@ =~= segment("p"@, decimal(1)));
    assert("p=2"@ =~= segment("p"@, decimal(2)));
    assert("p=3"@ =~= segment("p"@, decimal(3)));
    assert("o=0"@ =~= segment("o"@, decimal(0)));
    assert("o=1"@ =~= segment("o"@, decimal(1)));
    assert("t=0"@ =~= segment("t"@, decimal(0)));
    assert("t=1"@ =~= segment("t"@, decimal(1)));
    assert("m=0"@ =~= segment("m"@, decimal(0)));
    assert("m=1"@ =~= segment("m"@, decimal(1)));
}

/// Lists are written with commas between their items, an edge with a dash
/// between its ends and a triplet with dashes between its numbers; a list
/// without items is written `none`, as are external modules where there are
/// none.
pub proof fn lists_are_written_item_by_item(
    nodes: Seq<usize>,
    edges: Seq<(usize, usize)>,
    triplets: Seq<(usize, usize, u8)>,
    count: usize,
    k: int,
)
    ensures
        nodes.len() == 0 ==> node_list_text(nodes) == "none"@,
        edges.len() == 0 ==> edge_list_text(edges) == "none"@,
        triplets.len() == 0 ==> triplet_list_text(triplets) == "none"@,
        count == 0 ==> external_text(count, edges) == "none"@,
        count > 0 ==> external_text(count, edges) == decimal(count as nat) + ":"@ + edge_list_text(
            edges,
        ),
        0 <= k < nodes.len() ==> split(node_list_text(nodes), ',').len() == nodes.len() && split(
            node_list_text(nodes),
            ',',
        )[k] == decimal(nodes[k] as nat),
        0 <= k < edges.len() ==> split(edge_list_text(edges), ',').len() == edges.len() && split(
            edge_list_text(edges),
            ',',
        )[k] == decimal(edges[k].0 as nat) + "-"@ + decimal(edges[k].1 as nat),
        0 <= k < triplets.len() ==> split(triplet_list_text(triplets), ',').len() == triplets.len()
            && split(triplet_list_text(triplets), ',')[k] == decimal(triplets[k].0 as nat) + "-"@
            + decimal(triplets[k].1 as nat) + "-"@ + decimal(triplets[k].2 as nat),
{
    reveal_strlit(",");
    assert(","@ =~= seq![',']);
    lemma_comma_free();
    if 0 <= k < nodes.len() {
        let parts = nodes.map_values(|n: usize| decimal(n as nat));
        assert forall|i: int| 0 <= i < parts.len() implies !(#[trigger] parts[i]).contains(
            ',',
        ) by {}
        split_undoes_join(parts, ',');
    }
    if 0 <= k < edges.len() {
        let parts = edges.map_values(|e: (usize, usize)| edge_text(e));
        assert forall|i: int| 0 <= i < parts.len() implies !(#[trigger] parts[i]).contains(
            ',',
        ) by {}
        split_undoes_join(parts, ',');
    }
    if 0 <= k < triplets.len() {
        let parts = triplets.map_values(|t: (usize, usize, u8)| triplet_text(t));
        assert forall|i: int| 0 <= i < parts.len() implies !(#[trigger] parts[i]).contains(
            ',',
        ) by {}
        split_undoes_join(parts, ',');
    }
}

proof fn lemma_comma_free()
    ensures
        forall|n: nat| !(#[trigger] decimal(n)).contains(','),
        forall|e: (usize, usize)| !(#[trigger] edge_text(e)).contains(','),
        forall|t: (usize, usize, u8)| !(#[trigger] triplet_text(t)).contains(','),
{
    reveal_strlit("-");
    assert forall|n: nat| !(#[trigger] decimal(n)).contains(',') by {
        decimal_reads_back(n, n);
        if decimal(n).contains(',') {
            let i = choose|i: int| 0 <= i < decimal(n).len() && decimal(n)[i] == ',';
            assert(is_digit(decimal(n)[i]));
        }
    }
    assert(!"-"@.contains(','));
    assert forall|e: (usize, usize)| !(#[trigger] edge_text(e)).contains(',') by {
        lemma_plus_free(decimal(e.0 as nat), "-"@, ',');
        lemma_plus_free(decimal(e.0 as nat) + "-"@, decimal(e.1 as nat), ',');
    }
    assert forall|t: (usize, usize, u8)| !(#[trigger] triplet_text(t)).contains(',') by {
        let a = decimal(t.0 as nat) + "-"@;
        let b = a + decimal(t.1 as nat);
        lemma_plus_free(decimal(t.0 as nat), "-"@, ',');
        lemma_plus_free(a, decimal(t.1 as nat), ',');
        lemma_plus_free(b, "-"@, ',');
        lemma_plus_free(b + "-"@, decimal(t.2 as nat), ',');
    }
}

} // verus!
