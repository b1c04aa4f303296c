//! Checking that entry chunks keep the exports of their modules.
use crate::case::{
    filename, is_cjs_node, module_filename, CaseModel, GraphCase, PreserveEntrySignatures,
};
use crate::order::{
    in_order, is_order, lemma_sorting_mapped, rank, sort_ranked, sorted, sorting_orders,
};
use crate::output::{
    chunks_among, first_among, lemma_among_take, lemma_complaint_stays, lemma_none_among,
    BundleOutput, ChunkModel, Output, OutputChunk,
};
use crate::render::{
    edge_reexports, edges_lead_to_their_ends, node_name, outgoing, outgoing_nodes, own_name, paired_name, reexport_name,
    use_name,
};
use crate::text::{
    bracket, bracketed, decimal, decimal_text, ends_with, has_text, lemma_texts_push,
    text_at_most, text_ends_with, text_order_is_total, texts,
};
use vstd::prelude::*;

verus! {

// ---------------------------------------------------------------------------
// What is expected
// ---------------------------------------------------------------------------

/// The name under which a module exports what a static edge brings in.
pub open spec fn import_export_name(case: CaseModel, from: usize, to: usize) -> Seq<char> {
    if case.reexports(from, to) {
        reexport_name(from, to)
    } else {
        use_name(from, to)
    }
}

/// The lexicographic order of texts.
pub open spec fn by_text() -> spec_fn(Seq<char>, Seq<char>) -> bool {
    |a: Seq<char>, b: Seq<char>| text_at_most(a, b)
}

/// The exports of a module in the order in which it makes them.
pub open spec fn exports_made(case: CaseModel, node: usize) -> Seq<Seq<char>> {
    seq![node_name(node)] + outgoing(case.static_edges, node).map_values(
        |to: usize| import_export_name(case, node, to),
    )
}

/// The exports that an entry chunk for `node` has to have, in order. None are
/// asked of a CommonJS module: what it exports shows only when it runs.
pub open spec fn expected_exports(case: CaseModel, node: usize) -> Seq<Seq<char>> {
    if case.is_cjs(node) {
        Seq::empty()
    } else {
        sorted(exports_made(case, node), by_text())
    }
}

/// The entry node that a chunk stands for, by the module that it is the facade
/// of: the first one whose file the module's name ends with.
pub open spec fn entry_among(case: CaseModel, entries: Seq<usize>, facade: Seq<char>) -> Option<
    usize,
>
    decreases entries.len(),
{
    if entries.len() == 0 {
        None
    } else if ends_with(facade, filename(case, entries[0])) {
        Some(entries[0])
    } else {
        entry_among(case, entries.skip(1), facade)
    }
}

/// The entry node that a chunk stands for, if it is an entry chunk.
pub open spec fn entry_of(case: CaseModel, chunk: ChunkModel) -> Option<usize> {
    if !chunk.is_entry {
        None
    } else {
        match chunk.facade_module_id {
            Some(id) => entry_among(case, case.entry_nodes, id),
            None => None,
        }
    }
}

/// The exports that are asked of a chunk and that it does not have.
pub open spec fn missing_from(expected: Seq<Seq<char>>, actual: Seq<Seq<char>>) -> Seq<Seq<char>>
    decreases expected.len(),
{
    if expected.len() == 0 {
        Seq::empty()
    } else {
        let before = missing_from(expected.drop_last(), actual);
        if actual.contains(expected.last()) {
            before
        } else {
            before.push(expected.last())
        }
    }
}

/// The different texts of a list, in the order in which they first occur.
pub open spec fn distinct(list: Seq<Seq<char>>) -> Seq<Seq<char>>
    decreases list.len(),
{
    if list.len() == 0 {
        Seq::empty()
    } else if list.drop_last().contains(list.last()) {
        distinct(list.drop_last())
    } else {
        distinct(list.drop_last()).push(list.last())
    }
}

// ---------------------------------------------------------------------------
// Messages
// ---------------------------------------------------------------------------

/// How `Debug` shows a string: between quotes, with special characters
/// escaped.
pub uninterp spec fn debug_text(s: Seq<char>) -> Seq<char>;

/// Formats a string with `{:?}`, that is with the `Debug` implementation of
/// `str`. It is taken to depend on the string alone; how it escapes the
/// characters of a string is left unsaid.
#[verifier::external_body]
fn debug_string(s: &str) -> (shown: String)
    ensures
        shown@ == debug_text(s@),
{
    format!("{:?}", s)
}

/// Texts as `Debug` shows them.
pub open spec fn debug_texts(items: Seq<Seq<char>>) -> Seq<Seq<char>> {
    items.map_values(|item: Seq<char>| debug_text(item))
}

/// That an entry chunk lacks exports, with the lists already written out.
pub open spec fn exports_message(
    file: Seq<char>,
    node: usize,
    missing: Seq<char>,
    expected: Seq<char>,
    actual: Seq<char>,
) -> Seq<char> {
    "Entry chunk '"@ + file + "' (node "@ + decimal(node as nat) + ") is missing exports: "@
        + missing + "\nExpected: "@ + expected + "\nActual: "@ + actual
}

/// That a chunk lacks exports of an entry node.
pub open spec fn missing_message(case: CaseModel, chunk: ChunkModel, node: usize) -> Seq<char> {
    let expected = expected_exports(case, node);
    exports_message(
        chunk.filename,
        node,
        bracketed("["@, debug_texts(missing_from(expected, chunk.exports)), "]"@),
        bracketed("["@, debug_texts(expected), "]"@),
        bracketed("{"@, debug_texts(distinct(chunk.exports)), "}"@),
    )
}

/// What is wrong with the exports of a chunk.
pub open spec fn exports_complaint(case: CaseModel, chunk: ChunkModel) -> Option<Seq<char>> {
    match entry_of(case, chunk) {
        Some(node) => if missing_from(expected_exports(case, node), chunk.exports).len() > 0 {
            Some(missing_message(case, chunk, node))
        } else {
            None
        },
        None => None,
    }
}

/// What is wrong with the exports of each chunk.
pub open spec fn exports_complaints(case: CaseModel) -> spec_fn(ChunkModel) -> Option<Seq<char>> {
    |chunk: ChunkModel| exports_complaint(case, chunk)
}

/// What checking the exports of an output gives. Only the strict setting keeps
/// the exports of entry chunks as they are.
pub open spec fn exports_verdict(case: CaseModel, chunks: Seq<ChunkModel>) -> Result<
    (),
    Seq<char>,
> {
    if case.preserve_entry_signatures != PreserveEntrySignatures::Strict {
        Ok(())
    } else {
        match first_among(chunks, exports_complaints(case)) {
            Some(message) => Err(message),
            None => Ok(()),
        }
    }
}

// ---------------------------------------------------------------------------
// Laws
// ---------------------------------------------------------------------------

proof fn lemma_by_text_is_order()
    ensures
        is_order(by_text()),
{
    let leq = by_text();
    assert forall|a: Seq<char>, b: Seq<char>| #[trigger] leq(a, b) || leq(b, a) by {
        text_order_is_total(a, b, a);
    }
    assert forall|a: Seq<char>, b: Seq<char>, c: Seq<char>| #[trigger]
        leq(a, b) && #[trigger] leq(b, c) implies leq(a, c) by {
        text_order_is_total(a, b, c);
    }
}

/// The exports that are reported as missing are exactly those that are
/// expected and not there, in the order in which they are expected.
pub proof fn missing_exports_are_expected_and_absent(
    expected: Seq<Seq<char>>,
    more: Seq<Seq<char>>,
    actual: Seq<Seq<char>>,
)
    ensures
        forall|name: Seq<char>| #[trigger]
            missing_from(expected, actual).contains(name) <==> expected.contains(name)
                && !actual.contains(name),
        missing_from(expected + more, actual) == missing_from(expected, actual) + missing_from(
            more,
            actual,
        ),
    decreases more.len(),
{
    lemma_missing(expected, actual);
    let none = Seq::<Seq<char>>::empty();
    if more.len() == 0 {
        assert(expected + more =~= expected);
        assert(missing_from(expected, actual) + none =~= missing_from(expected, actual));
    } else {
        let all = expected + more;
        missing_exports_are_expected_and_absent(expected, more.drop_last(), actual);
        assert(all.drop_last() =~= expected + more.drop_last());
        assert(missing_from(all, actual) =~= missing_from(expected, actual) + missing_from(
            more,
            actual,
        ));
    }
}

/// The different texts of a list are the texts of the list, each once.
pub proof fn different_texts_occur_once(list: Seq<Seq<char>>)
    ensures
        distinct(list).no_duplicates(),
        forall|name: Seq<char>| #[trigger] distinct(list).contains(name) <==> list.contains(name),
    decreases list.len(),
{
    if list.len() > 0 {
        let front = list.drop_last();
        let last = list.last();
        different_texts_occur_once(front);
        assert(front.push(last) =~= list);
        assert forall|name: Seq<char>| #[trigger] distinct(list).contains(name) <==> list.contains(
            name,
        ) by {
            lemma_pushed_contains(front, last, name);
            lemma_pushed_contains(distinct(front), last, name);
        }
        if !front.contains(last) {
            assert(!distinct(front).contains(last));
            let all = distinct(list);
            assert forall|i: int, j: int| 0 <= i < j < all.len() implies all[i] != all[j] by {
                if j == all.len() - 1 {
                    assert(distinct(front)[i] == all[i]);
                    assert(distinct(front).contains(all[i]));
                } else {
                    assert(distinct(front)[i] == all[i] && distinct(front)[j] == all[j]);
                }
            }
        }
    } else {
        assert(distinct(list) =~= list);
    }
}

proof fn lemma_missing(expected: Seq<Seq<char>>, actual: Seq<Seq<char>>)
    ensures
        forall|name: Seq<char>| #[trigger]
            missing_from(expected, actual).contains(name) <==> expected.contains(name)
                && !actual.contains(name),
    decreases expected.len(),
{
    if expected.len() > 0 {
        let front = expected.drop_last();
        let last = expected.last();
        lemma_missing(front, actual);
        let before = missing_from(front, actual);
        assert forall|name: Seq<char>| #[trigger]
            missing_from(expected, actual).contains(name) <==> expected.contains(name)
                && !actual.contains(name) by {
            lemma_pushed_contains(front, last, name);
            lemma_pushed_contains(before, last, name);
            assert(front.push(last) =~= expected);
        }
    }
}

proof fn lemma_pushed_contains<T>(s: Seq<T>, x: T, y: T)
    ensures
        s.push(x).contains(y) <==> s.contains(y) || x == y,
{
    if s.push(x).contains(y) {
        let i = choose|i: int| 0 <= i < s.push(x).len() && s.push(x)[i] == y;
        if i < s.len() {
            assert(s[i] == y);
        }
    }
    if s.contains(y) {
        let i = choose|i: int| 0 <= i < s.len() && s[i] == y;
        assert(s.push(x)[i] == y);
    }
    assert(s.push(x)[s.len() as int] == x);
}

proof fn lemma_entry_among(case: CaseModel, entries: Seq<usize>, facade: Seq<char>)
    ensures
        match entry_among(case, entries, facade) {
            Some(n) => exists|k: int|
                0 <= k < entries.len() && #[trigger] entries[k] == n && ends_with(
                    facade,
                    filename(case, n),
                ) && forall|j: int|
                    0 <= j < k ==> !ends_with(facade, filename(case, #[trigger] entries[j])),
            None => forall|k: int|
                0 <= k < entries.len() ==> !ends_with(
                    facade,
                    filename(case, #[trigger] entries[k]),
                ),
        },
    decreases entries.len(),
{
    if entries.len() > 0 && !ends_with(facade, filename(case, entries[0])) {
        let rest = entries.skip(1);
        lemma_entry_among(case, rest, facade);
        assert forall|j: int| 1 <= j < entries.len() implies #[trigger] entries[j] == rest[j - 1] by {}
        if let Some(n) = entry_among(case, rest, facade) {
            let k = choose|k: int|
                0 <= k < rest.len() && #[trigger] rest[k] == n && ends_with(
                    facade,
                    filename(case, n),
                ) && forall|j: int|
                    0 <= j < k ==> !ends_with(facade, filename(case, #[trigger] rest[j]));
            assert(entries[k + 1] == n);
            assert forall|j: int| 0 <= j < k + 1 implies !ends_with(
                facade,
                filename(case, #[trigger] entries[j]),
            ) by {
                if j > 0 {
                    assert(entries[j] == rest[j - 1]);
                }
            }
        } else {
            assert forall|j: int| 0 <= j < entries.len() implies !ends_with(
                facade,
                filename(case, #[trigger] entries[j]),
            ) by {
                if j > 0 {
                    assert(entries[j] == rest[j - 1]);
                }
            }
        }
    } else if entries.len() > 0 {
        assert(entries[0] == entries[0]);
    }
}

/// An entry chunk stands for an entry node whenever the module that it is the
/// facade of ends with the file of one, wherever that one stands in the list:
/// it stands for the first such node. It stands for none only where no entry
/// node has such a file.
pub proof fn entry_chunks_stand_for_the_first_match(
    case: CaseModel,
    chunk: ChunkModel,
    id: Seq<char>,
    k: int,
)
    requires
        chunk.is_entry,
        chunk.facade_module_id == Some(id),
        0 <= k < case.entry_nodes.len(),
    ensures
        ends_with(id, filename(case, case.entry_nodes[k])) ==> (entry_of(case, chunk) matches Some(
            n,
        ) && exists|first: int|
            0 <= first <= k && #[trigger] case.entry_nodes[first] == n && ends_with(
                id,
                filename(case, n),
            ) && forall|j: int|
                0 <= j < first ==> !ends_with(id, filename(case, #[trigger] case.entry_nodes[j]))),
        entry_of(case, chunk) is None ==> !ends_with(id, filename(case, case.entry_nodes[k])),
        entry_of(case, chunk) matches Some(n) ==> case.entry_nodes.contains(n) && ends_with(
            id,
            filename(case, n),
        ),
{
    let entries = case.entry_nodes;
    lemma_entry_among(case, entries, id);
    if let Some(n) = entry_of(case, chunk) {
        let first = choose|first: int|
            0 <= first < entries.len() && #[trigger] entries[first] == n && ends_with(
                id,
                filename(case, n),
            ) && forall|j: int|
                0 <= j < first ==> !ends_with(id, filename(case, #[trigger] entries[j]));
        if k < first {
            assert(!ends_with(id, filename(case, entries[k])));
        }
    }
}

/// A chunk that is no entry chunk, or the facade of no module, stands for no
/// entry node.
pub proof fn other_chunks_stand_for_no_entry(case: CaseModel, chunk: ChunkModel)
    requires
        !chunk.is_entry || chunk.facade_module_id is None,
    ensures
        entry_of(case, chunk) is None,
{
}

/// Under strict signatures an output passes only if each entry chunk has what
/// the module of its entry node exports: its own name, and for each static edge
/// the name of what the edge brings in.
pub proof fn passed_entries_export_their_names(
    case: CaseModel,
    chunks: Seq<ChunkModel>,
    c: int,
    n: usize,
)
    requires
        exports_verdict(case, chunks) is Ok,
        case.preserve_entry_signatures == PreserveEntrySignatures::Strict,
        0 <= c < chunks.len(),
        entry_of(case, chunks[c]) == Some(n),
        !case.is_cjs(n),
    ensures
        chunks[c].exports.contains("node_"@ + decimal(n as nat)),
        forall|k: int|
            0 <= k < case.static_edges.len() && (#[trigger] case.static_edges[k]).0 == n ==> {
                let to = case.static_edges[k].1;
                let pair = decimal(n as nat) + "_"@ + decimal(to as nat);
                chunks[c].exports.contains(
                    if case.reexport_static_edges.contains((n, to)) && !case.is_cjs(to) {
                        "reexport_"@ + pair
                    } else {
                        "use_"@ + pair
                    },
                )
            },
{
    outputs_pass_when_exports_are_kept(case, chunks);
    assert(keeps_exports(case, chunks[c]));
    let chunk = chunks[c];
    assert(entry_of(case, chunk) == Some(n));
    assert(entry_of(case, chunk) is Some);
    assert(entry_of(case, chunk)->0 == n);
    assert forall|name: Seq<char>| #[trigger]
        expected_exports(case, n).contains(name) implies chunk.exports.contains(name) by {
        let node = entry_of(case, chunk)->0;
        assert(keeps_exports(case, chunk));
        assert(expected_exports(case, node) == expected_exports(case, n));
        assert(expected_exports(case, node).contains(name));
    }
    let made = exports_made(case, n);
    assert(made[0] == "node_"@ + decimal(n as nat));
    assert(made.contains(made[0]));
    expected_exports_are_those_made(case, n, made[0]);
    assert(expected_exports(case, n).contains(made[0]));
    assert(chunks[c].exports.contains(made[0]));
    assert forall|k: int|
        0 <= k < case.static_edges.len() && (#[trigger] case.static_edges[k]).0 == n implies {
        let to = case.static_edges[k].1;
        let pair = decimal(n as nat) + "_"@ + decimal(to as nat);
        chunks[c].exports.contains(
            if case.reexport_static_edges.contains((n, to)) && !case.is_cjs(to) {
                "reexport_"@ + pair
            } else {
                "use_"@ + pair
            },
        )
    } by {
        let to = case.static_edges[k].1;
        edges_lead_to_their_ends(case.static_edges, n, to);
        assert(case.static_edges.contains((n, to)));
        let targets = outgoing(case.static_edges, n);
        let j = choose|j: int| 0 <= j < targets.len() && targets[j] == to;
        let name = import_export_name(case, n, to);
        assert(made[j + 1] == name);
        assert(made.contains(name));
        expected_exports_are_those_made(case, n, name);
        assert(expected_exports(case, n).contains(name));
        assert(chunks[c].exports.contains(name));
        let pair = decimal(n as nat) + "_"@ + decimal(to as nat);
        assert("reexport_"@ + pair =~= reexport_name(n, to));
        assert("use_"@ + pair =~= use_name(n, to));
    }
}

/// Whether a chunk has every export that is asked of it.
pub open spec fn keeps_exports(case: CaseModel, chunk: ChunkModel) -> bool {
    entry_of(case, chunk) matches Some(node) ==> forall|name: Seq<char>| #[trigger]
        expected_exports(case, node).contains(name) ==> chunk.exports.contains(name)
}

proof fn lemma_exports_complaint(case: CaseModel, chunk: ChunkModel)
    ensures
        exports_complaint(case, chunk) is None <==> keeps_exports(case, chunk),
{
    if let Some(node) = entry_of(case, chunk) {
        let expected = expected_exports(case, node);
        let missing = missing_from(expected, chunk.exports);
        lemma_missing(expected, chunk.exports);
        if missing.len() > 0 {
            assert(missing.contains(missing[0]));
        } else {
            assert forall|name: Seq<char>| #[trigger]
                expected.contains(name) implies chunk.exports.contains(name) by {
                assert(!missing.contains(name));
            }
        }
    }
}

/// An output passes exactly when signatures need not be kept strictly, or
/// every entry chunk has all the exports of its module.
pub proof fn outputs_pass_when_exports_are_kept(case: CaseModel, chunks: Seq<ChunkModel>)
    ensures
        exports_verdict(case, chunks) is Ok <==> (case.preserve_entry_signatures
            == PreserveEntrySignatures::Strict ==> forall|i: int|
            0 <= i < chunks.len() ==> keeps_exports(case, #[trigger] chunks[i])),
{
    lemma_none_among(chunks, exports_complaints(case));
    assert forall|i: int| 0 <= i < chunks.len() implies (keeps_exports(case, #[trigger] chunks[i])
        <==> exports_complaints(case)(chunks[i]) is None) by {
        lemma_exports_complaint(case, chunks[i]);
    }
}

/// The exports that are expected of a module are those that it makes.
pub proof fn expected_exports_are_those_made(case: CaseModel, node: usize, name: Seq<char>)
    requires
        !case.is_cjs(node),
    ensures
        expected_exports(case, node).contains(name) <==> exports_made(case, node).contains(name),
{
    lemma_by_text_is_order();
    sorting_orders(exports_made(case, node), by_text());
}

/// The exports that are expected of an ES module are its own name and, for
/// each static edge that starts at it, the name of what the edge brings in; none
/// are expected of a CommonJS module.
pub proof fn expected_exports_are_named_by_edges(case: CaseModel, node: usize, name: Seq<char>)
    ensures
        case.cjs_nodes.contains(node) ==> expected_exports(case, node) == Seq::<
            Seq<char>,
        >::empty(),
        !case.cjs_nodes.contains(node) ==> (expected_exports(case, node).contains(name) <==> name
            == "node_"@ + decimal(node as nat) || exists|to: usize| #[trigger]
            case.static_edges.contains((node, to)) && name == (if case.reexport_static_edges.contains(
                (node, to),
            ) && !case.cjs_nodes.contains(to) {
                "reexport_"@ + decimal(node as nat) + "_"@ + decimal(to as nat)
            } else {
                "use_"@ + decimal(node as nat) + "_"@ + decimal(to as nat)
            })),
{
    if !case.is_cjs(node) {
        let made = exports_made(case, node);
        let targets = outgoing(case.static_edges, node);
        expected_exports_are_those_made(case, node, name);
        if made.contains(name) {
            let k = choose|k: int| 0 <= k < made.len() && made[k] == name;
            if k > 0 {
                let to = targets[k - 1];
                assert(targets.contains(to));
                edges_lead_to_their_ends(case.static_edges, node, to);
                assert(name == import_export_name(case, node, to));
                assert(case.static_edges.contains((node, to)));
            }
        }
        if name == "node_"@ + decimal(node as nat) {
            assert(made[0] == name);
        } else if exists|to: usize| #[trigger]
            case.static_edges.contains((node, to)) && name == import_export_name(case, node, to) {
            let to = choose|to: usize| #[trigger]
                case.static_edges.contains((node, to)) && name == import_export_name(
                    case,
                    node,
                    to,
                );
            edges_lead_to_their_ends(case.static_edges, node, to);
            let j = choose|j: int| 0 <= j < targets.len() && targets[j] == to;
            assert(made[j + 1] == name);
        }
    }
}

/// The exports that are expected of a module come in order.
pub proof fn expected_exports_are_in_order(case: CaseModel, node: usize)
    ensures
        in_order(expected_exports(case, node), by_text()),
{
    lemma_by_text_is_order();
    sorting_orders(exports_made(case, node), by_text());
}

// ---------------------------------------------------------------------------
// Checking
// ---------------------------------------------------------------------------

/// Lists the exports that an entry chunk for a node has to have, in order.
pub fn compute_expected_exports(case: &GraphCase, node_index: usize) -> (exports: Vec<String>)
    ensures
        texts(exports@) == expected_exports(case@, node_index),
{
    if is_cjs_node(case, node_index) {
        let none: Vec<String> = Vec::new();
        assert(texts(none@) =~= Seq::<Seq<char>>::empty());
        return none;
    }
    let targets = outgoing_nodes(&case.static_edges, node_index);
    let ghost made = exports_made(case@, node_index);
    let mut exports: Vec<String> = Vec::new();
    exports.push(own_name(node_index));
    assert(texts(exports@) =~= made.take(1));
    for i in 0..targets.len()
        invariant
            targets@ == outgoing(case@.static_edges, node_index),
            made == exports_made(case@, node_index),
            texts(exports@) == made.take(i + 1),
    {
        let to: usize = targets[i];
        let name = if edge_reexports(case, node_index, to) {
            paired_name("reexport_", node_index, to)
        } else {
            paired_name("use_", node_index, to)
        };
        proof {
            lemma_texts_push(exports@, name);
            assert(made[i + 1] == import_export_name(case@, node_index, to));
            assert(made.take(i + 2) =~= made.take(i + 1).push(made[i + 1]));
        }
        exports.push(name);
    }
    proof {
        assert(made.take((targets@.len() + 1) as int) =~= made);
        lemma_sorting_mapped(exports@, |s: String| s@, rank::<String>(), by_text());
    }
    sort_ranked(exports)
}

/// Finds the entry node that a chunk stands for.
#[verifier::loop_isolation(false)]
pub fn entry_node_of_chunk(case: &GraphCase, chunk: &OutputChunk) -> (node: Option<usize>)
    ensures
        node == entry_of(case@, chunk@),
        node matches Some(n) ==> chunk.is_entry && exists|k: int|
            0 <= k < case.entry_nodes@.len() && #[trigger] case.entry_nodes@[k] == n && ends_with(
                chunk.facade_module_id->0@,
                filename(case@, n),
            ) && forall|j: int|
                0 <= j < k ==> !ends_with(
                    chunk.facade_module_id->0@,
                    filename(case@, #[trigger] case.entry_nodes@[j]),
                ),
        node is None && chunk.is_entry && chunk.facade_module_id is Some ==> forall|k: int|
            0 <= k < case.entry_nodes@.len() ==> !ends_with(
                chunk.facade_module_id->0@,
                filename(case@, #[trigger] case.entry_nodes@[k]),
            ),
{
    proof {
        if chunk.facade_module_id is Some {
            lemma_entry_among(case@, case.entry_nodes@, chunk.facade_module_id->0@);
        }
    }
    if !chunk.is_entry {
        return None;
    }
    match &chunk.facade_module_id {
        Some(id) => {
            let ghost entries = case.entry_nodes@;
            assert(entries.skip(0) =~= entries);
            for i in 0..case.entry_nodes.len()
                invariant
                    chunk@.is_entry,
                    chunk@.facade_module_id == Some(id@),
                    entries == case.entry_nodes@,
                    entry_among(case@, entries, id@) == entry_among(
                        case@,
                        entries.skip(i as int),
                        id@,
                    ),
            {
                let index: usize = case.entry_nodes[i];
                assert(entries.skip(i as int)[0] == index);
                assert(entries.skip(i as int).skip(1) =~= entries.skip(i + 1));
                if text_ends_with(id.as_str(), module_filename(case, index).as_str()) {
                    return Some(index);
                }
            }
            None
        },
        None => None,
    }
}

/// Lists which of the expected exports are not among the actual ones.
pub fn missing_exports(expected: &Vec<String>, actual: &Vec<String>) -> (missing: Vec<String>)
    ensures
        texts(missing@) == missing_from(texts(expected@), texts(actual@)),
        forall|name: Seq<char>| #[trigger]
            texts(missing@).contains(name) <==> texts(expected@).contains(name) && !texts(
                actual@,
            ).contains(name),
{
    let ghost all = texts(expected@);
    let mut missing: Vec<String> = Vec::new();
    assert(texts(missing@) =~= Seq::<Seq<char>>::empty());
    for i in 0..expected.len()
        invariant
            all == texts(expected@),
            texts(missing@) == missing_from(all.take(i as int), texts(actual@)),
    {
        assert(all.take(i + 1).drop_last() =~= all.take(i as int));
        assert(all.take(i + 1).last() == expected@[i as int]@);
        if !has_text(actual, expected[i].as_str()) {
            let name = expected[i].clone();
            proof {
                lemma_texts_push(missing@, name);
            }
            missing.push(name);
        }
    }
    assert(all.take(expected@.len() as int) =~= all);
    proof {
        lemma_missing(all, texts(actual@));
    }
    missing
}

/// Lists the different texts of a list.
pub fn distinct_texts(list: &Vec<String>) -> (different: Vec<String>)
    ensures
        texts(different@) == distinct(texts(list@)),
        forall|name: Seq<char>| #[trigger]
            texts(different@).contains(name) <==> texts(list@).contains(name),
{
    let ghost all = texts(list@);
    let mut different: Vec<String> = Vec::new();
    assert(texts(different@) =~= Seq::<Seq<char>>::empty());
    for i in 0..list.len()
        invariant
            all == texts(list@),
            texts(different@) == distinct(all.take(i as int)),
            forall|name: Seq<char>| #[trigger]
                texts(different@).contains(name) <==> all.take(i as int).contains(name),
    {
        let ghost before = all.take(i as int);
        let ghost last = all[i as int];
        assert(all.take(i + 1) =~= before.push(last));
        assert(all.take(i + 1).drop_last() =~= before);
        assert(last == list@[i as int]@);
        assert forall|name: Seq<char>| #[trigger] all.take(i + 1).contains(name)
            <==> before.contains(name) || name == last by {
            lemma_pushed_contains(before, last, name);
        }
        if !has_text(&different, list[i].as_str()) {
            let name = list[i].clone();
            proof {
                lemma_texts_push(different@, name);
                assert forall|other: Seq<char>| #[trigger]
                    texts(different@).push(name@).contains(other) <==> texts(different@).contains(
                    other,
                ) || other == last by {
                    lemma_pushed_contains(texts(different@), last, other);
                }
            }
            different.push(name);
        }
    }
    assert(all.take(list@.len() as int) =~= all);
    different
}

fn debug_strings(list: &Vec<String>) -> (shown: Vec<String>)
    ensures
        texts(shown@) == debug_texts(texts(list@)),
{
    let ghost all = debug_texts(texts(list@));
    let mut shown: Vec<String> = Vec::new();
    for i in 0..list.len()
        invariant
            all == debug_texts(texts(list@)),
            texts(shown@) == all.take(i as int),
    {
        let item = debug_string(list[i].as_str());
        proof {
            lemma_texts_push(shown@, item);
            assert(texts(list@)[i as int] == list@[i as int]@);
            assert(all.take(i + 1) =~= all.take(i as int).push(all[i as int]));
        }
        shown.push(item);
    }
    assert(all.take(list@.len() as int) =~= all);
    shown
}

/// Says that an entry chunk lacks exports, with the lists already written out.
pub fn complain_of_exports(
    file: &str,
    node: usize,
    missing: &str,
    expected: &str,
    actual: &str,
) -> (message: String)
    ensures
        message@ == exports_message(file@, node, missing@, expected@, actual@),
{
    let mut message = "Entry chunk '".to_owned();
    message.append(file);
    message.append("' (node ");
    message.append(decimal_text(node as u128).as_str());
    message.append(") is missing exports: ");
    message.append(missing);
    message.append("\nExpected: ");
    message.append(expected);
    message.append("\nActual: ");
    message.append(actual);
    message
}

fn complain_of_chunk(case: &GraphCase, chunk: &OutputChunk) -> (complaint: Option<String>)
    ensures
        match complaint {
            Some(message) => exports_complaint(case@, chunk@) == Some(message@),
            None => exports_complaint(case@, chunk@) is None,
        },
{
    match entry_node_of_chunk(case, chunk) {
        Some(node) => {
            let expected = compute_expected_exports(case, node);
            let missing = missing_exports(&expected, &chunk.exports);
            assert(texts(missing@).len() == missing@.len());
            if missing.len() == 0 {
                return None;
            }
            let missing_list = bracket("[", &debug_strings(&missing), "]");
            let expected_list = bracket("[", &debug_strings(&expected), "]");
            let actual = distinct_texts(&chunk.exports);
            let actual_list = bracket("{", &debug_strings(&actual), "}");
            Some(
                complain_of_exports(
                    chunk.filename.as_str(),
                    node,
                    missing_list.as_str(),
                    expected_list.as_str(),
                    actual_list.as_str(),
                ),
            )
        },
        None => None,
    }
}

/// Checks that every entry chunk has the exports of its module, where entry
/// signatures are kept strictly.
pub fn validate_entry_exports(case: &GraphCase, output: &BundleOutput) -> (result: Result<
    (),
    String,
>)
    ensures
        match result {
            Ok(()) => exports_verdict(case@, output@) is Ok,
            Err(message) => exports_verdict(case@, output@) == Err::<(), Seq<char>>(message@),
        },
{
    if case.preserve_entry_signatures != PreserveEntrySignatures::Strict {
        return Ok(());
    }
    let ghost complaints = exports_complaints(case@);
    for i in 0..output.assets.len()
        invariant
            case@.preserve_entry_signatures == PreserveEntrySignatures::Strict,
            complaints == exports_complaints(case@),
            first_among(chunks_among(output.assets@.take(i as int)), complaints) is None,
    {
        proof {
            lemma_among_take(output.assets@, complaints, i as int);
        }
        match &output.assets[i] {
            Output::Chunk(chunk) => {
                if let Some(message) = complain_of_chunk(case, chunk) {
                    proof {
                        lemma_complaint_stays(output.assets@, complaints, i + 1);
                    }
                    return Err(message);
                }
            },
            Output::Asset => {},
        }
    }
    assert(output.assets@.take(output.assets@.len() as int) =~= output.assets@);
    Ok(())
}

} // verus!
