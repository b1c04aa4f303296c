//! Laws of reading a case spec: what each field says, and what is kept of it.
use crate::case::{signatures_at, CaseModel, EXTERNAL_DEFAULT_LOCAL_VARIANTS, MAX_NODES};
use crate::case_parse::{
    case_of_fields, case_read, defaults_among, edges_among, external_edges_among, field_read,
    first_of_each, joins, no_fields, node_set, segment_read, segments_read, tidied_case,
    FieldsModel,
};
use crate::case_spec::{
    all_read, edge_read, edges_read, external_read, names_nothing, node_read,
    nodes_read, triplet_read, triplets_read,
};
use crate::generate::entries_among;
use crate::order::{
    deduplicated, deduplication_of_sorted, in_order, lemma_rank_is_order, rank, sorted,
    sorting_orders,
};
use crate::text::{
    decimal, joined, lemma_split_at_first, lemma_split_nonempty, parsed_unsigned, split,
    split_at_first, split_undoes_join,
};
use crate::text_laws::cuts_are_at_the_first;
use vstd::prelude::*;

verus! {

// ---------------------------------------------------------------------------
// Order
// ---------------------------------------------------------------------------

/// Numbers are in order by size, pairs and triplets by their first component
/// in which they differ.
pub proof fn ranks_go_by_size(
    a: usize,
    b: usize,
    p: (usize, usize),
    q: (usize, usize),
    s: (usize, usize, u8),
    t: (usize, usize, u8),
)
    ensures
        rank::<usize>()(a, b) <==> a <= b,
        rank::<(usize, usize)>()(p, q) <==> p.0 < q.0 || (p.0 == q.0 && p.1 <= q.1),
        rank::<(usize, usize, u8)>()(s, t) <==> s.0 < t.0 || (s.0 == t.0 && (s.1 < t.1 || (s.1
            == t.1 && s.2 <= t.2))),
{
}

// ---------------------------------------------------------------------------
// What is kept
// ---------------------------------------------------------------------------

proof fn lemma_filter_counts<T>(s: Seq<T>, keep: spec_fn(T) -> bool, x: T)
    ensures
        s.filter(keep).to_multiset().count(x) == if keep(x) {
            s.to_multiset().count(x)
        } else {
            0
        },
        s.filter(keep).contains(x) <==> s.contains(x) && keep(x),
    decreases s.len(),
{
    broadcast use vstd::seq_lib::group_to_multiset_ensures;

    reveal(Seq::filter);
    if s.len() > 0 {
        let front = s.drop_last();
        lemma_filter_counts(front, keep, x);
        assert(s =~= front.push(s.last()));
        if keep(s.last()) {
            assert(s.filter(keep) == front.filter(keep).push(s.last()));
        }
        assert(s.filter(keep).contains(x) <==> s.filter(keep).to_multiset().count(x) > 0);
        assert(s.contains(x) <==> s.to_multiset().count(x) > 0);
    } else {
        assert(s.filter(keep) =~= s);
    }
}

proof fn lemma_order_is_antisymmetric()
    ensures
        forall|a: usize, b: usize| #[trigger]
            rank::<usize>()(a, b) && rank::<usize>()(b, a) ==> a == b,
        forall|a: (usize, usize), b: (usize, usize)| #[trigger]
            rank::<(usize, usize)>()(a, b) && rank::<(usize, usize)>()(b, a) ==> a == b,
{
}

/// Of a list of nodes those are kept that there are, each once and in order.
pub proof fn nodes_are_kept_that_there_are(nodes: Seq<usize>, n: usize, i: usize)
    ensures
        node_set(nodes, n).contains(i) <==> nodes.contains(i) && i < n,
        forall|a: int, b: int|
            0 <= a < b < node_set(nodes, n).len() ==> #[trigger] node_set(nodes, n)[a]
                < #[trigger] node_set(nodes, n)[b],
{
    let keep = |i: usize| i < n;
    let leq = rank::<usize>();
    let kept = nodes.filter(keep);
    lemma_rank_is_order::<usize>();
    lemma_order_is_antisymmetric();
    lemma_filter_counts(nodes, keep, i);
    sorting_orders(kept, leq);
    deduplication_of_sorted(sorted(kept, leq), leq);
    assert forall|a: int, b: int| 0 <= a < b < node_set(nodes, n).len() implies #[trigger] node_set(
        nodes,
        n,
    )[a] < #[trigger] node_set(nodes, n)[b] by {
        assert(leq(node_set(nodes, n)[a], node_set(nodes, n)[b]));
        assert(node_set(nodes, n)[a] != node_set(nodes, n)[b]);
    }
}

/// Of a list of edges those are kept that join two different nodes that there
/// are, each as often as it is given and in order. Where each is kept once,
/// the same ones are kept.
pub proof fn edges_are_kept_that_join_nodes(edges: Seq<(usize, usize)>, n: usize, e: (usize, usize))
    ensures
        edges_among(edges, n).to_multiset().count(e) == if e.0 < n && e.1 < n && e.0 != e.1 {
            edges.to_multiset().count(e)
        } else {
            0
        },
        deduplicated(edges_among(edges, n)).contains(e) <==> edges.contains(e) && e.0 < n && e.1 < n
            && e.0 != e.1,
        deduplicated(edges_among(edges, n)).no_duplicates(),
        in_order(edges_among(edges, n), rank::<(usize, usize)>()),
        in_order(deduplicated(edges_among(edges, n)), rank::<(usize, usize)>()),
{
    let keep = |e: (usize, usize)| e.0 < n && e.1 < n && e.0 != e.1;
    let leq = rank::<(usize, usize)>();
    lemma_rank_is_order::<(usize, usize)>();
    lemma_order_is_antisymmetric();
    lemma_filter_counts(edges, keep, e);
    sorting_orders(edges.filter(keep), leq);
    deduplication_of_sorted(edges_among(edges, n), leq);
}

/// Of a list of edges to external modules those are kept whose ends there are,
/// each as often as it is given and in order.
pub proof fn external_edges_are_kept_whose_ends_there_are(
    edges: Seq<(usize, usize)>,
    n: usize,
    m: usize,
    e: (usize, usize),
)
    ensures
        external_edges_among(edges, n, m).to_multiset().count(e) == if e.0 < n && e.1 < m {
            edges.to_multiset().count(e)
        } else {
            0
        },
        in_order(external_edges_among(edges, n, m), rank::<(usize, usize)>()),
{
    let keep = |e: (usize, usize)| e.0 < n && e.1 < m;
    lemma_rank_is_order::<(usize, usize)>();
    lemma_filter_counts(edges, keep, e);
    sorting_orders(edges.filter(keep), rank::<(usize, usize)>());
}

proof fn lemma_joins_contains(list: Seq<(usize, usize, u8)>, from: usize, ext: usize)
    ensures
        joins(first_of_each(list), from, ext) <==> joins(list, from, ext),
    decreases list.len(),
{
    if list.len() > 0 {
        let front = list.drop_last();
        let last = list.last();
        let before = first_of_each(front);
        let all = first_of_each(list);
        lemma_joins_contains(front, from, ext);
        if joins(before, from, ext) {
            let i = choose|i: int|
                0 <= i < before.len() && (#[trigger] before[i]).0 == from && before[i].1 == ext;
            assert(all[i] == before[i]);
        }
        if joins(front, from, ext) {
            let i = choose|i: int|
                0 <= i < front.len() && (#[trigger] front[i]).0 == from && front[i].1 == ext;
            assert(list[i] == front[i]);
        }
        if joins(list, from, ext) && !joins(front, from, ext) {
            let i = choose|i: int|
                0 <= i < list.len() && (#[trigger] list[i]).0 == from && list[i].1 == ext;
            if i < front.len() {
                assert(front[i] == list[i]);
            }
            assert(list[list.len() - 1] == last);
            assert(all[all.len() - 1] == last);
        }
        if joins(all, from, ext) && !joins(before, from, ext) {
            let i = choose|i: int|
                0 <= i < all.len() && (#[trigger] all[i]).0 == from && all[i].1 == ext;
            if i < before.len() {
                assert(before[i] == all[i]);
            }
            assert(list[list.len() - 1] == last);
        }
    } else {
        assert(first_of_each(list) == list);
    }
}

/// Of several triplets that join the same two things the first is kept, and
/// every triplet that no earlier one stands in the way of.
pub proof fn the_first_of_each_is_kept(
    before: Seq<(usize, usize, u8)>,
    t: (usize, usize, u8),
    after: Seq<(usize, usize, u8)>,
)
    ensures
        !joins(before, t.0, t.1) ==> first_of_each(before.push(t) + after).contains(t),
        joins(before, t.0, t.1) ==> first_of_each(before.push(t) + after) == first_of_each(
            before + after,
        ),
    decreases after.len(),
{
    let all = before.push(t) + after;
    lemma_joins_contains(before, t.0, t.1);
    if after.len() == 0 {
        assert(all =~= before.push(t));
        assert(before + after =~= before);
        assert(all.drop_last() =~= before);
        if !joins(before, t.0, t.1) {
            let kept = first_of_each(all);
            assert(kept[kept.len() - 1] == t);
        }
    } else {
        let front = after.drop_last();
        the_first_of_each_is_kept(before, t, front);
        assert(all.drop_last() =~= before.push(t) + front);
        assert((before + after).drop_last() =~= before + front);
        assert(all.last() == after.last());
        if !joins(before, t.0, t.1) {
            let kept = first_of_each(before.push(t) + front);
            let i = choose|i: int| 0 <= i < kept.len() && kept[i] == t;
            assert(first_of_each(all)[i] == t);
        }
    }
}

/// Of the default imports those are kept that join a node and an external
/// module that there are, under a name there is: of each pair the first one.
pub proof fn defaults_are_kept_first_of_each(
    triplets: Seq<(usize, usize, u8)>,
    n: usize,
    m: usize,
    t: (usize, usize, u8),
)
    ensures
        ({
            let valid = triplets.filter(
                |t: (usize, usize, u8)| t.0 < n && t.1 < m && t.2 < EXTERNAL_DEFAULT_LOCAL_VARIANTS,
            );
            &&& defaults_among(triplets, n, m).to_multiset() == first_of_each(valid).to_multiset()
            &&& in_order(defaults_among(triplets, n, m), rank::<(usize, usize, u8)>())
            &&& valid.contains(t) <==> triplets.contains(t) && t.0 < n && t.1 < m && t.2 < 4
        }),
{
    let keep = |t: (usize, usize, u8)|
        t.0 < n && t.1 < m && t.2 < EXTERNAL_DEFAULT_LOCAL_VARIANTS;
    lemma_rank_is_order::<(usize, usize, u8)>();
    lemma_filter_counts(triplets, keep, t);
    sorting_orders(first_of_each(triplets.filter(keep)), rank::<(usize, usize, u8)>());
}

// ---------------------------------------------------------------------------
// The fields
// ---------------------------------------------------------------------------

/// Each key sets the field that it stands for to what its value reads as, and
/// leaves all the others as they are.
#[verifier::rlimit(60)]
pub proof fn each_key_sets_its_own_field(
    fields: FieldsModel,
    key: Seq<char>,
    value: Seq<char>,
    after: FieldsModel,
)
    requires
        field_read(fields, key, value) == Ok::<FieldsModel, Seq<char>>(after),
    ensures
        key == "n"@ || key == "e"@ || key == "c"@ || key == "s"@ || key == "d"@ || key == "r"@ || key
            == "x"@ || key == "xs"@ || key == "p"@ || key == "o"@ || key == "t"@ || key == "m"@,
        key != "n"@ ==> after.node_count == fields.node_count,
        key != "e"@ ==> after.entries == fields.entries,
        key != "c"@ ==> after.cjs_nodes == fields.cjs_nodes,
        key != "s"@ ==> after.static_edges == fields.static_edges,
        key != "d"@ ==> after.dynamic_edges == fields.dynamic_edges,
        key != "r"@ ==> after.reexport_edges == fields.reexport_edges,
        key != "x"@ ==> after.external == fields.external,
        key != "xs"@ ==> after.default_edges == fields.default_edges,
        key != "p"@ ==> after.preserve_index == fields.preserve_index,
        key != "o"@ ==> after.strict_execution_order == fields.strict_execution_order,
        key != "t"@ ==> after.treeshake == fields.treeshake,
        key != "m"@ ==> after.minify_internal_exports == fields.minify_internal_exports,
        key == "n"@ ==> (after.node_count matches Some(n) && parsed_unsigned(
            value,
            usize::MAX as nat,
        ) == Some(n as nat)),
        key == "e"@ ==> (after.entries matches Some(v) && nodes_read(value) == Ok::<
            Seq<usize>,
            Seq<char>,
        >(v)),
        key == "c"@ ==> (after.cjs_nodes matches Some(v) && nodes_read(value) == Ok::<
            Seq<usize>,
            Seq<char>,
        >(v)),
        key == "s"@ ==> (after.static_edges matches Some(v) && edges_read(value) == Ok::<
            Seq<(usize, usize)>,
            Seq<char>,
        >(v)),
        key == "d"@ ==> (after.dynamic_edges matches Some(v) && edges_read(value) == Ok::<
            Seq<(usize, usize)>,
            Seq<char>,
        >(v)),
        key == "r"@ ==> (after.reexport_edges matches Some(v) && edges_read(value) == Ok::<
            Seq<(usize, usize)>,
            Seq<char>,
        >(v)),
        key == "x"@ ==> (after.external matches Some(v) && external_read(value) == Ok::<
            (usize, Seq<(usize, usize)>),
            Seq<char>,
        >(v)),
        key == "xs"@ ==> (after.default_edges matches Some(v) && triplets_read(value) == Ok::<
            Seq<(usize, usize, u8)>,
            Seq<char>,
        >(v)),
        key == "p"@ ==> (after.preserve_index matches Some(p) && parsed_unsigned(
            value,
            u8::MAX as nat,
        ) == Some(p as nat)),
        key == "o"@ ==> after.strict_execution_order == Some(value == "1"@ || value == "true"@),
        key == "t"@ ==> after.treeshake == Some(value == "1"@ || value == "true"@),
        key == "m"@ ==> after.minify_internal_exports == Some(value == "1"@ || value == "true"@),
{
    lemma_keys_differ();
}

proof fn lemma_keys_differ()
    ensures
        "n"@.len() == 1 && "n"@[0] == 'n',
        "e"@.len() == 1 && "e"@[0] == 'e',
        "c"@.len() == 1 && "c"@[0] == 'c',
        "s"@.len() == 1 && "s"@[0] == 's',
        "d"@.len() == 1 && "d"@[0] == 'd',
        "r"@.len() == 1 && "r"@[0] == 'r',
        "x"@.len() == 1 && "x"@[0] == 'x',
        "xs"@.len() == 2,
        "p"@.len() == 1 && "p"@[0] == 'p',
        "o"@.len() == 1 && "o"@[0] == 'o',
        "t"@.len() == 1 && "t"@[0] == 't',
        "m"@.len() == 1 && "m"@[0] == 'm',
        "1"@.len() == 1 && "1"@[0] == '1',
        "0"@.len() == 1 && "0"@[0] == '0',
        "true"@.len() == 4,
        "false"@.len() == 5,
{
    reveal_strlit("n");
    reveal_strlit("e");
    reveal_strlit("c");
    reveal_strlit("s");
    reveal_strlit("d");
    reveal_strlit("r");
    reveal_strlit("x");
    reveal_strlit("xs");
    reveal_strlit("p");
    reveal_strlit("o");
    reveal_strlit("t");
    reveal_strlit("m");
    reveal_strlit("1");
    reveal_strlit("0");
    reveal_strlit("true");
    reveal_strlit("false");
}

/// A key is refused exactly when it is none of the known ones or its value
/// does not read as what the key stands for.
pub proof fn keys_are_refused_only_for_a_reason(
    fields: FieldsModel,
    key: Seq<char>,
    value: Seq<char>,
)
    ensures
        field_read(fields, key, value) is Ok <==> {
            ||| key == "n"@ && parsed_unsigned(value, usize::MAX as nat) is Some
            ||| (key == "e"@ || key == "c"@) && nodes_read(value) is Ok
            ||| (key == "s"@ || key == "d"@ || key == "r"@) && edges_read(value) is Ok
            ||| key == "x"@ && external_read(value) is Ok
            ||| key == "xs"@ && triplets_read(value) is Ok
            ||| key == "p"@ && parsed_unsigned(value, u8::MAX as nat) is Some
            ||| (key == "o"@ || key == "t"@ || key == "m"@) && (value == "1"@ || value == "0"@
                || value == "true"@ || value == "false"@)
        },
{
    lemma_keys_differ();
}

/// What is refused is refused with what is wrong and the text it is wrong
/// with: a number of nodes, an index or a setting that is none, a key that is
/// not known, and a segment without an equals sign.
pub proof fn refusals_say_what_is_wrong(
    fields: FieldsModel,
    key: Seq<char>,
    value: Seq<char>,
    message: Seq<char>,
)
    ensures
        parsed_unsigned(value, usize::MAX as nat) is None ==> field_read(fields, "n"@, value)
            == Err::<FieldsModel, Seq<char>>("invalid node count"@ + " `"@ + value + "`"@),
        parsed_unsigned(value, u8::MAX as nat) is None ==> field_read(fields, "p"@, value) == Err::<
            FieldsModel,
            Seq<char>,
        >("invalid preserveEntrySignatures index"@ + " `"@ + value + "`"@),
        field_read(fields, "o"@, value) is Err ==> field_read(fields, "o"@, value) == Err::<
            FieldsModel,
            Seq<char>,
        >("invalid strictExecutionOrder"@ + " `"@ + value + "`"@),
        field_read(fields, "t"@, value) is Err ==> field_read(fields, "t"@, value) == Err::<
            FieldsModel,
            Seq<char>,
        >("invalid treeshake"@ + " `"@ + value + "`"@),
        field_read(fields, "m"@, value) is Err ==> field_read(fields, "m"@, value) == Err::<
            FieldsModel,
            Seq<char>,
        >("invalid minifyInternalExports"@ + " `"@ + value + "`"@),
        (key == "e"@ || key == "c"@) && nodes_read(value) == Err::<Seq<usize>, Seq<char>>(message)
            ==> field_read(fields, key, value) == Err::<FieldsModel, Seq<char>>(message),
        (key == "s"@ || key == "d"@ || key == "r"@) && edges_read(value) == Err::<
            Seq<(usize, usize)>,
            Seq<char>,
        >(message) ==> field_read(fields, key, value) == Err::<FieldsModel, Seq<char>>(message),
        external_read(value) == Err::<(usize, Seq<(usize, usize)>), Seq<char>>(message)
            ==> field_read(fields, "x"@, value) == Err::<FieldsModel, Seq<char>>(message),
        triplets_read(value) == Err::<Seq<(usize, usize, u8)>, Seq<char>>(message) ==> field_read(
            fields,
            "xs"@,
            value,
        ) == Err::<FieldsModel, Seq<char>>(message),
        key != "n"@ && key != "e"@ && key != "c"@ && key != "s"@ && key != "d"@ && key != "r"@ && key
            != "x"@ && key != "xs"@ && key != "p"@ && key != "o"@ && key != "t"@ && key != "m"@
            ==> field_read(fields, key, value) == Err::<FieldsModel, Seq<char>>(
            "unknown case key"@ + " `"@ + key + "`"@,
        ),
        value.len() > 0 && !value.contains('=') ==> segment_read(fields, value) == Err::<
            FieldsModel,
            Seq<char>,
        >("invalid case segment"@ + " `"@ + value + "`"@),
{
    lemma_keys_differ();
    cuts_are_at_the_first(value, '=');
    if let Some((before, after)) = split_at_first(value, '=') {
        assert(value[before.len() as int] == '=');
        assert(value.contains('='));
    }
}

/// The first segment that is refused refuses the whole, whatever follows it.
pub proof fn the_first_refusal_counts(
    segments: Seq<Seq<char>>,
    more: Seq<Seq<char>>,
    message: Seq<char>,
)
    requires
        segments_read(segments) == Err::<FieldsModel, Seq<char>>(message),
    ensures
        segments_read(segments + more) == Err::<FieldsModel, Seq<char>>(message),
    decreases more.len(),
{
    if more.len() == 0 {
        assert(segments + more =~= segments);
    } else {
        the_first_refusal_counts(segments, more.drop_last(), message);
        assert((segments + more).drop_last() =~= segments + more.drop_last());
    }
}

/// A case spec is read as its segments between the semicolons, and then as what
/// they say together.
pub proof fn case_specs_are_read_between_semicolons(seed: u64, segments: Seq<Seq<char>>)
    requires
        segments.len() > 0,
        forall|i: int| 0 <= i < segments.len() ==> !(#[trigger] segments[i]).contains(';'),
    ensures
        case_read(seed, joined(segments, seq![';'])) == (match segments_read(segments) {
            Ok(fields) => case_of_fields(seed, fields),
            Err(message) => Err::<CaseModel, Seq<char>>(message),
        }),
{
    split_undoes_join(segments, ';');
}

/// A field that has to be there and is not is complained about, the number of
/// nodes before all others.
pub proof fn missing_fields_are_named(seed: u64, fields: FieldsModel)
    ensures
        ({
            let result = case_of_fields(seed, fields);
            let none = |message: Seq<char>| Err::<CaseModel, Seq<char>>(message);
            let n = fields.node_count;
            let ok = n is Some && 1 <= n->0 <= MAX_NODES;
            &&& n is None ==> result == none("missing case field `n`"@)
            &&& n is Some && !ok ==> result == none(
                "node count `"@ + decimal(n->0 as nat) + "` is outside 1..="@ + decimal(
                    MAX_NODES as nat,
                ),
            )
            &&& ok && fields.entries is None ==> result == none("missing case field `e`"@)
            &&& ok && fields.entries is Some && fields.static_edges is None ==> result == none(
                "missing case field `s`"@,
            )
            &&& ok && fields.entries is Some && fields.static_edges is Some
                && fields.dynamic_edges is None ==> result == none("missing case field `d`"@)
            &&& ok && fields.entries is Some && fields.static_edges is Some
                && fields.dynamic_edges is Some && fields.reexport_edges is None ==> result == none(
                "missing case field `r`"@,
            )
            &&& ok && fields.entries is Some && fields.static_edges is Some
                && fields.dynamic_edges is Some && fields.reexport_edges is Some
                && fields.preserve_index is None ==> result == none("missing case field `p`"@)
            &&& ok && fields.entries is Some && fields.static_edges is Some
                && fields.dynamic_edges is Some && fields.reexport_edges is Some
                && fields.preserve_index is Some && fields.strict_execution_order is None ==> result
                == none("missing case field `o`"@)
        }),
{
}

/// Segments are read one after another, each from what the ones before it
/// left; reading starts with no field given, and an empty segment says nothing.
/// A segment is a key and a value around its first equals sign.
pub proof fn segments_are_read_in_turn(
    segments: Seq<Seq<char>>,
    fields: FieldsModel,
    key: Seq<char>,
    value: Seq<char>,
)
    requires
        segments_read(segments) == Ok::<FieldsModel, Seq<char>>(fields),
        !key.contains('='),
    ensures
        segments_read(segments.push(key.push('=') + value)) == field_read(fields, key, value),
        segments_read(segments.push(Seq::empty())) == Ok::<FieldsModel, Seq<char>>(fields),
        segments_read(Seq::empty()) == Ok::<FieldsModel, Seq<char>>(no_fields()),
{
    let segment = key.push('=') + value;
    lemma_split_at_first(key, '=', value);
    assert(segments.push(segment).drop_last() =~= segments);
    assert(segments.push(Seq::empty()).drop_last() =~= segments);
}

/// Fields describe a case exactly when the number of nodes is given and from
/// one to the most there can be, and the entries, the three lists of edges, the
/// signatures and the execution order are given. The CommonJS modules, the
/// external modules and the default imports are none where they are not given;
/// unused code is kept and internal exports are minified by default.
pub proof fn cases_hold_what_their_fields_say(seed: u64, fields: FieldsModel)
    ensures
        case_of_fields(seed, fields) is Ok <==> {
            &&& fields.node_count matches Some(n) && 1 <= n <= MAX_NODES
            &&& fields.entries is Some
            &&& fields.static_edges is Some
            &&& fields.dynamic_edges is Some
            &&& fields.reexport_edges is Some
            &&& fields.preserve_index is Some
            &&& fields.strict_execution_order is Some
        },
        case_of_fields(seed, fields) matches Ok(case) ==> {
            let n = fields.node_count->0;
            let m = case.external_module_count;
            &&& case.seed == seed
            &&& case.node_count == n
            &&& case.entry_nodes == entries_among(node_set(fields.entries->0, n), n, seed)
            &&& case.cjs_nodes == (match fields.cjs_nodes {
                Some(nodes) => node_set(nodes, n),
                None => node_set(Seq::empty(), n),
            })
            &&& case.static_edges == deduplicated(edges_among(fields.static_edges->0, n))
            &&& case.dynamic_edges == edges_among(fields.dynamic_edges->0, n)
            &&& m == (match fields.external {
                Some(given) => given.0,
                None => 0,
            })
            &&& fields.external matches Some(given) ==> case.external_dynamic_edges
                == external_edges_among(given.1, n, m)
            &&& fields.default_edges matches Some(triplets) ==> case.external_static_default_edges
                == defaults_among(triplets, n, m)
            &&& case.preserve_entry_signatures == signatures_at(fields.preserve_index->0 as int)
            &&& Some(case.strict_execution_order) == fields.strict_execution_order
            &&& case.treeshake <==> fields.treeshake == Some(true)
            &&& case.minify_internal_exports <==> fields.minify_internal_exports != Some(false)
        },
{
}

/// A static edge reexports exactly when the fields list it among the static
/// and among the reexporting edges, and it joins two different nodes.
pub proof fn edges_reexport_when_listed_twice(
    seed: u64,
    fields: FieldsModel,
    case: CaseModel,
    e: (usize, usize),
)
    requires
        case_of_fields(seed, fields) == Ok::<CaseModel, Seq<char>>(case),
    ensures
        case.reexport_static_edges.contains(e) <==> fields.reexport_edges->0.contains(e)
            && fields.static_edges->0.contains(e) && e.0 < case.node_count && e.1 < case.node_count
            && e.0 != e.1,
        case.static_edges.contains(e) <==> fields.static_edges->0.contains(e) && e.0
            < case.node_count && e.1 < case.node_count && e.0 != e.1,
{
    let n = case.node_count;
    assert(case == tidied_case(seed, fields));
    edges_are_kept_that_join_nodes(fields.static_edges->0, n, e);
    edges_are_kept_that_join_nodes(fields.reexport_edges->0, n, e);
    let static_edges = case.static_edges;
    lemma_filter_counts(
        deduplicated(edges_among(fields.reexport_edges->0, n)),
        |e: (usize, usize)| static_edges.contains(e),
        e,
    );
}

// ---------------------------------------------------------------------------
// Lists
// ---------------------------------------------------------------------------

proof fn lemma_all_read<T>(
    parts: Seq<Seq<char>>,
    read: spec_fn(Seq<char>) -> Result<T, Seq<char>>,
    bad: int,
)
    ensures
        all_read(parts, read) is Ok <==> forall|k: int|
            0 <= k < parts.len() ==> read(#[trigger] parts[k]) is Ok,
        all_read(parts, read) matches Ok(list) ==> list.len() == parts.len() && forall|k: int|
            0 <= k < parts.len() ==> read(#[trigger] parts[k]) == Ok::<T, Seq<char>>(list[k]),
        0 <= bad < parts.len() && read(parts[bad]) is Err && (forall|k: int|
            0 <= k < bad ==> read(#[trigger] parts[k]) is Ok) ==> all_read(parts, read) == Err::<
            Seq<T>,
            Seq<char>,
        >(read(parts[bad])->Err_0),
    decreases parts.len(),
{
    if parts.len() > 0 {
        let front = parts.drop_last();
        let last = parts.len() - 1;
        lemma_all_read(front, read, bad);
        assert(parts[last] == parts.last());
        assert forall|k: int| 0 <= k < front.len() implies front[k] == parts[k] by {}
        if all_read(parts, read) is Ok {
            assert forall|k: int| 0 <= k < parts.len() implies read(#[trigger] parts[k]) is Ok by {
                if k < front.len() {
                    assert(read(front[k]) is Ok);
                }
            }
            let list = all_read(parts, read)->Ok_0;
            assert forall|k: int| 0 <= k < parts.len() implies read(#[trigger] parts[k]) == Ok::<
                T,
                Seq<char>,
            >(list[k]) by {
                if k < front.len() {
                    assert(read(front[k]) == Ok::<T, Seq<char>>(list[k]));
                }
            }
        }
        if forall|k: int| 0 <= k < parts.len() ==> read(#[trigger] parts[k]) is Ok {
            assert forall|k: int| 0 <= k < front.len() implies read(#[trigger] front[k]) is Ok by {
                assert(read(parts[k]) is Ok);
            }
        }
        if 0 <= bad < parts.len() && read(parts[bad]) is Err && (forall|k: int|
            0 <= k < bad ==> read(#[trigger] parts[k]) is Ok) {
            assert forall|k: int| 0 <= k < bad && k < front.len() implies read(
                #[trigger] front[k],
            ) is Ok by {
                assert(read(parts[k]) is Ok);
            }
            if bad == last {
                assert forall|k: int| 0 <= k < front.len() implies read(
                    #[trigger] front[k],
                ) is Ok by {
                    assert(read(parts[k]) is Ok);
                }
            }
        }
    }
}

/// A list of nodes is read number by number between its commas, and `none` or
/// nothing at all is an empty list. It is refused exactly when one of the
/// numbers is none, for the first such.
pub proof fn node_lists_are_read_number_by_number(value: Seq<char>, bad: int)
    ensures
        value.len() == 0 || value == "none"@ ==> nodes_read(value) == Ok::<Seq<usize>, Seq<char>>(
            Seq::empty(),
        ),
        value.len() > 0 && value != "none"@ ==> {
            let parts = split(value, ',');
            &&& nodes_read(value) is Ok <==> forall|k: int|
                0 <= k < parts.len() ==> parsed_unsigned(
                    #[trigger] parts[k],
                    usize::MAX as nat,
                ) is Some
            &&& nodes_read(value) matches Ok(list) ==> list.len() == parts.len() && forall|k: int|
                0 <= k < parts.len() ==> parsed_unsigned(#[trigger] parts[k], usize::MAX as nat)
                    == Some(list[k] as nat)
            &&& 0 <= bad < parts.len() && parsed_unsigned(parts[bad], usize::MAX as nat) is None && (
            forall|k: int|
                0 <= k < bad ==> parsed_unsigned(
                    #[trigger] parts[k],
                    usize::MAX as nat,
                ) is Some) ==> nodes_read(value) == Err::<Seq<usize>, Seq<char>>(
                "invalid node index `"@ + parts[bad] + "`"@,
            )
        },
{
    let parts = split(value, ',');
    let read = |part: Seq<char>| node_read(part);
    lemma_all_read(parts, read, bad);
    reveal_strlit("invalid node index `");
    reveal_strlit("invalid node index");
    reveal_strlit(" `");
    assert("invalid node index `"@ =~= "invalid node index"@ + " `"@);
    assert forall|k: int| 0 <= k < parts.len() implies (read(#[trigger] parts[k]) is Ok
        <==> parsed_unsigned(parts[k], usize::MAX as nat) is Some) by {}
    if value.len() > 0 && value != "none"@ {
        if nodes_read(value) is Ok {
            let list = nodes_read(value)->Ok_0;
            assert forall|k: int| 0 <= k < parts.len() implies parsed_unsigned(
                #[trigger] parts[k],
                usize::MAX as nat,
            ) == Some(list[k] as nat) by {
                assert(read(parts[k]) == Ok::<usize, Seq<char>>(list[k]));
            }
        }
        if forall|k: int|
            0 <= k < parts.len() ==> parsed_unsigned(
                #[trigger] parts[k],
                usize::MAX as nat,
            ) is Some {
            assert forall|k: int| 0 <= k < parts.len() implies read(#[trigger] parts[k]) is Ok by {}
        }
        if 0 <= bad < parts.len() && parsed_unsigned(parts[bad], usize::MAX as nat) is None && (
        forall|k: int|
            0 <= k < bad ==> parsed_unsigned(#[trigger] parts[k], usize::MAX as nat) is Some) {
            assert forall|k: int| 0 <= k < bad implies read(#[trigger] parts[k]) is Ok by {}
            assert(read(parts[bad]) is Err);
        }
    }
}

/// Lists of edges and of triplets are read item by item between their commas,
/// and `none` or nothing at all is an empty list.
pub proof fn edge_lists_are_read_edge_by_edge(value: Seq<char>)
    ensures
        value.len() == 0 || value == "none"@ ==> edges_read(value) == Ok::<
            Seq<(usize, usize)>,
            Seq<char>,
        >(Seq::empty()) && triplets_read(value) == Ok::<Seq<(usize, usize, u8)>, Seq<char>>(
            Seq::empty(),
        ),
        value.len() > 0 && value != "none"@ ==> {
            let parts = split(value, ',');
            &&& edges_read(value) is Ok <==> forall|k: int|
                0 <= k < parts.len() ==> edge_read(#[trigger] parts[k]) is Ok
            &&& edges_read(value) matches Ok(list) ==> list.len() == parts.len() && forall|k: int|
                0 <= k < parts.len() ==> edge_read(#[trigger] parts[k]) == Ok::<
                    (usize, usize),
                    Seq<char>,
                >(list[k])
            &&& triplets_read(value) is Ok <==> forall|k: int|
                0 <= k < parts.len() ==> triplet_read(#[trigger] parts[k]) is Ok
            &&& triplets_read(value) matches Ok(list) ==> list.len() == parts.len() && forall|
                k: int,
            |
                0 <= k < parts.len() ==> triplet_read(#[trigger] parts[k]) == Ok::<
                    (usize, usize, u8),
                    Seq<char>,
                >(list[k])
        },
{
    let parts = split(value, ',');
    let edge = |part: Seq<char>| edge_read(part);
    let triplet = |part: Seq<char>| triplet_read(part);
    lemma_all_read(parts, edge, 0);
    lemma_all_read(parts, triplet, 0);
    if value.len() > 0 && value != "none"@ {
        if edges_read(value) is Ok {
            let list = edges_read(value)->Ok_0;
            assert forall|k: int| 0 <= k < parts.len() implies edge_read(#[trigger] parts[k])
                == Ok::<(usize, usize), Seq<char>>(list[k]) by {
                assert(edge(parts[k]) == Ok::<(usize, usize), Seq<char>>(list[k]));
            }
        }
        if forall|k: int| 0 <= k < parts.len() ==> edge_read(#[trigger] parts[k]) is Ok {
            assert forall|k: int| 0 <= k < parts.len() implies edge(#[trigger] parts[k]) is Ok by {}
        }
        if triplets_read(value) is Ok {
            let list = triplets_read(value)->Ok_0;
            assert forall|k: int| 0 <= k < parts.len() implies triplet_read(#[trigger] parts[k])
                == Ok::<(usize, usize, u8), Seq<char>>(list[k]) by {
                assert(triplet(parts[k]) == Ok::<(usize, usize, u8), Seq<char>>(list[k]));
            }
        }
        if forall|k: int| 0 <= k < parts.len() ==> triplet_read(#[trigger] parts[k]) is Ok {
            assert forall|k: int| 0 <= k < parts.len() implies triplet(
                #[trigger] parts[k],
            ) is Ok by {}
        }
    }
}

/// An edge is read as the numbers around its first dash; without a dash it is
/// refused.
pub proof fn edges_are_read_around_the_dash(x: Seq<char>, y: Seq<char>)
    requires
        !x.contains('-'),
    ensures
        edge_read(x.push('-') + y) == (match (
            parsed_unsigned(x, usize::MAX as nat),
            parsed_unsigned(y, usize::MAX as nat),
        ) {
            (Some(a), Some(b)) => Ok((a as usize, b as usize)),
            (Some(_), None) => Err("invalid edge destination"@ + " `"@ + y + "`"@),
            (None, _) => Err::<(usize, usize), Seq<char>>(
                "invalid edge source"@ + " `"@ + x + "`"@,
            ),
        }),
        edge_read(x) == Err::<(usize, usize), Seq<char>>("invalid edge"@ + " `"@ + x + "`"@),
{
    lemma_split_at_first(x, '-', y);
    lemma_not_cut(x, '-');
}

proof fn lemma_not_cut(x: Seq<char>, c: char)
    requires
        !x.contains(c),
    ensures
        split_at_first(x, c) is None,
{
    cuts_are_at_the_first(x, c);
    if let Some((before, after)) = split_at_first(x, c) {
        assert(x[before.len() as int] == c);
    }
}

/// External modules are read as their number before the first colon and the
/// edges to them behind it. There are none where nothing or `none` is written,
/// and anything else without a colon is refused.
pub proof fn externals_are_read_around_the_colon(x: Seq<char>, y: Seq<char>)
    requires
        !x.contains(':'),
    ensures
        external_read(x.push(':') + y) == (match (
            parsed_unsigned(x, usize::MAX as nat),
            edges_read(y),
        ) {
            (Some(count), Ok(edges)) => Ok((count as usize, edges)),
            (Some(_), Err(e)) => Err(e),
            (None, _) => Err::<(usize, Seq<(usize, usize)>), Seq<char>>(
                "invalid external module count"@ + " `"@ + x + "`"@,
            ),
        }),
        x.len() > 0 && x != "none"@ ==> external_read(x) == Err::<
            (usize, Seq<(usize, usize)>),
            Seq<char>,
        >("invalid external spec"@ + " `"@ + x + "`"@),
        x.len() == 0 || x == "none"@ ==> external_read(x) == Ok::<
            (usize, Seq<(usize, usize)>),
            Seq<char>,
        >((0usize, Seq::empty())),
{
    let whole = x.push(':') + y;
    lemma_split_at_first(x, ':', y);
    lemma_not_cut(x, ':');
    assert(whole[x.len() as int] == ':');
    assert(whole != "none"@) by {
        reveal_strlit("none");
        assert("none"@.len() == 4);
        assert("none"@[0] == 'n' && "none"@[1] == 'o' && "none"@[2] == 'n' && "none"@[3] == 'e');
    }
    assert(!names_nothing(whole));
}

/// A triplet is read as three numbers, of which the last is small, with dashes
/// between them; anything else is refused.
pub proof fn triplets_are_read_between_dashes(part: Seq<char>)
    ensures
        ({
            let fields = split(part, '-');
            triplet_read(part) == (if fields.len() == 3 && parsed_unsigned(
                fields[0],
                usize::MAX as nat,
            ) is Some && parsed_unsigned(fields[1], usize::MAX as nat) is Some && parsed_unsigned(
                fields[2],
                u8::MAX as nat,
            ) is Some {
                Ok(
                    (
                        parsed_unsigned(fields[0], usize::MAX as nat)->0 as usize,
                        parsed_unsigned(fields[1], usize::MAX as nat)->0 as usize,
                        parsed_unsigned(fields[2], u8::MAX as nat)->0 as u8,
                    ),
                )
            } else {
                Err::<(usize, usize, u8), Seq<char>>(triplet_read(part)->Err_0)
            })
        }),
        split(part, '-').len() > 0,
{
    lemma_split_nonempty(part, '-');
}

} // verus!
