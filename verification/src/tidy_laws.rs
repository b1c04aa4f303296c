//! What reading a case keeps and what it establishes.
use crate::case::{
    signatures_and_indices_agree, signatures_index, CaseModel, EXTERNAL_DEFAULT_LOCAL_VARIANTS,
};
use crate::case_parse::{
    case_of_fields, case_read, edges_among, first_of_each, joins, node_set, segments_read,
    tidied_case, FieldsModel,
};
use crate::generate::entries_among;
use crate::order::{
    deduplicated, deduplication_keeps_distinct, deduplication_of_sorted, in_order, in_strict_order,
    is_order, lemma_rank_is_order, rank, sorted, sorting_keeps_sorted, sorting_orders,
};
use crate::text::split;
use vstd::prelude::*;

verus! {

// ---------------------------------------------------------------------------
// Filters
// ---------------------------------------------------------------------------

pub proof fn lemma_filter_keeps_all<T>(s: Seq<T>, keep: spec_fn(T) -> bool)
    requires
        forall|i: int| 0 <= i < s.len() ==> keep(#[trigger] s[i]),
    ensures
        s.filter(keep) == s,
    decreases s.len(),
{
    reveal(Seq::filter);
    if s.len() > 0 {
        let front = s.drop_last();
        assert forall|i: int| 0 <= i < front.len() implies keep(#[trigger] front[i]) by {
            assert(front[i] == s[i]);
        }
        lemma_filter_keeps_all(front, keep);
        assert(keep(s[s.len() - 1]));
        assert(front.push(s.last()) == s);
    }
}

proof fn lemma_filter_keeps_strict_order<T>(
    s: Seq<T>,
    leq: spec_fn(T, T) -> bool,
    keep: spec_fn(T) -> bool,
)
    requires
        in_strict_order(s, leq),
    ensures
        in_strict_order(s.filter(keep), leq),
        forall|i: int|
            0 <= i < s.filter(keep).len() ==> s.contains(#[trigger] s.filter(keep)[i]) && keep(
                s.filter(keep)[i],
            ),
    decreases s.len(),
{
    reveal(Seq::filter);
    if s.len() > 0 {
        let front = s.drop_last();
        assert(in_order(front, leq)) by {
            assert forall|i: int, j: int| 0 <= i < j < front.len() implies leq(
                #[trigger] front[i],
                #[trigger] front[j],
            ) by {
                assert(leq(s[i], s[j]));
            }
        }
        lemma_filter_keeps_strict_order(front, leq, keep);
        let before = front.filter(keep);
        let all = s.filter(keep);
        assert forall|i: int| 0 <= i < all.len() implies s.contains(#[trigger] all[i]) && keep(
            all[i],
        ) by {
            if i < before.len() {
                assert(all[i] == before[i]);
                assert(front.contains(before[i]));
                let k = choose|k: int| 0 <= k < front.len() && front[k] == before[i];
                assert(s[k] == all[i]);
            } else {
                assert(s[s.len() - 1] == all[i]);
            }
        }
        if keep(s.last()) {
            assert forall|i: int| 0 <= i < before.len() implies leq(#[trigger] before[i], s.last())
                && before[i] != s.last() by {
                assert(front.contains(before[i]));
                let k = choose|k: int| 0 <= k < front.len() && front[k] == before[i];
                assert(s[k] == before[i]);
                assert(leq(s[k], s[s.len() - 1]));
            }
            assert(all == before.push(s.last()));
            assert(in_order(all, leq));
            assert(all.no_duplicates());
        }
    }
}

proof fn lemma_filter_elements<T>(s: Seq<T>, keep: spec_fn(T) -> bool)
    ensures
        forall|x: T| s.filter(keep).contains(x) ==> keep(x),
{
    assert forall|x: T| s.filter(keep).contains(x) implies keep(x) by {
        let i = choose|i: int| 0 <= i < s.filter(keep).len() && s.filter(keep)[i] == x;
        s.lemma_filter_pred(keep, i);
    }
}

// ---------------------------------------------------------------------------
// Lists in order
// ---------------------------------------------------------------------------

proof fn lemma_tidy_keeps<T>(s: Seq<T>, leq: spec_fn(T, T) -> bool, keep: spec_fn(T) -> bool)
    requires
        in_order(s, leq),
        forall|i: int| 0 <= i < s.len() ==> keep(#[trigger] s[i]),
    ensures
        sorted(s.filter(keep), leq) == s,
{
    lemma_filter_keeps_all(s, keep);
    sorting_keeps_sorted(s, leq);
}

proof fn lemma_tidy_orders<T>(s: Seq<T>, leq: spec_fn(T, T) -> bool, keep: spec_fn(T) -> bool)
    requires
        is_order(leq),
    ensures
        in_order(sorted(s.filter(keep), leq), leq),
        forall|i: int|
            0 <= i < sorted(s.filter(keep), leq).len() ==> keep(
                #[trigger] sorted(s.filter(keep), leq)[i],
            ),
{
    sorting_orders(s.filter(keep), leq);
    lemma_filter_elements(s, keep);
    let tidy = sorted(s.filter(keep), leq);
    assert forall|i: int| 0 <= i < tidy.len() implies keep(#[trigger] tidy[i]) by {
        assert(tidy.contains(tidy[i]));
        assert(s.filter(keep).contains(tidy[i]));
    }
}

proof fn lemma_distinct_after<T>(s: Seq<T>, leq: spec_fn(T, T) -> bool, keep: spec_fn(T) -> bool)
    requires
        in_order(s, leq),
        forall|a: T, b: T| #[trigger] leq(a, b) && leq(b, a) ==> a == b,
        forall|i: int| 0 <= i < s.len() ==> keep(#[trigger] s[i]),
    ensures
        in_strict_order(deduplicated(s), leq),
        forall|i: int| 0 <= i < deduplicated(s).len() ==> keep(#[trigger] deduplicated(s)[i]),
{
    deduplication_of_sorted(s, leq);
    let tidy = deduplicated(s);
    assert forall|i: int| 0 <= i < tidy.len() implies keep(#[trigger] tidy[i]) by {
        assert(tidy.contains(tidy[i]));
        assert(s.contains(tidy[i]));
    }
}

proof fn lemma_ascending_is_short(s: Seq<usize>, n: usize, i: int)
    requires
        in_strict_order(s, rank::<usize>()),
        0 <= i < s.len(),
    ensures
        s[i] >= i,
    decreases i,
{
    if i > 0 {
        lemma_ascending_is_short(s, n, i - 1);
        let leq = rank::<usize>();
        assert(leq(s[i - 1], s[i]));
        assert(s[i - 1] != s[i]);
    }
}

// ---------------------------------------------------------------------------
// Default imports, one for each node and external module
// ---------------------------------------------------------------------------

/// Whether no two triplets join the same node and external module.
spec fn joins_once(triplets: Seq<(usize, usize, u8)>) -> bool {
    forall|i: int, j: int|
        0 <= i < j < triplets.len() ==> ((#[trigger] triplets[i]).0, triplets[i].1) != ((
        #[trigger] triplets[j]).0, triplets[j].1)
}

proof fn lemma_first_of_each_keeps(s: Seq<(usize, usize, u8)>)
    requires
        joins_once(s),
    ensures
        first_of_each(s) == s,
    decreases s.len(),
{
    if s.len() > 0 {
        let front = s.drop_last();
        assert(joins_once(front)) by {
            assert forall|i: int, j: int| 0 <= i < j < front.len() implies ((
            #[trigger] front[i]).0, front[i].1) != ((#[trigger] front[j]).0, front[j].1) by {
                assert((s[i].0, s[i].1) != (s[j].0, s[j].1));
            }
        }
        lemma_first_of_each_keeps(front);
        assert(!joins(front, s.last().0, s.last().1)) by {
            assert forall|i: int| 0 <= i < front.len() implies !((#[trigger] front[i]).0
                == s.last().0 && front[i].1 == s.last().1) by {
                assert((s[i].0, s[i].1) != (s[s.len() - 1].0, s[s.len() - 1].1));
            }
        }
        assert(front.push(s.last()) == s);
    }
}

proof fn lemma_first_of_each(s: Seq<(usize, usize, u8)>)
    ensures
        joins_once(first_of_each(s)),
        forall|i: int|
            0 <= i < first_of_each(s).len() ==> s.contains(#[trigger] first_of_each(s)[i]),
    decreases s.len(),
{
    if s.len() > 0 {
        let front = s.drop_last();
        lemma_first_of_each(front);
        let before = first_of_each(front);
        let all = first_of_each(s);
        assert forall|i: int| 0 <= i < all.len() implies s.contains(#[trigger] all[i]) by {
            if i < before.len() {
                assert(all[i] == before[i]);
                assert(front.contains(before[i]));
                let k = choose|k: int| 0 <= k < front.len() && front[k] == before[i];
                assert(s[k] == all[i]);
            } else {
                assert(s[s.len() - 1] == all[i]);
            }
        }
    }
}

proof fn lemma_sorting_joins_once(s: Seq<(usize, usize, u8)>)
    requires
        joins_once(s),
    ensures
        joins_once(sorted(s, rank::<(usize, usize, u8)>())),
{
    let leq = rank::<(usize, usize, u8)>();
    let tidy = sorted(s, leq);
    lemma_rank_is_order::<(usize, usize, u8)>();
    sorting_orders(s, leq);
    assert(s.no_duplicates()) by {
        assert forall|i: int, j: int| 0 <= i < s.len() && 0 <= j < s.len() && i != j implies s[i]
            != s[j] by {
            if i < j {
                assert((s[i].0, s[i].1) != (s[j].0, s[j].1));
            } else {
                assert((s[j].0, s[j].1) != (s[i].0, s[i].1));
            }
        }
    }
    s.lemma_multiset_has_no_duplicates();
    tidy.lemma_multiset_has_no_duplicates_conv();
    assert forall|i: int, j: int| 0 <= i < j < tidy.len() implies ((#[trigger] tidy[i]).0,
    tidy[i].1) != ((#[trigger] tidy[j]).0, tidy[j].1) by {
        assert(tidy[i] != tidy[j]);
        assert(tidy.contains(tidy[i]) && tidy.contains(tidy[j]));
        assert(s.contains(tidy[i]) && s.contains(tidy[j]));
        let a = choose|a: int| 0 <= a < s.len() && s[a] == tidy[i];
        let b = choose|b: int| 0 <= b < s.len() && s[b] == tidy[j];
        assert(a != b);
        if a < b {
            assert((s[a].0, s[a].1) != (s[b].0, s[b].1));
        } else {
            assert((s[b].0, s[b].1) != (s[a].0, s[a].1));
        }
    }
}

// ---------------------------------------------------------------------------
// The laws
// ---------------------------------------------------------------------------

/// The fields that say what a case holds.
pub open spec fn fields_of(case: CaseModel) -> FieldsModel {
    FieldsModel {
        node_count: Some(case.node_count),
        entries: Some(case.entry_nodes),
        cjs_nodes: Some(case.cjs_nodes),
        static_edges: Some(case.static_edges),
        dynamic_edges: Some(case.dynamic_edges),
        reexport_edges: Some(case.reexport_static_edges),
        external: Some((case.external_module_count, case.external_dynamic_edges)),
        default_edges: Some(case.external_static_default_edges),
        preserve_index: Some(signatures_index(case.preserve_entry_signatures)),
        strict_execution_order: Some(case.strict_execution_order),
        treeshake: Some(case.treeshake),
        minify_internal_exports: Some(case.minify_internal_exports),
    }
}

/// Tidying leaves the fields of a well-formed case as they are.
pub proof fn tidying_keeps_well_formed_cases(case: CaseModel)
    requires
        case.well_formed(),
    ensures
        case_of_fields(case.seed, fields_of(case)) == Ok::<CaseModel, Seq<char>>(case),
{
    let n = case.node_count;
    let m = case.external_module_count;
    lemma_tidy_keeps(case.entry_nodes, rank::<usize>(), |i: usize| i < n);
    deduplication_keeps_distinct(case.entry_nodes);
    lemma_tidy_keeps(case.cjs_nodes, rank::<usize>(), |i: usize| i < n);
    deduplication_keeps_distinct(case.cjs_nodes);
    let joining = |e: (usize, usize)| e.0 < n && e.1 < n && e.0 != e.1;
    let pairs = rank::<(usize, usize)>();
    lemma_tidy_keeps(case.static_edges, pairs, joining);
    deduplication_keeps_distinct(case.static_edges);
    lemma_tidy_keeps(case.dynamic_edges, pairs, joining);
    assert forall|i: int| 0 <= i < case.reexport_static_edges.len() implies joining(
        #[trigger] case.reexport_static_edges[i],
    ) by {
        assert(case.static_edges.contains(case.reexport_static_edges[i]));
    }
    lemma_tidy_keeps(case.reexport_static_edges, pairs, joining);
    deduplication_keeps_distinct(case.reexport_static_edges);
    lemma_filter_keeps_all(
        case.reexport_static_edges,
        |e: (usize, usize)| case.static_edges.contains(e),
    );
    lemma_tidy_keeps(case.external_dynamic_edges, pairs, |e: (usize, usize)| e.0 < n && e.1 < m);
    let defaults = case.external_static_default_edges;
    lemma_filter_keeps_all(
        defaults,
        |t: (usize, usize, u8)| t.0 < n && t.1 < m && t.2 < EXTERNAL_DEFAULT_LOCAL_VARIANTS,
    );
    assert(joins_once(defaults));
    lemma_first_of_each_keeps(defaults);
    sorting_keeps_sorted(defaults, rank::<(usize, usize, u8)>());
    signatures_and_indices_agree(case.preserve_entry_signatures, 0);
    assert(tidied_case(case.seed, fields_of(case)) =~= case);
}

proof fn lemma_entries_among(chosen: Seq<usize>, case: CaseModel)
    requires
        in_strict_order(chosen, rank::<usize>()),
        forall|i: int| 0 <= i < chosen.len() ==> #[trigger] chosen[i] < case.node_count,
        case.node_count >= 1,
        case.entry_nodes == entries_among(chosen, case.node_count, case.seed),
    ensures
        case.entries_well_formed(),
{
    if chosen.len() > 0 {
        lemma_ascending_is_short(chosen, case.node_count, chosen.len() - 1);
    }
}

/// Every case that is read is well formed.
pub proof fn cases_read_are_well_formed(seed: u64, case_spec: Seq<char>)
    ensures
        case_read(seed, case_spec) matches Ok(case) ==> case.well_formed() && case.seed == seed,
{
    if let Ok(case) = case_read(seed, case_spec) {
        let fields = segments_read(split(case_spec, ';'))->Ok_0;
        assert(case == tidied_case(seed, fields));
        let n = case.node_count;
        let m = case.external_module_count;
        lemma_rank_is_order::<usize>();
        lemma_rank_is_order::<(usize, usize)>();
        lemma_rank_is_order::<(usize, usize, u8)>();
        let below = |i: usize| i < n;
        let numbers = rank::<usize>();
        let entries = fields.entries->0;
        lemma_tidy_orders(entries, numbers, below);
        lemma_distinct_after(sorted(entries.filter(below), numbers), numbers, below);
        lemma_entries_among(node_set(entries, n), case);
        let cjs = match fields.cjs_nodes {
            Some(nodes) => nodes,
            None => Seq::empty(),
        };
        lemma_tidy_orders(cjs, numbers, below);
        lemma_distinct_after(sorted(cjs.filter(below), numbers), numbers, below);
        let joining = |e: (usize, usize)| e.0 < n && e.1 < n && e.0 != e.1;
        let pairs = rank::<(usize, usize)>();
        let static_given = fields.static_edges->0;
        lemma_tidy_orders(static_given, pairs, joining);
        lemma_distinct_after(edges_among(static_given, n), pairs, joining);
        lemma_tidy_orders(fields.dynamic_edges->0, pairs, joining);
        let reexports = fields.reexport_edges->0;
        lemma_tidy_orders(reexports, pairs, joining);
        lemma_distinct_after(edges_among(reexports, n), pairs, joining);
        lemma_filter_keeps_strict_order(
            deduplicated(edges_among(reexports, n)),
            pairs,
            |e: (usize, usize)| case.static_edges.contains(e),
        );
        let (count, outside) = match fields.external {
            Some(given) => given,
            None => (0usize, Seq::empty()),
        };
        lemma_tidy_orders(outside, pairs, |e: (usize, usize)| e.0 < n && e.1 < m);
        let defaults = match fields.default_edges {
            Some(triplets) => triplets,
            None => Seq::empty(),
        };
        let named = |t: (usize, usize, u8)|
            t.0 < n && t.1 < m && t.2 < EXTERNAL_DEFAULT_LOCAL_VARIANTS;
        let kept = defaults.filter(named);
        lemma_filter_elements(defaults, named);
        lemma_first_of_each(kept);
        sorting_orders(first_of_each(kept), rank::<(usize, usize, u8)>());
        lemma_sorting_joins_once(first_of_each(kept));
        let tidy = case.external_static_default_edges;
        assert forall|i: int| 0 <= i < tidy.len() implies named(#[trigger] tidy[i]) by {
            assert(tidy.contains(tidy[i]));
            assert(first_of_each(kept).contains(tidy[i]));
            assert(kept.contains(tidy[i]));
        }
        assert(joins_once(tidy));
        assert(case.externals_well_formed());
    }
}

} // verus!
