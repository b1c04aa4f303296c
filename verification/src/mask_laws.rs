//! Laws of the cases that masks describe: which position of a mask decides on
//! which node or edge.
use crate::case::{signatures_at, EXTERNAL_DEFAULT_LOCAL_VARIANTS};
use crate::generate::{
    both, case_of_masks, choice_at, climbs, dynamic_slots, entries_among, external_slots,
    lemma_dynamic_slots, lemma_even_rows_len, lemma_external_slots, lemma_picked, lemma_repeated,
    lemma_selected, lemma_static_slots, lemma_upward_len, lemma_with_variants, pairs_upward,
    pairs_with_each, pairs_with_others, picked, repeated, rows, selected, static_slots,
    with_variants,
};
use crate::order::rank;
use vstd::prelude::*;
use vstd::seq_lib::lemma_multiset_commutative;

verus! {

// ---------------------------------------------------------------------------
// Where the slots are
// ---------------------------------------------------------------------------

proof fn lemma_row_place(count: nat, row: spec_fn(nat) -> Seq<(usize, usize)>, r: nat, k: int)
    requires
        r < count,
        0 <= k < row(r).len(),
    ensures
        rows(r, row).len() + k < rows(count, row).len(),
        rows(count, row)[rows(r, row).len() + k] == row(r)[k],
    decreases count,
{
    let last = (count - 1) as nat;
    if r < last {
        lemma_row_place(last, row, r, k);
    }
}

/// Where the slot for the static edge from `a` to `b` is among those of `n`
/// nodes.
pub open spec fn static_place(n: usize, a: usize, b: usize) -> int {
    a * (2 * n - a - 1) / 2 + (b - a - 1)
}

/// Where the slot for the dynamic edge from `a` to `b` is among those of `n`
/// nodes.
pub open spec fn dynamic_place(n: usize, a: usize, b: usize) -> int {
    a * (n - 1) + if b < a {
        b as int
    } else {
        b - 1
    }
}

/// Where the slot for the edge from node `a` to the external module `e` is,
/// when there are `m` external modules.
pub open spec fn external_place(m: usize, a: usize, e: usize) -> int {
    a * m + e
}

/// Every pair of a node and a higher one has one slot for a static edge, and
/// there are no others. They are in order.
pub proof fn static_slots_are_the_upward_pairs(n: usize, a: usize, b: usize)
    ensures
        a < b < n ==> 0 <= static_place(n, a, b) < static_slots(n).len() && static_slots(
            n,
        )[static_place(n, a, b)] == (a, b),
        static_slots(n).contains((a, b)) <==> a < b < n,
        climbs(static_slots(n)),
{
    lemma_static_slots(n);
    if a < b < n {
        let row = pairs_upward(n);
        lemma_upward_len(n, a as nat);
        lemma_row_place(n as nat, row, a as nat, b - a - 1);
        assert(row(a as nat)[b - a - 1] == (a, b));
        assert(static_place(n, a, b) == rows(a as nat, row).len() + (b - a - 1));
        assert(static_slots(n)[static_place(n, a, b)] == (a, b));
    }
    if static_slots(n).contains((a, b)) {
        let i = choose|i: int| 0 <= i < static_slots(n).len() && static_slots(n)[i] == (a, b);
        assert(static_slots(n)[i].0 < static_slots(n)[i].1);
    }
}

/// Every pair of two different nodes has one slot for a dynamic edge, and
/// there are no others. They are in order.
pub proof fn dynamic_slots_are_the_pairs(n: usize, a: usize, b: usize)
    ensures
        a < n && b < n && a != b ==> 0 <= dynamic_place(n, a, b) < dynamic_slots(n).len()
            && dynamic_slots(n)[dynamic_place(n, a, b)] == (a, b),
        dynamic_slots(n).contains((a, b)) <==> a < n && b < n && a != b,
        climbs(dynamic_slots(n)),
{
    lemma_dynamic_slots(n);
    if a < n && b < n && a != b {
        let row = pairs_with_others(n);
        lemma_even_rows_len(a as nat, row, (n - 1) as nat);
        let k = if b < a {
            b as int
        } else {
            b - 1
        };
        lemma_row_place(n as nat, row, a as nat, k);
        assert(row(a as nat)[k] == (a, b));
        assert(dynamic_slots(n)[dynamic_place(n, a, b)] == (a, b));
    }
    if dynamic_slots(n).contains((a, b)) {
        let i = choose|i: int| 0 <= i < dynamic_slots(n).len() && dynamic_slots(n)[i] == (a, b);
        assert(dynamic_slots(n)[i].0 < n);
    }
}

/// Every pair of a node and an external module has one slot, and there are no
/// others. They are in order.
pub proof fn external_slots_are_the_pairs(n: usize, m: usize, a: usize, e: usize)
    ensures
        a < n && e < m ==> 0 <= external_place(m, a, e) < external_slots(n, m).len()
            && external_slots(n, m)[external_place(m, a, e)] == (a, e),
        external_slots(n, m).contains((a, e)) <==> a < n && e < m,
        climbs(external_slots(n, m)),
{
    lemma_external_slots(n, m);
    if a < n && e < m {
        let row = pairs_with_each(m);
        lemma_even_rows_len(a as nat, row, m as nat);
        lemma_row_place(n as nat, row, a as nat, e as int);
        assert(row(a as nat)[e as int] == (a, e));
        assert(external_slots(n, m)[external_place(m, a, e)] == (a, e));
    }
    if external_slots(n, m).contains((a, e)) {
        let i = choose|i: int| 0 <= i < external_slots(n, m).len() && external_slots(n, m)[i] == (
            a,
            e,
        );
        assert(external_slots(n, m)[i].0 < n);
    }
}

// ---------------------------------------------------------------------------
// What the masks pick
// ---------------------------------------------------------------------------

/// A mask selects a position exactly when it is set there.
pub proof fn masks_select_where_they_are_set(mask: Seq<bool>, i: usize)
    requires
        mask.len() <= usize::MAX,
    ensures
        selected(mask).contains(i) <==> i < mask.len() && mask[i as int],
    decreases mask.len(),
{
    if mask.len() > 0 {
        let front = mask.drop_last();
        let last = (mask.len() - 1) as usize;
        masks_select_where_they_are_set(front, i);
        let before = selected(front);
        let all = selected(mask);
        if i < front.len() {
            assert(front[i as int] == mask[i as int]);
        }
        if all.contains(i) {
            let k = choose|k: int| 0 <= k < all.len() && all[k] == i;
            if k < before.len() {
                assert(before[k] == i);
            }
        }
        if before.contains(i) {
            let k = choose|k: int| 0 <= k < before.len() && before[k] == i;
            assert(all[k] == i);
        }
        if mask.last() {
            assert(all.last() == last);
            assert(all[all.len() - 1] == last);
        }
    }
}

proof fn lemma_picks(slots: Seq<(usize, usize)>, mask: Seq<bool>, i: int)
    requires
        climbs(slots),
        0 <= i < slots.len(),
    ensures
        picked(slots, mask).contains(slots[i]) <==> mask[i],
    decreases slots.len(),
{
    let front = slots.drop_last();
    let before = picked(front, mask);
    let all = picked(slots, mask);
    assert(climbs(front));
    lemma_picked(front, mask);
    if i < front.len() {
        lemma_picks(front, mask, i);
        assert(front[i] == slots[i]);
        assert(slots[i] != slots.last()) by {
            assert(slots[slots.len() - 1] == slots.last());
        }
        if before.contains(slots[i]) {
            let k = choose|k: int| 0 <= k < before.len() && before[k] == slots[i];
            assert(all[k] == slots[i]);
        }
        if all.contains(slots[i]) {
            let k = choose|k: int| 0 <= k < all.len() && all[k] == slots[i];
            assert(before[k] == slots[i]);
        }
    } else {
        if mask[i] {
            assert(all[all.len() - 1] == slots[i]);
        } else if all.contains(slots[i]) {
            let k = choose|k: int| 0 <= k < all.len() && all[k] == slots[i];
            assert(front.contains(before[k]));
            let j = choose|j: int| 0 <= j < front.len() && front[j] == before[k];
            assert(slots[j] == slots[i]);
        }
    }
}

/// Edges are picked exactly from the slots where the mask is set, in order.
pub proof fn masks_pick_where_they_are_set(slots: Seq<(usize, usize)>, mask: Seq<bool>)
    requires
        climbs(slots),
    ensures
        forall|i: int|
            0 <= i < slots.len() ==> (picked(slots, mask).contains(#[trigger] slots[i])
                <==> mask[i]),
        forall|e: (usize, usize)| #[trigger]
            picked(slots, mask).contains(e) ==> slots.contains(e),
        climbs(picked(slots, mask)),
{
    lemma_picked(slots, mask);
    assert forall|i: int| 0 <= i < slots.len() implies (picked(slots, mask).contains(
        #[trigger] slots[i],
    ) <==> mask[i]) by {
        lemma_picks(slots, mask, i);
    }
    assert forall|e: (usize, usize)| #[trigger]
        picked(slots, mask).contains(e) implies slots.contains(e) by {
        let k = choose|k: int| 0 <= k < picked(slots, mask).len() && picked(slots, mask)[k] == e;
        assert(slots.contains(picked(slots, mask)[k]));
    }
}

proof fn lemma_copies(x: (usize, usize), count: nat, y: (usize, usize))
    ensures
        Seq::new(count, |k: int| x).to_multiset().count(y) == if x == y {
            count
        } else {
            0
        },
    decreases count,
{
    broadcast use vstd::seq_lib::group_to_multiset_ensures;

    let all = Seq::new(count, |k: int| x);
    if count > 0 {
        let fewer = Seq::new((count - 1) as nat, |k: int| x);
        lemma_copies(x, (count - 1) as nat, y);
        assert(all =~= fewer.push(x));
    } else {
        assert(all =~= Seq::<(usize, usize)>::empty());
    }
}

proof fn lemma_repeats(slots: Seq<(usize, usize)>, counts: Seq<u8>, e: (usize, usize))
    requires
        climbs(slots),
    ensures
        !slots.contains(e) ==> repeated(slots, counts).to_multiset().count(e) == 0,
        forall|i: int|
            0 <= i < slots.len() && #[trigger] slots[i] == e ==> repeated(
                slots,
                counts,
            ).to_multiset().count(e) == counts[i],
    decreases slots.len(),
{
    broadcast use vstd::seq_lib::group_to_multiset_ensures;

    if slots.len() > 0 {
        let front = slots.drop_last();
        assert(climbs(front));
        lemma_repeats(front, counts, e);
        let copies = Seq::new(counts[slots.len() - 1] as nat, |k: int| slots.last());
        lemma_multiset_commutative(repeated(front, counts), copies);
        lemma_copies(slots.last(), counts[slots.len() - 1] as nat, e);
        assert(slots[slots.len() - 1] == slots.last());
        if front.contains(e) {
            let j = choose|j: int| 0 <= j < front.len() && front[j] == e;
            assert(slots[j] == e);
        }
        if slots.last() == e {
            assert(slots.contains(e));
            assert(!front.contains(e)) by {
                if front.contains(e) {
                    let j = choose|j: int| 0 <= j < front.len() && front[j] == e;
                    assert(slots[j] == e);
                }
            }
        }
        assert forall|i: int| 0 <= i < slots.len() && #[trigger] slots[i] == e implies repeated(
            slots,
            counts,
        ).to_multiset().count(e) == counts[i] by {
            if i < front.len() {
                assert(front[i] == e);
                assert(slots.last() != e);
            }
        }
    } else {
        assert(repeated(slots, counts) =~= Seq::<(usize, usize)>::empty());
    }
}

/// Every slot is repeated as often as the count at its position says, and
/// nothing else occurs.
pub proof fn counts_say_how_often(slots: Seq<(usize, usize)>, counts: Seq<u8>)
    requires
        climbs(slots),
    ensures
        forall|i: int|
            0 <= i < slots.len() ==> repeated(slots, counts).to_multiset().count(
                #[trigger] slots[i],
            ) == counts[i],
        forall|e: (usize, usize)| #[trigger]
            repeated(slots, counts).contains(e) ==> slots.contains(e),
{
    lemma_repeated(slots, counts);
    assert forall|i: int| 0 <= i < slots.len() implies repeated(slots, counts).to_multiset().count(
        #[trigger] slots[i],
    ) == counts[i] by {
        lemma_repeats(slots, counts, slots[i]);
    }
    assert forall|e: (usize, usize)| #[trigger]
        repeated(slots, counts).contains(e) implies slots.contains(e) by {
        let all = repeated(slots, counts);
        let k = choose|k: int| 0 <= k < all.len() && all[k] == e;
        assert(slots.contains(all[k]));
    }
}

/// A slot has variant `v` exactly when the choice at its position is `v + 1`,
/// and `v` is one of the variants there are.
pub proof fn choices_say_which_variant(
    slots: Seq<(usize, usize)>,
    choices: Seq<u8>,
    i: int,
    v: u8,
)
    requires
        climbs(slots),
        0 <= i < slots.len(),
    ensures
        with_variants(slots, choices).contains((slots[i].0, slots[i].1, v)) <==> i < choices.len()
            && choices[i] == v + 1 && v < EXTERNAL_DEFAULT_LOCAL_VARIANTS,
    decreases slots.len(),
{
    let front = slots.drop_last();
    let before = with_variants(front, choices);
    let all = with_variants(slots, choices);
    let t = (slots[i].0, slots[i].1, v);
    assert(climbs(front));
    lemma_with_variants(front, choices);
    let last = slots.len() - 1;
    assert(slots[last] == slots.last());
    if i < front.len() {
        choices_say_which_variant(front, choices, i, v);
        assert(front[i] == slots[i]);
        assert(slots[i] != slots[last]);
        if before.contains(t) {
            let k = choose|k: int| 0 <= k < before.len() && before[k] == t;
            assert(all[k] == t);
        }
        if all.contains(t) {
            let k = choose|k: int| 0 <= k < all.len() && all[k] == t;
            assert(before[k] == t);
        }
    } else {
        assert(!before.contains(t)) by {
            if before.contains(t) {
                let k = choose|k: int| 0 <= k < before.len() && before[k] == t;
                assert(front.contains((before[k].0, before[k].1)));
                let j = choose|j: int| 0 <= j < front.len() && front[j] == (t.0, t.1);
                assert(slots[j] == slots[last]);
            }
        }
        let choice = choice_at(choices, last);
        if 0 < choice <= EXTERNAL_DEFAULT_LOCAL_VARIANTS {
            assert(all[all.len() - 1] == (slots[last].0, slots[last].1, (choice - 1) as u8));
            if all.contains(t) {
                let k = choose|k: int| 0 <= k < all.len() && all[k] == t;
                if k < before.len() {
                    assert(before[k] == t);
                }
            }
        }
    }
}

// ---------------------------------------------------------------------------
// What a case holds
// ---------------------------------------------------------------------------

/// The settings of a case built from masks are the ones that were given.
pub proof fn masks_leave_the_settings(
    seed: u64,
    node_count: usize,
    preserve_entry_signatures_index: u8,
    strict_execution_order: bool,
    treeshake: bool,
    minify_internal_exports: bool,
    entry_mask: Seq<bool>,
    cjs_mask: Seq<bool>,
    static_mask: Seq<bool>,
    dynamic_mask: Seq<u8>,
    reexport_mask: Seq<bool>,
    external_module_count: usize,
    external_dynamic_mask: Seq<bool>,
    external_static_default_mask: Seq<u8>,
)
    ensures
        ({
            let case = case_of_masks(
                seed,
                node_count,
                preserve_entry_signatures_index,
                strict_execution_order,
                treeshake,
                minify_internal_exports,
                entry_mask,
                cjs_mask,
                static_mask,
                dynamic_mask,
                reexport_mask,
                external_module_count,
                external_dynamic_mask,
                external_static_default_mask,
            );
            &&& case.seed == seed
            &&& case.node_count == node_count
            &&& case.external_module_count == external_module_count
            &&& case.preserve_entry_signatures == signatures_at(
                preserve_entry_signatures_index as int,
            )
            &&& case.strict_execution_order == strict_execution_order
            &&& case.treeshake == treeshake
            &&& case.minify_internal_exports == minify_internal_exports
        }),
{
}

/// Which nodes of a case built from masks are CommonJS modules and entries. A
/// node is a CommonJS module exactly when the mask says so. It is an entry
/// exactly when the mask says so, but for two cases: where the mask asks for
/// none, the node that the seed falls on is the entry, and where it asks for as
/// many as there are nodes, and several, the last that it asks for is left out.
pub proof fn masks_of_any_length_decide_every_node(
    seed: u64,
    node_count: usize,
    preserve_entry_signatures_index: u8,
    strict_execution_order: bool,
    treeshake: bool,
    minify_internal_exports: bool,
    entry_mask: Seq<bool>,
    cjs_mask: Seq<bool>,
    static_mask: Seq<bool>,
    dynamic_mask: Seq<u8>,
    reexport_mask: Seq<bool>,
    external_module_count: usize,
    external_dynamic_mask: Seq<bool>,
    external_static_default_mask: Seq<u8>,
    i: usize,
)
    requires
        0 < node_count,
        entry_mask.len() <= usize::MAX,
        cjs_mask.len() <= usize::MAX,
    ensures
        ({
            let case = case_of_masks(
                seed,
                node_count,
                preserve_entry_signatures_index,
                strict_execution_order,
                treeshake,
                minify_internal_exports,
                entry_mask,
                cjs_mask,
                static_mask,
                dynamic_mask,
                reexport_mask,
                external_module_count,
                external_dynamic_mask,
                external_static_default_mask,
            );
            let asked = i < entry_mask.len() && entry_mask[i as int];
            let none = forall|k: int| 0 <= k < entry_mask.len() ==> !(#[trigger] entry_mask[k]);
            let later = exists|k: int| i < k < entry_mask.len() && #[trigger] entry_mask[k];
            &&& case.cjs_nodes.contains(i) <==> i < cjs_mask.len() && cjs_mask[i as int]
            &&& case.entry_nodes.contains(i) <==> if none {
                i == (seed as usize) % node_count
            } else if selected(entry_mask).len() == node_count && node_count > 1 {
                asked && later
            } else {
                asked
            }
        }),
{
    masks_select_where_they_are_set(cjs_mask, i);
    masks_select_where_they_are_set(entry_mask, i);
    let chosen = selected(entry_mask);
    lemma_selected(entry_mask);
    if chosen.len() > 0 {
        let k = chosen[0];
        assert(chosen.contains(k));
        masks_select_where_they_are_set(entry_mask, k);
        assert(entry_mask[k as int]);
    } else {
        assert forall|k: int| 0 <= k < entry_mask.len() implies !(#[trigger] entry_mask[k]) by {
            masks_select_where_they_are_set(entry_mask, k as usize);
        }
    }
    let entries = entries_among(chosen, node_count, seed);
    if chosen.len() == 0 {
        assert(entries[0] == (seed as usize) % node_count);
    } else if chosen.len() == node_count && node_count > 1 {
        let last = chosen.last();
        assert(chosen.contains(last));
        masks_select_where_they_are_set(entry_mask, last);
        if entries.contains(i) {
            let k = choose|k: int| 0 <= k < entries.len() && entries[k] == i;
            assert(chosen[k] == i);
            assert(chosen.contains(i));
            assert(rank::<usize>()(chosen[k], chosen[chosen.len() - 1]));
            assert(i < last);
            assert(entry_mask[last as int]);
        }
        if chosen.contains(i) && exists|k: int|
            i < k < entry_mask.len() && #[trigger] entry_mask[k] {
            let k = choose|k: int| i < k < entry_mask.len() && #[trigger] entry_mask[k];
            masks_select_where_they_are_set(entry_mask, k as usize);
            let at = choose|at: int| 0 <= at < chosen.len() && chosen[at] == k as usize;
            let own = choose|own: int| 0 <= own < chosen.len() && chosen[own] == i;
            if own == chosen.len() - 1 {
                assert(rank::<usize>()(chosen[at], chosen[own]));
            }
            assert(entries[own] == i);
        }
    }
}

/// Which nodes of a case built from masks are CommonJS modules and entries. A
/// node is a CommonJS module exactly when the mask says so. It is an entry
/// exactly when the mask says so, but for two cases: where the mask asks for
/// none, the node that the seed falls on is the entry, and where it asks for
/// all of several, the last one is left out.
pub proof fn masks_decide_every_node(
    seed: u64,
    node_count: usize,
    preserve_entry_signatures_index: u8,
    strict_execution_order: bool,
    treeshake: bool,
    minify_internal_exports: bool,
    entry_mask: Seq<bool>,
    cjs_mask: Seq<bool>,
    static_mask: Seq<bool>,
    dynamic_mask: Seq<u8>,
    reexport_mask: Seq<bool>,
    external_module_count: usize,
    external_dynamic_mask: Seq<bool>,
    external_static_default_mask: Seq<u8>,
    i: usize,
)
    requires
        0 < node_count,
        entry_mask.len() == node_count,
        cjs_mask.len() == node_count,
        i < node_count,
    ensures
        ({
            let case = case_of_masks(
                seed,
                node_count,
                preserve_entry_signatures_index,
                strict_execution_order,
                treeshake,
                minify_internal_exports,
                entry_mask,
                cjs_mask,
                static_mask,
                dynamic_mask,
                reexport_mask,
                external_module_count,
                external_dynamic_mask,
                external_static_default_mask,
            );
            let none = forall|k: int| 0 <= k < entry_mask.len() ==> !(#[trigger] entry_mask[k]);
            let all = forall|k: int| 0 <= k < entry_mask.len() ==> #[trigger] entry_mask[k];
            &&& case.cjs_nodes.contains(i) <==> cjs_mask[i as int]
            &&& case.entry_nodes.contains(i) <==> if none {
                i == (seed as usize) % node_count
            } else if all && node_count > 1 {
                i < node_count - 1
            } else {
                entry_mask[i as int]
            }
        }),
{
    masks_select_where_they_are_set(cjs_mask, i);
    masks_select_where_they_are_set(entry_mask, i);
    let chosen = selected(entry_mask);
    lemma_selected(entry_mask);
    let none = forall|k: int| 0 <= k < entry_mask.len() ==> !(#[trigger] entry_mask[k]);
    let all = forall|k: int| 0 <= k < entry_mask.len() ==> #[trigger] entry_mask[k];
    if chosen.len() > 0 {
        let k = chosen[0];
        assert(chosen.contains(k));
        masks_select_where_they_are_set(entry_mask, k);
        assert(entry_mask[k as int]);
    } else {
        assert forall|k: int| 0 <= k < entry_mask.len() implies !(#[trigger] entry_mask[k]) by {
            masks_select_where_they_are_set(entry_mask, k as usize);
        }
    }
    lemma_all_selected(entry_mask);
    let entries = entries_among(chosen, node_count, seed);
    if chosen.len() == 0 {
        assert(entries[0] == (seed as usize) % node_count);
    } else if chosen.len() == node_count && node_count > 1 {
        if entries.contains(i) {
            let k = choose|k: int| 0 <= k < entries.len() && entries[k] == i;
            assert(chosen[k] == k);
        }
        if i < node_count - 1 {
            assert(chosen[i as int] == i);
            assert(entries[i as int] == i);
        }
    }
}

proof fn lemma_all_selected(mask: Seq<bool>)
    requires
        mask.len() <= usize::MAX,
    ensures
        selected(mask).len() <= mask.len(),
        selected(mask).len() == mask.len() <==> forall|k: int|
            0 <= k < mask.len() ==> #[trigger] mask[k],
        selected(mask).len() == mask.len() ==> forall|k: int|
            0 <= k < mask.len() ==> #[trigger] selected(mask)[k] == k,
    decreases mask.len(),
{
    if mask.len() > 0 {
        let front = mask.drop_last();
        lemma_all_selected(front);
        assert(mask[mask.len() - 1] == mask.last());
        assert forall|k: int| 0 <= k < front.len() implies front[k] == mask[k] by {}
        if selected(mask).len() == mask.len() {
            assert forall|k: int| 0 <= k < mask.len() implies #[trigger] mask[k] by {
                if k < front.len() {
                    assert(front[k]);
                }
            }
        }
        if forall|k: int| 0 <= k < mask.len() ==> #[trigger] mask[k] {
            assert forall|k: int| 0 <= k < front.len() implies #[trigger] front[k] by {
                assert(mask[k]);
            }
        }
    }
}

/// Which edges a case built from masks has. The one position of a mask that
/// belongs to a pair of nodes, or to a node and an external module, decides:
/// there is a static edge upward where the static mask is set, reexporting
/// where the reexport mask is set too; there are as many dynamic edges between
/// two different nodes as the dynamic mask says; there is a dynamic edge to an
/// external module where the mask for those is set; and its default is
/// imported under variant `v` where the choice is `v + 1`.
pub proof fn masks_decide_every_edge(
    seed: u64,
    node_count: usize,
    preserve_entry_signatures_index: u8,
    strict_execution_order: bool,
    treeshake: bool,
    minify_internal_exports: bool,
    entry_mask: Seq<bool>,
    cjs_mask: Seq<bool>,
    static_mask: Seq<bool>,
    dynamic_mask: Seq<u8>,
    reexport_mask: Seq<bool>,
    external_module_count: usize,
    external_dynamic_mask: Seq<bool>,
    external_static_default_mask: Seq<u8>,
    a: usize,
    b: usize,
    v: u8,
)
    ensures
        ({
            let case = case_of_masks(
                seed,
                node_count,
                preserve_entry_signatures_index,
                strict_execution_order,
                treeshake,
                minify_internal_exports,
                entry_mask,
                cjs_mask,
                static_mask,
                dynamic_mask,
                reexport_mask,
                external_module_count,
                external_dynamic_mask,
                external_static_default_mask,
            );
            let upward = static_place(node_count, a, b);
            let between = dynamic_place(node_count, a, b);
            let outward = external_place(external_module_count, a, b);
            &&& case.static_edges.contains((a, b)) <==> a < b < node_count && static_mask[upward]
            &&& case.reexport_static_edges.contains((a, b)) <==> a < b < node_count
                && static_mask[upward] && reexport_mask[upward]
            &&& a < node_count && b < node_count && a != b
                ==> case.dynamic_edges.to_multiset().count((a, b)) == dynamic_mask[between]
            &&& case.dynamic_edges.contains((a, b)) ==> a < node_count && b < node_count && a != b
            &&& case.external_dynamic_edges.contains((a, b)) <==> a < node_count && b
                < external_module_count && external_dynamic_mask[outward]
            &&& a < node_count && b < external_module_count
                ==> (case.external_static_default_edges.contains((a, b, v)) <==> outward
                < external_static_default_mask.len() && external_static_default_mask[outward] == v
                + 1 && v < 4)
            &&& case.external_static_default_edges.contains((a, b, v)) ==> a < node_count && b
                < external_module_count
        }),
{
    let slots = static_slots(node_count);
    let reexported = both(static_mask, reexport_mask, slots.len());
    static_slots_are_the_upward_pairs(node_count, a, b);
    masks_pick_where_they_are_set(slots, static_mask);
    masks_pick_where_they_are_set(slots, reexported);
    if a < b < node_count {
        let upward = static_place(node_count, a, b);
        assert(slots[upward] == (a, b));
        assert(reexported[upward] == (static_mask[upward] && reexport_mask[upward]));
    }
    dynamic_slots_are_the_pairs(node_count, a, b);
    counts_say_how_often(dynamic_slots(node_count), dynamic_mask);
    if a < node_count && b < node_count && a != b {
        assert(dynamic_slots(node_count)[dynamic_place(node_count, a, b)] == (a, b));
    }
    let outside = external_slots(node_count, external_module_count);
    external_slots_are_the_pairs(node_count, external_module_count, a, b);
    masks_pick_where_they_are_set(outside, external_dynamic_mask);
    if a < node_count && b < external_module_count {
        let outward = external_place(external_module_count, a, b);
        assert(outside[outward] == (a, b));
        choices_say_which_variant(outside, external_static_default_mask, outward, v);
    }
    lemma_with_variants(outside, external_static_default_mask);
    let defaults = with_variants(outside, external_static_default_mask);
    if defaults.contains((a, b, v)) {
        let k = choose|k: int| 0 <= k < defaults.len() && defaults[k] == (a, b, v);
        assert(outside.contains((defaults[k].0, defaults[k].1)));
    }
}

} // verus!
