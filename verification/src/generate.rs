//! Generating cases from masks.
use crate::case::{
    preserve_entry_signatures_from_index, signatures_at, CaseModel, GraphCase,
    EXTERNAL_DEFAULT_LOCAL_VARIANTS, MAX_NODES,
};
use crate::graph_cycle_checker::{ascending_edges_are_acyclic, is_acyclic};
use crate::order::{in_order, in_strict_order, rank};
use vstd::prelude::*;

verus! {

// ---------------------------------------------------------------------------
// The slots that the masks fill
// ---------------------------------------------------------------------------

/// The rows below `count`, one after another.
pub open spec fn rows(count: nat, row: spec_fn(nat) -> Seq<(usize, usize)>) -> Seq<(usize, usize)>
    decreases count,
{
    if count == 0 {
        Seq::empty()
    } else {
        rows((count - 1) as nat, row) + row((count - 1) as nat)
    }
}

/// The pairs of `from` with the higher ones of `n` nodes.
pub open spec fn pairs_upward(n: usize) -> spec_fn(nat) -> Seq<(usize, usize)> {
    |from: nat|
        Seq::new((n - from - 1) as nat, |k: int| (from as usize, (from + 1 + k) as usize))
}

/// The pairs of `from` with the others of `n` nodes.
pub open spec fn pairs_with_others(n: usize) -> spec_fn(nat) -> Seq<(usize, usize)> {
    |from: nat|
        Seq::new(
            (n - 1) as nat,
            |k: int|
                (
                    from as usize,
                    if k < from {
                        k as usize
                    } else {
                        (k + 1) as usize
                    },
                ),
        )
}

/// The pairs of `from` with each of `m` external modules.
pub open spec fn pairs_with_each(m: usize) -> spec_fn(nat) -> Seq<(usize, usize)> {
    |from: nat| Seq::new(m as nat, |k: int| (from as usize, k as usize))
}

/// The slots for static edges: every pair of a node and a higher one.
pub open spec fn static_slots(n: usize) -> Seq<(usize, usize)> {
    rows(n as nat, pairs_upward(n))
}

/// The slots for dynamic edges: every pair of two different nodes.
pub open spec fn dynamic_slots(n: usize) -> Seq<(usize, usize)> {
    rows(n as nat, pairs_with_others(n))
}

/// The slots for edges to external modules: every pair of a node and one.
pub open spec fn external_slots(n: usize, m: usize) -> Seq<(usize, usize)> {
    rows(n as nat, pairs_with_each(m))
}

/// The positions that a mask selects.
pub open spec fn selected(mask: Seq<bool>) -> Seq<usize>
    decreases mask.len(),
{
    if mask.len() == 0 {
        Seq::empty()
    } else if mask.last() {
        selected(mask.drop_last()).push((mask.len() - 1) as usize)
    } else {
        selected(mask.drop_last())
    }
}

/// The slots that a mask selects.
pub open spec fn picked(slots: Seq<(usize, usize)>, mask: Seq<bool>) -> Seq<(usize, usize)>
    decreases slots.len(),
{
    if slots.len() == 0 {
        Seq::empty()
    } else if mask[slots.len() - 1] {
        picked(slots.drop_last(), mask).push(slots.last())
    } else {
        picked(slots.drop_last(), mask)
    }
}

/// Each slot as often as its count says.
pub open spec fn repeated(slots: Seq<(usize, usize)>, counts: Seq<u8>) -> Seq<(usize, usize)>
    decreases slots.len(),
{
    if slots.len() == 0 {
        Seq::empty()
    } else {
        repeated(slots.drop_last(), counts) + Seq::new(
            counts[slots.len() - 1] as nat,
            |k: int| slots.last(),
        )
    }
}

/// The choice at a position, where a missing one counts as no choice.
pub open spec fn choice_at(choices: Seq<u8>, i: int) -> u8 {
    if i < choices.len() {
        choices[i]
    } else {
        0
    }
}

/// The slots for which a variant is chosen, with it: the choice `v + 1` stands
/// for variant `v`, and any other choice for none.
pub open spec fn with_variants(
    slots: Seq<(usize, usize)>,
    choices: Seq<u8>,
) -> Seq<(usize, usize, u8)>
    decreases slots.len(),
{
    if slots.len() == 0 {
        Seq::empty()
    } else {
        let front = with_variants(slots.drop_last(), choices);
        let choice = choice_at(choices, slots.len() - 1);
        if 0 < choice <= EXTERNAL_DEFAULT_LOCAL_VARIANTS {
            front.push((slots.last().0, slots.last().1, (choice - 1) as u8))
        } else {
            front
        }
    }
}

/// The positions that both masks select, of the first `len`.
pub open spec fn both(a: Seq<bool>, b: Seq<bool>, len: nat) -> Seq<bool> {
    Seq::new(len, |i: int| a[i] && b[i])
}

/// The entries among `n` nodes when `chosen` were asked for: the node that the
/// seed falls on if none was, and all but the last if every node was.
pub open spec fn entries_among(chosen: Seq<usize>, n: usize, seed: u64) -> Seq<usize> {
    if chosen.len() == 0 {
        seq![(seed as usize) % n]
    } else if chosen.len() == n && n > 1 {
        chosen.drop_last()
    } else {
        chosen
    }
}

/// The case that masks describe.
pub open spec fn case_of_masks(
    seed: u64,
    node_count: usize,
    preserve_entry_signatures_index: u8,
    strict_execution_order: bool,
    treeshake: bool,
    minify_internal_exports: bool,
    entry_mask: Seq<bool>,
    cjs_mask: Seq<bool>,
    static_mask: Seq<bool>,
    dynamic_mask: Seq<u8>,
    reexport_mask: Seq<bool>,
    external_module_count: usize,
    external_dynamic_mask: Seq<bool>,
    external_static_default_mask: Seq<u8>,
) -> CaseModel {
    let slots = static_slots(node_count);
    let outside = external_slots(node_count, external_module_count);
    CaseModel {
        seed,
        node_count,
        entry_nodes: entries_among(selected(entry_mask), node_count, seed),
        cjs_nodes: selected(cjs_mask),
        static_edges: picked(slots, static_mask),
        dynamic_edges: repeated(dynamic_slots(node_count), dynamic_mask),
        reexport_static_edges: picked(slots, both(static_mask, reexport_mask, slots.len())),
        external_module_count,
        external_dynamic_edges: picked(outside, external_dynamic_mask),
        external_static_default_edges: with_variants(outside, external_static_default_mask),
        preserve_entry_signatures: signatures_at(preserve_entry_signatures_index as int),
        strict_execution_order,
        treeshake,
        minify_internal_exports,
    }
}

// ---------------------------------------------------------------------------
// Facts about the slots
// ---------------------------------------------------------------------------

/// Whether each pair comes strictly before every later one.
pub open spec fn climbs(s: Seq<(usize, usize)>) -> bool {
    forall|i: int, j: int|
        0 <= i < j < s.len() ==> (#[trigger] s[i]).0 < (#[trigger] s[j]).0 || (s[i].0 == s[j].0
            && s[i].1 < s[j].1)
}

proof fn lemma_climbs_in_strict_order(s: Seq<(usize, usize)>)
    requires
        climbs(s),
    ensures
        in_strict_order(s, rank::<(usize, usize)>()),
{
}

proof fn lemma_rows_climb(count: nat, row: spec_fn(nat) -> Seq<(usize, usize)>)
    requires
        count <= usize::MAX,
        forall|r: nat, k: int|
            r < count && 0 <= k < row(r).len() ==> (#[trigger] row(r)[k]).0 == r,
        forall|r: nat, i: int, j: int|
            r < count && 0 <= i < j < row(r).len() ==> (#[trigger] row(r)[i]).1 < (
            #[trigger] row(r)[j]).1,
    ensures
        climbs(rows(count, row)),
        forall|i: int| 0 <= i < rows(count, row).len() ==> (#[trigger] rows(count, row)[i]).0 < count,
    decreases count,
{
    if count > 0 {
        let last = (count - 1) as nat;
        lemma_rows_climb(last, row);
        let front = rows(last, row);
        let all = rows(count, row);
        assert forall|i: int| 0 <= i < all.len() implies (#[trigger] all[i]).0 < count by {
            if i < front.len() {
                assert(all[i] == front[i]);
            } else {
                assert(all[i] == row(last)[i - front.len()]);
            }
        }
        assert forall|i: int, j: int| 0 <= i < j < all.len() implies (#[trigger] all[i]).0 < (
        #[trigger] all[j]).0 || (all[i].0 == all[j].0 && all[i].1 < all[j].1) by {
            if j < front.len() {
                assert(all[i] == front[i] && all[j] == front[j]);
            } else {
                assert(all[j] == row(last)[j - front.len()]);
                if i < front.len() {
                    assert(all[i] == front[i]);
                } else {
                    assert(all[i] == row(last)[i - front.len()]);
                }
            }
        }
    }
}

/// Whether every slot of the rows satisfies `good`, when every slot of each does.
proof fn lemma_rows_all(
    count: nat,
    row: spec_fn(nat) -> Seq<(usize, usize)>,
    good: spec_fn((usize, usize)) -> bool,
)
    requires
        forall|r: nat, k: int| r < count && 0 <= k < row(r).len() ==> good(#[trigger] row(r)[k]),
    ensures
        forall|i: int| 0 <= i < rows(count, row).len() ==> good(#[trigger] rows(count, row)[i]),
    decreases count,
{
    if count > 0 {
        let last = (count - 1) as nat;
        lemma_rows_all(last, row, good);
        let front = rows(last, row);
        let all = rows(count, row);
        assert forall|i: int| 0 <= i < all.len() implies good(#[trigger] all[i]) by {
            if i < front.len() {
                assert(all[i] == front[i]);
            } else {
                assert(all[i] == row(last)[i - front.len()]);
            }
        }
    }
}

pub proof fn lemma_static_slots(n: usize)
    ensures
        climbs(static_slots(n)),
        forall|i: int|
            0 <= i < static_slots(n).len() ==> (#[trigger] static_slots(n)[i]).0
                < static_slots(n)[i].1 < n,
{
    let row = pairs_upward(n);
    lemma_rows_climb(n as nat, row);
    lemma_rows_all(n as nat, row, |p: (usize, usize)| p.0 < p.1 < n);
}

pub proof fn lemma_dynamic_slots(n: usize)
    ensures
        climbs(dynamic_slots(n)),
        forall|i: int|
            0 <= i < dynamic_slots(n).len() ==> (#[trigger] dynamic_slots(n)[i]).0 < n
                && dynamic_slots(n)[i].1 < n && dynamic_slots(n)[i].0 != dynamic_slots(n)[i].1,
{
    let row = pairs_with_others(n);
    lemma_rows_climb(n as nat, row);
    lemma_rows_all(n as nat, row, |p: (usize, usize)| p.0 < n && p.1 < n && p.0 != p.1);
}

pub proof fn lemma_external_slots(n: usize, m: usize)
    ensures
        climbs(external_slots(n, m)),
        forall|i: int|
            0 <= i < external_slots(n, m).len() ==> (#[trigger] external_slots(n, m)[i]).0 < n
                && external_slots(n, m)[i].1 < m,
{
    let row = pairs_with_each(m);
    lemma_rows_climb(n as nat, row);
    lemma_rows_all(n as nat, row, |p: (usize, usize)| p.0 < n && p.1 < m);
}

pub proof fn lemma_upward_len(n: usize, count: nat)
    requires
        count <= n,
    ensures
        2 * rows(count, pairs_upward(n)).len() == count * (2 * n - count - 1),
    decreases count,
{
    if count > 0 {
        let c = (count - 1) as nat;
        lemma_upward_len(n, c);
        assert(pairs_upward(n)(c).len() == n - c - 1);
        assert(c * (2 * n - c - 1) + 2 * (n - c - 1) == count * (2 * n - count - 1))
            by (nonlinear_arith)
            requires
                count == c + 1,
        ;
    } else {
        assert(count * (2 * n - count - 1) == 0) by (nonlinear_arith)
            requires
                count == 0,
        ;
    }
}

pub proof fn lemma_even_rows_len(count: nat, row: spec_fn(nat) -> Seq<(usize, usize)>, width: nat)
    requires
        forall|r: nat| r < count ==> (#[trigger] row(r)).len() == width,
    ensures
        rows(count, row).len() == count * width,
    decreases count,
{
    if count > 0 {
        let c = (count - 1) as nat;
        lemma_even_rows_len(c, row, width);
        assert(c * width + width == (c + 1) * width) by (nonlinear_arith);
    } else {
        assert(count * width == 0) by (nonlinear_arith)
            requires
                count == 0,
        ;
    }
}

/// How many slots of each kind there are.
pub proof fn slot_counts(n: usize, m: usize)
    ensures
        static_slots(n).len() == n * (n - 1) / 2,
        dynamic_slots(n).len() == n * (n - 1),
        external_slots(n, m).len() == n * m,
{
    lemma_upward_len(n, n as nat);
    assert(n * (2 * n - n - 1) == n * (n - 1)) by (nonlinear_arith);
    if n > 0 {
        lemma_even_rows_len(n as nat, pairs_with_others(n), (n - 1) as nat);
    } else {
        assert(n * (n - 1) == 0) by (nonlinear_arith)
            requires
                n == 0,
        ;
    }
    lemma_even_rows_len(n as nat, pairs_with_each(m), m as nat);
}

// ---------------------------------------------------------------------------
// Facts about what masks select
// ---------------------------------------------------------------------------

pub proof fn lemma_selected(mask: Seq<bool>)
    requires
        mask.len() <= usize::MAX,
    ensures
        in_strict_order(selected(mask), rank::<usize>()),
        selected(mask).len() <= mask.len(),
        forall|i: int| 0 <= i < selected(mask).len() ==> #[trigger] selected(mask)[i] < mask.len(),
    decreases mask.len(),
{
    if mask.len() > 0 {
        lemma_selected(mask.drop_last());
    }
}

pub proof fn lemma_picked(slots: Seq<(usize, usize)>, mask: Seq<bool>)
    requires
        climbs(slots),
    ensures
        climbs(picked(slots, mask)),
        forall|i: int|
            0 <= i < picked(slots, mask).len() ==> slots.contains(#[trigger] picked(slots, mask)[i]),
    decreases slots.len(),
{
    if slots.len() > 0 {
        let front = slots.drop_last();
        assert(climbs(front));
        lemma_picked(front, mask);
        let before = picked(front, mask);
        let all = picked(slots, mask);
        assert forall|i: int| 0 <= i < all.len() implies slots.contains(#[trigger] all[i]) by {
            if i < before.len() {
                assert(all[i] == before[i]);
                assert(front.contains(before[i]));
                let k = choose|k: int| 0 <= k < front.len() && front[k] == before[i];
                assert(slots[k] == all[i]);
            } else {
                assert(slots[slots.len() - 1] == all[i]);
            }
        }
        if mask[slots.len() - 1] {
            assert forall|i: int, j: int| 0 <= i < j < all.len() implies (#[trigger] all[i]).0 < (
            #[trigger] all[j]).0 || (all[i].0 == all[j].0 && all[i].1 < all[j].1) by {
                assert(all[i] == before[i]);
                if j < before.len() {
                    assert(all[j] == before[j]);
                } else {
                    assert(front.contains(before[i]));
                    let k = choose|k: int| 0 <= k < front.len() && front[k] == before[i];
                    assert(slots[k] == before[i]);
                    assert(slots[slots.len() - 1] == all[j]);
                }
            }
        }
    }
}

proof fn lemma_picked_less(slots: Seq<(usize, usize)>, fewer: Seq<bool>, more: Seq<bool>)
    requires
        forall|i: int| 0 <= i < slots.len() && #[trigger] fewer[i] ==> more[i],
    ensures
        forall|i: int|
            0 <= i < picked(slots, fewer).len() ==> picked(slots, more).contains(
                #[trigger] picked(slots, fewer)[i],
            ),
    decreases slots.len(),
{
    if slots.len() > 0 {
        let front = slots.drop_last();
        lemma_picked_less(front, fewer, more);
        let a = picked(slots, fewer);
        let b = picked(slots, more);
        assert forall|i: int| 0 <= i < a.len() implies b.contains(#[trigger] a[i]) by {
            if i < picked(front, fewer).len() {
                assert(a[i] == picked(front, fewer)[i]);
                assert(picked(front, more).contains(a[i]));
                let k = choose|k: int|
                    0 <= k < picked(front, more).len() && picked(front, more)[k] == a[i];
                assert(b[k] == a[i]);
            } else {
                assert(fewer[slots.len() - 1]);
                assert(b[b.len() - 1] == a[i]);
            }
        }
    }
}

pub proof fn lemma_repeated(slots: Seq<(usize, usize)>, counts: Seq<u8>)
    requires
        climbs(slots),
    ensures
        in_order(repeated(slots, counts), rank::<(usize, usize)>()),
        forall|i: int|
            0 <= i < repeated(slots, counts).len() ==> slots.contains(
                #[trigger] repeated(slots, counts)[i],
            ),
    decreases slots.len(),
{
    if slots.len() > 0 {
        let front = slots.drop_last();
        assert(climbs(front));
        lemma_repeated(front, counts);
        let before = repeated(front, counts);
        let all = repeated(slots, counts);
        assert forall|i: int| 0 <= i < all.len() implies slots.contains(#[trigger] all[i]) by {
            if i < before.len() {
                assert(all[i] == before[i]);
                assert(front.contains(before[i]));
                let k = choose|k: int| 0 <= k < front.len() && front[k] == before[i];
                assert(slots[k] == all[i]);
            } else {
                assert(slots[slots.len() - 1] == all[i]);
            }
        }
        let leq = rank::<(usize, usize)>();
        assert forall|i: int, j: int| 0 <= i < j < all.len() implies leq(
            #[trigger] all[i],
            #[trigger] all[j],
        ) by {
            if j < before.len() {
                assert(all[i] == before[i] && all[j] == before[j]);
            } else if i < before.len() {
                assert(all[i] == before[i]);
                assert(front.contains(before[i]));
                let k = choose|k: int| 0 <= k < front.len() && front[k] == before[i];
                assert(slots[k] == before[i]);
                assert(slots[slots.len() - 1] == all[j]);
            }
        }
    }
}

pub proof fn lemma_with_variants(slots: Seq<(usize, usize)>, choices: Seq<u8>)
    requires
        climbs(slots),
    ensures
        forall|i: int|
            0 <= i < with_variants(slots, choices).len() ==> {
                let t = #[trigger] with_variants(slots, choices)[i];
                slots.contains((t.0, t.1)) && t.2 < EXTERNAL_DEFAULT_LOCAL_VARIANTS
            },
        forall|i: int, j: int|
            0 <= i < j < with_variants(slots, choices).len() ==> {
                let a = #[trigger] with_variants(slots, choices)[i];
                let b = #[trigger] with_variants(slots, choices)[j];
                a.0 < b.0 || (a.0 == b.0 && a.1 < b.1)
            },
    decreases slots.len(),
{
    if slots.len() > 0 {
        let front = slots.drop_last();
        assert(climbs(front));
        lemma_with_variants(front, choices);
        let before = with_variants(front, choices);
        let all = with_variants(slots, choices);
        assert forall|i: int| 0 <= i < all.len() implies slots.contains(
            ((#[trigger] all[i]).0, all[i].1),
        ) && all[i].2 < EXTERNAL_DEFAULT_LOCAL_VARIANTS by {
            if i < before.len() {
                assert(all[i] == before[i]);
                let k = choose|k: int|
                    0 <= k < front.len() && front[k] == (before[i].0, before[i].1);
                assert(slots[k] == (all[i].0, all[i].1));
            } else {
                assert(slots[slots.len() - 1] == (all[i].0, all[i].1));
            }
        }
        assert forall|i: int, j: int| 0 <= i < j < all.len() implies (#[trigger] all[i]).0 < (
        #[trigger] all[j]).0 || (all[i].0 == all[j].0 && all[i].1 < all[j].1) by {
            assert(all[i] == before[i]);
            if j < before.len() {
                assert(all[j] == before[j]);
            } else {
                let k = choose|k: int|
                    0 <= k < front.len() && front[k] == (before[i].0, before[i].1);
                assert(slots[k] == (all[i].0, all[i].1));
                assert(slots[slots.len() - 1] == (all[j].0, all[j].1));
            }
        }
    }
}

/// A case built from masks that have one position per node is well formed,
/// and its static graph is acyclic: its static edges lead upward.
pub proof fn masks_give_well_formed_acyclic_cases(
    seed: u64,
    node_count: usize,
    preserve_entry_signatures_index: u8,
    strict_execution_order: bool,
    treeshake: bool,
    minify_internal_exports: bool,
    entry_mask: Seq<bool>,
    cjs_mask: Seq<bool>,
    static_mask: Seq<bool>,
    dynamic_mask: Seq<u8>,
    reexport_mask: Seq<bool>,
    external_module_count: usize,
    external_dynamic_mask: Seq<bool>,
    external_static_default_mask: Seq<u8>,
)
    requires
        1 <= node_count <= MAX_NODES,
        entry_mask.len() == node_count,
        cjs_mask.len() == node_count,
    ensures
        ({
            let case = case_of_masks(
                seed,
                node_count,
                preserve_entry_signatures_index,
                strict_execution_order,
                treeshake,
                minify_internal_exports,
                entry_mask,
                cjs_mask,
                static_mask,
                dynamic_mask,
                reexport_mask,
                external_module_count,
                external_dynamic_mask,
                external_static_default_mask,
            );
            &&& case.well_formed()
            &&& forall|i: int|
                0 <= i < case.static_edges.len() ==> (#[trigger] case.static_edges[i]).0
                    < case.static_edges[i].1
            &&& is_acyclic(case.node_count, case.static_edges)
        }),
{
    let case = case_of_masks(
        seed,
        node_count,
        preserve_entry_signatures_index,
        strict_execution_order,
        treeshake,
        minify_internal_exports,
        entry_mask,
        cjs_mask,
        static_mask,
        dynamic_mask,
        reexport_mask,
        external_module_count,
        external_dynamic_mask,
        external_static_default_mask,
    );
    let slots = static_slots(node_count);
    let reexported = both(static_mask, reexport_mask, slots.len());
    lemma_selected(entry_mask);
    lemma_selected(cjs_mask);
    lemma_static_slots(node_count);
    lemma_picked(slots, static_mask);
    lemma_climbs_in_strict_order(case.static_edges);
    assert forall|i: int| 0 <= i < case.static_edges.len() implies (#[trigger] case.static_edges[i]).0
        < case.static_edges[i].1 < node_count by {
        assert(slots.contains(case.static_edges[i]));
    }
    ascending_edges_are_acyclic(node_count, case.static_edges);
    lemma_picked(slots, reexported);
    lemma_climbs_in_strict_order(case.reexport_static_edges);
    lemma_picked_less(slots, reexported, static_mask);
    lemma_dynamic_slots(node_count);
    lemma_repeated(dynamic_slots(node_count), dynamic_mask);
    assert(case.joins_nodes(case.dynamic_edges)) by {
        assert forall|i: int| 0 <= i < case.dynamic_edges.len() implies (
        #[trigger] case.dynamic_edges[i]).0 < node_count && case.dynamic_edges[i].1 < node_count
            && case.dynamic_edges[i].0 != case.dynamic_edges[i].1 by {
            assert(dynamic_slots(node_count).contains(case.dynamic_edges[i]));
        }
    }
    let outside = external_slots(node_count, external_module_count);
    lemma_external_slots(node_count, external_module_count);
    lemma_picked(outside, external_dynamic_mask);
    lemma_climbs_in_strict_order(case.external_dynamic_edges);
    lemma_with_variants(outside, external_static_default_mask);
    let dynamic = case.external_dynamic_edges;
    assert forall|i: int| 0 <= i < dynamic.len() implies (#[trigger] dynamic[i]).0 < node_count
        && dynamic[i].1 < external_module_count by {
        assert(outside.contains(dynamic[i]));
    }
    let defaults = case.external_static_default_edges;
    assert forall|i: int| 0 <= i < defaults.len() implies (#[trigger] defaults[i]).0 < node_count
        && defaults[i].1 < external_module_count by {
        assert(outside.contains((defaults[i].0, defaults[i].1)));
    }
    assert(case.externals_well_formed());
    assert(case.entries_well_formed());
}

// ---------------------------------------------------------------------------
// Building a case from masks
// ---------------------------------------------------------------------------

/// Whether a byte drawn at random makes a node a CommonJS module, which one
/// in five does.
pub fn byte_selects_cjs(byte: u8) -> (r: bool)
    ensures
        r == (byte % 5 == 0),
{
    byte % 5 == 0
}

/// How many static edges `node_count` nodes can have.
pub fn static_edge_slots(node_count: usize) -> (slots: usize)
    requires
        node_count * (node_count - 1) <= usize::MAX,
    ensures
        slots == static_slots(node_count).len(),
        slots == node_count * (node_count - 1) / 2,
{
    proof {
        slot_counts(node_count, 0);
    }
    if node_count == 0 {
        0
    } else {
        node_count * (node_count - 1) / 2
    }
}

/// How many different dynamic edges `node_count` nodes can have.
pub fn dynamic_edge_slots(node_count: usize) -> (slots: usize)
    requires
        node_count * (node_count - 1) <= usize::MAX,
    ensures
        slots == dynamic_slots(node_count).len(),
        slots == node_count * (node_count - 1),
{
    proof {
        slot_counts(node_count, 0);
    }
    if node_count == 0 {
        0
    } else {
        node_count * (node_count - 1)
    }
}

/// How many different edges to external modules the nodes can have.
pub fn external_edge_slots(node_count: usize, external_module_count: usize) -> (slots: usize)
    requires
        node_count * external_module_count <= usize::MAX,
    ensures
        slots == external_slots(node_count, external_module_count).len(),
        slots == node_count * external_module_count,
{
    proof {
        slot_counts(node_count, external_module_count);
    }
    node_count * external_module_count
}

fn list_static_slots(n: usize) -> (slots: Vec<(usize, usize)>)
    ensures
        slots@ == static_slots(n),
{
    let mut slots: Vec<(usize, usize)> = Vec::new();
    for from in 0..n
        invariant
            slots@ == rows(from as nat, pairs_upward(n)),
    {
        let ghost above = slots@;
        let ghost row = pairs_upward(n)(from as nat);
        for to in from + 1..n
            invariant
                from < n,
                row == pairs_upward(n)(from as nat),
                slots@ == above + row.take(to - from - 1),
        {
            slots.push((from, to));
            assert(row.take(to - from) == row.take(to - from - 1).push((from, to)));
        }
        assert(row.take(row.len() as int) == row);
    }
    slots
}

fn list_dynamic_slots(n: usize) -> (slots: Vec<(usize, usize)>)
    ensures
        slots@ == dynamic_slots(n),
{
    let mut slots: Vec<(usize, usize)> = Vec::new();
    for from in 0..n
        invariant
            slots@ == rows(from as nat, pairs_with_others(n)),
    {
        let ghost above = slots@;
        let ghost row = pairs_with_others(n)(from as nat);
        for to in 0..n
            invariant
                from < n,
                row == pairs_with_others(n)(from as nat),
                slots@ == above + row.take(if to <= from {
                    to as int
                } else {
                    to - 1
                }),
        {
            if from != to {
                slots.push((from, to));
                let ghost k = if to < from {
                    to as int
                } else {
                    to - 1
                };
                assert(row.take(k + 1) == row.take(k).push((from, to)));
            }
        }
        assert(row.take(row.len() as int) == row);
    }
    slots
}

fn list_external_slots(n: usize, m: usize) -> (slots: Vec<(usize, usize)>)
    ensures
        slots@ == external_slots(n, m),
{
    let mut slots: Vec<(usize, usize)> = Vec::new();
    for from in 0..n
        invariant
            slots@ == rows(from as nat, pairs_with_each(m)),
    {
        let ghost above = slots@;
        let ghost row = pairs_with_each(m)(from as nat);
        for ext in 0..m
            invariant
                from < n,
                row == pairs_with_each(m)(from as nat),
                slots@ == above + row.take(ext as int),
        {
            slots.push((from, ext));
            assert(row.take(ext + 1) == row.take(ext as int).push((from, ext)));
        }
        assert(row.take(row.len() as int) == row);
    }
    slots
}

/// The positions that a mask selects.
pub fn select(mask: &[bool]) -> (positions: Vec<usize>)
    ensures
        positions@ == selected(mask@),
{
    let mut positions: Vec<usize> = Vec::new();
    for i in 0..mask.len()
        invariant
            positions@ == selected(mask@.take(i as int)),
    {
        assert(mask@.take(i + 1).drop_last() == mask@.take(i as int));
        if mask[i] {
            positions.push(i);
        }
    }
    assert(mask@.take(mask@.len() as int) == mask@);
    positions
}

fn pick(slots: &Vec<(usize, usize)>, mask: &[bool]) -> (edges: Vec<(usize, usize)>)
    requires
        mask@.len() >= slots@.len(),
    ensures
        edges@ == picked(slots@, mask@),
{
    let mut edges: Vec<(usize, usize)> = Vec::new();
    for i in 0..slots.len()
        invariant
            mask@.len() >= slots@.len(),
            edges@ == picked(slots@.take(i as int), mask@),
    {
        assert(slots@.take(i + 1).drop_last() == slots@.take(i as int));
        if mask[i] {
            edges.push(slots[i]);
        }
    }
    assert(slots@.take(slots@.len() as int) == slots@);
    edges
}

/// Builds a case: every mask says of each slot whether, how often or under
/// which name the edge is there.
pub fn build_case_from_masks(
    seed: u64,
    node_count: usize,
    preserve_entry_signatures_index: u8,
    strict_execution_order: bool,
    treeshake: bool,
    minify_internal_exports: bool,
    entry_mask: &[bool],
    cjs_mask: &[bool],
    static_mask: &[bool],
    dynamic_mask: &[u8],
    reexport_mask: &[bool],
    external_module_count: usize,
    external_dynamic_mask: &[bool],
    external_static_default_mask: &[u8],
) -> (case: GraphCase)
    requires
        node_count > 0 || selected(entry_mask@).len() > 0,
        static_mask@.len() >= static_slots(node_count).len(),
        forall|i: int|
            0 <= i < static_slots(node_count).len() && #[trigger] static_mask@[i] ==> i
                < reexport_mask@.len(),
        dynamic_mask@.len() >= dynamic_slots(node_count).len(),
        external_dynamic_mask@.len() >= external_slots(node_count, external_module_count).len(),
    ensures
        case@ == case_of_masks(
            seed,
            node_count,
            preserve_entry_signatures_index,
            strict_execution_order,
            treeshake,
            minify_internal_exports,
            entry_mask@,
            cjs_mask@,
            static_mask@,
            dynamic_mask@,
            reexport_mask@,
            external_module_count,
            external_dynamic_mask@,
            external_static_default_mask@,
        ),
{
    let mut entry_nodes = select(entry_mask);
    if entry_nodes.is_empty() {
        entry_nodes.push((seed as usize) % node_count);
    } else if entry_nodes.len() == node_count && node_count > 1 {
        entry_nodes.pop();
    }
    assert(entry_nodes@ == entries_among(selected(entry_mask@), node_count, seed));
    let cjs_nodes = select(cjs_mask);

    let slots = list_static_slots(node_count);
    let static_edges = pick(&slots, static_mask);
    let mut reexport_static_edges: Vec<(usize, usize)> = Vec::new();
    let ghost reexported = both(static_mask@, reexport_mask@, slots@.len());
    for i in 0..slots.len()
        invariant
            slots@ == static_slots(node_count),
            static_mask@.len() >= slots@.len(),
            forall|i: int|
                0 <= i < slots@.len() && #[trigger] static_mask@[i] ==> i < reexport_mask@.len(),
            reexported == both(static_mask@, reexport_mask@, slots@.len()),
            reexport_static_edges@ == picked(slots@.take(i as int), reexported),
    {
        assert(slots@.take(i + 1).drop_last() == slots@.take(i as int));
        if static_mask[i] && reexport_mask[i] {
            reexport_static_edges.push(slots[i]);
        }
    }
    assert(slots@.take(slots@.len() as int) == slots@);

    let pairs = list_dynamic_slots(node_count);
    let mut dynamic_edges: Vec<(usize, usize)> = Vec::new();
    for i in 0..pairs.len()
        invariant
            dynamic_mask@.len() >= pairs@.len(),
            dynamic_edges@ == repeated(pairs@.take(i as int), dynamic_mask@),
    {
        let ghost before = dynamic_edges@;
        let count: u8 = dynamic_mask[i];
        for k in 0..count
            invariant
                i < pairs@.len(),
                dynamic_edges@ == before + Seq::new(k as nat, |k: int| pairs@[i as int]),
        {
            dynamic_edges.push(pairs[i]);
        }
        assert(pairs@.take(i + 1).drop_last() == pairs@.take(i as int));
        assert(pairs@.take(i + 1).last() == pairs@[i as int]);
        assert(dynamic_edges@ =~= repeated(pairs@.take(i + 1), dynamic_mask@));
    }
    assert(pairs@.take(pairs@.len() as int) == pairs@);

    let outside = list_external_slots(node_count, external_module_count);
    let external_dynamic_edges = pick(&outside, external_dynamic_mask);
    let mut external_static_default_edges: Vec<(usize, usize, u8)> = Vec::new();
    for i in 0..outside.len()
        invariant
            external_static_default_edges@ == with_variants(
                outside@.take(i as int),
                external_static_default_mask@,
            ),
    {
        assert(outside@.take(i + 1).drop_last() == outside@.take(i as int));
        let choice: u8 = if i < external_static_default_mask.len() {
            external_static_default_mask[i]
        } else {
            0
        };
        if choice > 0 && choice <= EXTERNAL_DEFAULT_LOCAL_VARIANTS {
            external_static_default_edges.push((outside[i].0, outside[i].1, choice - 1));
        }
    }
    assert(outside@.take(outside@.len() as int) == outside@);

    GraphCase {
        seed,
        node_count,
        entry_nodes,
        cjs_nodes,
        static_edges,
        dynamic_edges,
        reexport_static_edges,
        external_module_count,
        external_dynamic_edges,
        external_static_default_edges,
        preserve_entry_signatures: preserve_entry_signatures_from_index(
            preserve_entry_signatures_index,
        ),
        strict_execution_order,
        treeshake,
        minify_internal_exports,
    }
}

} // verus!
