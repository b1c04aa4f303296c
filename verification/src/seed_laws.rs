//! Laws of the cases drawn from a seed: which draw decides on what.
use crate::case::{signatures_at, MAX_EXTERNAL_MODULES, MAX_NODES};
use crate::generate::{dynamic_slots, external_slots, slot_counts, static_slots};
use crate::mask_laws::{
    dynamic_place, dynamic_slots_are_the_pairs, external_place, external_slots_are_the_pairs,
    masks_decide_every_edge, masks_decide_every_node, static_place,
    static_slots_are_the_upward_pairs,
};
use crate::seed::{
    case_of_seed, drawn, drawn_below, drawn_flags, externals_drawn, next_state, nodes_drawn,
    start_state, NONZERO_START,
};
use vstd::prelude::*;

verus! {

/// Draws follow one another: after some draws, further ones go on from there,
/// and each gives the state that follows the one before it. A seed starts the
/// draws itself, unless it is zero.
pub proof fn draws_follow_one_another(seed: u64, state: u64, a: nat, b: nat)
    ensures
        drawn(state, a + b) == drawn(drawn(state, a), b),
        drawn(state, 0) == state,
        drawn(state, 1) == next_state(state),
        start_state(seed) == if seed != 0 {
            seed
        } else {
            NONZERO_START
        },
    decreases b,
{
    reveal_with_fuel(drawn, 2);
    if b > 0 {
        draws_follow_one_another(seed, state, a, (b - 1) as nat);
        assert((a + b - 1) as nat == a + (b - 1) as nat);
    }
}

/// The first six draws of a seed decide on the number of nodes, the settings
/// and the number of external modules, each on one of them: a count is what is
/// left of a draw by the number of counts there are, and a setting is on when
/// the draw is even.
pub proof fn the_first_draws_decide_the_settings(seed: u64)
    ensures
        ({
            let first = next_state(start_state(seed));
            let second = next_state(first);
            let third = next_state(second);
            let fourth = next_state(third);
            let fifth = next_state(fourth);
            let sixth = next_state(fifth);
            let case = case_of_seed(seed);
            &&& case.seed == seed
            &&& case.node_count == 3 + (first as usize) % ((MAX_NODES - 2) as usize)
            &&& case.preserve_entry_signatures == signatures_at((second % 4) as int)
            &&& case.strict_execution_order == (third % 2 == 0)
            &&& case.treeshake == (fourth % 2 == 0)
            &&& case.minify_internal_exports == (fifth % 2 == 0)
            &&& case.external_module_count == 1 + (sixth as usize) % MAX_EXTERNAL_MODULES
        }),
{
    reveal_with_fuel(drawn, 7);
}

/// Every number of nodes from three to the most there can be is drawn: each is
/// that of the seeds whose first draw leaves the number less three.
pub proof fn every_number_of_nodes_is_drawn(seed: u64, count: usize)
    requires
        3 <= count <= MAX_NODES,
    ensures
        case_of_seed(seed).node_count == count <==> (next_state(start_state(seed)) as usize) % ((
        MAX_NODES - 2) as usize) == count - 3,
        nodes_drawn((count - 3) as u64) == count,
{
    let left = (next_state(start_state(seed)) as usize) % ((MAX_NODES - 2) as usize);
    assert(case_of_seed(seed).node_count == 3 + left) by {
        the_first_draws_decide_the_settings(seed);
    }
    lemma_small_draw((count - 3) as u64);
}

proof fn lemma_small_draw(draw: u64)
    requires
        draw < MAX_NODES - 2,
    ensures
        nodes_drawn(draw) == 3 + draw,
{
    let small = draw as usize;
    assert(small == draw);
    vstd::arithmetic::div_mod::lemma_small_mod(small as nat, (MAX_NODES - 2) as nat);
}

/// Every number of external modules from one to the most there are is drawn.
pub proof fn every_number_of_externals_is_drawn(count: usize)
    requires
        1 <= count <= MAX_EXTERNAL_MODULES,
    ensures
        externals_drawn((count - 1) as u64) == count,
{
}

/// The draws behind the first six decide on the nodes: the next one for each
/// node on whether it is asked for as an entry, at even odds, and then one for
/// each on whether it is a CommonJS module, one in three of them. The node that
/// the seed falls on is the entry where none is asked for, and the last node is
/// left out where all are.
pub proof fn draws_decide_every_node(seed: u64, i: usize)
    requires
        i < case_of_seed(seed).node_count,
    ensures
        ({
            let case = case_of_seed(seed);
            let n = case.node_count;
            let sixth = drawn(start_state(seed), 6);
            let none = forall|k: int|
                0 <= k < n ==> (#[trigger] drawn(sixth, (k + 1) as nat)) % 2 != 0;
            let all = forall|k: int|
                0 <= k < n ==> (#[trigger] drawn(sixth, (k + 1) as nat)) % 2 == 0;
            &&& case.cjs_nodes.contains(i) <==> drawn(sixth, (n + i + 1) as nat) % 3 == 0
            &&& case.entry_nodes.contains(i) <==> if none {
                i == (seed as usize) % n
            } else if all && n > 1 {
                i < n - 1
            } else {
                drawn(sixth, (i + 1) as nat) % 2 == 0
            }
        }),
{
    let start = start_state(seed);
    let n = nodes_drawn(drawn(start, 1));
    let m = externals_drawn(drawn(start, 6));
    let sixth = drawn(start, 6);
    let cjs_from = drawn(sixth, n as nat);
    let static_from = drawn(cjs_from, n as nat);
    let static_count = static_slots(n).len();
    let reexports_from = drawn(static_from, static_count);
    let dynamic_from = drawn(reexports_from, static_count);
    let dynamic_count = dynamic_slots(n).len();
    let external_from = drawn(dynamic_from, dynamic_count);
    let external_count = external_slots(n, m).len();
    let defaults_from = drawn(external_from, external_count);
    let entry_mask = drawn_flags(sixth, n as nat, 1, 2);
    let cjs_mask = drawn_flags(cjs_from, n as nat, 1, 3);
    masks_decide_every_node(
        seed,
        n,
        (drawn(start, 2) % 4) as u8,
        drawn(start, 3) % 2 < 1,
        drawn(start, 4) % 2 < 1,
        drawn(start, 5) % 2 < 1,
        entry_mask,
        cjs_mask,
        drawn_flags(static_from, static_count, 2, 5),
        drawn_below(dynamic_from, dynamic_count, 3),
        drawn_flags(reexports_from, static_count, 1, 2),
        m,
        drawn_flags(external_from, external_count, 1, 3),
        drawn_below(defaults_from, external_count, 5),
        i,
    );
    draws_follow_one_another(seed, sixth, n as nat, (i + 1) as nat);
    assert(n as nat + (i + 1) as nat == (n + i + 1) as nat);
    assert(cjs_mask[i as int] == (drawn(sixth, (n + i + 1) as nat) % 3 == 0));
    assert forall|k: int| 0 <= k < n implies #[trigger] entry_mask[k] == (drawn(
        sixth,
        (k + 1) as nat,
    ) % 2 == 0) by {}
    if forall|k: int| 0 <= k < n ==> (#[trigger] drawn(sixth, (k + 1) as nat)) % 2 != 0 {
        assert forall|k: int| 0 <= k < entry_mask.len() implies !(#[trigger] entry_mask[k]) by {}
    }
    if forall|k: int| 0 <= k < entry_mask.len() ==> !(#[trigger] entry_mask[k]) {
        assert forall|k: int| 0 <= k < n implies (#[trigger] drawn(sixth, (k + 1) as nat)) % 2
            != 0 by {
            assert(!entry_mask[k]);
        }
    }
    if forall|k: int| 0 <= k < n ==> (#[trigger] drawn(sixth, (k + 1) as nat)) % 2 == 0 {
        assert forall|k: int| 0 <= k < entry_mask.len() implies #[trigger] entry_mask[k] by {}
    }
    if forall|k: int| 0 <= k < entry_mask.len() ==> #[trigger] entry_mask[k] {
        assert forall|k: int| 0 <= k < n implies (#[trigger] drawn(sixth, (k + 1) as nat)) % 2
            == 0 by {
            assert(entry_mask[k]);
        }
    }
}

/// The remaining draws decide on the edges, one for each pair in turn: whether
/// there is a static edge upward, with two in five; whether it reexports, at
/// even odds; how many dynamic edges there are, from none to two; whether there
/// is a dynamic edge to an external module, with one in three; and under which
/// name its default is imported, if at all, which are five choices.
pub proof fn draws_decide_every_edge(seed: u64, a: usize, b: usize, v: u8)
    ensures
        ({
            let case = case_of_seed(seed);
            let n = case.node_count;
            let m = case.external_module_count;
            let sixth = drawn(start_state(seed), 6);
            let upward = n * (n - 1) / 2;
            let static_at = 2 * n + static_place(n, a, b) + 1;
            let dynamic_at = 2 * n + 2 * upward + dynamic_place(n, a, b) + 1;
            let external_at = 2 * n + 2 * upward + n * (n - 1) + external_place(m, a, b) + 1;
            &&& case.static_edges.contains((a, b)) <==> a < b < n && drawn(
                sixth,
                static_at as nat,
            ) % 5 < 2
            &&& case.reexport_static_edges.contains((a, b)) <==> case.static_edges.contains((a, b))
                && drawn(sixth, (static_at + upward) as nat) % 2 == 0
            &&& a < n && b < n && a != b ==> case.dynamic_edges.to_multiset().count((a, b))
                == drawn(sixth, dynamic_at as nat) % 3
            &&& case.external_dynamic_edges.contains((a, b)) <==> a < n && b < m && drawn(
                sixth,
                external_at as nat,
            ) % 3 == 0
            &&& case.external_static_default_edges.contains((a, b, v)) <==> a < n && b < m && drawn(
                sixth,
                (external_at + n * m) as nat,
            ) % 5 == v + 1
        }),
{
    let start = start_state(seed);
    let n = nodes_drawn(drawn(start, 1));
    let m = externals_drawn(drawn(start, 6));
    let sixth = drawn(start, 6);
    let cjs_from = drawn(sixth, n as nat);
    let static_from = drawn(cjs_from, n as nat);
    let static_count = static_slots(n).len();
    let reexports_from = drawn(static_from, static_count);
    let dynamic_from = drawn(reexports_from, static_count);
    let dynamic_count = dynamic_slots(n).len();
    let external_from = drawn(dynamic_from, dynamic_count);
    let external_count = external_slots(n, m).len();
    let defaults_from = drawn(external_from, external_count);
    let static_mask = drawn_flags(static_from, static_count, 2, 5);
    let reexport_mask = drawn_flags(reexports_from, static_count, 1, 2);
    let dynamic_mask = drawn_below(dynamic_from, dynamic_count, 3);
    let external_mask = drawn_flags(external_from, external_count, 1, 3);
    let default_mask = drawn_below(defaults_from, external_count, 5);
    masks_decide_every_edge(
        seed,
        n,
        (drawn(start, 2) % 4) as u8,
        drawn(start, 3) % 2 < 1,
        drawn(start, 4) % 2 < 1,
        drawn(start, 5) % 2 < 1,
        drawn_flags(sixth, n as nat, 1, 2),
        drawn_flags(cjs_from, n as nat, 1, 3),
        static_mask,
        dynamic_mask,
        reexport_mask,
        m,
        external_mask,
        default_mask,
        a,
        b,
        v,
    );
    slot_counts(n, m);
    let two = (2 * n) as nat;
    draws_follow_one_another(seed, sixth, n as nat, n as nat);
    assert(static_from == drawn(sixth, two));
    draws_follow_one_another(seed, sixth, two, static_count);
    let upto_reexports = (two + static_count) as nat;
    assert(reexports_from == drawn(sixth, upto_reexports));
    draws_follow_one_another(seed, sixth, upto_reexports, static_count);
    let upto_dynamic = (upto_reexports + static_count) as nat;
    assert(dynamic_from == drawn(sixth, upto_dynamic));
    draws_follow_one_another(seed, sixth, upto_dynamic, dynamic_count);
    let upto_external = (upto_dynamic + dynamic_count) as nat;
    assert(external_from == drawn(sixth, upto_external));
    draws_follow_one_another(seed, sixth, upto_external, external_count);
    let upto_defaults = (upto_external + external_count) as nat;
    assert(defaults_from == drawn(sixth, upto_defaults));
    if a < b < n {
        static_slots_are_the_upward_pairs(n, a, b);
        let p = static_place(n, a, b);
        draws_follow_one_another(seed, sixth, two, (p + 1) as nat);
        draws_follow_one_another(seed, sixth, upto_reexports, (p + 1) as nat);
        assert(static_mask[p] == (drawn(static_from, (p + 1) as nat) % 5 < 2));
        assert(reexport_mask[p] == (drawn(reexports_from, (p + 1) as nat) % 2 < 1));
        assert(two + (p + 1) as nat == (2 * n + p + 1) as nat);
        assert(upto_reexports + (p + 1) as nat == (2 * n + p + 1 + static_count) as nat);
    }
    if a < n && b < n && a != b {
        dynamic_slots_are_the_pairs(n, a, b);
        let p = dynamic_place(n, a, b);
        draws_follow_one_another(seed, sixth, upto_dynamic, (p + 1) as nat);
        assert(dynamic_mask[p] == drawn(dynamic_from, (p + 1) as nat) % 3);
        assert(upto_dynamic + (p + 1) as nat == (2 * n + 2 * static_count + p + 1) as nat);
    }
    if a < n && b < m {
        external_slots_are_the_pairs(n, m, a, b);
        let p = external_place(m, a, b);
        draws_follow_one_another(seed, sixth, upto_external, (p + 1) as nat);
        draws_follow_one_another(seed, sixth, upto_defaults, (p + 1) as nat);
        assert(external_mask[p] == (drawn(external_from, (p + 1) as nat) % 3 < 1));
        assert(default_mask[p] == drawn(defaults_from, (p + 1) as nat) % 5);
        assert(upto_external + (p + 1) as nat == (2 * n + 2 * static_count + dynamic_count + p
            + 1) as nat);
        assert(upto_defaults + (p + 1) as nat == (2 * n + 2 * static_count + dynamic_count + p + 1
            + external_count) as nat);
    }
}

} // verus!
