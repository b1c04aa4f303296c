//! Cases around a hub: the shape that is known to bring out output cycles.
use crate::case::{
    preserve_entry_signatures_from_index, signatures_at, CaseModel, GraphCase, MAX_NODES,
};
use crate::generate::{lemma_selected, select, selected};
use crate::graph_cycle_checker::{ascending_edges_are_acyclic, is_acyclic};
use crate::mask_laws::masks_select_where_they_are_set;
use vstd::prelude::*;

verus! {

/// Where the children of the hub end among `n` nodes: there are `num_children`
/// of them behind the hub, or as many as there are nodes left.
pub open spec fn children_end(n: usize, num_entries: usize, num_children: usize) -> int {
    if num_entries + 1 + num_children <= n {
        num_entries + 1 + num_children
    } else {
        n as int
    }
}

/// The edges from the hub to each of its children.
pub open spec fn child_edges(
    n: usize,
    num_entries: usize,
    num_children: usize,
) -> Seq<(usize, usize)> {
    let end = children_end(n, num_entries, num_children);
    let first = num_entries + 1;
    Seq::new(
        if first <= end {
            (end - first) as nat
        } else {
            0
        },
        |k: int| (num_entries, (first + k) as usize),
    )
}

/// The edges from each entry to the hub.
pub open spec fn entry_edges(num_entries: usize) -> Seq<(usize, usize)> {
    Seq::new(num_entries as nat, |k: int| (k as usize, num_entries))
}

/// The edges from the hub to the external modules that a mask selects, or to
/// the first one if it selects none.
pub open spec fn hub_external_edges(num_entries: usize, mask: Seq<bool>) -> Seq<(usize, usize)> {
    if selected(mask).len() == 0 {
        seq![(num_entries, 0usize)]
    } else {
        selected(mask).map_values(|ext: usize| (num_entries, ext))
    }
}

/// The case around a hub. The entries come first and then the hub.
pub open spec fn case_of_hub(
    seed: u64,
    node_count: usize,
    preserve_entry_signatures_index: u8,
    strict_execution_order: bool,
    treeshake: bool,
    minify_internal_exports: bool,
    external_module_count: usize,
    num_entries: usize,
    num_children: usize,
    ext_mask: Seq<bool>,
) -> CaseModel {
    let children = child_edges(node_count, num_entries, num_children);
    CaseModel {
        seed,
        node_count,
        entry_nodes: Seq::new(num_entries as nat, |k: int| k as usize),
        cjs_nodes: Seq::empty(),
        static_edges: children,
        dynamic_edges: entry_edges(num_entries) + children,
        reexport_static_edges: Seq::empty(),
        external_module_count,
        external_dynamic_edges: hub_external_edges(num_entries, ext_mask),
        external_static_default_edges: Seq::empty(),
        preserve_entry_signatures: signatures_at(preserve_entry_signatures_index as int),
        strict_execution_order,
        treeshake,
        minify_internal_exports,
    }
}

/// In a case around a hub every entry imports the hub dynamically, the hub
/// imports each of its children, of which there is at least one, both
/// statically and dynamically, and it imports an external module dynamically.
/// The case is well formed and its static graph is acyclic.
pub proof fn hubs_have_their_shape(
    seed: u64,
    node_count: usize,
    preserve_entry_signatures_index: u8,
    strict_execution_order: bool,
    treeshake: bool,
    minify_internal_exports: bool,
    external_module_count: usize,
    num_entries: usize,
    num_children: usize,
    ext_mask: Seq<bool>,
)
    requires
        node_count <= MAX_NODES,
        1 <= num_entries <= node_count - 2,
        1 <= num_children,
        1 <= external_module_count,
        ext_mask.len() == external_module_count,
    ensures
        ({
            let case = case_of_hub(
                seed,
                node_count,
                preserve_entry_signatures_index,
                strict_execution_order,
                treeshake,
                minify_internal_exports,
                external_module_count,
                num_entries,
                num_children,
                ext_mask,
            );
            let hub = num_entries;
            &&& case.well_formed()
            &&& is_acyclic(case.node_count, case.static_edges)
            &&& forall|i: int|
                0 <= i < case.entry_nodes.len() ==> case.dynamic_edges.contains(
                    (#[trigger] case.entry_nodes[i], hub),
                )
            &&& case.static_edges.len() > 0
            &&& forall|i: int|
                0 <= i < case.static_edges.len() ==> (#[trigger] case.static_edges[i]).0 == hub
                    && case.dynamic_edges.contains(case.static_edges[i])
            &&& case.external_dynamic_edges.len() > 0
            &&& forall|i: int|
                0 <= i < case.external_dynamic_edges.len() ==> (
                #[trigger] case.external_dynamic_edges[i]).0 == hub
        }),
{
    let case = case_of_hub(
        seed,
        node_count,
        preserve_entry_signatures_index,
        strict_execution_order,
        treeshake,
        minify_internal_exports,
        external_module_count,
        num_entries,
        num_children,
        ext_mask,
    );
    let hub = num_entries;
    let into_hub = entry_edges(num_entries);
    lemma_selected(ext_mask);
    ascending_edges_are_acyclic(node_count, case.static_edges);
    assert forall|i: int| 0 <= i < case.entry_nodes.len() implies case.dynamic_edges.contains(
        (#[trigger] case.entry_nodes[i], hub),
    ) by {
        assert(case.dynamic_edges[i] == into_hub[i]);
    }
    assert forall|i: int| 0 <= i < case.static_edges.len() implies case.dynamic_edges.contains(
        #[trigger] case.static_edges[i],
    ) by {
        assert(case.dynamic_edges[into_hub.len() + i] == case.static_edges[i]);
    }
    assert(case.externals_well_formed());
    assert(case.entries_well_formed());
}

/// A case around a hub has exactly this shape. The first nodes are the
/// entries, and the next one is the hub. Every entry imports the hub
/// dynamically; the hub imports the nodes behind it, as many as there are to be
/// children and as there are nodes, statically and dynamically; it imports the
/// external modules that the mask selects, or the first where it selects none.
/// There is nothing else, and the settings are those that were given.
pub proof fn hubs_have_exactly_their_shape(
    seed: u64,
    node_count: usize,
    preserve_entry_signatures_index: u8,
    strict_execution_order: bool,
    treeshake: bool,
    minify_internal_exports: bool,
    external_module_count: usize,
    num_entries: usize,
    num_children: usize,
    ext_mask: Seq<bool>,
    a: usize,
    b: usize,
)
    requires
        num_entries + 1 + num_children <= usize::MAX,
        ext_mask.len() <= usize::MAX,
    ensures
        ({
            let case = case_of_hub(
                seed,
                node_count,
                preserve_entry_signatures_index,
                strict_execution_order,
                treeshake,
                minify_internal_exports,
                external_module_count,
                num_entries,
                num_children,
                ext_mask,
            );
            let hub = num_entries;
            let none = forall|k: int| 0 <= k < ext_mask.len() ==> !(#[trigger] ext_mask[k]);
            let is_child = a == hub && hub < b < node_count && b <= hub + num_children;
            &&& case.entry_nodes.len() == num_entries
            &&& a < num_entries ==> case.entry_nodes[a as int] == a
            &&& case.static_edges.contains((a, b)) <==> is_child
            &&& case.dynamic_edges.contains((a, b)) <==> (a < hub && b == hub) || is_child
            &&& case.dynamic_edges.len() == num_entries + case.static_edges.len()
            &&& case.static_edges.no_duplicates()
            &&& case.external_dynamic_edges.contains((a, b)) <==> a == hub && if none {
                b == 0
            } else {
                b < ext_mask.len() && ext_mask[b as int]
            }
            &&& case.cjs_nodes.len() == 0
            &&& case.reexport_static_edges.len() == 0
            &&& case.external_static_default_edges.len() == 0
            &&& case.seed == seed
            &&& case.node_count == node_count
            &&& case.external_module_count == external_module_count
            &&& case.preserve_entry_signatures == signatures_at(
                preserve_entry_signatures_index as int,
            )
            &&& case.strict_execution_order == strict_execution_order
            &&& case.treeshake == treeshake
            &&& case.minify_internal_exports == minify_internal_exports
        }),
{
    let hub = num_entries;
    let children = child_edges(node_count, num_entries, num_children);
    let entries = entry_edges(num_entries);
    let dynamic = entries + children;
    let is_child = a == hub && hub < b < node_count && b <= hub + num_children;
    if is_child {
        assert(children[b - hub - 1] == (a, b));
        assert(dynamic[num_entries + (b - hub - 1)] == (a, b));
    }
    if children.contains((a, b)) {
        let k = choose|k: int| 0 <= k < children.len() && children[k] == (a, b);
        assert(children[k].1 == hub + 1 + k);
    }
    if a < hub && b == hub {
        assert(dynamic[a as int] == (a, b));
    }
    if dynamic.contains((a, b)) {
        let k = choose|k: int| 0 <= k < dynamic.len() && dynamic[k] == (a, b);
        if k < entries.len() {
            assert(entries[k] == (a, b));
        } else {
            assert(children[k - entries.len()] == (a, b));
            assert(children.contains((a, b)));
        }
    }
    assert forall|i: int, j: int| 0 <= i < j < children.len() implies children[i]
        != children[j] by {
        assert(children[i].1 == hub + 1 + i);
        assert(children[j].1 == hub + 1 + j);
    }
    let reached = selected(ext_mask);
    let outward = hub_external_edges(num_entries, ext_mask);
    masks_select_where_they_are_set(ext_mask, b);
    lemma_selected(ext_mask);
    let none = forall|k: int| 0 <= k < ext_mask.len() ==> !(#[trigger] ext_mask[k]);
    if reached.len() == 0 {
        assert forall|k: int| 0 <= k < ext_mask.len() implies !(#[trigger] ext_mask[k]) by {
            masks_select_where_they_are_set(ext_mask, k as usize);
        }
        assert(outward[0] == (hub, 0usize));
    } else {
        assert(reached.contains(reached[0]));
        masks_select_where_they_are_set(ext_mask, reached[0]);
        assert(ext_mask[reached[0] as int]);
        if outward.contains((a, b)) {
            let k = choose|k: int| 0 <= k < outward.len() && outward[k] == (a, b);
            assert(reached[k] == b);
            assert(reached.contains(b));
        }
        if a == hub && reached.contains(b) {
            let k = choose|k: int| 0 <= k < reached.len() && reached[k] == b;
            assert(outward[k] == (a, b));
        }
    }
}

/// The most entries that a hub among `node_count` nodes is given.
pub fn max_hub_entries(node_count: usize) -> (limit: usize)
    requires
        node_count >= 2,
    ensures
        limit == if node_count - 2 < 3 {
            node_count - 2
        } else {
            3
        },
{
    if node_count - 2 < 3 {
        node_count - 2
    } else {
        3
    }
}

/// The most children that a hub among `node_count` nodes is given.
pub fn max_hub_children(node_count: usize) -> (limit: usize)
    requires
        node_count >= 2,
    ensures
        limit == if node_count - 2 < 4 {
            node_count - 2
        } else {
            4
        },
{
    if node_count - 2 < 4 {
        node_count - 2
    } else {
        4
    }
}

/// Builds a case around a hub.
pub fn build_hub_case(
    seed: u64,
    node_count: usize,
    preserve_entry_signatures_index: u8,
    strict_execution_order: bool,
    treeshake: bool,
    minify_internal_exports: bool,
    external_module_count: usize,
    num_entries: usize,
    num_children: usize,
    ext_mask: &[bool],
) -> (case: GraphCase)
    requires
        num_entries + 1 + num_children <= usize::MAX,
    ensures
        case@ == case_of_hub(
            seed,
            node_count,
            preserve_entry_signatures_index,
            strict_execution_order,
            treeshake,
            minify_internal_exports,
            external_module_count,
            num_entries,
            num_children,
            ext_mask@,
        ),
{
    let hub: usize = num_entries;
    let first: usize = hub + 1;
    let end: usize = if first + num_children <= node_count {
        first + num_children
    } else {
        node_count
    };

    let mut entry_nodes: Vec<usize> = Vec::new();
    let mut dynamic_edges: Vec<(usize, usize)> = Vec::new();
    for entry in 0..num_entries
        invariant
            hub == num_entries,
            entry_nodes@ == Seq::new(entry as nat, |k: int| k as usize),
            dynamic_edges@ == entry_edges(num_entries).take(entry as int),
    {
        entry_nodes.push(entry);
        dynamic_edges.push((entry, hub));
    }
    assert(dynamic_edges@ =~= entry_edges(num_entries));

    let mut static_edges: Vec<(usize, usize)> = Vec::new();
    let ghost children = child_edges(node_count, num_entries, num_children);
    if first <= end {
        for child in first..end
            invariant
                hub == num_entries,
                first == hub + 1,
                end == children_end(node_count, num_entries, num_children),
                children == child_edges(node_count, num_entries, num_children),
                first <= end,
                static_edges@ == children.take(child - first),
                dynamic_edges@ == entry_edges(num_entries) + children.take(child - first),
        {
            static_edges.push((hub, child));
            dynamic_edges.push((hub, child));
            assert(children.take(child - first + 1) == children.take(child - first).push(
                (hub, child),
            ));
        }
    }
    assert(static_edges@ =~= children);
    assert(dynamic_edges@ =~= entry_edges(num_entries) + children);

    let reached = select(ext_mask);
    let mut external_dynamic_edges: Vec<(usize, usize)> = Vec::new();
    for i in 0..reached.len()
        invariant
            hub == num_entries,
            external_dynamic_edges@ == reached@.take(i as int).map_values(
                |ext: usize| (num_entries, ext),
            ),
    {
        external_dynamic_edges.push((hub, reached[i]));
        assert(reached@.take(i + 1) == reached@.take(i as int).push(reached@[i as int]));
    }
    assert(reached@.take(reached@.len() as int) == reached@);
    if external_dynamic_edges.is_empty() {
        external_dynamic_edges.push((hub, 0));
    }
    assert(external_dynamic_edges@ =~= hub_external_edges(num_entries, ext_mask@));

    GraphCase {
        seed,
        node_count,
        entry_nodes,
        cjs_nodes: Vec::new(),
        static_edges,
        dynamic_edges,
        reexport_static_edges: Vec::new(),
        external_module_count,
        external_dynamic_edges,
        external_static_default_edges: Vec::new(),
        preserve_entry_signatures: preserve_entry_signatures_from_index(
            preserve_entry_signatures_index,
        ),
        strict_execution_order,
        treeshake,
        minify_internal_exports,
    }
}

} // verus!
