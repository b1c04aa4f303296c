//! Cycles between chunks that are the bundler's fault.
use crate::graph_cycle_checker::{
    find_cycle, has_edge, has_step, is_closed_walk, is_cycle, is_walk,
};
use crate::output_graph::{
    cycle_involves_cjs, immediate_cycles_have_two_edges, is_immediate_cycle, is_tolerated,
};
use vstd::prelude::*;
use vstd::set_lib::{lemma_int_range, lemma_len_subset, set_int_range};

verus! {

/// Whether a cycle has to be reported: it is not one that comes with CommonJS
/// modules.
pub open spec fn is_fault(
    node_count: usize,
    edges: Seq<(usize, usize)>,
    flags: Seq<bool>,
    cycle: Seq<usize>,
) -> bool {
    is_cycle(node_count, edges, cycle) && !is_tolerated(cycle, flags)
}

/// Whether no cycle has to be reported.
pub open spec fn is_faultless(
    node_count: usize,
    edges: Seq<(usize, usize)>,
    flags: Seq<bool>,
) -> bool {
    forall|cycle: Seq<usize>| #[trigger]
        is_cycle(node_count, edges, cycle) ==> is_tolerated(cycle, flags)
}

// ---------------------------------------------------------------------------
// Finding a path
// ---------------------------------------------------------------------------

/// A walk from one node to another that visits no node twice.
pub open spec fn is_path(
    node_count: usize,
    edges: Seq<(usize, usize)>,
    path: Seq<usize>,
    start: usize,
    goal: usize,
) -> bool {
    &&& path.len() > 0
    &&& path.first() == start
    &&& path.last() == goal
    &&& is_walk(node_count, edges, path)
    &&& path.no_duplicates()
}

/// The nodes that some paths lead to.
spec fn ends_of(paths: Seq<Vec<usize>>) -> Seq<usize> {
    paths.map_values(|p: Vec<usize>| p@.last())
}

/// Whether the paths lead from `start` to different nodes, only by nodes that
/// one of them leads to.
spec fn spans(
    node_count: usize,
    edges: Seq<(usize, usize)>,
    paths: Seq<Vec<usize>>,
    start: usize,
) -> bool {
    &&& forall|i: int|
        0 <= i < paths.len() ==> is_path(
            node_count,
            edges,
            (#[trigger] paths[i])@,
            start,
            paths[i]@.last(),
        )
    &&& forall|i: int, k: int|
        0 <= i < paths.len() && 0 <= k < paths[i]@.len() ==> ends_of(paths).contains(
            #[trigger] paths[i]@[k],
        )
    &&& forall|i: int| 0 <= i < paths.len() ==> (#[trigger] ends_of(paths)[i]) < node_count
    &&& ends_of(paths).no_duplicates()
    &&& ends_of(paths).contains(start)
}

proof fn lemma_distinct_below(nodes: Seq<usize>, n: usize)
    requires
        nodes.no_duplicates(),
        forall|i: int| 0 <= i < nodes.len() ==> #[trigger] nodes[i] < n,
    ensures
        nodes.len() <= n,
{
    if nodes.len() > 0 {
        let ints = nodes.map_values(|v: usize| v as int);
        assert(ints.no_duplicates());
        ints.unique_seq_to_set();
        lemma_int_range(0, n as int);
        assert(ints.to_set().subset_of(set_int_range(0, n as int)));
        lemma_len_subset(ints.to_set(), set_int_range(0, n as int));
    }
}

/// Where a walk starts in a set of nodes that no edge leads out of, it ends
/// there.
proof fn lemma_walk_stays(
    node_count: usize,
    edges: Seq<(usize, usize)>,
    nodes: Seq<usize>,
    walk: Seq<usize>,
    k: int,
)
    requires
        forall|a: usize, b: usize|
            nodes.contains(a) && #[trigger] has_edge(node_count, edges, a, b) ==> nodes.contains(b),
        is_walk(node_count, edges, walk),
        0 <= k < walk.len(),
        nodes.contains(walk[0]),
    ensures
        nodes.contains(walk[k]),
    decreases k,
{
    if k > 0 {
        lemma_walk_stays(node_count, edges, nodes, walk, k - 1);
        assert(has_step(node_count, edges, walk, k - 1));
    }
}

proof fn lemma_ends_push(paths: Seq<Vec<usize>>, path: Vec<usize>)
    ensures
        ends_of(paths.push(path)) == ends_of(paths).push(path@.last()),
{
    assert(ends_of(paths.push(path)) =~= ends_of(paths).push(path@.last()));
}

/// A path that goes on along an edge to a new node.
proof fn lemma_longer_path(
    node_count: usize,
    edges: Seq<(usize, usize)>,
    path: Seq<usize>,
    start: usize,
    next: usize,
)
    requires
        is_path(node_count, edges, path, start, path.last()),
        has_edge(node_count, edges, path.last(), next),
        !path.contains(next),
    ensures
        is_path(node_count, edges, path.push(next), start, next),
{
    let longer = path.push(next);
    assert forall|i: int| 0 <= i < longer.len() - 1 implies #[trigger] has_step(
        node_count,
        edges,
        longer,
        i,
    ) by {
        if i < path.len() - 1 {
            assert(has_step(node_count, edges, path, i));
        }
    }
}

fn copy_path(path: &Vec<usize>) -> (copy: Vec<usize>)
    ensures
        copy@ == path@,
{
    let mut copy: Vec<usize> = Vec::new();
    for i in 0..path.len()
        invariant
            copy@ == path@.take(i as int),
    {
        copy.push(path[i]);
    }
    assert(path@.take(path@.len() as int) =~= path@);
    copy
}

fn leads_to(paths: &Vec<Vec<usize>>, node: usize) -> (r: bool)
    requires
        forall|i: int| 0 <= i < paths@.len() ==> (#[trigger] paths@[i])@.len() > 0,
    ensures
        r == ends_of(paths@).contains(node),
{
    for i in 0..paths.len()
        invariant
            forall|j: int| 0 <= j < paths@.len() ==> (#[trigger] paths@[j])@.len() > 0,
            forall|j: int| 0 <= j < i ==> (#[trigger] ends_of(paths@)[j]) != node,
    {
        let end: usize = paths[i][paths[i].len() - 1];
        assert(ends_of(paths@)[i as int] == end);
        if end == node {
            return true;
        }
    }
    false
}

/// Finds a path from one node to another, if there is a walk.
fn find_path(node_count: usize, edges: &Vec<(usize, usize)>, start: usize, goal: usize) -> (found:
    Option<Vec<usize>>)
    requires
        start < node_count,
    ensures
        match found {
            Some(path) => is_path(node_count, edges@, path@, start, goal),
            None => forall|walk: Seq<usize>|
                walk.len() > 0 && walk.first() == start && walk.last() == goal
                    ==> !#[trigger] is_walk(node_count, edges@, walk),
        },
{
    let mut first: Vec<usize> = Vec::new();
    first.push(start);
    let mut paths: Vec<Vec<usize>> = Vec::new();
    proof {
        lemma_ends_push(paths@, first);
        assert(first@ =~= seq![start]);
        assert(ends_of(paths@.push(first))[0] == start);
    }
    paths.push(first);
    let mut next: usize = 0;
    while next < paths.len()
        invariant
            next <= paths@.len(),
            spans(node_count, edges@, paths@, start),
            forall|i: int, b: usize|
                0 <= i < next && #[trigger] has_edge(node_count, edges@, ends_of(paths@)[i], b)
                    ==> ends_of(paths@).contains(b),
        decreases node_count - next,
    {
        proof {
            lemma_distinct_below(ends_of(paths@), node_count);
        }
        let path = copy_path(&paths[next]);
        assert(is_path(node_count, edges@, path@, start, path@.last()));
        let node: usize = path[path.len() - 1];
        assert(ends_of(paths@)[next as int] == node);
        let ghost before = paths@;
        for e in 0..edges.len()
            invariant
                next < before.len() <= paths@.len(),
                paths@.take(before.len() as int) == before,
                spans(node_count, edges@, paths@, start),
                is_path(node_count, edges@, path@, start, node),
                path@ == before[next as int]@,
                forall|i: int, b: usize|
                    0 <= i < next && #[trigger] has_edge(node_count, edges@, ends_of(paths@)[i], b)
                        ==> ends_of(paths@).contains(b),
                forall|j: int|
                    0 <= j < e && (#[trigger] edges@[j]).0 == node && edges@[j].1 < node_count
                        ==> ends_of(paths@).contains(edges@[j].1),
        {
            let (from, to) = edges[e];
            if from == node && to < node_count && !leads_to(&paths, to) {
                let mut longer = copy_path(&path);
                longer.push(to);
                proof {
                    assert(longer@.drop_last() =~= path@);
                    assert(paths@[next as int] == paths@.take(before.len() as int)[next as int]);
                    assert(ends_of(paths@)[next as int] == node);
                    assert(edges@.contains((node, to)));
                    if path@.contains(to) {
                        let k = choose|k: int| 0 <= k < path@.len() && path@[k] == to;
                        assert(paths@[next as int]@[k] == to);
                    }
                    lemma_longer_path(node_count, edges@, path@, start, to);
                    lemma_spans_push(node_count, edges@, paths@, start, next as int, longer);
                }
                let ghost shorter = paths@;
                paths.push(longer);
                proof {
                    lemma_ends_push(shorter, longer);
                    assert(paths@.take(before.len() as int) =~= before);
                    assert forall|b: usize| ends_of(shorter).contains(b) implies ends_of(
                        paths@,
                    ).contains(b) by {
                        let k = choose|k: int|
                            0 <= k < ends_of(shorter).len() && ends_of(shorter)[k] == b;
                        assert(ends_of(paths@)[k] == b);
                    }
                    assert(ends_of(paths@)[shorter.len() as int] == to);
                    assert forall|i: int, b: usize|
                        0 <= i < next && #[trigger] has_edge(
                            node_count,
                            edges@,
                            ends_of(paths@)[i],
                            b,
                        ) implies ends_of(paths@).contains(b) by {
                        assert(ends_of(paths@)[i] == ends_of(shorter)[i]);
                    }
                }
            }
        }
        proof {
            assert(paths@[next as int] == paths@.take(before.len() as int)[next as int]);
            assert forall|i: int, b: usize|
                0 <= i < next + 1 && #[trigger] has_edge(node_count, edges@, ends_of(paths@)[i], b)
                    implies ends_of(paths@).contains(b) by {
                if i == next {
                    assert(edges@.contains((node, b)));
                    let j = choose|j: int| 0 <= j < edges@.len() && edges@[j] == (node, b);
                    assert(edges@[j].0 == node && edges@[j].1 == b);
                }
            }
            lemma_distinct_below(ends_of(paths@), node_count);
        }
        next = next + 1;
    }
    for i in 0..paths.len()
        invariant
            spans(node_count, edges@, paths@, start),
            forall|j: int| 0 <= j < i ==> (#[trigger] ends_of(paths@)[j]) != goal,
    {
        assert(is_path(node_count, edges@, paths@[i as int]@, start, paths@[i as int]@.last()));
        assert(ends_of(paths@)[i as int] == paths@[i as int]@.last());
        if paths[i][paths[i].len() - 1] == goal {
            return Some(copy_path(&paths[i]));
        }
    }
    proof {
        let nodes = ends_of(paths@);
        assert forall|a: usize, b: usize|
            nodes.contains(a) && #[trigger] has_edge(node_count, edges@, a, b) implies nodes.contains(
            b,
        ) by {
            let i = choose|i: int| 0 <= i < nodes.len() && nodes[i] == a;
            assert(has_edge(node_count, edges@, ends_of(paths@)[i], b));
        }
        assert forall|walk: Seq<usize>|
            walk.len() > 0 && walk.first() == start && walk.last() == goal implies !#[trigger] is_walk(
            node_count,
            edges@,
            walk,
        ) by {
            if is_walk(node_count, edges@, walk) {
                lemma_walk_stays(node_count, edges@, nodes, walk, walk.len() - 1);
            }
        }
    }
    None
}

proof fn lemma_spans_push(
    node_count: usize,
    edges: Seq<(usize, usize)>,
    paths: Seq<Vec<usize>>,
    start: usize,
    at: int,
    longer: Vec<usize>,
)
    requires
        spans(node_count, edges, paths, start),
        0 <= at < paths.len(),
        is_path(node_count, edges, longer@, start, longer@.last()),
        longer@.drop_last() == paths[at]@,
        longer@.last() < node_count,
        !ends_of(paths).contains(longer@.last()),
    ensures
        spans(node_count, edges, paths.push(longer), start),
{
    let more = paths.push(longer);
    lemma_ends_push(paths, longer);
    let ends = ends_of(more);
    assert forall|b: usize| ends_of(paths).contains(b) implies ends.contains(b) by {
        let k = choose|k: int| 0 <= k < ends_of(paths).len() && ends_of(paths)[k] == b;
        assert(ends[k] == b);
    }
    assert forall|i: int| 0 <= i < more.len() implies is_path(
        node_count,
        edges,
        (#[trigger] more[i])@,
        start,
        more[i]@.last(),
    ) by {
        if i < paths.len() {
            assert(more[i] == paths[i]);
        }
    }
    assert forall|i: int, k: int| 0 <= i < more.len() && 0 <= k < more[i]@.len() implies ends.contains(
        #[trigger] more[i]@[k],
    ) by {
        if i < paths.len() {
            assert(more[i] == paths[i]);
            assert(ends_of(paths).contains(paths[i]@[k]));
        } else if k < longer@.len() - 1 {
            assert(longer@.drop_last()[k] == paths[at]@[k]);
            assert(ends_of(paths).contains(paths[at]@[k]));
        } else {
            assert(ends[paths.len() as int] == longer@.last());
        }
    }
    assert forall|i: int| 0 <= i < more.len() implies (#[trigger] ends[i]) < node_count by {
        if i < paths.len() {
            assert(ends[i] == ends_of(paths)[i]);
        }
    }
}

// ---------------------------------------------------------------------------
// Finding a fault
// ---------------------------------------------------------------------------

/// Lists the edges but for one.
fn other_edges(edges: &[(usize, usize)], edge: (usize, usize)) -> (others: Vec<(usize, usize)>)
    ensures
        forall|e: (usize, usize)| #[trigger]
            others@.contains(e) <==> edges@.contains(e) && e != edge,
{
    let mut others: Vec<(usize, usize)> = Vec::new();
    for i in 0..edges.len()
        invariant
            forall|k: int|
                0 <= k < others@.len() ==> edges@.contains(#[trigger] others@[k]) && others@[k]
                    != edge,
            forall|j: int|
                0 <= j < i && (#[trigger] edges@[j]) != edge ==> others@.contains(edges@[j]),
    {
        let ghost before = others@;
        if edges[i].0 != edge.0 || edges[i].1 != edge.1 {
            others.push(edges[i]);
            assert(others@[before.len() as int] == edges@[i as int]);
        }
        assert forall|j: int| 0 <= j < i + 1 && (#[trigger] edges@[j]) != edge implies others@.contains(
            edges@[j],
        ) by {
            if j < i {
                let k = choose|k: int| 0 <= k < before.len() && before[k] == edges@[j];
                assert(others@[k] == edges@[j]);
            }
        }
    }
    others
}

/// The path back along a larger cycle does without the edge that would close
/// a cycle with the first edge alone.
proof fn lemma_way_back(
    node_count: usize,
    edges: Seq<(usize, usize)>,
    others: Seq<(usize, usize)>,
    cycle: Seq<usize>,
)
    requires
        is_cycle(node_count, edges, cycle),
        cycle.len() > 3,
        forall|e: (usize, usize)| #[trigger]
            others.contains(e) <==> edges.contains(e) && e != (cycle[1], cycle[0]),
    ensures
        is_walk(node_count, others, cycle.skip(1)),
        cycle.skip(1).first() == cycle[1],
        cycle.skip(1).last() == cycle[0],
{
    let back = cycle.skip(1);
    let round = cycle.drop_last();
    assert forall|i: int| 0 <= i < back.len() - 1 implies #[trigger] has_step(
        node_count,
        others,
        back,
        i,
    ) by {
        assert(has_step(node_count, edges, cycle, i + 1));
        assert(back[i] == cycle[i + 1] && back[i + 1] == cycle[i + 2]);
        if (back[i], back[i + 1]) == (cycle[1], cycle[0]) {
            assert(round[i + 1] == round[1]);
            assert(i == 0);
            assert(round[2] == round[0]);
        }
        assert(others.contains((back[i], back[i + 1])));
    }
}

/// A way back from the end of an edge to its start, other than the direct
/// one, makes a larger cycle of the edge.
proof fn lemma_round_trip(
    node_count: usize,
    edges: Seq<(usize, usize)>,
    others: Seq<(usize, usize)>,
    a: usize,
    path: Seq<usize>,
)
    requires
        path.len() > 0,
        a != path[0],
        has_edge(node_count, edges, a, path[0]),
        is_path(node_count, others, path, path[0], a),
        forall|e: (usize, usize)| #[trigger]
            others.contains(e) <==> edges.contains(e) && e != (path[0], a),
    ensures
        is_cycle(node_count, edges, seq![a] + path),
        (seq![a] + path).len() > 3,
{
    let cycle = seq![a] + path;
    assert forall|i: int| 0 <= i < cycle.len() - 1 implies #[trigger] has_step(
        node_count,
        edges,
        cycle,
        i,
    ) by {
        if i > 0 {
            assert(has_step(node_count, others, path, i - 1));
            assert(others.contains((path[i - 1], path[i])));
        }
    }
    if path.len() == 2 {
        assert(has_step(node_count, others, path, 0));
        assert(others.contains((path[0], a)));
    }
    let round = cycle.drop_last();
    assert forall|i: int, j: int| 0 <= i < round.len() && 0 <= j < round.len() && i != j implies round[i]
        != round[j] by {
        if i == 0 {
            assert(round[j] == path[j - 1]);
            assert(path[path.len() - 1] == a);
        } else if j == 0 {
            assert(round[i] == path[i - 1]);
            assert(path[path.len() - 1] == a);
        } else {
            assert(round[i] == path[i - 1] && round[j] == path[j - 1]);
        }
    }
}

/// Whether no cycle that starts along an edge has to be reported.
spec fn is_harmless(
    node_count: usize,
    edges: Seq<(usize, usize)>,
    flags: Seq<bool>,
    a: usize,
    b: usize,
) -> bool {
    forall|cycle: Seq<usize>|
        cycle.len() > 1 && cycle[0] == a && cycle[1] == b && #[trigger] is_cycle(
            node_count,
            edges,
            cycle,
        ) ==> is_tolerated(cycle, flags)
}

/// Finds a cycle that starts along an edge and has to be reported.
fn find_fault_along(
    node_count: usize,
    edges: &[(usize, usize)],
    flags: &[bool],
    a: usize,
    b: usize,
) -> (fault: Option<Vec<usize>>)
    requires
        edges@.contains((a, b)),
    ensures
        match fault {
            Some(cycle) => is_fault(node_count, edges@, flags@, cycle@),
            None => is_harmless(node_count, edges@, flags@, a, b),
        },
{
    if a >= node_count || b >= node_count {
        assert forall|cycle: Seq<usize>|
            cycle.len() > 1 && cycle[0] == a && cycle[1] == b && #[trigger] is_cycle(
                node_count,
                edges@,
                cycle,
            ) implies is_tolerated(cycle, flags@) by {
            assert(has_step(node_count, edges@, cycle, 0));
        }
        return None;
    }
    if a == b {
        let mut loop_path: Vec<usize> = Vec::new();
        loop_path.push(a);
        loop_path.push(a);
        proof {
            assert(has_step(node_count, edges@, loop_path@, 0));
            assert(is_cycle(node_count, edges@, loop_path@));
            immediate_cycles_have_two_edges(node_count, edges@, loop_path@);
        }
        return Some(loop_path);
    }
    let others = other_edges(edges, (b, a));
    if let Some(path) = find_path(node_count, &others, b, a) {
        let mut cycle: Vec<usize> = Vec::new();
        cycle.push(a);
        for i in 0..path.len()
            invariant
                cycle@ == seq![a] + path@.take(i as int),
        {
            cycle.push(path[i]);
        }
        proof {
            assert(path@.take(path@.len() as int) =~= path@);
            lemma_round_trip(node_count, edges@, others@, a, path@);
            immediate_cycles_have_two_edges(node_count, edges@, cycle@);
        }
        return Some(cycle);
    }
    let mut pair: Vec<usize> = Vec::new();
    pair.push(a);
    pair.push(b);
    pair.push(a);
    let back = has_edge_to(edges, b, a);
    proof {
        if back {
            assert(has_step(node_count, edges@, pair@, 0));
            assert(has_step(node_count, edges@, pair@, 1));
            assert(pair@.drop_last() =~= seq![a, b]);
            assert(is_cycle(node_count, edges@, pair@));
            immediate_cycles_have_two_edges(node_count, edges@, pair@);
        }
    }
    if back && !cycle_involves_cjs(pair.as_slice(), flags) {
        return Some(pair);
    }
    assert forall|cycle: Seq<usize>|
        cycle.len() > 1 && cycle[0] == a && cycle[1] == b && #[trigger] is_cycle(
            node_count,
            edges@,
            cycle,
        ) implies is_tolerated(cycle, flags@) by {
        immediate_cycles_have_two_edges(node_count, edges@, cycle);
        if cycle.len() > 3 {
            lemma_way_back(node_count, edges@, others@, cycle);
            assert(is_walk(node_count, others@, cycle.skip(1)));
        } else if cycle.len() == 3 {
            assert(has_step(node_count, edges@, cycle, 1));
            assert(cycle =~= pair@);
        }
    }
    None
}

fn has_edge_to(edges: &[(usize, usize)], from: usize, to: usize) -> (r: bool)
    ensures
        r == edges@.contains((from, to)),
{
    for i in 0..edges.len()
        invariant
            forall|j: int| 0 <= j < i ==> edges@[j] != (from, to),
    {
        if edges[i].0 == from && edges[i].1 == to {
            assert(edges@[i as int] == (from, to));
            return true;
        }
    }
    false
}

/// Whether a cycle is no fault of the bundler: two chunks that import each
/// other directly, one of them holding a CommonJS module.
pub fn is_ignored_cycle(cycle: &[usize], chunk_has_cjs: &[bool]) -> (r: bool)
    ensures
        r == is_tolerated(cycle@, chunk_has_cjs@),
        r <==> cycle@.to_set().len() == 2 && exists|k: int|
            0 <= k < cycle@.len() && (#[trigger] cycle@[k]) < chunk_has_cjs@.len()
                && chunk_has_cjs@[cycle@[k] as int],
{
    is_immediate_cycle(cycle) && cycle_involves_cjs(cycle, chunk_has_cjs)
}

/// Finds a cycle that has to be reported, if there is one: no cycle that is
/// left out hides another.
pub fn find_fault(node_count: usize, edges: &[(usize, usize)], chunk_has_cjs: &[bool]) -> (fault:
    Option<Vec<usize>>)
    ensures
        match fault {
            Some(cycle) => is_fault(node_count, edges@, chunk_has_cjs@, cycle@),
            None => is_faultless(node_count, edges@, chunk_has_cjs@),
        },
        match fault {
            Some(cycle) => is_cycle(node_count, edges@, cycle@) && !is_tolerated(
                cycle@,
                chunk_has_cjs@,
            ),
            None => forall|cycle: Seq<usize>| #[trigger]
                is_cycle(node_count, edges@, cycle) ==> is_tolerated(cycle, chunk_has_cjs@),
        },
{
    match find_cycle(node_count, edges) {
        Some(cycle) => if !is_ignored_cycle(cycle.as_slice(), chunk_has_cjs) {
            return Some(cycle);
        },
        None => {
            assert forall|cycle: Seq<usize>| #[trigger]
                is_cycle(node_count, edges@, cycle) implies is_tolerated(
                cycle,
                chunk_has_cjs@,
            ) by {
                assert(is_closed_walk(node_count, edges@, cycle));
            }
            return None;
        },
    }
    for i in 0..edges.len()
        invariant
            forall|j: int|
                0 <= j < i ==> is_harmless(
                    node_count,
                    edges@,
                    chunk_has_cjs@,
                    (#[trigger] edges@[j]).0,
                    edges@[j].1,
                ),
    {
        let (from, to) = edges[i];
        assert(edges@[i as int] == (from, to));
        let fault = find_fault_along(node_count, edges, chunk_has_cjs, from, to);
        if fault.is_some() {
            return fault;
        }
    }
    assert forall|cycle: Seq<usize>| #[trigger]
        is_cycle(node_count, edges@, cycle) implies is_tolerated(cycle, chunk_has_cjs@) by {
        assert(has_step(node_count, edges@, cycle, 0));
        assert(edges@.contains((cycle[0], cycle[1])));
        let j = choose|j: int| 0 <= j < edges@.len() && edges@[j] == (cycle[0], cycle[1]);
        assert(is_harmless(node_count, edges@, chunk_has_cjs@, edges@[j].0, edges@[j].1));
    }
    None
}

} // verus!
