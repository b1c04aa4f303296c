//! Finding cycles in directed graphs.
use vstd::prelude::*;

verus! {

/// Whether an edge of the graph leads from node `a` to node `b`. Edges that
/// name a node beyond `node_count` are not part of the graph.
pub open spec fn has_edge(
    node_count: usize,
    edges: Seq<(usize, usize)>,
    a: usize,
    b: usize,
) -> bool {
    a < node_count && b < node_count && edges.contains((a, b))
}

/// Whether an edge leads from the node at `i` to the one after it.
pub open spec fn has_step(
    node_count: usize,
    edges: Seq<(usize, usize)>,
    path: Seq<usize>,
    i: int,
) -> bool {
    has_edge(node_count, edges, path[i], path[i + 1])
}

/// Whether an edge leads from each node of the path to the next.
pub open spec fn is_walk(node_count: usize, edges: Seq<(usize, usize)>, path: Seq<usize>) -> bool {
    forall|i: int| 0 <= i < path.len() - 1 ==> #[trigger] has_step(node_count, edges, path, i)
}

/// A walk along at least one edge that ends where it starts.
pub open spec fn is_closed_walk(
    node_count: usize,
    edges: Seq<(usize, usize)>,
    path: Seq<usize>,
) -> bool {
    &&& path.len() >= 2
    &&& is_walk(node_count, edges, path)
    &&& path.first() == path.last()
}

/// A closed walk that visits no node twice, but for its start at the end.
pub open spec fn is_cycle(
    node_count: usize,
    edges: Seq<(usize, usize)>,
    path: Seq<usize>,
) -> bool {
    &&& is_closed_walk(node_count, edges, path)
    &&& path.drop_last().no_duplicates()
}

/// Whether no walk along the edges comes back to where it started.
pub open spec fn is_acyclic(node_count: usize, edges: Seq<(usize, usize)>) -> bool {
    forall|path: Seq<usize>| !#[trigger] is_closed_walk(node_count, edges, path)
}

/// A graph whose edges all lead from a lower to a higher node is acyclic.
pub proof fn ascending_edges_are_acyclic(node_count: usize, edges: Seq<(usize, usize)>)
    requires
        forall|i: int| 0 <= i < edges.len() ==> (#[trigger] edges[i]).0 < edges[i].1,
    ensures
        is_acyclic(node_count, edges),
{
    assert forall|path: Seq<usize>| !#[trigger] is_closed_walk(node_count, edges, path) by {
        if is_closed_walk(node_count, edges, path) {
            lemma_walk_ascends(node_count, edges, path, path.len() - 1);
        }
    }
}

/// A graph has a cycle exactly when its edges lead from some node back to it:
/// along nodes of the graph, each edge being one of the given ones.
pub proof fn cycles_lead_back_along_edges(
    node_count: usize,
    edges: Seq<(usize, usize)>,
    path: Seq<usize>,
)
    ensures
        is_closed_walk(node_count, edges, path) <==> path.len() >= 2 && path[0] == path[path.len()
            - 1] && forall|i: int, j: int|
            0 <= i && j == i + 1 && j < path.len() ==> (#[trigger] path[i]) < node_count && (
            #[trigger] path[j]) < node_count && edges.contains((path[i], path[j])),
        is_cycle(node_count, edges, path) <==> is_closed_walk(node_count, edges, path) && forall|
            i: int,
            j: int,
        |
            0 <= i < j < path.len() - 1 ==> path[i] != path[j],
        is_acyclic(node_count, edges) ==> !is_closed_walk(node_count, edges, path),
{
    if is_closed_walk(node_count, edges, path) {
        assert forall|i: int, j: int| 0 <= i && j == i + 1 && j < path.len() implies (
        #[trigger] path[i]) < node_count && (#[trigger] path[j]) < node_count && edges.contains(
            (path[i], path[j]),
        ) by {
            assert(has_step(node_count, edges, path, i));
        }
    }
    if path.len() >= 2 && path[0] == path[path.len() - 1] && forall|i: int, j: int|
        0 <= i && j == i + 1 && j < path.len() ==> (#[trigger] path[i]) < node_count && (
        #[trigger] path[j]) < node_count && edges.contains((path[i], path[j])) {
        assert forall|i: int| 0 <= i < path.len() - 1 implies #[trigger] has_step(
            node_count,
            edges,
            path,
            i,
        ) by {
            let j = i + 1;
            assert(edges.contains((path[i], path[j])));
        }
        assert(is_walk(node_count, edges, path));
    }
    if path.len() >= 2 {
        let round = path.drop_last();
        assert forall|i: int| 0 <= i < path.len() - 1 implies round[i] == path[i] by {}
        if is_cycle(node_count, edges, path) {
            assert forall|i: int, j: int| 0 <= i < j < path.len() - 1 implies path[i]
                != path[j] by {
                assert(round[i] != round[j]);
            }
        }
        if forall|i: int, j: int| 0 <= i < j < path.len() - 1 ==> path[i] != path[j] {
            assert forall|i: int, j: int| 0 <= i < j < round.len() implies round[i] != round[j] by {
                assert(path[i] != path[j]);
            }
            assert(round.no_duplicates());
        }
    }
}

/// An acyclic graph has no edge from a node to itself, and no two edges that
/// lead from one node to another and back; and it stays acyclic with fewer
/// edges.
pub proof fn acyclic_graphs_have_no_short_cycles(
    node_count: usize,
    edges: Seq<(usize, usize)>,
    fewer: Seq<(usize, usize)>,
    a: usize,
    b: usize,
)
    requires
        is_acyclic(node_count, edges),
        a < node_count,
        b < node_count,
    ensures
        !edges.contains((a, a)),
        !(edges.contains((a, b)) && edges.contains((b, a))),
        (forall|e: (usize, usize)| fewer.contains(e) ==> #[trigger] edges.contains(e))
            ==> is_acyclic(node_count, fewer),
{
    let own = seq![a, a];
    let pair = seq![a, b, a];
    if edges.contains((a, a)) {
        assert(has_step(node_count, edges, own, 0));
        assert(is_closed_walk(node_count, edges, own));
    }
    if edges.contains((a, b)) && edges.contains((b, a)) {
        assert(has_step(node_count, edges, pair, 0));
        assert(has_step(node_count, edges, pair, 1));
        assert(is_walk(node_count, edges, pair));
        assert(is_closed_walk(node_count, edges, pair));
    }
    if forall|e: (usize, usize)| fewer.contains(e) ==> #[trigger] edges.contains(e) {
        assert forall|path: Seq<usize>| !#[trigger] is_closed_walk(node_count, fewer, path) by {
            if is_closed_walk(node_count, fewer, path) {
                assert forall|i: int| 0 <= i < path.len() - 1 implies #[trigger] has_step(
                    node_count,
                    edges,
                    path,
                    i,
                ) by {
                    assert(has_step(node_count, fewer, path, i));
                    assert(edges.contains((path[i], path[i + 1])));
                }
                assert(is_closed_walk(node_count, edges, path));
            }
        }
    }
}

proof fn lemma_walk_ascends(
    node_count: usize,
    edges: Seq<(usize, usize)>,
    path: Seq<usize>,
    k: int,
)
    requires
        forall|i: int| 0 <= i < edges.len() ==> (#[trigger] edges[i]).0 < edges[i].1,
        is_walk(node_count, edges, path),
        1 <= k < path.len(),
    ensures
        path[0] < path[k],
    decreases k,
{
    assert(has_step(node_count, edges, path, k - 1));
    if k > 1 {
        lemma_walk_ascends(node_count, edges, path, k - 1);
    }
}

/// How far the search has come with a node.
#[derive(Clone, Copy, PartialEq, Eq, Structural)]
enum Mark {
    New,
    Open,
    Done,
}

spec fn count_new(marks: Seq<Mark>) -> nat
    decreases marks.len(),
{
    if marks.len() == 0 {
        0
    } else {
        count_new(marks.drop_last()) + (if marks.last() == Mark::New {
            1nat
        } else {
            0
        })
    }
}

proof fn lemma_count_new(marks: Seq<Mark>, i: int, mark: Mark)
    requires
        0 <= i < marks.len(),
    ensures
        mark != Mark::New ==> count_new(marks.update(i, mark)) == count_new(marks) - (if marks[i]
            == Mark::New {
            1int
        } else {
            0
        }),
    decreases marks.len(),
{
    let changed = marks.update(i, mark);
    if i == marks.len() - 1 {
        assert(changed.drop_last() == marks.drop_last());
    } else {
        lemma_count_new(marks.drop_last(), i, mark);
        assert(changed.drop_last() == marks.drop_last().update(i, mark));
    }
}

/// The state of a depth-first search: a mark for each node, the path to the
/// node that is being visited, and the nodes in the order they were done with.
struct Search {
    marks: Vec<Mark>,
    path: Vec<usize>,
    finished: Vec<usize>,
}

impl Search {
    spec fn holds(self, node_count: usize, edges: Seq<(usize, usize)>) -> bool {
        &&& self.marks@.len() == node_count
        &&& forall|v: usize|
            v < node_count ==> ((#[trigger] self.marks@[v as int]) == Mark::Open
                <==> self.path@.contains(v))
        &&& forall|v: usize|
            v < node_count ==> ((#[trigger] self.marks@[v as int]) == Mark::Done
                <==> self.finished@.contains(v))
        &&& forall|i: int| 0 <= i < self.path@.len() ==> #[trigger] self.path@[i] < node_count
        &&& self.path@.no_duplicates()
        &&& is_walk(node_count, edges, self.path@)
        &&& forall|i: int|
            0 <= i < self.finished@.len() ==> #[trigger] self.finished@[i] < node_count
        &&& self.finished@.no_duplicates()
        &&& only_leads_back(node_count, edges, self.finished@)
    }
}

/// Whether the edges out of each node of the list lead to nodes before it.
spec fn only_leads_back(
    node_count: usize,
    edges: Seq<(usize, usize)>,
    finished: Seq<usize>,
) -> bool {
    forall|k: int, b: usize|
        0 <= k < finished.len() && #[trigger] has_edge(node_count, edges, finished[k], b)
            ==> finished.take(k).contains(b)
}

/// The successors of each node, in the order in which the edges list them.
spec fn lists_successors(
    node_count: usize,
    edges: Seq<(usize, usize)>,
    adjacency: Seq<Vec<usize>>,
) -> bool {
    &&& adjacency.len() == node_count
    &&& forall|a: usize, b: usize|
        a < node_count ==> (#[trigger] adjacency[a as int]@.contains(b) <==> has_edge(
            node_count,
            edges,
            a,
            b,
        ))
}

proof fn lemma_ranks_fall(
    node_count: usize,
    edges: Seq<(usize, usize)>,
    finished: Seq<usize>,
    path: Seq<usize>,
    k: int,
) -> (r: (int, int))
    requires
        finished.no_duplicates(),
        only_leads_back(node_count, edges, finished),
        forall|v: usize| v < node_count ==> finished.contains(v),
        is_walk(node_count, edges, path),
        1 <= k < path.len(),
    ensures
        0 <= r.1 < r.0 < finished.len(),
        finished[r.0] == path[0],
        finished[r.1] == path[k],
    decreases k,
{
    assert(has_step(node_count, edges, path, k - 1));
    if k == 1 {
        assert(finished.contains(path[0]));
        let i = choose|i: int| 0 <= i < finished.len() && finished[i] == path[0];
        assert(has_edge(node_count, edges, finished[i], path[1]));
        assert(finished.take(i).contains(path[1]));
        let j = choose|j: int| 0 <= j < finished.take(i).len() && finished.take(i)[j] == path[1];
        (i, j)
    } else {
        let (i, m) = lemma_ranks_fall(node_count, edges, finished, path, k - 1);
        assert(has_edge(node_count, edges, finished[m], path[k]));
        assert(finished.take(m).contains(path[k]));
        let j = choose|j: int| 0 <= j < finished.take(m).len() && finished.take(m)[j] == path[k];
        (i, j)
    }
}

proof fn lemma_all_finished_is_acyclic(
    node_count: usize,
    edges: Seq<(usize, usize)>,
    finished: Seq<usize>,
)
    requires
        finished.no_duplicates(),
        only_leads_back(node_count, edges, finished),
        forall|v: usize| v < node_count ==> finished.contains(v),
    ensures
        is_acyclic(node_count, edges),
{
    assert forall|path: Seq<usize>| !#[trigger] is_closed_walk(node_count, edges, path) by {
        if is_closed_walk(node_count, edges, path) {
            let (i, j) = lemma_ranks_fall(node_count, edges, finished, path, path.len() - 1);
            assert(finished[i] == finished[j]);
        }
    }
}

/// Collects the successors of every node.
fn successors(node_count: usize, edges: &[(usize, usize)]) -> (adjacency: Vec<Vec<usize>>)
    ensures
        lists_successors(node_count, edges@, adjacency@),
{
    let mut adjacency: Vec<Vec<usize>> = Vec::new();
    for i in 0..node_count
        invariant
            adjacency@.len() == i,
            forall|a: int| 0 <= a < i ==> (#[trigger] adjacency@[a])@.len() == 0,
    {
        adjacency.push(Vec::new());
    }
    for i in 0..edges.len()
        invariant
            adjacency@.len() == node_count,
            forall|a: usize, b: usize|
                a < node_count ==> (#[trigger] adjacency@[a as int]@.contains(b) <==> has_edge(
                    node_count,
                    edges@.take(i as int),
                    a,
                    b,
                )),
    {
        let (from, to) = edges[i];
        let ghost before = adjacency@;
        let ghost shorter = edges@.take(i as int);
        let ghost longer = edges@.take(i + 1);
        assert(longer == shorter.push((from, to)));
        if from < node_count && to < node_count {
            adjacency[from].push(to);
            assert(adjacency@[from as int]@ == before[from as int]@.push(to));
        }
        assert forall|a: usize, b: usize| a < node_count implies (
        #[trigger] adjacency@[a as int]@.contains(b) <==> has_edge(
            node_count,
            longer,
            a,
            b,
        )) by {
            assert(before[a as int]@.contains(b) <==> has_edge(node_count, shorter, a, b));
            assert(longer.contains((a, b)) <==> (shorter.contains((a, b)) || (a, b) == (
                from,
                to,
            ))) by {
                if shorter.contains((a, b)) {
                    let k = choose|k: int| 0 <= k < shorter.len() && shorter[k] == (a, b);
                    assert(longer[k] == (a, b));
                }
                assert(longer[i as int] == (from, to));
                if longer.contains((a, b)) && (a, b) != (from, to) {
                    let k = choose|k: int| 0 <= k < longer.len() && longer[k] == (a, b);
                    assert(shorter[k] == (a, b));
                }
            }
            let old_list = before[a as int]@;
            let new_list = adjacency@[a as int]@;
            if a == from && to < node_count {
                assert(new_list == old_list.push(to));
                if old_list.contains(b) {
                    let k = choose|k: int| 0 <= k < old_list.len() && old_list[k] == b;
                    assert(new_list[k] == b);
                }
                assert(new_list[old_list.len() as int] == to);
                if new_list.contains(b) && b != to {
                    let k = choose|k: int| 0 <= k < new_list.len() && new_list[k] == b;
                    assert(old_list[k] == b);
                }
            } else {
                assert(new_list == old_list);
            }
        }
    }
    assert(edges@.take(edges@.len() as int) == edges@);
    adjacency
}

impl Search {
    /// Visits a new node and all that can be reached from it over new nodes.
    fn visit(
        &mut self,
        node_count: usize,
        edges: &[(usize, usize)],
        adjacency: &Vec<Vec<usize>>,
        node: usize,
    ) -> (cycle: Option<Vec<usize>>)
        requires
            old(self).holds(node_count, edges@),
            lists_successors(node_count, edges@, adjacency@),
            node < node_count,
            old(self).marks@[node as int] == Mark::New,
            old(self).path@.len() > 0 ==> has_edge(
                node_count,
                edges@,
                old(self).path@.last(),
                node,
            ),
        ensures
            match cycle {
                Some(c) => is_cycle(node_count, edges@, c@),
                None => {
                    &&& final(self).holds(node_count, edges@)
                    &&& final(self).path@ == old(self).path@
                    &&& final(self).marks@[node as int] == Mark::Done
                    &&& forall|v: int|
                        0 <= v < node_count && old(self).marks@[v] == Mark::Done
                            ==> #[trigger] final(self).marks@[v] == Mark::Done
                    &&& count_new(final(self).marks@) < count_new(old(self).marks@)
                },
            },
        decreases count_new(old(self).marks@),
    {
        let ghost start = *self;
        proof {
            lemma_count_new(self.marks@, node as int, Mark::Open);
        }
        self.marks.set(node, Mark::Open);
        self.path.push(node);
        proof {
            lemma_open(start, *self, node_count, edges@, node);
        }
        let count: usize = adjacency[node].len();
        for i in 0..count
            invariant
                self.holds(node_count, edges@),
                lists_successors(node_count, edges@, adjacency@),
                node < node_count,
                count == adjacency@[node as int]@.len(),
                self.path@ == start.path@.push(node),
                count_new(self.marks@) < count_new(start.marks@),
                start == *old(self),
                forall|v: int|
                    0 <= v < node_count && start.marks@[v] == Mark::Done
                        ==> #[trigger] self.marks@[v] == Mark::Done,
                forall|j: int|
                    0 <= j < i ==> self.marks@[#[trigger] adjacency@[node as int]@[j] as int]
                        == Mark::Done,
        {
            let next: usize = adjacency[node][i];
            assert(adjacency@[node as int]@.contains(next));
            assert(has_edge(node_count, edges@, node, next));
            if self.marks[next] == Mark::Open {
                return Some(self.close(node_count, edges, next));
            }
            if self.marks[next] == Mark::New {
                let ghost before = *self;
                let found = self.visit(node_count, edges, adjacency, next);
                if found.is_some() {
                    return found;
                }
                proof {
                    assert forall|j: int| 0 <= j < i implies self.marks@[
                        #[trigger] adjacency@[node as int]@[j] as int] == Mark::Done by {
                        let b = adjacency@[node as int]@[j];
                        assert(adjacency@[node as int]@.contains(b));
                        assert(has_edge(node_count, edges@, node, b));
                        assert(before.marks@[b as int] == Mark::Done);
                    }
                }
            }
        }
        let ghost inner = *self;
        self.path.pop();
        self.marks.set(node, Mark::Done);
        self.finished.push(node);
        proof {
            lemma_count_new(inner.marks@, node as int, Mark::Done);
            assert(self.path@ == start.path@);
            assert forall|b: usize| has_edge(node_count, edges@, node, b) implies inner.finished@.contains(b) by {
                assert(adjacency@[node as int]@.contains(b));
                let j = choose|j: int|
                    0 <= j < adjacency@[node as int]@.len() && adjacency@[node as int]@[j] == b;
                assert(inner.marks@[adjacency@[node as int]@[j] as int] == Mark::Done);
            }
            lemma_done(inner, *self, node_count, edges@, node);
        }
        None
    }

    /// The cycle that an edge from the last node of the path back to one of
    /// its nodes closes.
    fn close(&self, node_count: usize, edges: &[(usize, usize)], back: usize) -> (cycle: Vec<usize>)
        requires
            self.holds(node_count, edges@),
            self.path@.len() > 0,
            self.path@.contains(back),
            has_edge(node_count, edges@, self.path@.last(), back),
        ensures
            is_cycle(node_count, edges@, cycle@),
    {
        let mut at: usize = 0;
        while self.path[at] != back
            invariant
                at < self.path.len(),
                forall|j: int| 0 <= j < at ==> self.path@[j] != back,
                self.path@.contains(back),
            decreases self.path@.len() - at,
        {
            proof {
                if at == self.path@.len() - 1 {
                    let k = choose|k: int| 0 <= k < self.path@.len() && self.path@[k] == back;
                    assert(self.path@[k] != back);
                }
            }
            at = at + 1;
        }
        let mut cycle: Vec<usize> = Vec::new();
        for i in at..self.path.len()
            invariant
                at < self.path@.len(),
                cycle@ == self.path@.subrange(at as int, i as int),
        {
            cycle.push(self.path[i]);
        }
        let ghost open = cycle@;
        cycle.push(back);
        proof {
            let closed = cycle@;
            let start = at as int;
            assert forall|i: int| 0 <= i < closed.len() - 1 implies #[trigger] has_step(
                node_count,
                edges@,
                closed,
                i,
            ) by {
                if i < closed.len() - 2 {
                    assert(has_step(node_count, edges@, self.path@, start + i));
                }
            }
            assert(closed.drop_last() == open);
        }
        cycle
    }
}

proof fn lemma_open(
    before: Search,
    after: Search,
    node_count: usize,
    edges: Seq<(usize, usize)>,
    node: usize,
)
    requires
        before.holds(node_count, edges),
        node < node_count,
        before.marks@[node as int] == Mark::New,
        before.path@.len() > 0 ==> has_edge(node_count, edges, before.path@.last(), node),
        after.marks@ == before.marks@.update(node as int, Mark::Open),
        after.path@ == before.path@.push(node),
        after.finished@ == before.finished@,
    ensures
        after.holds(node_count, edges),
{
    assert forall|v: usize| v < node_count implies ((#[trigger] after.marks@[v as int])
        == Mark::Open <==> after.path@.contains(v)) by {
        assert(before.marks@[v as int] == Mark::Open <==> before.path@.contains(v));
        assert(after.path@[before.path@.len() as int] == node);
        if before.path@.contains(v) {
            let k = choose|k: int| 0 <= k < before.path@.len() && before.path@[k] == v;
            assert(after.path@[k] == v);
        }
        if after.path@.contains(v) && v != node {
            let k = choose|k: int| 0 <= k < after.path@.len() && after.path@[k] == v;
            assert(before.path@[k] == v);
        }
    }
    assert forall|v: usize| v < node_count implies ((#[trigger] after.marks@[v as int])
        == Mark::Done <==> after.finished@.contains(v)) by {
        assert(before.marks@[v as int] == Mark::Done <==> before.finished@.contains(v));
    }
    assert(!before.path@.contains(node)) by {
        assert(before.marks@[node as int] == Mark::New);
    }
    assert(after.path@.no_duplicates());
    assert forall|i: int| 0 <= i < after.path@.len() - 1 implies #[trigger] has_step(
        node_count,
        edges,
        after.path@,
        i,
    ) by {
        if i < before.path@.len() - 1 {
            assert(has_step(node_count, edges, before.path@, i));
        }
    }
}

proof fn lemma_done(
    before: Search,
    after: Search,
    node_count: usize,
    edges: Seq<(usize, usize)>,
    node: usize,
)
    requires
        before.holds(node_count, edges),
        node < node_count,
        before.path@.len() > 0,
        before.path@.last() == node,
        after.marks@ == before.marks@.update(node as int, Mark::Done),
        after.path@ == before.path@.drop_last(),
        after.finished@ == before.finished@.push(node),
        forall|b: usize| has_edge(node_count, edges, node, b) ==> before.finished@.contains(b),
    ensures
        after.holds(node_count, edges),
{
    assert(before.path@[before.path@.len() - 1] == node);
    assert(before.path@.contains(node));
    assert(before.marks@[node as int] == Mark::Open);
    assert forall|v: usize| v < node_count implies ((#[trigger] after.marks@[v as int])
        == Mark::Open <==> after.path@.contains(v)) by {
        assert(before.marks@[v as int] == Mark::Open <==> before.path@.contains(v));
        if after.path@.contains(v) {
            let k = choose|k: int| 0 <= k < after.path@.len() && after.path@[k] == v;
            assert(before.path@[k] == v);
        }
        if before.path@.contains(v) && v != node {
            let k = choose|k: int| 0 <= k < before.path@.len() && before.path@[k] == v;
            assert(after.path@[k] == v);
        }
    }
    assert forall|v: usize| v < node_count implies ((#[trigger] after.marks@[v as int])
        == Mark::Done <==> after.finished@.contains(v)) by {
        assert(before.marks@[v as int] == Mark::Done <==> before.finished@.contains(v));
        assert(after.finished@[before.finished@.len() as int] == node);
        if before.finished@.contains(v) {
            let k = choose|k: int| 0 <= k < before.finished@.len() && before.finished@[k] == v;
            assert(after.finished@[k] == v);
        }
        if after.finished@.contains(v) && v != node {
            let k = choose|k: int| 0 <= k < after.finished@.len() && after.finished@[k] == v;
            assert(before.finished@[k] == v);
        }
    }
    assert(!before.finished@.contains(node)) by {
        assert(before.marks@[node as int] != Mark::Done);
    }
    assert(after.finished@.no_duplicates());
    assert forall|i: int| 0 <= i < after.path@.len() - 1 implies #[trigger] has_step(
        node_count,
        edges,
        after.path@,
        i,
    ) by {
        assert(has_step(node_count, edges, before.path@, i));
    }
    assert forall|k: int, b: usize|
        0 <= k < after.finished@.len() && #[trigger] has_edge(
            node_count,
            edges,
            after.finished@[k],
            b,
        ) implies after.finished@.take(k).contains(b) by {
        assert(after.finished@.take(k) =~= before.finished@.take(k));
        if k < before.finished@.len() {
            assert(has_edge(node_count, edges, before.finished@[k], b));
        } else {
            assert(before.finished@.take(k) =~= before.finished@);
        }
    }
}

/// Finds a cycle, if there is one, and returns it as the path along it with
/// the node it starts from repeated at both ends (e.g. `[a, b, a]`).
pub fn find_cycle(node_count: usize, edges: &[(usize, usize)]) -> (cycle: Option<Vec<usize>>)
    ensures
        match cycle {
            Some(c) => is_cycle(node_count, edges@, c@),
            None => is_acyclic(node_count, edges@),
        },
{
    let adjacency = successors(node_count, edges);
    let mut marks: Vec<Mark> = Vec::new();
    for i in 0..node_count
        invariant
            marks@.len() == i,
            forall|v: int| 0 <= v < i ==> #[trigger] marks@[v] == Mark::New,
    {
        marks.push(Mark::New);
    }
    let mut search = Search { marks, path: Vec::new(), finished: Vec::new() };
    for node in 0..node_count
        invariant
            search.holds(node_count, edges@),
            lists_successors(node_count, edges@, adjacency@),
            search.path@.len() == 0,
            forall|v: int| 0 <= v < node ==> #[trigger] search.marks@[v] == Mark::Done,
    {
        if search.marks[node] == Mark::New {
            let found = search.visit(node_count, edges, &adjacency, node);
            if found.is_some() {
                return found;
            }
        }
        assert(search.marks@[node as int] != Mark::Open) by {
            assert(!search.path@.contains(node));
        }
    }
    proof {
        assert forall|v: usize| v < node_count implies search.finished@.contains(v) by {
            assert(search.marks@[v as int] == Mark::Done);
        }
        lemma_all_finished_is_acyclic(node_count, edges@, search.finished@);
    }
    None
}

} // verus!
