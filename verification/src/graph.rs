//! Searching a graph whose nodes are numbers and whose edges are given as
//! the list of the successors of each node.

use vstd::prelude::*;
use crate::counting::{marks, lemma_marks_bound, lemma_marks_set, lemma_marks_none, clear_row};

verus! {

/// Whether the graph has an edge from `p` to `q`.
pub open spec fn edge(graph: Seq<Seq<int>>, p: int, q: int) -> bool {
    0 <= p < graph.len() && graph[p].contains(q)
}

/// Whether the nodes of `path` are joined by edges, each to the next.
pub open spec fn is_path(graph: Seq<Seq<int>>, path: Seq<int>) -> bool
    decreases path.len(),
{
    if path.len() <= 1 {
        path.len() == 1
    } else {
        is_path(graph, path.drop_last()) && edge(graph, path[path.len() - 2], path.last())
    }
}

/// Whether edges lead from `p` to `q`; no edge at all where `p` is `q`.
pub open spec fn reaches(graph: Seq<Seq<int>>, p: int, q: int) -> bool {
    exists|path: Seq<int>| is_path(graph, path) && path[0] == p && path.last() == q
}

/// The nodes that edges lead to from a node of `seeds`, the seeds
/// themselves included.
pub open spec fn reached_from(graph: Seq<Seq<int>>, seeds: Set<int>) -> Set<int> {
    Set::new(|q: int| exists|p: int| seeds.contains(p) && reaches(graph, p, q))
}

/// The nodes that the flags mark.
pub open spec fn marked(flags: Seq<bool>) -> Set<int> {
    Set::new(|q: int| 0 <= q < flags.len() && flags[q])
}

/// The graph that lists of successors stand for.
pub open spec fn graph_of(lists: Seq<Vec<usize>>) -> Seq<Seq<int>> {
    lists.map_values(|list: Vec<usize>| list@.map_values(|t: usize| t as int))
}

/// Whether every successor is a node of the graph.
pub open spec fn graph_wf(graph: Seq<Seq<int>>) -> bool {
    forall|p: int, k: int|
        0 <= p < graph.len() && 0 <= k < graph[p].len() ==> 0 <= #[trigger] graph[p][k]
            < graph.len()
}

/// Every node reaches itself.
pub proof fn lemma_reaches_self(graph: Seq<Seq<int>>, p: int)
    ensures
        reaches(graph, p, p),
{
    let path = seq![p];
    assert(is_path(graph, path));
    assert(path[0] == p && path.last() == p);
}

/// A node that reaches a node reaches its successors.
pub proof fn lemma_reaches_more(graph: Seq<Seq<int>>, p: int, q: int, r: int)
    requires
        reaches(graph, p, q),
        edge(graph, q, r),
    ensures
        reaches(graph, p, r),
{
    let path = choose|path: Seq<int>| is_path(graph, path) && path[0] == p && path.last() == q;
    let longer = path.push(r);
    assert(longer.drop_last() =~= path);
    assert(is_path(graph, longer));
    assert(longer[0] == p && longer.last() == r);
}

/// Reaching is transitive.
pub proof fn lemma_reaches_transitive(graph: Seq<Seq<int>>, p: int, q: int, r: int)
    requires
        reaches(graph, p, q),
        reaches(graph, q, r),
    ensures
        reaches(graph, p, r),
{
    let path = choose|path: Seq<int>| is_path(graph, path) && path[0] == q && path.last() == r;
    lemma_reaches_along(graph, p, path);
}

/// A node that reaches the first node of a path reaches its last node.
pub proof fn lemma_reaches_along(graph: Seq<Seq<int>>, p: int, path: Seq<int>)
    requires
        is_path(graph, path),
        reaches(graph, p, path[0]),
    ensures
        reaches(graph, p, path.last()),
    decreases path.len(),
{
    if path.len() > 1 {
        lemma_reaches_along(graph, p, path.drop_last());
        lemma_reaches_more(graph, p, path[path.len() - 2], path.last());
    }
}

/// A set that holds the successors of its nodes holds what its nodes
/// reach.
pub proof fn lemma_closed_holds_path(graph: Seq<Seq<int>>, flags: Seq<bool>, path: Seq<int>)
    requires
        flags.len() == graph.len(),
        forall|p: int, k: int|
            0 <= p < graph.len() && flags[p] && 0 <= k < graph[p].len() ==> 0
                <= #[trigger] graph[p][k] < graph.len() && flags[graph[p][k]],
        is_path(graph, path),
        0 <= path[0] < graph.len(),
        flags[path[0]],
    ensures
        0 <= path.last() < graph.len(),
        flags[path.last()],
    decreases path.len(),
{
    if path.len() > 1 {
        lemma_closed_holds_path(graph, flags, path.drop_last());
        let p = path[path.len() - 2];
        let q = path.last();
        let k = choose|k: int| 0 <= k < graph[p].len() && graph[p][k] == q;
        assert(flags[graph[p][k]]);
    }
}

/// The nodes that edges lead to from the marked nodes.
pub fn reach(lists: &Vec<Vec<usize>>, seeds: &Vec<bool>) -> (flags: Vec<bool>)
    requires
        graph_wf(graph_of(lists@)),
        seeds.len() == lists.len(),
    ensures
        flags.len() == lists.len(),
        marked(flags@) == reached_from(graph_of(lists@), marked(seeds@)),
{
    let count = lists.len();
    let ghost graph = graph_of(lists@);
    let mut flags = clear_row(count);
    let mut order: Vec<usize> = Vec::new();
    let mut q: usize = 0;
    proof {
        lemma_marks_none(flags@);
    }
    while q < count
        invariant
            q <= count,
            count == seeds.len(),
            flags.len() == count,
            order.len() == marks(flags@),
            forall|p: int| 0 <= p < count ==> #[trigger] flags[p] == (p < q && seeds[p]),
            forall|j: int|
                0 <= j < order.len() ==> (#[trigger] order[j]) < count && flags[order[j] as int],
            forall|p: int|
                0 <= p < count && #[trigger] flags[p] ==> exists|j: int|
                    0 <= j < order.len() && order[j] == p,
        decreases count - q,
    {
        if seeds[q] {
            proof {
                lemma_marks_set(flags@, q as int);
            }
            let ghost old_order = order@;
            flags.set(q, true);
            order.push(q);
            proof {
                assert forall|p: int| 0 <= p < count && #[trigger] flags[p] implies exists|j: int|
                    0 <= j < order.len() && order[j] == p by {
                    if p == q {
                        assert(order[old_order.len() as int] == p);
                    } else {
                        let j = choose|j: int| 0 <= j < old_order.len() && old_order[j] == p;
                        assert(order[j] == p);
                    }
                }
            }
        }
        q += 1;
    }
    proof {
        assert forall|p: int| 0 <= p < count && #[trigger] flags[p] implies reached_from(
            graph,
            marked(seeds@),
        ).contains(p) by {
            lemma_reaches_self(graph, p);
            assert(marked(seeds@).contains(p));
        }
    }
    let mut head: usize = 0;
    while head < order.len()
        invariant
            graph == graph_of(lists@),
            graph_wf(graph),
            count == lists.len(),
            count == seeds.len(),
            flags.len() == count,
            head <= order.len(),
            order.len() == marks(flags@),
            forall|p: int| 0 <= p < count && seeds[p] ==> #[trigger] flags[p],
            forall|j: int|
                0 <= j < order.len() ==> (#[trigger] order[j]) < count && flags[order[j] as int],
            forall|p: int|
                0 <= p < count && #[trigger] flags[p] ==> reached_from(
                    graph,
                    marked(seeds@),
                ).contains(p),
            forall|p: int|
                0 <= p < count && #[trigger] flags[p] ==> exists|j: int|
                    0 <= j < order.len() && order[j] == p,
            forall|j: int, k: int|
                0 <= j < head && 0 <= k < graph[order[j] as int].len()
                    ==> flags[#[trigger] graph[order[j] as int][k]],
        decreases count - head,
    {
        proof {
            lemma_marks_bound(flags@);
        }
        let from = order[head];
        let successors = &lists[from];
        assert(graph[from as int] == successors@.map_values(|t: usize| t as int));
        let mut k: usize = 0;
        while k < successors.len()
            invariant
                graph == graph_of(lists@),
                graph_wf(graph),
                count == lists.len(),
                count == seeds.len(),
                flags.len() == count,
                head < order.len(),
                from == order[head as int],
                from < count,
                graph[from as int] == successors@.map_values(|t: usize| t as int),
                k <= successors.len(),
                order.len() == marks(flags@),
                forall|p: int| 0 <= p < count && seeds[p] ==> #[trigger] flags[p],
                forall|j: int|
                0 <= j < order.len() ==> (#[trigger] order[j]) < count && flags[order[j] as int],
                forall|p: int|
                    0 <= p < count && #[trigger] flags[p] ==> reached_from(
                        graph,
                        marked(seeds@),
                    ).contains(p),
                forall|p: int|
                    0 <= p < count && #[trigger] flags[p] ==> exists|j: int|
                        0 <= j < order.len() && order[j] == p,
                forall|j: int, l: int|
                    0 <= j < head && 0 <= l < graph[order[j] as int].len()
                        ==> flags[#[trigger] graph[order[j] as int][l]],
                forall|l: int| 0 <= l < k ==> flags[#[trigger] graph[from as int][l]],
                reached_from(graph, marked(seeds@)).contains(from as int),
            decreases successors.len() - k,
        {
            let to = successors[k];
            assert(graph[from as int][k as int] == to);
            if !flags[to] {
                proof {
                    lemma_marks_set(flags@, to as int);
                    let seed = choose|p: int|
                        marked(seeds@).contains(p) && reaches(graph, p, from as int);
                    lemma_reaches_more(graph, seed, from as int, to as int);
                }
                let ghost old_order = order@;
                flags.set(to, true);
                order.push(to);
                proof {
                    assert forall|p: int| 0 <= p < count && #[trigger] flags[p] implies exists|
                        j: int,
                    |
                        0 <= j < order.len() && order[j] == p by {
                        if p == to {
                            assert(order[old_order.len() as int] == p);
                        } else {
                            let j = choose|j: int| 0 <= j < old_order.len() && old_order[j] == p;
                            assert(order[j] == p);
                        }
                    }
                }
            }
            k += 1;
        }
        head += 1;
    }
    proof {
        let reached = reached_from(graph, marked(seeds@));
        assert forall|p: int, k: int|
            0 <= p < graph.len() && flags@[p] && 0 <= k < graph[p].len() implies 0
            <= #[trigger] graph[p][k] < graph.len() && flags@[graph[p][k]] by {
            let j = choose|j: int| 0 <= j < order.len() && order[j] == p;
            assert(flags[graph[order[j] as int][k]]);
        }
        assert forall|q: int| reached.contains(q) implies marked(flags@).contains(q) by {
            let p = choose|p: int| marked(seeds@).contains(p) && reaches(graph, p, q);
            let path = choose|path: Seq<int>|
                is_path(graph, path) && path[0] == p && path.last() == q;
            lemma_closed_holds_path(graph, flags@, path);
        }
        assert(marked(flags@) =~= reached);
    }
    flags
}

} // verus!
