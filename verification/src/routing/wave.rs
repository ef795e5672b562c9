//! The wave that looks for a sink: it spreads over the graph from the nodes
//! of a routing tree, the cheapest node first, until it meets the sink or
//! can spread no further.

use vstd::prelude::*;
use std::collections::HashSet;
use crate::routing::costs::{costs_bounded, spec_use_cost, use_cost, COST_LIMIT};
use crate::routing::graph::{
    has_edge, is_walk, leaves_node, node_count, out_edges, reaches, routing_edges, routing_nodes,
    Edge, RoutingGraph,
};
use crate::routing::queue::{is_first, PriorityQueue, PriorityQueueEntry};

verus! {

broadcast use vstd::std_specs::hash::group_hash_axioms;

/// A node of `from` is reached by the walk that holds nothing else.
pub proof fn lemma_reaches_itself(edges: Seq<Edge>, from: Set<usize>, node: usize)
    requires
        from.contains(node),
    ensures
        reaches(edges, from, node),
{
    assert(is_walk(edges, seq![node]));
}

/// What is reached leads on over every edge that leaves it.
pub proof fn lemma_reaches_next(edges: Seq<Edge>, from: Set<usize>, node: usize, next: usize)
    requires
        reaches(edges, from, node),
        has_edge(edges, node as int, next as int),
    ensures
        reaches(edges, from, next),
{
    let walk = choose|walk: Seq<usize>| #[trigger]
        is_walk(edges, walk) && from.contains(walk[0]) && walk.last() == node;
    let longer = walk.push(next);
    assert forall|i: int| 0 <= i < longer.len() - 1 implies has_edge(
        edges,
        (#[trigger] longer[i]) as int,
        longer[i + 1] as int,
    ) by {
        if i < walk.len() - 1 {
            assert(has_edge(edges, walk[i] as int, walk[i + 1] as int));
        }
    }
    assert(is_walk(edges, longer));
}

/// A set of nodes that holds `from` and, with each of its nodes, every node
/// that an edge leads to from there, holds every node that `from` reaches.
pub proof fn lemma_closed_set_holds_reached(
    edges: Seq<Edge>,
    from: Set<usize>,
    closed: Set<usize>,
    to: usize,
)
    requires
        from.subset_of(closed),
        forall|k: int|
            0 <= k < edges.len() && closed.contains((#[trigger] edges[k]).source)
                ==> closed.contains(edges[k].target),
        reaches(edges, from, to),
    ensures
        closed.contains(to),
{
    let walk = choose|walk: Seq<usize>| #[trigger]
        is_walk(edges, walk) && from.contains(walk[0]) && walk.last() == to;
    lemma_walk_stays_in_closed(edges, closed, walk, walk.len() - 1);
}

proof fn lemma_walk_stays_in_closed(edges: Seq<Edge>, closed: Set<usize>, walk: Seq<usize>, i: int)
    requires
        is_walk(edges, walk),
        closed.contains(walk[0]),
        forall|k: int|
            0 <= k < edges.len() && closed.contains((#[trigger] edges[k]).source)
                ==> closed.contains(edges[k].target),
        0 <= i < walk.len(),
    ensures
        closed.contains(walk[i]),
    decreases i,
{
    if i > 0 {
        lemma_walk_stays_in_closed(edges, closed, walk, i - 1);
        assert(has_edge(edges, walk[i - 1] as int, walk[i] as int));
        let k = choose|k: int|
            0 <= k < edges.len() && (#[trigger] edges[k]).source == walk[i - 1] as int
                && edges[k].target == walk[i] as int;
        assert(closed.contains(edges[k].target));
    }
}

/// A finite set of numbers below `bound` has at most `bound` elements.
pub proof fn lemma_bounded_set(s: Set<usize>, bound: nat)
    requires
        s.finite(),
        bound <= usize::MAX,
        forall|x: usize| s.contains(x) ==> x < bound,
    ensures
        s.len() <= bound,
    decreases bound,
{
    if bound == 0 {
        assert(s =~= Set::<usize>::empty());
    } else {
        let top = (bound - 1) as usize;
        lemma_bounded_set(s.remove(top), (bound - 1) as nat);
    }
}

/// The nodes that wait in the queue are those of its entries, one entry
/// each.
pub open spec fn queue_matches(queue: PriorityQueue) -> bool {
    &&& queue.well_formed()
    &&& forall|e: PriorityQueueEntry| #[trigger]
        queue.entries().contains(e) ==> queue.present().contains(e.node)
    &&& forall|node: usize| #[trigger]
        queue.present().contains(node) ==> exists|e: PriorityQueueEntry| #[trigger]
            queue.entries().contains(e) && e.node == node
    &&& forall|e: PriorityQueueEntry, f: PriorityQueueEntry|
        #![trigger queue.entries().contains(e), queue.entries().contains(f)]
        queue.entries().contains(e) && queue.entries().contains(f) && e.node == f.node ==> e == f
}

/// What holds while the wave spreads from `tree`: `seen` are the nodes that
/// were expanded, `queue` holds those that wait; all of them can be reached
/// from the tree, and every edge from an expanded node leads to one of them.
pub open spec fn wave_front(
    edges: Seq<Edge>,
    node_count: nat,
    tree: Set<usize>,
    seen: Set<usize>,
    queue: PriorityQueue,
) -> bool {
    &&& queue_matches(queue)
    &&& seen.finite()
    &&& seen.disjoint(queue.present())
    &&& tree.subset_of(seen.union(queue.present()))
    &&& queue.counter() == seen.union(queue.present()).len()
    &&& forall|node: usize| #[trigger]
        seen.union(queue.present()).contains(node) ==> node < node_count && reaches(
            edges,
            tree,
            node,
        )
}

/// Every edge that leaves a node of `seen`, but at `node` only the first
/// `done` of `out`, leads to a node of `known`.
pub open spec fn expanded(
    edges: Seq<Edge>,
    seen: Set<usize>,
    known: Set<usize>,
    node: usize,
    out: Seq<Edge>,
    done: int,
) -> bool {
    &&& forall|k: int|
        0 <= k < edges.len() && seen.contains((#[trigger] edges[k]).source) && edges[k].source
            != node ==> known.contains(edges[k].target)
    &&& forall|j: int| 0 <= j < done ==> known.contains((#[trigger] out[j]).target)
}

/// Spreads a wave over the graph from the nodes of `tree`, cheapest node
/// first, until it meets `sink` or can spread no further, and says whether
/// it met the sink.
pub fn wave_reaches(
    graph: &RoutingGraph,
    history: &Vec<u64>,
    present: &Vec<u64>,
    tree: &Vec<usize>,
    sink: usize,
) -> (found: bool)
    requires
        history@.len() == routing_nodes(*graph).len(),
        present@.len() == routing_nodes(*graph).len(),
        costs_bounded(history@, present@),
        tree@.no_duplicates(),
        forall|i: int| 0 <= i < tree@.len() ==> (#[trigger] tree@[i]) < routing_nodes(*graph).len(),
        sink < routing_nodes(*graph).len(),
    ensures
        found == reaches(routing_edges(*graph), tree@.to_set(), sink),
{
    let ghost edges = routing_edges(*graph);
    let ghost from = tree@.to_set();
    let n = node_count(graph);
    let mut queue = PriorityQueue::from_nodes(tree);
    let mut seen: HashSet<usize> = HashSet::new();
    proof {
        tree@.unique_seq_to_set();
        assert(seen@.union(queue.present()) =~= from);
        assert forall|node: usize| #[trigger] from.contains(node) implies node < n && reaches(
            edges,
            from,
            node,
        ) by {
            lemma_reaches_itself(edges, from, node);
        }
        assert forall|v: usize| #[trigger] queue.present().contains(v) implies exists|
            e: PriorityQueueEntry,
        | #[trigger] queue.entries().contains(e) && e.node == v by {
            let i = choose|i: int| 0 <= i < tree@.len() && tree@[i] == v;
            let e = PriorityQueueEntry { priority: 0, sequence: i as usize, node: v };
            assert(queue.entries().contains(e));
        }
    }
    loop
        invariant
            n == routing_nodes(*graph).len(),
            n <= u32::MAX,
            edges == routing_edges(*graph),
            from == tree@.to_set(),
            history@.len() == n,
            present@.len() == n,
            costs_bounded(history@, present@),
            sink < n,
            wave_front(edges, n as nat, from, seen@, queue),
            !seen@.contains(sink),
            expanded(edges, seen@, seen@.union(queue.present()), sink, Seq::<Edge>::empty(), 0),
        decreases n - seen@.len(),
    {
        let ghost known = seen@.union(queue.present());
        let ghost entries = queue.entries();
        let ghost waiting = queue.present();
        let ghost seen_before = seen@;
        proof {
            queue.lemma_entries_numbered();
            vstd::set_lib::lemma_set_disjoint_lens(seen@, queue.present());
            lemma_bounded_set(known, n as nat);
        }
        match queue.pop() {
            None => {
                proof {
                    assert forall|v: usize| !waiting.contains(v) by {
                        if waiting.contains(v) {
                            let e = choose|e: PriorityQueueEntry| #[trigger]
                                entries.contains(e) && e.node == v;
                        }
                    }
                    assert(known =~= seen@);
                    if reaches(edges, from, sink) {
                        lemma_closed_set_holds_reached(edges, from, seen@, sink);
                    }
                }
                return false;
            },
            Some(node) => {
                let ghost first = choose|first: PriorityQueueEntry|
                    #![trigger is_first(entries, first)]
                    is_first(entries, first) && first.node == node && queue.entries()
                        == entries.remove(first) && queue.present() == waiting.remove(node);
                assert(waiting.contains(node));
                assert(known.contains(node));
                seen.insert(node);
                if node == sink {
                    return true;
                }
                proof {
                    assert(seen@.union(queue.present()) =~= known);
                    assert forall|v: usize| #[trigger]
                        queue.present().contains(v) implies exists|e: PriorityQueueEntry| #[trigger]
                        queue.entries().contains(e) && e.node == v by {
                        let e = choose|e: PriorityQueueEntry| #[trigger]
                            entries.contains(e) && e.node == v;
                        assert(queue.entries().contains(e));
                    }
                }
                let cost = use_cost(history, present, node);
                assert(spec_use_cost(history@, present@, node as int) <= COST_LIMIT);
                let out = out_edges(graph, node);
                let mut k: usize = 0;
                while k < out.len()
                    invariant
                        n == routing_nodes(*graph).len(),
                        n <= u32::MAX,
                        edges == routing_edges(*graph),
                        k <= out@.len(),
                        node < n,
                        node != sink,
                        seen@.contains(node),
                        cost <= COST_LIMIT,
                        leaves_node(edges, n as nat, node as int, out@),
                        wave_front(edges, n as nat, from, seen@, queue),
                        !seen@.contains(sink),
                        expanded(edges, seen@, seen@.union(queue.present()), node, out@, k as int),
                    decreases out@.len() - k,
                {
                    let edge = out[k];
                    let ghost known_now = seen@.union(queue.present());
                    let ghost entries_now = queue.entries();
                    if !(queue.contains(edge.target) || seen.contains(&edge.target)) {
                        proof {
                            queue.lemma_entries_numbered();
                            vstd::set_lib::lemma_set_disjoint_lens(seen@, queue.present());
                            lemma_bounded_set(known_now.insert(edge.target), n as nat);
                            assert(out@.contains(edge));
                            assert(edges.contains(edge));
                            let index = choose|index: int|
                                0 <= index < edges.len() && edges[index] == edge;
                            assert(has_edge(edges, node as int, edge.target as int)) by {
                                assert(edges[index].source == node);
                            }
                            assert(known_now.contains(node));
                            lemma_reaches_next(edges, from, node, edge.target);
                        }
                        let ghost pushed = PriorityQueueEntry {
                            priority: (cost + edge.weight) as u128,
                            sequence: queue.counter(),
                            node: edge.target,
                        };
                        queue.push(edge.target, cost + edge.weight as u128);
                        proof {
                            assert(seen@.union(queue.present()) =~= known_now.insert(edge.target));
                            assert forall|v: usize| #[trigger]
                                queue.present().contains(v) implies exists|e: PriorityQueueEntry| #[trigger]
                                queue.entries().contains(e) && e.node == v by {
                                if v == edge.target {
                                    assert(queue.entries().contains(pushed));
                                } else {
                                    let e = choose|e: PriorityQueueEntry| #[trigger]
                                        entries_now.contains(e) && e.node == v;
                                    assert(queue.entries().contains(e));
                                }
                            }
                        }
                    }
                    k += 1;
                }
                proof {
                    let known_after = seen@.union(queue.present());
                    assert forall|i: int|
                        0 <= i < edges.len() && seen@.contains((#[trigger] edges[i]).source)
                        implies known_after.contains(edges[i].target) by {
                        if edges[i].source == node {
                            assert(edges.contains(edges[i]));
                            assert(out@.contains(edges[i]));
                            let j = choose|j: int| 0 <= j < out@.len() && out@[j] == edges[i];
                            assert(known_after.contains(out@[j].target));
                        }
                    }
                }
            },
        }
    }
}

} // verus!
