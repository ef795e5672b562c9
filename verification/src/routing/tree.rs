//! Routing trees: the nodes that a net occupies, the walks that lead over
//! them from the source of the net to its sinks, and the length of the
//! shortest of them.

use vstd::prelude::*;
use std::collections::HashSet;
use crate::routing::graph::{
    are_distances_within, dijkstra_within, has_edge, is_distance_within, is_path_within, is_walk,
    passes, path_weight, routing_edges, routing_nodes, Edge, RoutingGraph,
};
use crate::routing::netlist::with_node;

verus! {

broadcast use vstd::std_specs::hash::group_hash_axioms;

/// `tree` with each of `nodes` added in turn, as `with_node` adds one.
pub open spec fn with_nodes(tree: Seq<usize>, nodes: Seq<usize>) -> Seq<usize>
    decreases nodes.len(),
{
    if nodes.len() == 0 {
        tree
    } else {
        with_node(with_nodes(tree, nodes.drop_last()), nodes.last())
    }
}

/// The nodes of a route between its first and its last.
pub open spec fn interior(route: Seq<usize>) -> Seq<usize> {
    if route.len() <= 2 {
        Seq::empty()
    } else {
        route.subrange(1, route.len() - 1)
    }
}

/// Adding nodes to a tree keeps what it held, in place, holds each node once,
/// and holds nothing but the tree and the nodes added.
pub proof fn lemma_with_nodes(tree: Seq<usize>, nodes: Seq<usize>)
    requires
        tree.no_duplicates(),
    ensures
        with_nodes(tree, nodes).no_duplicates(),
        tree.is_prefix_of(with_nodes(tree, nodes)),
        forall|node: usize|
            with_nodes(tree, nodes).contains(node) <==> tree.contains(node) || nodes.contains(node),
    decreases nodes.len(),
{
    if nodes.len() > 0 {
        let shorter = nodes.drop_last();
        let before = with_nodes(tree, shorter);
        let last = nodes.last();
        lemma_with_nodes(tree, shorter);
        let after = with_node(before, last);
        assert forall|node: usize| after.contains(node) <==> tree.contains(node) || nodes.contains(
            node,
        ) by {
            if after.contains(node) {
                let i = choose|i: int| 0 <= i < after.len() && after[i] == node;
                if i < before.len() {
                    assert(before.contains(node));
                    if shorter.contains(node) {
                        let j = choose|j: int| 0 <= j < shorter.len() && shorter[j] == node;
                        assert(nodes[j] == node);
                    }
                } else {
                    assert(nodes[nodes.len() - 1] == node);
                }
            }
            if tree.contains(node) {
                assert(before.contains(node));
                let i = choose|i: int| 0 <= i < before.len() && before[i] == node;
                assert(after[i] == node);
            }
            if nodes.contains(node) {
                let j = choose|j: int| 0 <= j < nodes.len() && nodes[j] == node;
                if j < shorter.len() {
                    assert(shorter[j] == node);
                    assert(before.contains(node));
                    let i = choose|i: int| 0 <= i < before.len() && before[i] == node;
                    assert(after[i] == node);
                } else {
                    if before.contains(node) {
                        let i = choose|i: int| 0 <= i < before.len() && before[i] == node;
                        assert(after[i] == node);
                    } else {
                        assert(after[before.len() as int] == node);
                    }
                }
            }
        }
    }
}

/// Whether every node of `tree` is one of the first `node_count` nodes.
pub open spec fn tree_within(tree: Seq<usize>, node_count: nat) -> bool {
    forall|i: int| 0 <= i < tree.len() ==> (#[trigger] tree[i]) < node_count
}

/// Whether every node of `tree` but the first, the source of its net, is one
/// that a walk can pass through.
pub open spec fn grown_through(edges: Seq<Edge>, tree: Seq<usize>) -> bool {
    forall|k: int| 1 <= k < tree.len() ==> passes(edges, (#[trigger] tree[k]) as int)
}

/// Whether a walk leads from `source` to `sink` over nodes of `within` alone.
pub open spec fn linked(edges: Seq<Edge>, within: Set<usize>, source: usize, sink: usize) -> bool {
    exists|route: Seq<usize>| #[trigger]
        is_walk(edges, route) && route[0] == source && route.last() == sink && forall|i: int|
            0 <= i < route.len() ==> within.contains(#[trigger] route[i])
}

/// A walk over nodes of a set is a walk over nodes of every set that holds
/// them.
pub proof fn lemma_linked_in_superset(
    edges: Seq<Edge>,
    within: Set<usize>,
    wider: Set<usize>,
    source: usize,
    sink: usize,
)
    requires
        linked(edges, within, source, sink),
        within.subset_of(wider),
    ensures
        linked(edges, wider, source, sink),
{
    let route = choose|route: Seq<usize>| #[trigger]
        is_walk(edges, route) && route[0] == source && route.last() == sink && forall|i: int|
            0 <= i < route.len() ==> within.contains(#[trigger] route[i]);
    assert forall|i: int| 0 <= i < route.len() implies wider.contains(#[trigger] route[i]) by {
        assert(within.contains(route[i]));
    }
}

/// Along a walk over nodes of `within` there is a path, edge by edge.
pub proof fn lemma_walk_has_path(
    edges: Seq<Edge>,
    within: Set<usize>,
    route: Seq<usize>,
    upto: int,
) -> (hops: Seq<int>)
    requires
        is_walk(edges, route),
        forall|i: int| 0 <= i < route.len() ==> within.contains(#[trigger] route[i]),
        0 <= upto < route.len(),
    ensures
        hops.len() == upto,
        is_path_within(edges, within, hops, route[0], route[upto]),
    decreases upto,
{
    if upto == 0 {
        Seq::empty()
    } else {
        let before = lemma_walk_has_path(edges, within, route, upto - 1);
        assert(has_edge(edges, route[upto - 1] as int, route[upto] as int));
        let k = choose|k: int|
            0 <= k < edges.len() && (#[trigger] edges[k]).source == route[upto - 1] as int
                && edges[k].target == route[upto] as int;
        let hops = before.push(k);
        assert forall|i: int| 0 <= i < hops.len() implies 0 <= (#[trigger] hops[i]) < edges.len()
            && within.contains(edges[hops[i]].target) by {
            if i < before.len() {
                assert(hops[i] == before[i]);
            }
        }
        assert forall|i: int| 0 <= i < hops.len() - 1 implies edges[#[trigger] hops[i]].target
            == edges[hops[i + 1]].source by {
            if i < before.len() - 1 {
                assert(hops[i] == before[i]);
                assert(hops[i + 1] == before[i + 1]);
            } else {
                assert(hops[i] == before[i]);
                assert(before.last() == before[i]);
            }
        }
        hops
    }
}

/// Where a walk leads from `source` to `sink` over nodes of `within`, a path
/// does, edge by edge.
pub proof fn lemma_linked_has_path(edges: Seq<Edge>, within: Set<usize>, source: usize, sink: usize)
    requires
        linked(edges, within, source, sink),
    ensures
        exists|hops: Seq<int>| #[trigger] is_path_within(edges, within, hops, source, sink),
{
    let route = choose|route: Seq<usize>| #[trigger]
        is_walk(edges, route) && route[0] == source && route.last() == sink && forall|i: int|
            0 <= i < route.len() ==> within.contains(#[trigger] route[i]);
    let hops = lemma_walk_has_path(edges, within, route, route.len() - 1);
    assert(is_path_within(edges, within, hops, source, sink));
}

/// The least weight of a path from `source` to `target` within `within`.
pub open spec fn tree_distance(edges: Seq<Edge>, within: Set<usize>, source: usize, target: usize) -> int {
    choose|distance: int| is_distance_within(edges, within, source, target, distance)
}

/// A least weight is the only one.
pub proof fn lemma_distance_is_unique(
    edges: Seq<Edge>,
    within: Set<usize>,
    source: usize,
    target: usize,
    distance: int,
    other: int,
)
    requires
        is_distance_within(edges, within, source, target, distance),
        other == tree_distance(edges, within, source, target),
    ensures
        distance == other,
{
    assert(is_distance_within(edges, within, source, target, other));
    let hops = choose|hops: Seq<int>| #[trigger]
        is_path_within(edges, within, hops, source, target) && path_weight(edges, hops)
            == distance;
    let others = choose|hops: Seq<int>| #[trigger]
        is_path_within(edges, within, hops, source, target) && path_weight(edges, hops)
            == other;
    assert(path_weight(edges, hops) >= other);
    assert(path_weight(edges, others) >= distance);
}

/// No path weighs less than nothing.
pub proof fn lemma_path_weight_is_not_negative(edges: Seq<Edge>, hops: Seq<int>)
    ensures
        path_weight(edges, hops) >= 0,
    decreases hops.len(),
{
    if hops.len() > 0 {
        lemma_path_weight_is_not_negative(edges, hops.drop_last());
    }
}

/// Where a path leads from `source` to `target` within `within`, there is a
/// least weight of such a path, and it is no more than the weight of that
/// path.
pub proof fn lemma_least_weight(
    edges: Seq<Edge>,
    within: Set<usize>,
    source: usize,
    target: usize,
    hops: Seq<int>,
)
    requires
        is_path_within(edges, within, hops, source, target),
    ensures
        is_distance_within(
            edges,
            within,
            source,
            target,
            tree_distance(edges, within, source, target),
        ),
        0 <= tree_distance(edges, within, source, target) <= path_weight(edges, hops),
    decreases path_weight(edges, hops),
{
    let weight = path_weight(edges, hops);
    lemma_path_weight_is_not_negative(edges, hops);
    if exists|lighter: Seq<int>| #[trigger]
        is_path_within(edges, within, lighter, source, target) && path_weight(edges, lighter)
            < weight {
        let lighter = choose|lighter: Seq<int>| #[trigger]
            is_path_within(edges, within, lighter, source, target) && path_weight(edges, lighter)
                < weight;
        lemma_path_weight_is_not_negative(edges, lighter);
        lemma_least_weight(edges, within, source, target, lighter);
    } else {
        assert(is_distance_within(edges, within, source, target, weight));
        lemma_distance_is_unique(
            edges,
            within,
            source,
            target,
            weight,
            tree_distance(edges, within, source, target),
        );
    }
}

/// The greatest distance within `within` from `source` to one of the first
/// `count` of `sinks`; 0 where there is none.
pub open spec fn longest(
    edges: Seq<Edge>,
    within: Set<usize>,
    source: usize,
    sinks: Seq<usize>,
    count: int,
) -> int
    decreases count,
{
    if count <= 0 {
        0
    } else {
        let rest = longest(edges, within, source, sinks, count - 1);
        let distance = tree_distance(edges, within, source, sinks[count - 1]);
        if distance > rest {
            distance
        } else {
            rest
        }
    }
}

/// Of two paths of the same number of edges, the one whose edges cost no
/// more, edge for edge, and one of them less, weighs less.
pub proof fn lemma_cheaper_edges_lighter_path(
    edges: Seq<Edge>,
    light: Seq<int>,
    heavy: Seq<int>,
    cheaper: int,
)
    requires
        light.len() == heavy.len(),
        forall|i: int|
            0 <= i < light.len() ==> 0 <= #[trigger] light[i] < edges.len() && 0 <= heavy[i]
                < edges.len() && edges[light[i]].weight <= edges[heavy[i]].weight,
        0 <= cheaper < light.len(),
        edges[light[cheaper]].weight < edges[heavy[cheaper]].weight,
    ensures
        path_weight(edges, light) < path_weight(edges, heavy),
    decreases light.len(),
{
    let last = light.len() - 1;
    if cheaper < last {
        assert forall|i: int| 0 <= i < light.drop_last().len() implies 0
            <= #[trigger] light.drop_last()[i] < edges.len() && 0 <= heavy.drop_last()[i]
            < edges.len() && edges[light.drop_last()[i]].weight
            <= edges[heavy.drop_last()[i]].weight by {
            assert(light.drop_last()[i] == light[i]);
        }
        lemma_cheaper_edges_lighter_path(edges, light.drop_last(), heavy.drop_last(), cheaper);
        assert(0 <= light[last] < edges.len());
    } else {
        lemma_no_dearer_edges_no_heavier_path(edges, light.drop_last(), heavy.drop_last());
    }
}

proof fn lemma_no_dearer_edges_no_heavier_path(edges: Seq<Edge>, light: Seq<int>, heavy: Seq<int>)
    requires
        light.len() == heavy.len(),
        forall|i: int|
            0 <= i < light.len() ==> 0 <= #[trigger] light[i] < edges.len() && 0 <= heavy[i]
                < edges.len() && edges[light[i]].weight <= edges[heavy[i]].weight,
    ensures
        path_weight(edges, light) <= path_weight(edges, heavy),
    decreases light.len(),
{
    if light.len() > 0 {
        let last = light.len() - 1;
        assert forall|i: int| 0 <= i < light.drop_last().len() implies 0
            <= #[trigger] light.drop_last()[i] < edges.len() && 0 <= heavy.drop_last()[i]
            < edges.len() && edges[light.drop_last()[i]].weight
            <= edges[heavy.drop_last()[i]].weight by {
            assert(light.drop_last()[i] == light[i]);
        }
        lemma_no_dearer_edges_no_heavier_path(edges, light.drop_last(), heavy.drop_last());
        assert(0 <= light[last] < edges.len());
    }
}

/// The nodes that one net occupies, in the order in which they were added,
/// none twice.
#[derive(Debug)]
pub struct RoutingTree {
    nodes: Vec<usize>,
    members: HashSet<usize>,
}

impl View for RoutingTree {
    type V = Seq<usize>;

    closed spec fn view(&self) -> Seq<usize> {
        self.nodes@
    }
}

impl RoutingTree {
    /// The tree holds no node twice.
    pub closed spec fn well_formed(&self) -> bool {
        self.nodes@.no_duplicates() && self.members@ == self.nodes@.to_set()
    }

    /// A well-formed tree holds no node twice.
    pub proof fn lemma_no_duplicates(&self)
        requires
            self.well_formed(),
        ensures
            self@.no_duplicates(),
    {
    }

    /// The tree of a net that is not routed yet: its source.
    pub fn new(source: usize) -> (tree: Self)
        ensures
            tree.well_formed(),
            tree@ == seq![source],
    {
        let mut nodes = Vec::new();
        nodes.push(source);
        let mut members = HashSet::new();
        members.insert(source);
        proof {
            assert(nodes@ == Seq::<usize>::empty().push(source));
            Seq::<usize>::empty().lemma_push_to_set_commute(source);
            assert(Seq::<usize>::empty().to_set() =~= Set::<usize>::empty());
        }
        RoutingTree { nodes, members }
    }

    /// Whether the tree holds `node`.
    pub fn contains(&self, node: usize) -> (r: bool)
        requires
            self.well_formed(),
        ensures
            r == self@.contains(node),
    {
        self.members.contains(&node)
    }

    /// Adds `node` to the tree, unless the tree holds it already.
    pub fn insert(&mut self, node: usize)
        requires
            old(self).well_formed(),
        ensures
            final(self).well_formed(),
            final(self)@ == with_node(old(self)@, node),
    {
        if !self.members.contains(&node) {
            proof {
                self.nodes@.lemma_push_to_set_commute(node);
            }
            self.nodes.push(node);
            self.members.insert(node);
        }
    }

    /// The nodes of the tree, in order.
    pub fn nodes(&self) -> (nodes: &Vec<usize>)
        ensures
            nodes@ == self@,
    {
        &self.nodes
    }

    /// The nodes of the tree, in order.
    pub fn into_nodes(self) -> (nodes: Vec<usize>)
        ensures
            nodes@ == self@,
    {
        self.nodes
    }

    /// Adds each of `nodes` to the tree, in order.
    pub fn absorb(&mut self, nodes: &Vec<usize>)
        requires
            old(self).well_formed(),
        ensures
            final(self).well_formed(),
            final(self)@ == with_nodes(old(self)@, nodes@),
    {
        let mut i: usize = 0;
        assert(nodes@.take(0) =~= Seq::<usize>::empty());
        while i < nodes.len()
            invariant
                i <= nodes@.len(),
                self.well_formed(),
                self@ == with_nodes(old(self)@, nodes@.take(i as int)),
            decreases nodes@.len() - i,
        {
            proof {
                assert(nodes@.take(i + 1).drop_last() =~= nodes@.take(i as int));
                assert(nodes@.take(i + 1).last() == nodes@[i as int]);
            }
            self.insert(nodes[i]);
            i += 1;
        }
        proof {
            assert(nodes@.take(i as int) =~= nodes@);
        }
    }

    /// The least weight of a path from `source` to the farthest of `sinks`,
    /// over nodes of the tree alone; 0 where there is no sink.
    pub fn longest_path(&self, graph: &RoutingGraph, source: usize, sinks: &Vec<usize>) -> (length:
        u64)
        requires
            self.well_formed(),
            source < routing_nodes(*graph).len(),
            self@.contains(source),
            forall|j: int|
                0 <= j < sinks@.len() ==> linked(
                    routing_edges(*graph),
                    self@.to_set(),
                    source,
                    #[trigger] sinks@[j],
                ),
        ensures
            length == longest(
                routing_edges(*graph),
                self@.to_set(),
                source,
                sinks@,
                sinks@.len() as int,
            ),
    {
        let ghost edges = routing_edges(*graph);
        let ghost within = self@.to_set();
        let distances = dijkstra_within(graph, &self.members, source);
        let mut length: u64 = 0;
        let mut j: usize = 0;
        while j < sinks.len()
            invariant
                j <= sinks@.len(),
                edges == routing_edges(*graph),
                within == self@.to_set(),
                are_distances_within(
                    edges,
                    routing_nodes(*graph).len(),
                    within,
                    source,
                    distances@,
                ),
                forall|k: int|
                    0 <= k < sinks@.len() ==> linked(edges, within, source, #[trigger] sinks@[k]),
                length == longest(edges, within, source, sinks@, j as int),
            decreases sinks@.len() - j,
        {
            let sink = sinks[j];
            let mut found: Option<u64> = None;
            let mut i: usize = 0;
            while i < distances.len() && found.is_none()
                invariant
                    i <= distances@.len(),
                    match found {
                        Some(distance) => exists|at: int|
                            0 <= at < distances@.len() && #[trigger] distances@[at] == (
                                sink,
                                distance,
                            ),
                        None => forall|at: int| 0 <= at < i ==> (#[trigger] distances@[at]).0 != sink,
                    },
                decreases distances@.len() - i + if found is None {
                    1int
                } else {
                    0int
                },
            {
                if distances[i].0 == sink {
                    found = Some(distances[i].1);
                } else {
                    i += 1;
                }
            }
            proof {
                assert(linked(edges, within, source, sinks@[j as int]));
                lemma_linked_has_path(edges, within, source, sink);
            }
            match found {
                Some(distance) => {
                    proof {
                        let at = choose|at: int|
                            0 <= at < distances@.len() && #[trigger] distances@[at] == (
                                sink,
                                distance,
                            );
                        assert(is_distance_within(
                            edges,
                            within,
                            source,
                            distances@[at].0,
                            distances@[at].1 as int,
                        ));
                        lemma_distance_is_unique(
                            edges,
                            within,
                            source,
                            sink,
                            distance as int,
                            tree_distance(edges, within, source, sink),
                        );
                    }
                    if distance > length {
                        length = distance;
                    }
                },
                None => {
                    proof {
                        let hops = choose|hops: Seq<int>| #[trigger]
                            is_path_within(edges, within, hops, source, sink);
                        let at = choose|at: int|
                            0 <= at < distances@.len() && (#[trigger] distances@[at]).0 == sink;
                        assert(false);
                    }
                },
            }
            j += 1;
        }
        length
    }

    /// Adds the nodes of `route` between its first and its last to the tree.
    pub fn absorb_route(&mut self, route: &Vec<usize>)
        requires
            old(self).well_formed(),
        ensures
            final(self).well_formed(),
            final(self)@ == with_nodes(old(self)@, interior(route@)),
    {
        if route.len() <= 2 {
            return ;
        }
        let ghost inner = interior(route@);
        let mut i: usize = 1;
        assert(inner.take(0) =~= Seq::<usize>::empty());
        while i < route.len() - 1
            invariant
                route@.len() > 2,
                1 <= i <= route@.len() - 1,
                inner == interior(route@),
                self.well_formed(),
                self@ == with_nodes(old(self)@, inner.take(i - 1)),
            decreases route@.len() - i,
        {
            proof {
                assert(inner.take(i as int).drop_last() =~= inner.take(i - 1));
                assert(inner.take(i as int).last() == route@[i as int]);
            }
            self.insert(route[i]);
            i += 1;
        }
        proof {
            assert(inner.take(i - 1) =~= inner);
        }
    }
}

} // verus!
