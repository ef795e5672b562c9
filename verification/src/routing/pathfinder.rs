//! The Pathfinder router: every net is routed over the cheapest nodes, and
//! nodes that several nets want grow dearer from one round to the next, until
//! no node is shared or the rounds are used up.

use vstd::prelude::*;
use crate::routing::costs::{
    congestion, converged, costs_at_most, costs_bounded, is_converged, lemma_costs_bounded,
    lemma_occupancy_of_first, lemma_shared_node_is_overused, occupancy, occupy, occupy_nodes, raise, raise_history,
    spec_congestion, untried, unused, CARRIED_LIMIT, HISTORY_LIMIT,
};
use crate::routing::graph::{
    astar, astar_route, has_edge, is_distance_within, is_path_within, is_walk, node_count, passes,
    path_weight, reaches, routing_edges, routing_nodes, Edge, RoutingGraph,
};
use crate::routing::netlist::RoutingNetList;
use crate::routing::topology::DeviceTopology;
use crate::routing::tree::{
    grown_through, interior, lemma_cheaper_edges_lighter_path, lemma_distance_is_unique, lemma_least_weight,
    lemma_linked_in_superset, lemma_with_nodes, linked, longest, tree_distance, tree_within,
    with_nodes, RoutingTree,
};
use crate::routing::wave::{lemma_bounded_set, wave_reaches};

verus! {

/// A sink that no route can reach from its source.
#[derive(Debug, Clone, Copy, PartialEq, Eq, Structural)]
pub struct Unreachable {
    pub source: usize,
    pub sink: usize,
}

/// The tree of a net after `sink` has been connected to it: the tree with
/// the interior of the route that `astar_route` names. There is none where
/// no walk leads from the tree to the sink, or where no route is found.
pub open spec fn connect_sink(
    graph: RoutingGraph,
    topology: DeviceTopology,
    history: Seq<u64>,
    present: Seq<u64>,
    source: usize,
    tree: Seq<usize>,
    sink: usize,
) -> Option<Seq<usize>> {
    if !reaches(routing_edges(graph), tree.to_set(), sink) {
        None
    } else {
        match astar_route(graph, topology, history, present, source as int, sink as int) {
            Some(route) => Some(with_nodes(tree, interior(route))),
            None => None,
        }
    }
}

/// Connects `sink` to the tree of the net that `source` drives: a wave from
/// the tree looks for the sink, and where it meets it, the interior of the
/// cheapest route from the source is added to the tree. Says whether the
/// sink was connected; the tree is unchanged where it was not.
pub fn connect(
    graph: &RoutingGraph,
    topology: &DeviceTopology,
    history: &Vec<u64>,
    present: &Vec<u64>,
    source: usize,
    tree: &mut RoutingTree,
    sink: usize,
) -> (connected: bool)
    requires
        history@.len() == routing_nodes(*graph).len(),
        present@.len() == routing_nodes(*graph).len(),
        costs_bounded(history@, present@),
        old(tree).well_formed(),
        tree_within(old(tree)@, routing_nodes(*graph).len()),
        old(tree)@.contains(source),
        source < routing_nodes(*graph).len(),
        sink < routing_nodes(*graph).len(),
    ensures
        final(tree).well_formed(),
        tree_within(final(tree)@, routing_nodes(*graph).len()),
        old(tree)@.is_prefix_of(final(tree)@),
        match connect_sink(*graph, *topology, history@, present@, source, old(tree)@, sink) {
            Some(grown) => connected && final(tree)@ == grown,
            None => !connected && final(tree)@ == old(tree)@,
        },
        connected ==> linked(routing_edges(*graph), final(tree)@.to_set().insert(sink), source, sink),
        connected == reaches(routing_edges(*graph), set![source], sink),
        forall|k: int|
            old(tree)@.len() <= k < final(tree)@.len() ==> passes(
                routing_edges(*graph),
                (#[trigger] final(tree)@[k]) as int,
            ),
{
    proof {
        tree.lemma_no_duplicates();
        if reaches(routing_edges(*graph), set![source], sink) {
            let walk = choose|walk: Seq<usize>| #[trigger]
                is_walk(routing_edges(*graph), walk) && set![source].contains(walk[0])
                    && walk.last() == sink;
            assert(tree@.to_set().contains(walk[0]));
            assert(reaches(routing_edges(*graph), tree@.to_set(), sink));
        }
    }
    if !wave_reaches(graph, history, present, tree.nodes(), sink) {
        return false;
    }
    match astar(graph, topology, history, present, source, sink) {
        None => false,
        Some(route) => {
            let ghost before = tree@;
            tree.absorb_route(&route);
            proof {
                assert(is_walk(routing_edges(*graph), route@) && set![source].contains(route@[0])
                    && route@.last() == sink);
                tree.lemma_no_duplicates();
                lemma_with_nodes(before, interior(route@));
                let within = tree@.to_set().insert(sink);
                assert forall|i: int| 0 <= i < route@.len() implies within.contains(
                    #[trigger] route@[i],
                ) by {
                    if 0 < i < route@.len() - 1 {
                        assert(interior(route@)[i - 1] == route@[i]);
                        assert(interior(route@).contains(route@[i]));
                    }
                }
                assert forall|k: int| before.len() <= k < tree@.len() implies passes(
                    routing_edges(*graph),
                    (#[trigger] tree@[k]) as int,
                ) by {
                    let edges = routing_edges(*graph);
                    assert(tree@.contains(tree@[k]));
                    if before.contains(tree@[k]) {
                        let j = choose|j: int| 0 <= j < before.len() && before[j] == tree@[k];
                        assert(tree@[j] == before[j]);
                    }
                    let j = choose|j: int|
                        0 <= j < interior(route@).len() && interior(route@)[j] == tree@[k];
                    assert(route@[j + 1] == tree@[k]);
                    assert(has_edge(edges, route@[j] as int, route@[j + 1] as int));
                    assert(has_edge(edges, route@[j + 1] as int, route@[j + 2] as int));
                }
                assert forall|i: int| 0 <= i < tree@.len() implies (#[trigger] tree@[i])
                    < routing_nodes(*graph).len() by {
                    assert(tree@.contains(tree@[i]));
                    if interior(route@).contains(tree@[i]) {
                        let j = choose|j: int|
                            0 <= j < interior(route@).len() && interior(route@)[j] == tree@[i];
                        assert(route@[j + 1] == tree@[i]);
                    } else {
                        let j = choose|j: int| 0 <= j < before.len() && before[j] == tree@[i];
                    }
                }
            }
            true
        },
    }
}

/// The first of the first `count` of `sinks` to which no walk leads from
/// `source`.
pub open spec fn first_unreached(edges: Seq<Edge>, source: usize, sinks: Seq<usize>, count: int) -> Option<
    usize,
>
    decreases count,
{
    if count <= 0 {
        None
    } else {
        match first_unreached(edges, source, sinks, count - 1) {
            Some(sink) => Some(sink),
            None => if reaches(edges, set![source], sinks[count - 1]) {
                None
            } else {
                Some(sinks[count - 1])
            },
        }
    }
}

/// The first sink, among those of the first `count` of `nets` in their
/// order, to which no walk leads from the source of its net.
pub open spec fn first_unreachable(edges: Seq<Edge>, nets: Seq<(usize, Seq<usize>)>, count: int) -> Option<
    Unreachable,
>
    decreases count,
{
    if count <= 0 {
        None
    } else {
        match first_unreachable(edges, nets, count - 1) {
            Some(unreachable) => Some(unreachable),
            None => match first_unreached(
                edges,
                nets[count - 1].0,
                nets[count - 1].1,
                nets[count - 1].1.len() as int,
            ) {
                Some(sink) => Some(Unreachable { source: nets[count - 1].0, sink }),
                None => None,
            },
        }
    }
}

/// The first sink that cannot be reached stays the first, whatever sinks
/// follow.
pub proof fn lemma_first_unreached_stays(
    edges: Seq<Edge>,
    source: usize,
    sinks: Seq<usize>,
    failed: int,
    count: int,
)
    requires
        failed <= count,
        first_unreached(edges, source, sinks, failed) is Some,
    ensures
        first_unreached(edges, source, sinks, count) == first_unreached(edges, source, sinks, failed),
    decreases count - failed,
{
    if failed < count {
        lemma_first_unreached_stays(edges, source, sinks, failed, count - 1);
    }
}

/// The first sink that cannot be reached stays the first, whatever nets
/// follow.
pub proof fn lemma_first_unreachable_stays(
    edges: Seq<Edge>,
    nets: Seq<(usize, Seq<usize>)>,
    failed: int,
    count: int,
)
    requires
        failed <= count,
        first_unreachable(edges, nets, failed) is Some,
    ensures
        first_unreachable(edges, nets, count) == first_unreachable(edges, nets, failed),
    decreases count - failed,
{
    if failed < count {
        lemma_first_unreachable_stays(edges, nets, failed, count - 1);
    }
}

/// The tree of the net that `source` drives after the first `count` of
/// `sinks` have been connected, in their order; or the first sink that could
/// not be connected.
pub open spec fn spec_route_net(
    graph: RoutingGraph,
    topology: DeviceTopology,
    history: Seq<u64>,
    present: Seq<u64>,
    source: usize,
    sinks: Seq<usize>,
    count: int,
) -> Result<Seq<usize>, Unreachable>
    decreases count,
{
    if count <= 0 {
        Ok(seq![source])
    } else {
        match spec_route_net(graph, topology, history, present, source, sinks, count - 1) {
            Err(unreachable) => Err(unreachable),
            Ok(tree) => match connect_sink(
                graph,
                topology,
                history,
                present,
                source,
                tree,
                sinks[count - 1],
            ) {
                Some(grown) => Ok(grown),
                None => Err(Unreachable { source, sink: sinks[count - 1] }),
            },
        }
    }
}

/// Routes one net: beginning with the source alone, connects each sink in
/// turn to the tree grown so far.
pub fn route_net(
    graph: &RoutingGraph,
    topology: &DeviceTopology,
    history: &Vec<u64>,
    present: &Vec<u64>,
    source: usize,
    sinks: &Vec<usize>,
) -> (routed: Result<RoutingTree, Unreachable>)
    requires
        history@.len() == routing_nodes(*graph).len(),
        present@.len() == routing_nodes(*graph).len(),
        costs_bounded(history@, present@),
        source < routing_nodes(*graph).len(),
        tree_within(sinks@, routing_nodes(*graph).len()),
    ensures
        match spec_route_net(*graph, *topology, history@, present@, source, sinks@, sinks@.len() as int) {
            Ok(grown) => routed matches Ok(tree) && tree@ == grown && tree.well_formed()
                && tree_within(tree@, routing_nodes(*graph).len()) && tree@.len() > 0 && tree@[0]
                == source && grown_through(routing_edges(*graph), tree@) && forall|j: int|
                0 <= j < sinks@.len() ==> linked(
                    routing_edges(*graph),
                    tree@.to_set().insert(#[trigger] sinks@[j]),
                    source,
                    sinks@[j],
                ),
            Err(unreachable) => routed matches Err(reported) && reported == unreachable,
        },
        match first_unreached(routing_edges(*graph), source, sinks@, sinks@.len() as int) {
            Some(sink) => routed matches Err(reported) && reported == (Unreachable { source, sink }),
            None => routed is Ok,
        },
{
    let ghost edges = routing_edges(*graph);
    let mut tree = RoutingTree::new(source);
    let mut k: usize = 0;
    while k < sinks.len()
        invariant
            k <= sinks@.len(),
            edges == routing_edges(*graph),
            history@.len() == routing_nodes(*graph).len(),
            present@.len() == routing_nodes(*graph).len(),
            costs_bounded(history@, present@),
            source < routing_nodes(*graph).len(),
            tree_within(sinks@, routing_nodes(*graph).len()),
            tree.well_formed(),
            tree_within(tree@, routing_nodes(*graph).len()),
            tree@.len() > 0,
            tree@[0] == source,
            grown_through(edges, tree@),
            spec_route_net(*graph, *topology, history@, present@, source, sinks@, k as int) == Ok::<
                Seq<usize>,
                Unreachable,
            >(tree@),
            first_unreached(edges, source, sinks@, k as int) is None,
            forall|j: int|
                0 <= j < k ==> linked(
                    edges,
                    tree@.to_set().insert(#[trigger] sinks@[j]),
                    source,
                    sinks@[j],
                ),
        decreases sinks@.len() - k,
    {
        let sink = sinks[k];
        let ghost before = tree@;
        if !connect(graph, topology, history, present, source, &mut tree, sink) {
            proof {
                lemma_route_net_fails_on(*graph, *topology, history@, present@, source, sinks@, k + 1, sinks@.len() as int);
                lemma_first_unreached_stays(edges, source, sinks@, k + 1, sinks@.len() as int);
            }
            return Err(Unreachable { source, sink });
        }
        proof {
            assert forall|at: int| 1 <= at < tree@.len() implies passes(
                edges,
                (#[trigger] tree@[at]) as int,
            ) by {
                if at < before.len() {
                    assert(tree@[at] == before[at]);
                }
            }
            assert forall|j: int| 0 <= j < k + 1 implies linked(
                edges,
                tree@.to_set().insert(#[trigger] sinks@[j]),
                source,
                sinks@[j],
            ) by {
                if j < k {
                    assert forall|node: usize| before.to_set().contains(node) implies tree@.to_set().contains(node) by {
                        let i = choose|i: int| 0 <= i < before.len() && before[i] == node;
                        assert(tree@[i] == node);
                    }
                    lemma_linked_in_superset(
                        edges,
                        before.to_set().insert(sinks@[j]),
                        tree@.to_set().insert(sinks@[j]),
                        source,
                        sinks@[j],
                    );
                }
            }
        }
        k += 1;
    }
    Ok(tree)
}

/// Once a sink cannot be connected, the net stays unrouted whatever sinks
/// follow.
pub proof fn lemma_route_net_fails_on(
    graph: RoutingGraph,
    topology: DeviceTopology,
    history: Seq<u64>,
    present: Seq<u64>,
    source: usize,
    sinks: Seq<usize>,
    failed: int,
    count: int,
)
    requires
        0 < failed <= count,
        spec_route_net(graph, topology, history, present, source, sinks, failed) is Err,
    ensures
        spec_route_net(graph, topology, history, present, source, sinks, count) == spec_route_net(
            graph,
            topology,
            history,
            present,
            source,
            sinks,
            failed,
        ),
    decreases count - failed,
{
    if failed < count {
        lemma_route_net_fails_on(graph, topology, history, present, source, sinks, failed, count - 1);
    }
}

/// The trees of the first `count` of `nets` after one round in which they are
/// routed in order, with the present use costs that the round leaves; or the
/// first sink that could not be connected. The present use cost of a node is
/// one more than the number of trees that hold it.
pub open spec fn spec_route_round(
    graph: RoutingGraph,
    topology: DeviceTopology,
    history: Seq<u64>,
    nets: Seq<(usize, Seq<usize>)>,
    count: int,
) -> Result<(Seq<Seq<usize>>, Seq<u64>), Unreachable>
    decreases count,
{
    if count <= 0 {
        Ok((Seq::empty(), unused(history.len())))
    } else {
        match spec_route_round(graph, topology, history, nets, count - 1) {
            Err(unreachable) => Err(unreachable),
            Ok((trees, present)) => match spec_route_net(
                graph,
                topology,
                history,
                present,
                nets[count - 1].0,
                nets[count - 1].1,
                nets[count - 1].1.len() as int,
            ) {
                Err(unreachable) => Err(unreachable),
                Ok(tree) => Ok((trees.push(tree), occupy(present, tree))),
            },
        }
    }
}

/// Once a net cannot be routed, the round fails with that net however many
/// nets follow.
pub proof fn lemma_route_round_fails_on(
    graph: RoutingGraph,
    topology: DeviceTopology,
    history: Seq<u64>,
    nets: Seq<(usize, Seq<usize>)>,
    failed: int,
    count: int,
)
    requires
        0 < failed <= count,
        spec_route_round(graph, topology, history, nets, failed) is Err,
    ensures
        spec_route_round(graph, topology, history, nets, count) == spec_route_round(
            graph,
            topology,
            history,
            nets,
            failed,
        ),
    decreases count - failed,
{
    if failed < count {
        lemma_route_round_fails_on(graph, topology, history, nets, failed, count - 1);
    }
}

/// The present use costs that a round leaves count the trees: the cost of a
/// node is one more than the number of trees of the round that hold it.
pub proof fn lemma_round_counts_the_trees(
    graph: RoutingGraph,
    topology: DeviceTopology,
    history: Seq<u64>,
    nets: Seq<(usize, Seq<usize>)>,
    count: int,
)
    requires
        0 <= count,
        spec_route_round(graph, topology, history, nets, count) is Ok,
    ensures
        ({
            let (trees, present) = spec_route_round(graph, topology, history, nets, count).unwrap();
            trees.len() == count && present == occupancy(history.len(), trees, count)
        }),
    decreases count,
{
    if count > 0 {
        lemma_round_counts_the_trees(graph, topology, history, nets, count - 1);
        let (before, _) = spec_route_round(graph, topology, history, nets, count - 1).unwrap();
        let (trees, _) = spec_route_round(graph, topology, history, nets, count).unwrap();
        lemma_occupancy_of_first(history.len(), trees, before, count - 1);
    }
}

/// The nodes of each of `trees`, in order.
pub open spec fn tree_views(trees: Seq<RoutingTree>) -> Seq<Seq<usize>> {
    Seq::new(trees.len(), |i: int| trees[i]@)
}

/// Whether tree number `i` belongs to net number `i`: it begins with the
/// net's source, holds no node twice and none outside the graph, a walk can
/// pass through each of its other nodes, and for each sink of the net a walk
/// leads from the source to the sink over nodes of the tree.
pub open spec fn trees_route(
    edges: Seq<Edge>,
    node_count: nat,
    nets: Seq<(usize, Seq<usize>)>,
    trees: Seq<RoutingTree>,
) -> bool {
    forall|i: int|
        0 <= i < trees.len() ==> {
            let tree = #[trigger] trees[i];
            &&& tree.well_formed()
            &&& tree_within(tree@, node_count)
            &&& tree@.len() > 0
            &&& tree@[0] == nets[i].0
            &&& grown_through(edges, tree@)
            &&& forall|j: int|
                0 <= j < nets[i].1.len() ==> linked(
                    edges,
                    tree@.to_set().insert(#[trigger] nets[i].1[j]),
                    nets[i].0,
                    nets[i].1[j],
                )
        }
}

/// A well-formed netlist over `node_count` nodes has at most that many nets.
pub proof fn lemma_net_count(nets: &RoutingNetList, node_count: nat)
    requires
        nets.well_formed(),
        nets.within(node_count),
        node_count <= usize::MAX,
    ensures
        nets@.len() <= node_count,
{
    let sources = nets.sources();
    sources.unique_seq_to_set();
    assert forall|x: usize| sources.to_set().contains(x) implies x < node_count by {
        let i = choose|i: int| 0 <= i < sources.len() && sources[i] == x;
        assert(nets.nets()[i].source == x);
    }
    lemma_bounded_set(sources.to_set(), node_count);
}

/// One round of routing: with every node unused at first, routes the nets in
/// order, each over the costs that the nets before it have left. Returns the
/// trees and the present use costs after the last net.
pub fn route_round(
    graph: &RoutingGraph,
    topology: &DeviceTopology,
    history: &Vec<u64>,
    nets: &RoutingNetList,
) -> (round: Result<(Vec<RoutingTree>, Vec<u64>), Unreachable>)
    requires
        history@.len() == routing_nodes(*graph).len(),
        costs_at_most(history@, HISTORY_LIMIT as int),
        nets.well_formed(),
        nets.within(routing_nodes(*graph).len()),
    ensures
        match spec_route_round(*graph, *topology, history@, nets@, nets@.len() as int) {
            Ok((trees, present)) => round matches Ok((grown, used)) && tree_views(grown@) == trees
                && grown@.len() == nets@.len() && used@ == present && used@.len() == history@.len() && costs_at_most(
                used@,
                nets@.len() as int + 1,
            ) && trees_route(routing_edges(*graph), routing_nodes(*graph).len(), nets@, grown@),
            Err(unreachable) => round matches Err(reported) && reported == unreachable,
        },
        match first_unreachable(routing_edges(*graph), nets@, nets@.len() as int) {
            Some(unreachable) => round matches Err(reported) && reported == unreachable,
            None => round is Ok,
        },
{
    let n = node_count(graph);
    let ghost edges = routing_edges(*graph);
    proof {
        lemma_net_count(nets, n as nat);
    }
    let mut present: Vec<u64> = Vec::new();
    while present.len() < n
        invariant
            present@.len() <= n,
            forall|node: int| 0 <= node < present@.len() ==> present@[node] == 1,
        decreases n - present@.len(),
    {
        present.push(1);
    }
    assert(present@ =~= unused(n as nat));
    let mut trees: Vec<RoutingTree> = Vec::new();
    assert(tree_views(trees@) =~= Seq::<Seq<usize>>::empty());
    let mut k: usize = 0;
    while k < nets.len()
        invariant
            k <= nets@.len() <= n,
            n == routing_nodes(*graph).len(),
            n <= u32::MAX,
            edges == routing_edges(*graph),
            history@.len() == n,
            costs_at_most(history@, HISTORY_LIMIT as int),
            nets.well_formed(),
            nets.within(n as nat),
            trees@.len() == k,
            present@.len() == n,
            costs_at_most(present@, k as int + 1),
            spec_route_round(*graph, *topology, history@, nets@, k as int) == Ok::<
                (Seq<Seq<usize>>, Seq<u64>),
                Unreachable,
            >((tree_views(trees@), present@)),
            first_unreachable(edges, nets@, k as int) is None,
            trees_route(edges, n as nat, nets@, trees@),
        decreases nets@.len() - k,
    {
        let net = nets.net(k);
        proof {
            lemma_costs_bounded(history@, present@);
            assert(nets@[k as int] == (net.source, net.sinks@));
            assert(nets.nets()[k as int].source < n);
            assert forall|j: int| 0 <= j < net.sinks@.len() implies (#[trigger] net.sinks@[j])
                < n by {
                assert(nets.sinks(k as int)[j] < n);
            }
        }
        match route_net(graph, topology, history, &present, net.source, &net.sinks) {
            Err(unreachable) => {
                proof {
                    lemma_route_round_fails_on(
                        *graph,
                        *topology,
                        history@,
                        nets@,
                        k + 1,
                        nets@.len() as int,
                    );
                    lemma_first_unreachable_stays(edges, nets@, k + 1, nets@.len() as int);
                }
                return Err(unreachable);
            },
            Ok(tree) => {
                let ghost before = trees@;
                let ghost costs = present@;
                proof {
                    tree.lemma_no_duplicates();
                }
                occupy_nodes(&mut present, tree.nodes());
                trees.push(tree);
                proof {
                    assert(tree_views(trees@) =~= tree_views(before).push(tree@));
                    assert forall|i: int| 0 <= i < trees@.len() implies {
                        let grown = #[trigger] trees@[i];
                        &&& grown.well_formed()
                        &&& tree_within(grown@, n as nat)
                        &&& grown@.len() > 0
                        &&& grown@[0] == nets@[i].0
                        &&& grown_through(edges, grown@)
                        &&& forall|j: int|
                            0 <= j < nets@[i].1.len() ==> linked(
                                edges,
                                grown@.to_set().insert(#[trigger] nets@[i].1[j]),
                                nets@[i].0,
                                nets@[i].1[j],
                            )
                    } by {
                        if i < k {
                            assert(trees@[i] == before[i]);
                        }
                    }
                }
            },
        }
        k += 1;
    }
    Ok((trees, present))
}

/// How the rounds of routing end: with trees that share no node, or, when
/// the rounds are used up, with the congestion that the last round left.
pub enum Settlement {
    Settled(Seq<Seq<usize>>),
    Congested(int),
}

/// The outcome of the rounds from round number `rounds` on, with the
/// historical use costs `history` at its start. A round routes every net; if
/// it leaves no node shared, its trees stand. Otherwise the historical use
/// cost of every node is raised by its present use cost and the next round
/// begins, unless `max_rounds` rounds have then been made.
pub open spec fn negotiate(
    graph: RoutingGraph,
    topology: DeviceTopology,
    nets: Seq<(usize, Seq<usize>)>,
    history: Seq<u64>,
    rounds: int,
    max_rounds: int,
) -> Result<Settlement, Unreachable>
    decreases max_rounds - rounds,
{
    match spec_route_round(graph, topology, history, nets, nets.len() as int) {
        Err(unreachable) => Err(unreachable),
        Ok((trees, present)) => if converged(present) {
            Ok(Settlement::Settled(trees))
        } else if rounds + 1 >= max_rounds {
            Ok(Settlement::Congested(spec_congestion(present, present.len() as int)))
        } else {
            negotiate(graph, topology, nets, raise(history, present), rounds + 1, max_rounds)
        },
    }
}

/// The historical use costs that the rounds from round number `rounds` on
/// leave, with the costs `history` at its start: every round that routes
/// every net raises the cost of every node by its present use cost.
pub open spec fn history_after(
    graph: RoutingGraph,
    topology: DeviceTopology,
    nets: Seq<(usize, Seq<usize>)>,
    history: Seq<u64>,
    rounds: int,
    max_rounds: int,
) -> Seq<u64>
    decreases max_rounds - rounds,
{
    match spec_route_round(graph, topology, history, nets, nets.len() as int) {
        Err(_) => history,
        Ok((_, present)) => if converged(present) || rounds + 1 >= max_rounds {
            raise(history, present)
        } else {
            history_after(graph, topology, nets, raise(history, present), rounds + 1, max_rounds)
        },
    }
}

/// Trees stand only where the round that grew them left no node shared:
/// no node is held by two of them, so that the present use cost of every
/// node, one more than the number of trees that hold it, is 2 at most.
pub proof fn lemma_settled_trees_share_no_node(
    graph: RoutingGraph,
    topology: DeviceTopology,
    nets: Seq<(usize, Seq<usize>)>,
    history: Seq<u64>,
    rounds: int,
    max_rounds: int,
)
    requires
        negotiate(graph, topology, nets, history, rounds, max_rounds) matches Ok(
            Settlement::Settled(_),
        ),
    ensures
        negotiate(graph, topology, nets, history, rounds, max_rounds) matches Ok(
            Settlement::Settled(trees),
        ) && trees.len() == nets.len() && converged(
            occupancy(history.len(), trees, nets.len() as int),
        ),
    decreases max_rounds - rounds,
{
    lemma_round_counts_the_trees(graph, topology, history, nets, nets.len() as int);
    let (_, present) = spec_route_round(graph, topology, history, nets, nets.len() as int).unwrap();
    if !converged(present) && rounds + 1 < max_rounds {
        lemma_settled_trees_share_no_node(
            graph,
            topology,
            nets,
            raise(history, present),
            rounds + 1,
            max_rounds,
        );
    }
}

/// The route of each net: its tree, with the sinks of the net added.
pub open spec fn routes_of(nets: Seq<(usize, Seq<usize>)>, trees: Seq<Seq<usize>>) -> Seq<
    Seq<usize>,
> {
    Seq::new(trees.len(), |i: int| with_nodes(trees[i], nets[i].1))
}

/// The sum, over the first `count` nets, of the distance from the source of
/// the net to its farthest sink, within the route of the net.
pub open spec fn total_length(
    edges: Seq<Edge>,
    nets: Seq<(usize, Seq<usize>)>,
    routes: Seq<Seq<usize>>,
    count: int,
) -> int
    decreases count,
{
    if count <= 0 {
        0
    } else {
        total_length(edges, nets, routes, count - 1) + longest(
            edges,
            routes[count - 1].to_set(),
            nets[count - 1].0,
            nets[count - 1].1,
            nets[count - 1].1.len() as int,
        )
    }
}

/// Of two routes of one net with one sink, the one that leads over cheaper
/// edges scores lower: where a path through the one costs no more, edge for
/// edge, than the shortest path through the other, and one of its edges
/// costs less, the length of the one is less than that of the other.
pub proof fn lemma_cheaper_route_scores_lower(
    edges: Seq<Edge>,
    source: usize,
    sink: usize,
    light_route: Seq<usize>,
    heavy_route: Seq<usize>,
    light: Seq<int>,
    heavy: Seq<int>,
    cheaper: int,
)
    requires
        is_path_within(edges, light_route.to_set(), light, source, sink),
        is_distance_within(
            edges,
            heavy_route.to_set(),
            source,
            sink,
            path_weight(edges, heavy),
        ),
        light.len() == heavy.len(),
        forall|i: int|
            0 <= i < light.len() ==> 0 <= #[trigger] light[i] < edges.len() && 0 <= heavy[i]
                < edges.len() && edges[light[i]].weight <= edges[heavy[i]].weight,
        0 <= cheaper < light.len(),
        edges[light[cheaper]].weight < edges[heavy[cheaper]].weight,
    ensures
        total_length(edges, seq![(source, seq![sink])], seq![light_route], 1) < total_length(
            edges,
            seq![(source, seq![sink])],
            seq![heavy_route],
            1,
        ),
{
    let nets = seq![(source, seq![sink])];
    lemma_cheaper_edges_lighter_path(edges, light, heavy, cheaper);
    lemma_least_weight(edges, light_route.to_set(), source, sink, light);
    lemma_distance_is_unique(
        edges,
        heavy_route.to_set(),
        source,
        sink,
        path_weight(edges, heavy),
        tree_distance(edges, heavy_route.to_set(), source, sink),
    );
    assert(total_length(edges, nets, seq![light_route], 0) == 0);
    assert(total_length(edges, nets, seq![heavy_route], 0) == 0);
    assert(longest(edges, light_route.to_set(), source, seq![sink], 0) == 0);
    assert(longest(edges, heavy_route.to_set(), source, seq![sink], 0) == 0);
    assert(longest(edges, light_route.to_set(), source, seq![sink], 1) == tree_distance(
        edges,
        light_route.to_set(),
        source,
        sink,
    ) || longest(edges, light_route.to_set(), source, seq![sink], 1) == 0);
    assert(longest(edges, heavy_route.to_set(), source, seq![sink], 1) == tree_distance(
        edges,
        heavy_route.to_set(),
        source,
        sink,
    ));
}

/// What the router finds: the routes of the nets with the sum of their
/// lengths, or the congestion that is left.
pub enum Verdict {
    Routed { total: int, routes: Seq<Seq<usize>> },
    NotRouted { congestion: int },
}

/// The verdict on trees that share no node: the nets are routed over the
/// trees and their sinks, unless two of these routes share a node; then
/// the design is not routed, and the congestion is that of the routes.
pub open spec fn verdict_on(
    graph: RoutingGraph,
    nets: Seq<(usize, Seq<usize>)>,
    trees: Seq<Seq<usize>>,
) -> Verdict {
    let routes = routes_of(nets, trees);
    let used = occupancy(routing_nodes(graph).len(), routes, routes.len() as int);
    if converged(used) {
        Verdict::Routed {
            total: total_length(routing_edges(graph), nets, routes, routes.len() as int),
            routes,
        }
    } else {
        Verdict::NotRouted { congestion: spec_congestion(used, used.len() as int) }
    }
}

/// What the router finds for a graph, a netlist and a number of rounds when
/// it begins with the historical use costs `history`.
pub open spec fn spec_pathfinder_from(
    graph: RoutingGraph,
    topology: DeviceTopology,
    nets: Seq<(usize, Seq<usize>)>,
    history: Seq<u64>,
    max_rounds: int,
) -> Result<Verdict, Unreachable> {
    match negotiate(graph, topology, nets, history, 0, max_rounds) {
        Err(unreachable) => Err(unreachable),
        Ok(Settlement::Congested(congestion)) => Ok(Verdict::NotRouted { congestion }),
        Ok(Settlement::Settled(trees)) => Ok(verdict_on(graph, nets, trees)),
    }
}

/// What `pathfinder` returns for a graph, a netlist and a number of rounds:
/// what the router finds when no node has been used yet.
pub open spec fn spec_pathfinder(
    graph: RoutingGraph,
    topology: DeviceTopology,
    nets: Seq<(usize, Seq<usize>)>,
    max_rounds: int,
) -> Result<Verdict, Unreachable> {
    spec_pathfinder_from(graph, topology, nets, untried(routing_nodes(graph).len()), max_rounds)
}

/// The quality of a routed netlist: the mean, over the nets, of the distance
/// from the source of a net to its farthest sink. It is kept as the sum
/// `total` over `nets` nets; the mean of no net is 0. Lower is better.
#[derive(Debug, Clone, Copy, PartialEq, Eq, Structural)]
pub struct NetListScore {
    pub total: u128,
    pub nets: usize,
}

/// The router's verdict.
#[derive(Debug)]
pub enum PathfinderResult {
    /// Every net is routed and no two routes share a node. The netlist
    /// gives, for each source, the nodes of its route, the source and the
    /// sinks among them.
    Routed { score: NetListScore, netlist: RoutingNetList },
    /// The rounds were used up, or two routes share a node: `congestion`
    /// counts, for each node, the nets that use it beyond the first.
    NotRouted { congestion: u64 },
}

impl PathfinderResult {
    /// Whether this is `verdict` on the nets whose sources are `sources`.
    pub open spec fn describes(&self, sources: Seq<usize>, verdict: Verdict) -> bool {
        match (*self, verdict) {
            (PathfinderResult::Routed { score, netlist }, Verdict::Routed { total, routes }) => {
                &&& score.total == total
                &&& score.nets == sources.len()
                &&& netlist.well_formed()
                &&& netlist@.len() == sources.len()
                &&& routes.len() == sources.len()
                &&& forall|i: int|
                    0 <= i < sources.len() ==> #[trigger] netlist@[i] == (sources[i], routes[i])
            },
            (PathfinderResult::NotRouted { congestion }, Verdict::NotRouted { congestion: left }) =>
                congestion == left,
            _ => false,
        }
    }

    /// Whether the routes are routes of `nets` over a graph of `node_count`
    /// nodes with `edges`: every route holds only nodes of the graph, among
    /// them the source and the sinks of its net, and besides these only
    /// nodes that a walk can pass through; no two routes share a node; and
    /// every sink of every net is reached from its source by a walk over
    /// nodes of its route.
    pub open spec fn routes_stand(
        &self,
        edges: Seq<Edge>,
        node_count: nat,
        nets: Seq<(usize, Seq<usize>)>,
    ) -> bool {
        match *self {
            PathfinderResult::Routed { netlist, .. } => {
                &&& netlist@.len() == nets.len()
                &&& netlist.within(node_count)
                &&& forall|i: int|
                    0 <= i < nets.len() ==> (#[trigger] netlist@[i]).0 == nets[i].0
                        && netlist@[i].1.contains(nets[i].0)
                &&& forall|i: int, k: int|
                    0 <= i < nets.len() && 0 <= k < nets[i].1.len() ==> (
                    #[trigger] netlist@[i]).1.contains(#[trigger] nets[i].1[k])
                &&& forall|i: int, k: int|
                    0 <= i < nets.len() && 0 <= k < netlist@[i].1.len() ==> {
                        let node = #[trigger] netlist@[i].1[k];
                        node == nets[i].0 || nets[i].1.contains(node) || passes(edges, node as int)
                    }
                &&& forall|i: int, j: int|
                    0 <= i < j < netlist@.len() ==> (#[trigger] netlist@[i]).1.to_set().disjoint(
                        (#[trigger] netlist@[j]).1.to_set(),
                    )
                &&& forall|i: int, k: int|
                    0 <= i < nets.len() && 0 <= k < nets[i].1.len() ==> linked(
                        edges,
                        (#[trigger] netlist@[i]).1.to_set(),
                        nets[i].0,
                        #[trigger] nets[i].1[k],
                    )
            },
            PathfinderResult::NotRouted { .. } => true,
        }
    }
}

/// The router's result is settled by its inputs: two results that describe
/// the verdict on the same netlist have the same score and the same routes,
/// or the same congestion.
pub proof fn lemma_results_agree(
    first: PathfinderResult,
    second: PathfinderResult,
    sources: Seq<usize>,
    verdict: Verdict,
)
    requires
        first.describes(sources, verdict),
        second.describes(sources, verdict),
    ensures
        match (first, second) {
            (
                PathfinderResult::Routed { score, netlist },
                PathfinderResult::Routed { score: other_score, netlist: other_netlist },
            ) => score == other_score && netlist@ == other_netlist@,
            (
                PathfinderResult::NotRouted { congestion },
                PathfinderResult::NotRouted { congestion: other },
            ) => congestion == other,
            _ => false,
        },
{
    match (first, second) {
        (
            PathfinderResult::Routed { score, netlist },
            PathfinderResult::Routed { score: other_score, netlist: other_netlist },
        ) => {
            assert(netlist@ =~= other_netlist@);
        },
        _ => {},
    }
}

/// A design without nets is routed in the first round, with no route and a
/// score of 0.
pub proof fn lemma_empty_netlist_is_routed(graph: RoutingGraph, topology: DeviceTopology, max_rounds: int)
    ensures
        spec_pathfinder(graph, topology, Seq::empty(), max_rounds) == Ok::<Verdict, Unreachable>(
            Verdict::Routed { total: 0, routes: Seq::empty() },
        ),
{
    let nets = Seq::<(usize, Seq<usize>)>::empty();
    let trees = Seq::<Seq<usize>>::empty();
    assert(routes_of(nets, trees) =~= Seq::<Seq<usize>>::empty());
}

fn copy_nodes(nodes: &Vec<usize>) -> (copy: Vec<usize>)
    ensures
        copy@ == nodes@,
{
    let mut copy: Vec<usize> = Vec::new();
    let mut i: usize = 0;
    while i < nodes.len()
        invariant
            i <= nodes@.len(),
            copy@ == nodes@.take(i as int),
        decreases nodes@.len() - i,
    {
        copy.push(nodes[i]);
        assert(nodes@.take(i + 1) == nodes@.take(i as int).push(nodes@[i as int]));
        i += 1;
    }
    assert(nodes@.take(i as int) == nodes@);
    copy
}

/// Whether route number `i` is the route of net number `i`, for the first
/// `done` nets, and the other trees are as they were.
spec fn augmented(
    edges: Seq<Edge>,
    node_count: nat,
    nets: Seq<(usize, Seq<usize>)>,
    before: Seq<RoutingTree>,
    trees: Seq<RoutingTree>,
    done: int,
) -> bool {
    &&& trees.len() == before.len()
    &&& forall|i: int| done <= i < trees.len() ==> #[trigger] trees[i] == before[i]
    &&& forall|i: int|
        0 <= i < done ==> {
            let route = #[trigger] trees[i];
            &&& route.well_formed()
            &&& route@ == with_nodes(before[i]@, nets[i].1)
            &&& tree_within(route@, node_count)
            &&& route@.contains(nets[i].0)
            &&& forall|j: int|
                0 <= j < nets[i].1.len() ==> linked(
                    edges,
                    route@.to_set(),
                    nets[i].0,
                    #[trigger] nets[i].1[j],
                )
        }
}

/// Whether route number `i` is a route of net number `i`: it holds no node
/// twice, and from the source of the net a walk leads to each of its sinks
/// over nodes of the route.
pub open spec fn routes_link(
    edges: Seq<Edge>,
    nets: Seq<(usize, Seq<usize>)>,
    routes: Seq<RoutingTree>,
) -> bool {
    &&& routes.len() == nets.len()
    &&& forall|i: int|
        0 <= i < routes.len() ==> {
            let route = #[trigger] routes[i];
            &&& route.well_formed()
            &&& route@.contains(nets[i].0)
            &&& forall|j: int|
                0 <= j < nets[i].1.len() ==> linked(
                    edges,
                    route@.to_set(),
                    nets[i].0,
                    #[trigger] nets[i].1[j],
                )
        }
}

/// The score of a routed netlist: the sum, over the nets, of the distance
/// from the source to the farthest sink within the route of the net, with
/// the number of nets.
pub fn score_netlist(graph: &RoutingGraph, nets: &RoutingNetList, routes: &Vec<RoutingTree>) -> (score:
    NetListScore)
    requires
        nets.within(routing_nodes(*graph).len()),
        routes_link(routing_edges(*graph), nets@, routes@),
    ensures
        score.total == total_length(
            routing_edges(*graph),
            nets@,
            tree_views(routes@),
            routes@.len() as int,
        ),
        score.nets == nets@.len(),
{
    let ghost edges = routing_edges(*graph);
    let mut total: u128 = 0;
    let mut i: usize = 0;
    while i < routes.len()
        invariant
            i <= routes@.len() == nets@.len(),
            edges == routing_edges(*graph),
            nets.within(routing_nodes(*graph).len()),
            routes_link(edges, nets@, routes@),
            total == total_length(edges, nets@, tree_views(routes@), i as int),
            total <= i * u64::MAX,
        decreases routes@.len() - i,
    {
        let net = nets.net(i);
        let route = &routes[i];
        assert(nets@[i as int] == (net.source, net.sinks@));
        assert(tree_views(routes@)[i as int] == route@);
        assert(nets.nets()[i as int].source < routing_nodes(*graph).len());
        assert forall|j: int| 0 <= j < net.sinks@.len() implies linked(
            edges,
            route@.to_set(),
            net.source,
            #[trigger] net.sinks@[j],
        ) by {
            let listed = routes@[i as int];
            assert(linked(edges, listed@.to_set(), nets@[i as int].0, nets@[i as int].1[j]));
        }
        let length = route.longest_path(graph, net.source, &net.sinks);
        assert(i * u64::MAX + u64::MAX == (i + 1) * u64::MAX) by (nonlinear_arith);
        assert(i * u64::MAX + u64::MAX <= usize::MAX * u64::MAX + u64::MAX) by (nonlinear_arith)
            requires
                i <= usize::MAX,
        ;
        total += length as u128;
        i += 1;
    }
    NetListScore { total, nets: nets.len() }
}

/// Gives the verdict on trees that share no node: adds to each tree the sinks
/// of its net, and, unless two of the routes share a node, measures each
/// route and lists them in a netlist.
pub fn settle(graph: &RoutingGraph, nets: &RoutingNetList, trees: Vec<RoutingTree>) -> (result:
    PathfinderResult)
    requires
        nets.well_formed(),
        nets.within(routing_nodes(*graph).len()),
        trees@.len() == nets@.len(),
        trees_route(routing_edges(*graph), routing_nodes(*graph).len(), nets@, trees@),
    ensures
        result.describes(nets.sources(), verdict_on(*graph, nets@, tree_views(trees@))),
        result.routes_stand(routing_edges(*graph), routing_nodes(*graph).len(), nets@),
{
    let n = node_count(graph);
    let ghost edges = routing_edges(*graph);
    let ghost before = trees@;
    let ghost routes = routes_of(nets@, tree_views(before));
    proof {
        lemma_net_count(nets, n as nat);
    }
    let mut trees = trees;
    let mut i: usize = 0;
    while i < trees.len()
        invariant
            i <= trees@.len(),
            n == routing_nodes(*graph).len(),
            edges == routing_edges(*graph),
            nets.well_formed(),
            nets.within(n as nat),
            before.len() == nets@.len(),
            trees_route(edges, n as nat, nets@, before),
            augmented(edges, n as nat, nets@, before, trees@, i as int),
        decreases trees@.len() - i,
    {
        let net = nets.net(i);
        let ghost earlier = trees@;
        let ghost tree = trees@[i as int];
        assert(tree == before[i as int]);
        assert(nets@[i as int] == (net.source, net.sinks@));
        trees[i].absorb(&net.sinks);
        proof {
            let route = trees@[i as int];
            assert(route@ == with_nodes(tree@, net.sinks@));
            tree.lemma_no_duplicates();
            lemma_with_nodes(tree@, net.sinks@);
            assert(tree@[0] == net.source);
            assert(route@[0] == net.source);
            assert forall|k: int| 0 <= k < route@.len() implies (#[trigger] route@[k]) < n by {
                assert(route@.contains(route@[k]));
                if tree@.contains(route@[k]) {
                    let at = choose|at: int| 0 <= at < tree@.len() && tree@[at] == route@[k];
                } else {
                    let at = choose|at: int|
                        0 <= at < net.sinks@.len() && net.sinks@[at] == route@[k];
                    assert(nets.sinks(i as int)[at] < n);
                }
            }
            assert forall|j: int| 0 <= j < net.sinks@.len() implies linked(
                edges,
                route@.to_set(),
                net.source,
                #[trigger] net.sinks@[j],
            ) by {
                assert(net.sinks@.contains(net.sinks@[j]));
                assert(linked(edges, tree@.to_set().insert(nets@[i as int].1[j]), net.source, net.sinks@[j]));
                lemma_linked_in_superset(
                    edges,
                    tree@.to_set().insert(net.sinks@[j]),
                    route@.to_set(),
                    net.source,
                    net.sinks@[j],
                );
            }
            assert forall|k: int| 0 <= k < i implies #[trigger] trees@[k] == earlier[k] by {}
            assert forall|k: int| i < k < trees@.len() implies #[trigger] trees@[k] == before[k] by {
                assert(trees@[k] == earlier[k]);
            }
        }
        i += 1;
    }
    assert(tree_views(trees@) =~= routes);
    let mut used: Vec<u64> = Vec::new();
    while used.len() < n
        invariant
            used@.len() <= n,
            forall|node: int| 0 <= node < used@.len() ==> used@[node] == 1,
        decreases n - used@.len(),
    {
        used.push(1);
    }
    assert(used@ =~= unused(n as nat));
    i = 0;
    while i < trees.len()
        invariant
            i <= trees@.len() == nets@.len() <= n,
            n == routing_nodes(*graph).len(),
            n <= u32::MAX,
            augmented(edges, n as nat, nets@, before, trees@, trees@.len() as int),
            tree_views(trees@) == routes,
            used@.len() == n,
            used@ == occupancy(n as nat, routes, i as int),
            costs_at_most(used@, i as int + 1),
        decreases trees@.len() - i,
    {
        proof {
            trees@[i as int].lemma_no_duplicates();
        }
        occupy_nodes(&mut used, trees[i].nodes());
        assert(routes[i as int] == trees@[i as int]@);
        i += 1;
    }
    if !is_converged(&used) {
        return PathfinderResult::NotRouted { congestion: congestion(&used) };
    }
    proof {
        assert forall|k: int| 0 <= k < trees@.len() implies {
            let route = #[trigger] trees@[k];
            &&& route.well_formed()
            &&& route@.contains(nets@[k].0)
            &&& forall|j: int|
                0 <= j < nets@[k].1.len() ==> linked(
                    edges,
                    route@.to_set(),
                    nets@[k].0,
                    #[trigger] nets@[k].1[j],
                )
        } by {}
    }
    let score = score_netlist(graph, nets, &trees);
    let mut netlist = RoutingNetList::new();
    i = 0;
    assert(netlist@ =~= Seq::<(usize, Seq<usize>)>::empty());
    while i < trees.len()
        invariant
            i <= trees@.len() == nets@.len(),
            nets.well_formed(),
            augmented(edges, n as nat, nets@, before, trees@, trees@.len() as int),
            tree_views(trees@) == routes,
            netlist.well_formed(),
            netlist@.len() == i,
            forall|k: int| 0 <= k < i ==> #[trigger] netlist@[k] == (nets.sources()[k], routes[k]),
        decreases trees@.len() - i,
    {
        let net = nets.net(i);
        let route = &trees[i];
        proof {
            assert(routes[i as int] == route@);
            route.lemma_no_duplicates();
            assert forall|k: int| 0 <= k < netlist.sources().len() implies netlist.sources()[k]
                != net.source by {
                assert(netlist@[k] == (nets.sources()[k], routes[k]));
                assert(netlist@[k].0 == netlist.nets()[k].source);
                assert(nets.sources()[k] != nets.sources()[i as int]);
            }
        }
        netlist.push_net(net.source, copy_nodes(route.nodes()));
        i += 1;
    }
    let result = PathfinderResult::Routed { score, netlist };
    proof {
        assert forall|a: int, b: int| 0 <= a < b < netlist@.len() implies (
        #[trigger] netlist@[a]).1.to_set().disjoint((#[trigger] netlist@[b]).1.to_set()) by {
            assert forall|node: usize|
                !(netlist@[a].1.to_set().contains(node) && netlist@[b].1.to_set().contains(
                    node,
                )) by {
                if routes[a].contains(node) && routes[b].contains(node) {
                    let at = choose|at: int| 0 <= at < routes[a].len() && routes[a][at] == node;
                    assert(trees@[a]@[at] < n);
                    lemma_shared_node_is_overused(
                        n as nat,
                        routes,
                        routes.len() as int,
                        a,
                        b,
                        node as int,
                    );
                }
            }
        }
        assert forall|a: int, k: int|
            0 <= a < nets@.len() && 0 <= k < nets@[a].1.len() implies linked(
            edges,
            (#[trigger] netlist@[a]).1.to_set(),
            nets@[a].0,
            #[trigger] nets@[a].1[k],
        ) by {
            assert(trees@[a]@ == routes[a]);
        }
        assert forall|a: int| 0 <= a < netlist.nets().len() implies (
        #[trigger] netlist.nets()[a]).source < n && forall|j: int|
            0 <= j < netlist.sinks(a).len() ==> (#[trigger] netlist.sinks(a)[j]) < n by {
            assert(netlist@[a] == (nets.sources()[a], routes[a]));
            assert(trees@[a]@ == routes[a]);
            assert(nets.nets()[a].source < n);
        }
        assert forall|a: int| 0 <= a < nets@.len() implies (#[trigger] netlist@[a]).0 == nets@[a].0
            && netlist@[a].1.contains(nets@[a].0) by {
            assert(trees@[a]@ == routes[a]);
        }
        assert forall|a: int, k: int| 0 <= a < nets@.len() && 0 <= k < netlist@[a].1.len() implies {
            let node = #[trigger] netlist@[a].1[k];
            node == nets@[a].0 || nets@[a].1.contains(node) || passes(edges, node as int)
        } by {
            let node = netlist@[a].1[k];
            let tree = before[a]@;
            assert(trees@[a]@ == routes[a]);
            before[a].lemma_no_duplicates();
            lemma_with_nodes(tree, nets@[a].1);
            assert(routes[a].contains(node));
            if tree.contains(node) {
                let at = choose|at: int| 0 <= at < tree.len() && tree[at] == node;
                if at > 0 {
                    assert(passes(edges, tree[at] as int));
                }
            }
        }
        assert forall|a: int, k: int|
            0 <= a < nets@.len() && 0 <= k < nets@[a].1.len() implies (
        #[trigger] netlist@[a]).1.contains(#[trigger] nets@[a].1[k]) by {
            assert(trees@[a]@ == routes[a]);
            before[a].lemma_no_duplicates();
            lemma_with_nodes(before[a]@, nets@[a].1);
            assert(nets@[a].1.contains(nets@[a].1[k]));
        }
    }
    result
}

/// Routes every net of `nets` over `graph`, sharing nodes at first and
/// pricing shared nodes ever higher, for at most `max_iterations` rounds (at
/// least one round is made). The rounds begin with the historical use costs
/// `history`, and every round that routes every net raises the cost of
/// every node by its present use cost: no cost ever falls. Where no walk
/// leads from the source of a net to one of its sinks, the first such sink
/// is reported, and no other failure is.
pub fn pathfinder_with_history(
    graph: &RoutingGraph,
    nets: &RoutingNetList,
    topology: &DeviceTopology,
    history: &mut Vec<u64>,
    max_iterations: u16,
) -> (result: Result<PathfinderResult, Unreachable>)
    requires
        nets.well_formed(),
        nets.within(routing_nodes(*graph).len()),
        old(history)@.len() == routing_nodes(*graph).len(),
        costs_at_most(old(history)@, CARRIED_LIMIT as int),
    ensures
        match spec_pathfinder_from(*graph, *topology, nets@, old(history)@, max_iterations as int) {
            Ok(verdict) => result matches Ok(found) && found.describes(nets.sources(), verdict)
                && found.routes_stand(routing_edges(*graph), routing_nodes(*graph).len(), nets@),
            Err(unreachable) => result matches Err(reported) && reported == unreachable,
        },
        match first_unreachable(routing_edges(*graph), nets@, nets@.len() as int) {
            Some(unreachable) => result matches Err(reported) && reported == unreachable,
            None => result is Ok,
        },
        final(history)@ == history_after(
            *graph,
            *topology,
            nets@,
            old(history)@,
            0,
            max_iterations as int,
        ),
        final(history)@.len() == old(history)@.len(),
        forall|node: int|
            0 <= node < old(history)@.len() ==> final(history)@[node] >= old(history)@[node],
{
    let n = node_count(graph);
    proof {
        lemma_net_count(nets, n as nat);
    }
    let ghost start = history@;
    let mut rounds: u16 = 0;
    loop
        invariant
            n == routing_nodes(*graph).len(),
            n <= u32::MAX,
            nets@.len() <= n,
            nets.well_formed(),
            nets.within(n as nat),
            history@.len() == n,
            start == old(history)@,
            start.len() == n,
            rounds == 0 || rounds < max_iterations,
            costs_at_most(history@, CARRIED_LIMIT + rounds * 0x1_0000_0000),
            forall|node: int| 0 <= node < n ==> history@[node] >= start[node],
            negotiate(*graph, *topology, nets@, history@, rounds as int, max_iterations as int)
                == negotiate(*graph, *topology, nets@, start, 0, max_iterations as int),
            history_after(*graph, *topology, nets@, history@, rounds as int, max_iterations as int)
                == history_after(*graph, *topology, nets@, start, 0, max_iterations as int),
        decreases u16::MAX - rounds,
    {
        assert(CARRIED_LIMIT + rounds * 0x1_0000_0000 <= HISTORY_LIMIT) by (nonlinear_arith)
            requires
                0 <= rounds <= 0xffff,
                CARRIED_LIMIT == 0x3fff_0000_0000_0000,
                HISTORY_LIMIT == 0x3fff_ffff_0000_0000,
        ;
        match route_round(graph, topology, history, nets) {
            Err(unreachable) => {
                return Err(unreachable);
            },
            Ok((trees, present)) => {
                assert(CARRIED_LIMIT + (rounds + 1) * 0x1_0000_0000 == CARRIED_LIMIT + rounds
                    * 0x1_0000_0000 + 0x1_0000_0000) by (nonlinear_arith);
                raise_history(history, &present);
                if is_converged(&present) {
                    return Ok(settle(graph, nets, trees));
                }
                if rounds as u32 + 1 >= max_iterations as u32 {
                    return Ok(PathfinderResult::NotRouted { congestion: congestion(&present) });
                }
                rounds += 1;
            },
        }
    }
}

/// Routes every net of `nets` over `graph`, sharing nodes at first and
/// pricing shared nodes ever higher, for at most `max_iterations` rounds (at
/// least one round is made), beginning with no node used before. Where no
/// walk leads from the source of a net to one of its sinks, the first such
/// sink is reported, and no other failure is.
pub fn pathfinder(
    graph: &RoutingGraph,
    nets: &RoutingNetList,
    topology: &DeviceTopology,
    max_iterations: u16,
) -> (result: Result<PathfinderResult, Unreachable>)
    requires
        nets.well_formed(),
        nets.within(routing_nodes(*graph).len()),
    ensures
        match spec_pathfinder(*graph, *topology, nets@, max_iterations as int) {
            Ok(verdict) => result matches Ok(found) && found.describes(nets.sources(), verdict)
                && found.routes_stand(routing_edges(*graph), routing_nodes(*graph).len(), nets@),
            Err(unreachable) => result matches Err(reported) && reported == unreachable,
        },
        match first_unreachable(routing_edges(*graph), nets@, nets@.len() as int) {
            Some(unreachable) => result matches Err(reported) && reported == unreachable,
            None => result is Ok,
        },
{
    let n = node_count(graph);
    let mut history: Vec<u64> = Vec::new();
    while history.len() < n
        invariant
            history@.len() <= n,
            forall|node: int| 0 <= node < history@.len() ==> history@[node] == 0,
        decreases n - history@.len(),
    {
        history.push(0);
    }
    assert(history@ =~= untried(routing_nodes(*graph).len()));
    pathfinder_with_history(graph, nets, topology, &mut history, max_iterations)
}

} // verus!
