//! The two costs of the router. The present use cost of a node counts the
//! nets that use it in the round that is being routed; the historical use
//! cost adds up what the node was used in the rounds before.

use vstd::prelude::*;
use crate::routing::tree::tree_within;

verus! {

/// The largest use cost of a node with which a route can be searched.
pub const COST_LIMIT: u128 = 0x4000_0000_0000_0000_0000_0000;

/// The largest historical use cost with which a round can be routed.
pub const HISTORY_LIMIT: u64 = 0x3fff_ffff_0000_0000;

/// The largest historical use cost with which the router can begin: the
/// rounds of one run raise a cost by `HISTORY_LIMIT - CARRIED_LIMIT` at most.
pub const CARRIED_LIMIT: u64 = 0x3fff_0000_0000_0000;

/// The cost of using node `node`: one more than its historical use cost,
/// times its present use cost.
pub open spec fn spec_use_cost(history: Seq<u64>, present: Seq<u64>, node: int) -> int {
    (1 + history[node]) * present[node]
}

/// Whether no node's use cost is above `COST_LIMIT`.
pub open spec fn costs_bounded(history: Seq<u64>, present: Seq<u64>) -> bool {
    forall|node: int|
        0 <= node < history.len() ==> #[trigger] spec_use_cost(history, present, node)
            <= COST_LIMIT
}

/// Whether no historical use cost is above `limit`.
pub open spec fn costs_at_most(costs: Seq<u64>, limit: int) -> bool {
    forall|node: int| 0 <= node < costs.len() ==> #[trigger] costs[node] <= limit
}

/// With the historical use costs below their limit and no more nets than
/// fit a graph, no use cost is above `COST_LIMIT`.
pub proof fn lemma_costs_bounded(history: Seq<u64>, present: Seq<u64>)
    requires
        history.len() == present.len(),
        costs_at_most(history, HISTORY_LIMIT as int),
        costs_at_most(present, 0x1_0000_0000),
    ensures
        costs_bounded(history, present),
{
    assert forall|node: int| 0 <= node < history.len() implies #[trigger] spec_use_cost(
        history,
        present,
        node,
    ) <= COST_LIMIT by {
        let h = history[node] as int;
        let p = present[node] as int;
        assert((1 + h) * p <= (1 + 0x3fff_ffff_0000_0000) * 0x1_0000_0000) by (nonlinear_arith)
            requires
                0 <= h <= 0x3fff_ffff_0000_0000,
                0 <= p <= 0x1_0000_0000,
        ;
    }
}

/// The cost of using node `node` in this round.
pub fn use_cost(history: &Vec<u64>, present: &Vec<u64>, node: usize) -> (cost: u128)
    requires
        node < history@.len(),
        node < present@.len(),
    ensures
        cost == spec_use_cost(history@, present@, node as int),
{
    let h = history[node] as u128;
    let p = present[node] as u128;
    assert((1 + h) * p <= 0x1_0000_0000_0000_0000 * 0xffff_ffff_ffff_ffff) by (nonlinear_arith)
        requires
            0 <= h <= 0xffff_ffff_ffff_ffff,
            0 <= p <= 0xffff_ffff_ffff_ffff,
    ;
    (1 + h) * p
}

/// The cost of stepping over an edge of base cost `weight` onto node
/// `target`.
pub fn step_cost(history: &Vec<u64>, present: &Vec<u64>, target: usize, weight: u32) -> (cost: u128)
    requires
        target < history@.len(),
        target < present@.len(),
        spec_use_cost(history@, present@, target as int) <= COST_LIMIT,
    ensures
        cost == spec_use_cost(history@, present@, target as int) + weight,
{
    use_cost(history, present, target) + weight as u128
}

/// A present use cost of 1 at each of `node_count` nodes: no node is in use.
pub open spec fn unused(node_count: nat) -> Seq<u64> {
    Seq::new(node_count, |node: int| 1u64)
}

/// A historical use cost of 0 at each of `node_count` nodes: no node has
/// been used yet.
pub open spec fn untried(node_count: nat) -> Seq<u64> {
    Seq::new(node_count, |node: int| 0u64)
}

/// The present use costs after one more net has been routed: one more at
/// every node of its tree.
pub open spec fn occupy(present: Seq<u64>, tree: Seq<usize>) -> Seq<u64> {
    Seq::new(
        present.len(),
        |node: int|
            if tree.contains(node as usize) {
                (present[node] + 1) as u64
            } else {
                present[node]
            },
    )
}

/// Adds one to the present use cost of every node of `tree`.
pub fn occupy_nodes(present: &mut Vec<u64>, tree: &Vec<usize>)
    requires
        tree@.no_duplicates(),
        tree_within(tree@, old(present)@.len()),
        forall|node: int| 0 <= node < old(present)@.len() ==> old(present)@[node] < u64::MAX,
    ensures
        final(present)@ == occupy(old(present)@, tree@),
{
    let mut k: usize = 0;
    assert(present@ =~= occupy(old(present)@, tree@.take(0)));
    while k < tree.len()
        invariant
            k <= tree@.len(),
            tree@.no_duplicates(),
            present@.len() == old(present)@.len(),
            tree_within(tree@, old(present)@.len()),
            forall|node: int| 0 <= node < old(present)@.len() ==> old(present)@[node] < u64::MAX,
            present@ == occupy(old(present)@, tree@.take(k as int)),
        decreases tree@.len() - k,
    {
        let node = tree[k];
        assert(!tree@.take(k as int).contains(node)) by {
            if tree@.take(k as int).contains(node) {
                let i = choose|i: int| 0 <= i < k && tree@.take(k as int)[i] == node;
                assert(tree@[i] == tree@[k as int]);
            }
        }
        let ghost prior = present@;
        let raised = present[node] + 1;
        present.set(node, raised);
        proof {
            let longer = tree@.take(k + 1);
            let shorter = tree@.take(k as int);
            assert(longer == shorter.push(node));
            shorter.lemma_push_to_set_commute(node);
            assert forall|x: usize| longer.contains(x) <==> shorter.contains(x) || x == node by {
                assert(longer.to_set().contains(x) <==> shorter.to_set().insert(node).contains(x));
            }
            assert forall|v: int| 0 <= v < present@.len() implies present@[v] == occupy(
                old(present)@,
                longer,
            )[v] by {
                assert(present@.len() == present.len());
                let x = v as usize;
                assert(x as int == v);
                assert(longer.contains(x) <==> shorter.contains(x) || x == node);
                assert(prior[v] == occupy(old(present)@, shorter)[v]);
            }
            assert(present@ =~= occupy(old(present)@, longer));
        }
        k += 1;
    }
    assert(tree@.take(k as int) == tree@);
}

/// Whether no node is wanted by more than one net: a present use cost of 1
/// is a node that no net uses, and one of 2 a node that one net uses.
pub open spec fn converged(present: Seq<u64>) -> bool {
    forall|node: int| 0 <= node < present.len() ==> #[trigger] present[node] <= 2
}

/// Whether no node is wanted by more than one net.
pub fn is_converged(present: &Vec<u64>) -> (r: bool)
    ensures
        r == converged(present@),
{
    let mut node: usize = 0;
    while node < present.len()
        invariant
            node <= present@.len(),
            forall|v: int| 0 <= v < node ==> #[trigger] present@[v] <= 2,
        decreases present@.len() - node,
    {
        if present[node] > 2 {
            return false;
        }
        node += 1;
    }
    true
}

/// By how much the first `count` nodes are overused: for each of them, the
/// number of nets that use it beyond the first.
pub open spec fn spec_congestion(present: Seq<u64>, count: int) -> int
    decreases count,
{
    if count <= 0 {
        0
    } else {
        spec_congestion(present, count - 1) + if present[count - 1] > 2 {
            present[count - 1] - 2
        } else {
            0
        }
    }
}

/// By how much the nodes are overused in all.
pub fn congestion(present: &Vec<u64>) -> (total: u64)
    requires
        present@.len() <= u32::MAX,
        costs_at_most(present@, 0x1_0000_0000),
    ensures
        total == spec_congestion(present@, present@.len() as int),
{
    let mut total: u64 = 0;
    let mut node: usize = 0;
    while node < present.len()
        invariant
            node <= present@.len() <= u32::MAX,
            costs_at_most(present@, 0x1_0000_0000),
            total == spec_congestion(present@, node as int),
            total <= node * 0x1_0000_0000,
        decreases present@.len() - node,
    {
        if present[node] > 2 {
            total += present[node] - 2;
        }
        node += 1;
    }
    total
}

/// The historical use costs after a round: each node's cost raised by its
/// present use cost.
pub open spec fn raise(history: Seq<u64>, present: Seq<u64>) -> Seq<u64> {
    Seq::new(history.len(), |node: int| (history[node] + present[node]) as u64)
}

/// Raises the historical use cost of every node by its present use cost.
pub fn raise_history(history: &mut Vec<u64>, present: &Vec<u64>)
    requires
        old(history)@.len() == present@.len(),
        forall|node: int|
            0 <= node < present@.len() ==> old(history)@[node] + present@[node] <= u64::MAX,
    ensures
        final(history)@ == raise(old(history)@, present@),
        forall|node: int|
            0 <= node < present@.len() ==> final(history)@[node] == old(history)@[node]
                + present@[node] && final(history)@[node] >= old(history)@[node],
{
    let mut node: usize = 0;
    while node < history.len()
        invariant
            node <= history@.len(),
            history@.len() == present@.len(),
            history@.len() == old(history)@.len(),
            forall|v: int|
                0 <= v < present@.len() ==> old(history)@[v] + present@[v] <= u64::MAX,
            forall|v: int| 0 <= v < node ==> history@[v] == old(history)@[v] + present@[v],
            forall|v: int| node <= v < history@.len() ==> history@[v] == old(history)@[v],
        decreases history@.len() - node,
    {
        let raised = history[node] + present[node];
        history.set(node, raised);
        node += 1;
    }
    assert(history@ =~= raise(old(history)@, present@));
}

/// The historical use cost of a node never falls from one round to the
/// next.
pub proof fn lemma_history_never_falls(history: Seq<u64>, present: Seq<u64>, node: int)
    requires
        0 <= node < history.len(),
        history.len() == present.len(),
        history[node] + present[node] <= u64::MAX,
    ensures
        raise(history, present)[node] >= history[node],
        raise(history, present)[node] == history[node] + present[node],
{
}

/// The use of every node by the first `count` of `routes`: 1 for a node that
/// none of them holds, and one more for each route that holds it.
pub open spec fn occupancy(node_count: nat, routes: Seq<Seq<usize>>, count: int) -> Seq<u64>
    decreases count,
{
    if count <= 0 {
        unused(node_count)
    } else {
        occupy(occupancy(node_count, routes, count - 1), routes[count - 1])
    }
}

/// The use of a node by the routes is at least 1, at most one more than
/// their number, never falls as routes are added, and rises with each route
/// that holds the node.
pub proof fn lemma_occupancy(node_count: nat, routes: Seq<Seq<usize>>, count: int, node: int)
    requires
        0 <= count <= routes.len(),
        routes.len() < u64::MAX - 1,
        0 <= node < node_count,
    ensures
        occupancy(node_count, routes, count).len() == node_count,
        1 <= occupancy(node_count, routes, count)[node] <= count + 1,
        count > 0 ==> occupancy(node_count, routes, count)[node] == occupancy(
            node_count,
            routes,
            count - 1,
        )[node] + if routes[count - 1].contains(node as usize) {
            1int
        } else {
            0int
        },
    decreases count,
{
    if count > 0 {
        lemma_occupancy(node_count, routes, count - 1, node);
    }
}

/// The use of the nodes by the first `count` routes depends on those routes
/// alone.
pub proof fn lemma_occupancy_of_first(
    node_count: nat,
    routes: Seq<Seq<usize>>,
    others: Seq<Seq<usize>>,
    count: int,
)
    requires
        count <= routes.len(),
        count <= others.len(),
        forall|i: int| 0 <= i < count ==> routes[i] == others[i],
    ensures
        occupancy(node_count, routes, count) == occupancy(node_count, others, count),
    decreases count,
{
    if count > 0 {
        lemma_occupancy_of_first(node_count, routes, others, count - 1);
    }
}

/// A node that two routes hold is used three times or more.
pub proof fn lemma_shared_node_is_overused(
    node_count: nat,
    routes: Seq<Seq<usize>>,
    count: int,
    i: int,
    j: int,
    node: int,
)
    requires
        0 <= i < j < count <= routes.len(),
        routes.len() < u64::MAX - 1,
        0 <= node < node_count,
        routes[i].contains(node as usize),
        routes[j].contains(node as usize),
    ensures
        occupancy(node_count, routes, count)[node] >= 3,
    decreases count,
{
    lemma_occupancy(node_count, routes, count, node);
    if j < count - 1 {
        lemma_shared_node_is_overused(node_count, routes, count - 1, i, j, node);
    } else {
        lemma_route_raises_use(node_count, routes, count - 1, i, node);
    }
}

/// A node that one of the routes holds is used twice or more.
pub proof fn lemma_route_raises_use(
    node_count: nat,
    routes: Seq<Seq<usize>>,
    count: int,
    i: int,
    node: int,
)
    requires
        0 <= i < count <= routes.len(),
        routes.len() < u64::MAX - 1,
        0 <= node < node_count,
        routes[i].contains(node as usize),
    ensures
        occupancy(node_count, routes, count)[node] >= 2,
    decreases count,
{
    lemma_occupancy(node_count, routes, count, node);
    if i < count - 1 {
        lemma_route_raises_use(node_count, routes, count - 1, i, node);
    } else {
        lemma_occupancy(node_count, routes, count - 1, node);
    }
}

} // verus!
