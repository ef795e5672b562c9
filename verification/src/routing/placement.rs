//! Placement: which logic cell of the device holds which logic cell of the
//! design, and which I/O block which module port.

use vstd::prelude::*;
use crate::implementation::{
    impl_edge_at, impl_edge_count, impl_edges, impl_graph_is_legal, impl_node_at, impl_node_count,
    impl_nodes, ImplEdge, ImplGraph, ImplGraphEdge, ImplGraphNode,
};
use crate::routing::index::NodeIndexMap;
use crate::routing::netlist::{net_insert, RoutingNetList};
use crate::random::{choose_multiple, choose_one, is_sample_of, random_below, shuffle};
use crate::routing::topology::{
    DeviceTopology, IoBlockCoordinates, LogicCellCoordinates, RoutingGraphNode,
};
use vstd::multiset::Multiset;

verus! {

/// Why a design cannot be placed or routed.
#[derive(Debug, Clone, Copy, PartialEq, Eq, Structural)]
pub enum RoutingError {
    /// The design has more logic cells than the device.
    NotEnoughLogicCells { needed: usize, available: usize },
    /// The design has more module ports than the device has I/O blocks.
    /// One I/O block more than there are ports is asked for, for the clock.
    NotEnoughIoBlocks { needed: usize, available: usize },
    /// The router found no routing without shared nodes.
    FailedToRoute,
}

/// Whether no node is assigned to two places.
pub open spec fn injective(assigned: Seq<Option<usize>>) -> bool {
    forall|i: int, j: int|
        0 <= i < j < assigned.len() && (#[trigger] assigned[i]) is Some ==> assigned[i]
            != #[trigger] assigned[j]
}

/// The assignment with what is at places `a` and `b` exchanged.
pub open spec fn swapped(assigned: Seq<Option<usize>>, a: int, b: int) -> Seq<Option<usize>> {
    assigned.update(a, assigned[b]).update(b, assigned[a])
}

/// The number of places among the first `count` to which a node is assigned.
pub open spec fn assigned_count(assigned: Seq<Option<usize>>, count: int) -> int
    decreases count,
{
    if count <= 0 {
        0
    } else {
        assigned_count(assigned, count - 1) + if assigned[count - 1] is Some {
            1int
        } else {
            0int
        }
    }
}

/// Whether `after` is `before` after one move: the node at some place has
/// gone to another place, and what was there has taken its place. Nothing
/// moves only where no node is assigned or there is no other place.
pub open spec fn is_move(before: Seq<Option<usize>>, after: Seq<Option<usize>>) -> bool {
    ||| exists|a: int, b: int|
        #![trigger swapped(before, a, b)]
        0 <= a < before.len() && 0 <= b < before.len() && a != b && before[a] is Some && after
            == swapped(before, a, b)
    ||| after == before && (before.len() < 2 || forall|i: int|
        0 <= i < before.len() ==> (#[trigger] before[i]) is None)
}

/// Exchanging two places keeps every node, each as often as before, and
/// keeps an assignment injective.
pub proof fn lemma_swapped(assigned: Seq<Option<usize>>, a: int, b: int)
    requires
        0 <= a < assigned.len(),
        0 <= b < assigned.len(),
    ensures
        swapped(assigned, a, b).len() == assigned.len(),
        swapped(assigned, a, b).to_multiset() == assigned.to_multiset(),
        injective(assigned) ==> injective(swapped(assigned, a, b)),
        forall|node: Option<usize>|
            assigned.contains(node) <==> swapped(assigned, a, b).contains(node),
        assigned_count(swapped(assigned, a, b), assigned.len() as int) == assigned_count(
            assigned,
            assigned.len() as int,
        ),
{
    broadcast use vstd::seq_lib::group_to_multiset_ensures;

    let after = swapped(assigned, a, b);
    assert(after.to_multiset() =~= assigned.to_multiset());
    assert forall|node: Option<usize>| assigned.contains(node) <==> after.contains(node) by {
        if assigned.contains(node) {
            let i = choose|i: int| 0 <= i < assigned.len() && assigned[i] == node;
            let j = if i == a {
                b
            } else if i == b {
                a
            } else {
                i
            };
            assert(after[j] == node);
        }
        if after.contains(node) {
            let i = choose|i: int| 0 <= i < after.len() && after[i] == node;
            let j = if i == a {
                b
            } else if i == b {
                a
            } else {
                i
            };
            assert(assigned[j] == node);
        }
    }
    if injective(assigned) {
        assert forall|i: int, j: int|
            0 <= i < j < after.len() && (#[trigger] after[i]) is Some implies after[i]
            != #[trigger] after[j] by {
            let from = |k: int|
                if k == a {
                    b
                } else if k == b {
                    a
                } else {
                    k
                };
            let (p, q) = (from(i), from(j));
            assert(after[i] == assigned[p] && after[j] == assigned[q]);
            if p < q {
                assert(assigned[p] != assigned[q]);
            } else {
                if assigned[q] is Some {
                    assert(assigned[q] != assigned[p]);
                }
            }
        }
    }
    lemma_count_of_multiset(assigned, after, assigned.len() as int);
}

/// The number of assigned places is the number of entries that hold a node.
proof fn lemma_assigned_count_is_multiset(assigned: Seq<Option<usize>>, count: int)
    requires
        0 <= count <= assigned.len(),
    ensures
        assigned_count(assigned, count) == count - assigned.take(count).to_multiset().count(None),
    decreases count,
{
    broadcast use vstd::seq_lib::group_to_multiset_ensures;

    if count > 0 {
        lemma_assigned_count_is_multiset(assigned, count - 1);
        assert(assigned.take(count) == assigned.take(count - 1).push(assigned[count - 1]));
    } else {
        assert(assigned.take(0).to_multiset() =~= vstd::multiset::Multiset::empty());
    }
}

proof fn lemma_count_of_multiset(before: Seq<Option<usize>>, after: Seq<Option<usize>>, count: int)
    requires
        before.len() == after.len() == count,
        before.to_multiset() == after.to_multiset(),
    ensures
        assigned_count(before, count) == assigned_count(after, count),
{
    lemma_assigned_count_is_multiset(before, count);
    lemma_assigned_count_is_multiset(after, count);
    assert(before.take(count) == before);
    assert(after.take(count) == after);
}

/// Exchanges what is at places `a` and `b`.
pub fn swap_positions_at(assigned: &mut Vec<Option<usize>>, a: usize, b: usize)
    requires
        a < old(assigned)@.len(),
        b < old(assigned)@.len(),
    ensures
        final(assigned)@ == swapped(old(assigned)@, a as int, b as int),
{
    let at_a = assigned[a];
    let at_b = assigned[b];
    assigned.set(a, at_b);
    assigned.set(b, at_a);
}

/// Whether `places` are in rising order.
pub open spec fn rising(places: Seq<usize>) -> bool {
    forall|a: int, b: int| 0 <= a < b < places.len() ==> places[a] < places[b]
}

/// The places to which a node is assigned, in rising order.
pub fn occupied_positions(assigned: &Vec<Option<usize>>) -> (occupied: Vec<usize>)
    ensures
        rising(occupied@),
        forall|i: usize|
            occupied@.contains(i) <==> i < assigned@.len() && (#[trigger] assigned@[i as int])
                is Some,
{
    let mut occupied: Vec<usize> = Vec::new();
    let mut i: usize = 0;
    while i < assigned.len()
        invariant
            i <= assigned@.len(),
            rising(occupied@),
            forall|k: int| 0 <= k < occupied@.len() ==> occupied@[k] < i,
            forall|k: usize|
                occupied@.contains(k) <==> k < i && (#[trigger] assigned@[k as int]) is Some,
        decreases assigned@.len() - i,
    {
        if assigned[i].is_some() {
            let ghost before = occupied@;
            occupied.push(i);
            proof {
                assert forall|k: usize|
                    occupied@.contains(k) <==> k < i + 1 && (#[trigger] assigned@[k as int])
                        is Some by {
                    before.lemma_push_to_set_commute(i);
                    assert(occupied@.to_set().contains(k) <==> before.to_set().insert(i).contains(k));
                }
            }
        }
        i += 1;
    }
    occupied
}

/// Every place of `count` but `place`, in rising order.
pub fn other_positions(count: usize, place: usize) -> (others: Vec<usize>)
    ensures
        rising(others@),
        forall|i: usize| #[trigger] others@.contains(i) <==> i < count && i != place,
{
    let mut others: Vec<usize> = Vec::new();
    let mut i: usize = 0;
    while i < count
        invariant
            i <= count,
            rising(others@),
            forall|k: int| 0 <= k < others@.len() ==> others@[k] < i,
            forall|k: usize| #[trigger] others@.contains(k) <==> k < i && k != place,
        decreases count - i,
    {
        if i != place {
            let ghost before = others@;
            others.push(i);
            proof {
                assert forall|k: usize| #[trigger]
                    others@.contains(k) <==> k < i + 1 && k != place by {
                    before.lemma_push_to_set_commute(i);
                    assert(others@.to_set().contains(k) <==> before.to_set().insert(i).contains(k));
                }
            }
        }
        i += 1;
    }
    others
}

/// Moves the node at a place chosen at random to another place chosen at
/// random, where what was there takes its place.
pub fn swap_positions(assigned: &mut Vec<Option<usize>>)
    ensures
        is_move(old(assigned)@, final(assigned)@),
{
    let occupied = occupied_positions(assigned);
    match choose_one(&occupied) {
        None => {
            proof {
                assert forall|i: int| 0 <= i < assigned@.len() implies (#[trigger] assigned@[i])
                    is None by {
                    assert(assigned@.len() == assigned.len());
                    if assigned@[i] is Some {
                        assert(assigned@[(i as usize) as int] is Some);
                        assert(occupied@.contains(i as usize));
                    }
                }
            }
        },
        Some(a) => {
            assert(a < assigned@.len() && assigned@[a as int] is Some);
            let others = other_positions(assigned.len(), a);
            match choose_one(&others) {
                None => {
                    proof {
                        if assigned@.len() >= 2 {
                            let other = if a == 0 {
                                1usize
                            } else {
                                0usize
                            };
                            assert(others@.contains(other));
                        }
                    }
                },
                Some(b) => {
                    swap_positions_at(assigned, a, b);
                    assert(is_move(old(assigned)@, assigned@)) by {
                        assert(assigned@ == swapped(old(assigned)@, a as int, b as int));
                    }
                },
            }
        },
    }
}


/// Whether node number `id` is a logic cell, where `cells` is asked for, or a
/// module port, where it is not.
pub open spec fn is_kind(nodes: Seq<ImplGraphNode>, id: int, cells: bool) -> bool {
    0 <= id < nodes.len() && (nodes[id] is LogicCell) == cells
}

/// The number of logic cells, or of module ports, among the first `count`
/// nodes.
pub open spec fn kind_count(nodes: Seq<ImplGraphNode>, cells: bool, count: int) -> int
    decreases count,
{
    if count <= 0 {
        0
    } else {
        kind_count(nodes, cells, count - 1) + if is_kind(nodes, count - 1, cells) {
            1int
        } else {
            0int
        }
    }
}

/// The indices of the logic cells of an implementation graph, or of its
/// module ports, in order.
pub fn nodes_of_kind(impl_graph: &ImplGraph, cells: bool) -> (ids: Vec<usize>)
    ensures
        ids@.no_duplicates(),
        ids@.len() == kind_count(impl_nodes(*impl_graph), cells, impl_nodes(*impl_graph).len() as int),
        ids@.len() <= u32::MAX,
        forall|id: usize| #[trigger]
            ids@.contains(id) <==> is_kind(impl_nodes(*impl_graph), id as int, cells),
{
    let ghost nodes = impl_nodes(*impl_graph);
    let count = impl_node_count(impl_graph);
    let mut ids: Vec<usize> = Vec::new();
    let mut id: usize = 0;
    while id < count
        invariant
            id <= count == nodes.len(),
            nodes == impl_nodes(*impl_graph),
            ids@.no_duplicates(),
            ids@.len() == kind_count(nodes, cells, id as int),
            ids@.len() <= id,
            forall|v: usize| #[trigger] ids@.contains(v) <==> v < id && is_kind(nodes, v as int, cells),
        decreases count - id,
    {
        let is_cell = match impl_node_at(impl_graph, id) {
            ImplGraphNode::LogicCell(_) => true,
            ImplGraphNode::ModulePort(_) => false,
        };
        if is_cell == cells {
            let ghost before = ids@;
            ids.push(id);
            proof {
                assert forall|v: usize| #[trigger]
                    ids@.contains(v) <==> v < id + 1 && is_kind(nodes, v as int, cells) by {
                    before.lemma_push_to_set_commute(id);
                    assert(ids@.to_set().contains(v) <==> before.to_set().insert(id).contains(v));
                }
                assert forall|i: int, j: int| 0 <= i < j < ids@.len() implies ids@[i] != ids@[j] by {
                    if j == before.len() {
                        assert(before.contains(before[i]));
                    }
                }
            }
        }
        id += 1;
    }
    ids
}

/// Whether `assigned` holds each of `ids` at one place, and nothing else.
pub open spec fn holds_exactly(assigned: Seq<Option<usize>>, ids: Seq<usize>) -> bool {
    &&& injective(assigned)
    &&& forall|i: int|
        0 <= i < assigned.len() && (#[trigger] assigned[i]) is Some ==> ids.contains(
            assigned[i].unwrap(),
        )
    &&& forall|k: int| 0 <= k < ids.len() ==> assigned.contains(Some(#[trigger] ids[k]))
}

/// A move keeps the nodes that are assigned.
pub proof fn lemma_move_keeps_nodes(
    before: Seq<Option<usize>>,
    after: Seq<Option<usize>>,
    ids: Seq<usize>,
)
    requires
        is_move(before, after),
        holds_exactly(before, ids),
    ensures
        holds_exactly(after, ids),
        after.len() == before.len(),
        after.to_multiset() == before.to_multiset(),
        assigned_count(after, after.len() as int) == assigned_count(before, before.len() as int),
{
    if after != before {
        let (a, b) = choose|a: int, b: int|
            #![trigger swapped(before, a, b)]
            0 <= a < before.len() && 0 <= b < before.len() && a != b && before[a] is Some && after
                == swapped(before, a, b);
        lemma_swapped(before, a, b);
        assert forall|i: int| 0 <= i < after.len() && (#[trigger] after[i]) is Some implies ids.contains(
            after[i].unwrap(),
        ) by {
            assert(after.contains(after[i]));
            assert(before.contains(after[i]));
            let j = choose|j: int| 0 <= j < before.len() && before[j] == after[i];
            assert(before[j] is Some);
        }
        assert forall|k: int| 0 <= k < ids.len() implies after.contains(Some(#[trigger] ids[k])) by {
            assert(before.contains(Some(ids[k])));
        }
    }
}

proof fn lemma_count_after_assigning(assigned: Seq<Option<usize>>, place: int, node: usize, count: int)
    requires
        0 <= place < assigned.len(),
        0 <= count <= assigned.len(),
        assigned[place] is None,
    ensures
        assigned_count(assigned.update(place, Some(node)), count) == assigned_count(assigned, count)
            + if place < count {
            1int
        } else {
            0int
        },
    decreases count,
{
    if count > 0 {
        lemma_count_after_assigning(assigned, place, node, count - 1);
    }
}

proof fn lemma_count_of_none(assigned: Seq<Option<usize>>, count: int)
    requires
        0 <= count <= assigned.len(),
        forall|i: int| 0 <= i < assigned.len() ==> (#[trigger] assigned[i]) is None,
    ensures
        assigned_count(assigned, count) == 0,
    decreases count,
{
    if count > 0 {
        lemma_count_of_none(assigned, count - 1);
    }
}

/// A sample of places that are all different holds no place twice and no
/// place that is not there.
proof fn lemma_sample_of_places(picked: Seq<usize>, pool: Seq<usize>, amount: nat)
    requires
        is_sample_of(picked, pool, amount),
        pool.no_duplicates(),
    ensures
        picked.no_duplicates(),
        forall|k: int| 0 <= k < picked.len() ==> pool.contains(#[trigger] picked[k]),
{
    broadcast use vstd::seq_lib::group_to_multiset_ensures;

    pool.lemma_multiset_has_no_duplicates();
    assert forall|x: usize| picked.to_multiset().contains(x) implies picked.to_multiset().count(x)
        == 1 by {
        assert(picked.to_multiset().count(x) <= pool.to_multiset().count(x));
        assert(pool.to_multiset().contains(x));
    }
    picked.lemma_multiset_has_no_duplicates_conv();
    assert forall|k: int| 0 <= k < picked.len() implies pool.contains(#[trigger] picked[k]) by {
        assert(picked.contains(picked[k]));
        assert(picked.to_multiset().count(picked[k]) > 0);
        assert(picked.to_multiset().count(picked[k]) <= pool.to_multiset().count(picked[k]));
    }
}

/// Assigns each of `ids` to one of `slots` places, chosen at random, no place
/// to two of them.
pub fn assign_at_random(ids: &Vec<usize>, slots: usize) -> (assigned: Vec<Option<usize>>)
    requires
        ids@.no_duplicates(),
        ids@.len() <= slots,
    ensures
        assigned@.len() == slots,
        holds_exactly(assigned@, ids@),
        assigned_count(assigned@, slots as int) == ids@.len(),
{
    let mut pool: Vec<usize> = Vec::new();
    let mut assigned: Vec<Option<usize>> = Vec::new();
    while pool.len() < slots
        invariant
            pool@.len() <= slots,
            assigned@.len() == pool@.len(),
            forall|i: int| 0 <= i < pool@.len() ==> pool@[i] == i,
            forall|i: int| 0 <= i < assigned@.len() ==> (#[trigger] assigned@[i]) is None,
        decreases slots - pool@.len(),
    {
        pool.push(pool.len());
        assigned.push(None);
    }
    let mut picked = choose_multiple(&pool, ids.len());
    let ghost sample = picked@;
    shuffle(&mut picked);
    proof {
        broadcast use vstd::seq_lib::group_to_multiset_ensures;

        assert(picked@.len() == picked@.to_multiset().len());
        assert(sample.len() == sample.to_multiset().len());
        assert(is_sample_of(picked@, pool@, ids@.len()));
        lemma_sample_of_places(picked@, pool@, ids@.len());
        assert forall|k: int| 0 <= k < picked@.len() implies (#[trigger] picked@[k]) < slots by {
            assert(pool@.contains(picked@[k]));
            let i = choose|i: int| 0 <= i < pool@.len() && pool@[i] == picked@[k];
        }
        lemma_count_of_none(assigned@, slots as int);
    }
    let mut k: usize = 0;
    while k < ids.len()
        invariant
            k <= ids@.len() == picked@.len(),
            ids@.no_duplicates(),
            picked@.no_duplicates(),
            assigned@.len() == slots,
            forall|j: int| 0 <= j < picked@.len() ==> (#[trigger] picked@[j]) < slots,
            forall|j: int| 0 <= j < k ==> assigned@[picked@[j] as int] == Some(ids@[j]),
            forall|i: int|
                0 <= i < slots && (#[trigger] assigned@[i]) is Some ==> exists|j: int|
                    0 <= j < k && picked@[j] == i,
            assigned_count(assigned@, slots as int) == k,
        decreases ids@.len() - k,
    {
        let place = picked[k];
        proof {
            if assigned@[place as int] is Some {
                let j = choose|j: int| 0 <= j < k && picked@[j] == place;
                assert(picked@[j] == picked@[k as int]);
            }
            lemma_count_after_assigning(assigned@, place as int, ids@[k as int], slots as int);
        }
        let ghost before = assigned@;
        assigned.set(place, Some(ids[k]));
        proof {
            assert forall|j: int| 0 <= j < k + 1 implies assigned@[picked@[j] as int] == Some(
                ids@[j],
            ) by {
                if j < k {
                    assert(before[picked@[j] as int] == Some(ids@[j]));
                }
            }
            assert forall|i: int| 0 <= i < slots && (#[trigger] assigned@[i]) is Some implies exists|
                j: int,
            | 0 <= j < k + 1 && picked@[j] == i by {
                if i == place {
                    assert(picked@[k as int] == i);
                } else {
                    assert(before[i] is Some);
                    let j = choose|j: int| 0 <= j < k && picked@[j] == i;
                    assert(picked@[j] == i);
                }
            }
        }
        k += 1;
    }
    proof {
        assert forall|i: int, j: int|
            0 <= i < j < assigned@.len() && (#[trigger] assigned@[i]) is Some implies assigned@[i]
            != #[trigger] assigned@[j] by {
            if assigned@[j] is Some {
                let a = choose|a: int| 0 <= a < k && picked@[a] == i;
                let b = choose|b: int| 0 <= b < k && picked@[b] == j;
                assert(assigned@[i] == Some(ids@[a]));
                assert(assigned@[j] == Some(ids@[b]));
            }
        }
        assert forall|i: int|
            0 <= i < assigned@.len() && (#[trigger] assigned@[i]) is Some implies ids@.contains(
            assigned@[i].unwrap(),
        ) by {
            let a = choose|a: int| 0 <= a < k && picked@[a] == i;
            assert(assigned@[i] == Some(ids@[a]));
        }
        assert forall|j: int| 0 <= j < ids@.len() implies assigned@.contains(
            Some(#[trigger] ids@[j]),
        ) by {
            assert(assigned@[picked@[j] as int] == Some(ids@[j]));
        }
    }
    assigned
}


/// Whether `edge` is routed over the fabric: every edge is, but one to the
/// clock of a logic cell.
pub open spec fn is_routed(nodes: Seq<ImplGraphNode>, edge: ImplEdge) -> bool {
    match (nodes[edge.target as int], edge.weight) {
        (ImplGraphNode::LogicCell(_), ImplGraphEdge::LogicCellInput(_)) => true,
        (ImplGraphNode::ModulePort(_), ImplGraphEdge::ModulePortInput) => true,
        _ => false,
    }
}

/// Whether none of `edges` is routed over the fabric.
pub open spec fn nothing_to_route(nodes: Seq<ImplGraphNode>, edges: Seq<ImplEdge>) -> bool {
    forall|i: int| 0 <= i < edges.len() ==> !is_routed(nodes, #[trigger] edges[i])
}

/// A placement of a design on a device: the logic cells and I/O blocks of
/// the device, and for each of them the node of the implementation graph
/// that is assigned to it, if any.
#[derive(Debug)]
pub struct RoutingConfiguration {
    topology: DeviceTopology,
    all_logic_cell_coords: Vec<LogicCellCoordinates>,
    all_io_block_coords: Vec<IoBlockCoordinates>,
    assigned_logic_cell_coords: Vec<Option<usize>>,
    assigned_io_block_coords: Vec<Option<usize>>,
}

/// The place at which `assigned` holds `node`.
pub open spec fn place_of(assigned: Seq<Option<usize>>, node: usize) -> int {
    choose|i: int| 0 <= i < assigned.len() && assigned[i] == Some(node)
}

impl RoutingConfiguration {
    /// The device on which the design is placed.
    pub closed spec fn topology(&self) -> DeviceTopology {
        self.topology
    }

    /// Every logic cell of the device.
    pub closed spec fn logic_cell_coords(&self) -> Seq<LogicCellCoordinates> {
        self.all_logic_cell_coords@
    }

    /// Every I/O block of the device.
    pub closed spec fn io_block_coords(&self) -> Seq<IoBlockCoordinates> {
        self.all_io_block_coords@
    }

    /// For each logic cell of the device, the node assigned to it.
    pub closed spec fn logic_cells(&self) -> Seq<Option<usize>> {
        self.assigned_logic_cell_coords@
    }

    /// For each I/O block of the device, the node assigned to it.
    pub closed spec fn io_blocks(&self) -> Seq<Option<usize>> {
        self.assigned_io_block_coords@
    }

    /// The device fits, its logic cells and I/O blocks are all listed, each
    /// once and at its place in the device's order, and no node is assigned
    /// to two of them.
    pub open spec fn well_formed(&self) -> bool {
        &&& self.topology().spec_fits()
        &&& self.logic_cell_coords().len() == self.topology().logic_cell_count()
        &&& self.io_block_coords().len() == self.topology().io_block_count()
        &&& forall|c: LogicCellCoordinates| #[trigger]
            self.topology().has_logic_cell(c) ==> {
                let place = self.topology().cell_ordinal(c);
                0 <= place < self.logic_cell_coords().len() && self.logic_cell_coords()[place] == c
            }
        &&& forall|c: IoBlockCoordinates| #[trigger]
            self.topology().has_io_block(c) ==> {
                let place = self.topology().io_ordinal(c);
                0 <= place < self.io_block_coords().len() && self.io_block_coords()[place] == c
            }
        &&& forall|i: int|
            0 <= i < self.logic_cell_coords().len() ==> self.topology().has_logic_cell(
                #[trigger] self.logic_cell_coords()[i],
            )
        &&& forall|i: int|
            0 <= i < self.io_block_coords().len() ==> self.topology().has_io_block(
                #[trigger] self.io_block_coords()[i],
            )
        &&& self.logic_cells().len() == self.logic_cell_coords().len()
        &&& self.io_blocks().len() == self.io_block_coords().len()
        &&& injective(self.logic_cells())
        &&& injective(self.io_blocks())
    }

    /// Whether every logic cell of the graph is assigned to a logic cell of
    /// the device and every module port to an I/O block, and nothing else is
    /// assigned.
    pub open spec fn places(&self, nodes: Seq<ImplGraphNode>) -> bool {
        &&& forall|i: int|
            0 <= i < self.logic_cells().len() && (#[trigger] self.logic_cells()[i]) is Some
                ==> is_kind(nodes, self.logic_cells()[i].unwrap() as int, true)
        &&& forall|id: usize| #[trigger]
            is_kind(nodes, id as int, true) ==> self.logic_cells().contains(Some(id))
        &&& forall|i: int|
            0 <= i < self.io_blocks().len() && (#[trigger] self.io_blocks()[i]) is Some ==> is_kind(
                nodes,
                self.io_blocks()[i].unwrap() as int,
                false,
            )
        &&& forall|id: usize| #[trigger]
            is_kind(nodes, id as int, false) ==> self.io_blocks().contains(Some(id))
    }

    /// A copy of the placement.
    pub fn snapshot(&self) -> (copy: Self)
        ensures
            copy.topology() == self.topology(),
            copy.logic_cell_coords() == self.logic_cell_coords(),
            copy.io_block_coords() == self.io_block_coords(),
            copy.logic_cells() == self.logic_cells(),
            copy.io_blocks() == self.io_blocks(),
    {
        let mut all_logic_cell_coords: Vec<LogicCellCoordinates> = Vec::new();
        let mut assigned_logic_cell_coords: Vec<Option<usize>> = Vec::new();
        let mut i: usize = 0;
        while i < self.all_logic_cell_coords.len()
            invariant
                i <= self.all_logic_cell_coords@.len(),
                all_logic_cell_coords@ == self.all_logic_cell_coords@.take(i as int),
            decreases self.all_logic_cell_coords@.len() - i,
        {
            all_logic_cell_coords.push(self.all_logic_cell_coords[i]);
            assert(self.all_logic_cell_coords@.take(i + 1) == self.all_logic_cell_coords@.take(
                i as int,
            ).push(self.all_logic_cell_coords@[i as int]));
            i += 1;
        }
        assert(self.all_logic_cell_coords@.take(i as int) == self.all_logic_cell_coords@);
        i = 0;
        while i < self.assigned_logic_cell_coords.len()
            invariant
                i <= self.assigned_logic_cell_coords@.len(),
                assigned_logic_cell_coords@ == self.assigned_logic_cell_coords@.take(i as int),
            decreases self.assigned_logic_cell_coords@.len() - i,
        {
            assigned_logic_cell_coords.push(self.assigned_logic_cell_coords[i]);
            assert(self.assigned_logic_cell_coords@.take(i + 1)
                == self.assigned_logic_cell_coords@.take(i as int).push(
                self.assigned_logic_cell_coords@[i as int],
            ));
            i += 1;
        }
        assert(self.assigned_logic_cell_coords@.take(i as int) == self.assigned_logic_cell_coords@);
        let mut all_io_block_coords: Vec<IoBlockCoordinates> = Vec::new();
        let mut assigned_io_block_coords: Vec<Option<usize>> = Vec::new();
        i = 0;
        while i < self.all_io_block_coords.len()
            invariant
                i <= self.all_io_block_coords@.len(),
                all_io_block_coords@ == self.all_io_block_coords@.take(i as int),
            decreases self.all_io_block_coords@.len() - i,
        {
            all_io_block_coords.push(self.all_io_block_coords[i]);
            assert(self.all_io_block_coords@.take(i + 1) == self.all_io_block_coords@.take(
                i as int,
            ).push(self.all_io_block_coords@[i as int]));
            i += 1;
        }
        assert(self.all_io_block_coords@.take(i as int) == self.all_io_block_coords@);
        i = 0;
        while i < self.assigned_io_block_coords.len()
            invariant
                i <= self.assigned_io_block_coords@.len(),
                assigned_io_block_coords@ == self.assigned_io_block_coords@.take(i as int),
            decreases self.assigned_io_block_coords@.len() - i,
        {
            assigned_io_block_coords.push(self.assigned_io_block_coords[i]);
            assert(self.assigned_io_block_coords@.take(i + 1)
                == self.assigned_io_block_coords@.take(i as int).push(
                self.assigned_io_block_coords@[i as int],
            ));
            i += 1;
        }
        assert(self.assigned_io_block_coords@.take(i as int) == self.assigned_io_block_coords@);
        RoutingConfiguration {
            topology: self.topology,
            all_logic_cell_coords,
            all_io_block_coords,
            assigned_logic_cell_coords,
            assigned_io_block_coords,
        }
    }

    /// The logic cell of the device on which node `id` of the
    /// implementation graph is placed, if it is placed on one.
    pub fn logic_cell_of(&self, id: usize) -> (coords: Option<LogicCellCoordinates>)
        requires
            self.well_formed(),
        ensures
            match coords {
                Some(cell) => self.logic_cells().contains(Some(id)) && cell == self.cell_of(id),
                None => !self.logic_cells().contains(Some(id)),
            },
    {
        let mut place: usize = 0;
        while place < self.assigned_logic_cell_coords.len()
            invariant
                place <= self.logic_cells().len(),
                self.well_formed(),
                forall|at: int| 0 <= at < place ==> self.logic_cells()[at] != Some(id),
            decreases self.logic_cells().len() - place,
        {
            if self.assigned_logic_cell_coords[place] == Some(id) {
                proof {
                    let at = place_of(self.logic_cells(), id);
                    if at < place {
                        assert(self.logic_cells()[at] != self.logic_cells()[place as int]);
                    } else if place < at {
                        assert(self.logic_cells()[place as int] != self.logic_cells()[at]);
                    }
                }
                return Some(self.all_logic_cell_coords[place]);
            }
            place += 1;
        }
        None
    }

    /// The I/O block of the device on which node `id` of the implementation
    /// graph is placed, if it is placed on one.
    pub fn io_block_at(&self, id: usize) -> (coords: Option<IoBlockCoordinates>)
        requires
            self.well_formed(),
        ensures
            match coords {
                Some(block) => self.io_blocks().contains(Some(id)) && block == self.io_block_of(id),
                None => !self.io_blocks().contains(Some(id)),
            },
    {
        let mut place: usize = 0;
        while place < self.assigned_io_block_coords.len()
            invariant
                place <= self.io_blocks().len(),
                self.well_formed(),
                forall|at: int| 0 <= at < place ==> self.io_blocks()[at] != Some(id),
            decreases self.io_blocks().len() - place,
        {
            if self.assigned_io_block_coords[place] == Some(id) {
                proof {
                    let at = place_of(self.io_blocks(), id);
                    if at < place {
                        assert(self.io_blocks()[at] != self.io_blocks()[place as int]);
                    } else if place < at {
                        assert(self.io_blocks()[place as int] != self.io_blocks()[at]);
                    }
                }
                return Some(self.all_io_block_coords[place]);
            }
            place += 1;
        }
        None
    }

    /// A placement of the logic cells and module ports of `impl_graph` on
    /// the device, each at a place chosen at random. It fails where the
    /// device has too few logic cells, and otherwise where it has too few
    /// I/O blocks.
    pub fn initial(topology: &DeviceTopology, impl_graph: &ImplGraph) -> (placed: Result<
        Self,
        RoutingError,
    >)
        requires
            topology.spec_fits(),
        ensures
            ({
                let nodes = impl_nodes(*impl_graph);
                let cells = kind_count(nodes, true, nodes.len() as int);
                let ports = kind_count(nodes, false, nodes.len() as int);
                match placed {
                    Ok(config) => {
                        &&& cells <= topology.logic_cell_count()
                        &&& ports <= topology.io_block_count()
                        &&& config.well_formed()
                        &&& config.topology() == *topology
                        &&& config.places(nodes)
                        &&& assigned_count(config.logic_cells(), config.logic_cells().len() as int)
                            == cells
                        &&& assigned_count(config.io_blocks(), config.io_blocks().len() as int)
                            == ports
                    },
                    Err(error) => if cells > topology.logic_cell_count() {
                        error == (RoutingError::NotEnoughLogicCells {
                            needed: cells as usize,
                            available: topology.logic_cell_count() as usize,
                        })
                    } else {
                        ports > topology.io_block_count() && error == (
                        RoutingError::NotEnoughIoBlocks {
                            needed: ports as usize,
                            available: topology.io_block_count() as usize,
                        })
                    },
                }
            }),
    {
        proof {
            crate::routing::topology::lemma_grid_bound(0, 0, topology.width + 1, topology.height + 1);
            assert(topology.width * topology.height <= (topology.width + 1) * (topology.height + 1))
                by (nonlinear_arith);
        }
        let all_logic_cell_coords = topology.iter_logic_cell_coords();
        let all_io_block_coords = topology.iter_io_block_coords();
        let assigned_logic_cell_coords = match Self::_assign_logic_cell_coords(
            impl_graph,
            &all_logic_cell_coords,
        ) {
            Ok(assigned) => assigned,
            Err(error) => {
                return Err(error);
            },
        };
        let assigned_io_block_coords = match Self::_assign_io_block_coords(
            impl_graph,
            &all_io_block_coords,
        ) {
            Ok(assigned) => assigned,
            Err(error) => {
                return Err(error);
            },
        };
        let ghost cell_ids = choose|ids: Seq<usize>|
            placed_kind(impl_nodes(*impl_graph), assigned_logic_cell_coords@, ids, true);
        let ghost port_ids = choose|ids: Seq<usize>|
            placed_kind(impl_nodes(*impl_graph), assigned_io_block_coords@, ids, false);
        let config = RoutingConfiguration {
            topology: *topology,
            all_logic_cell_coords,
            all_io_block_coords,
            assigned_logic_cell_coords,
            assigned_io_block_coords,
        };
        proof {
            let nodes = impl_nodes(*impl_graph);
            assert(placed_kind(nodes, config.logic_cells(), cell_ids, true));
            assert(placed_kind(nodes, config.io_blocks(), port_ids, false));
            assert forall|id: usize| #[trigger]
                is_kind(nodes, id as int, true) implies config.logic_cells().contains(Some(id)) by {
                assert(cell_ids.contains(id));
                let k = choose|k: int| 0 <= k < cell_ids.len() && cell_ids[k] == id;
                assert(config.logic_cells().contains(Some(cell_ids[k])));
            }
            assert forall|id: usize| #[trigger]
                is_kind(nodes, id as int, false) implies config.io_blocks().contains(Some(id)) by {
                assert(port_ids.contains(id));
                let k = choose|k: int| 0 <= k < port_ids.len() && port_ids[k] == id;
                assert(config.io_blocks().contains(Some(port_ids[k])));
            }
            assert forall|i: int|
                0 <= i < config.logic_cells().len() && (#[trigger] config.logic_cells()[i])
                    is Some implies is_kind(nodes, config.logic_cells()[i].unwrap() as int, true) by {
                assert(cell_ids.contains(config.logic_cells()[i].unwrap()));
            }
            assert forall|i: int|
                0 <= i < config.io_blocks().len() && (#[trigger] config.io_blocks()[i])
                    is Some implies is_kind(nodes, config.io_blocks()[i].unwrap() as int, false) by {
                assert(port_ids.contains(config.io_blocks()[i].unwrap()));
            }
        }
        Ok(config)
    }

    fn _assign_logic_cell_coords(
        impl_graph: &ImplGraph,
        all_coords: &Vec<LogicCellCoordinates>,
    ) -> (assigned: Result<Vec<Option<usize>>, RoutingError>)
        ensures
            ({
                let nodes = impl_nodes(*impl_graph);
                let needed = kind_count(nodes, true, nodes.len() as int);
                match assigned {
                    Ok(places) => needed <= all_coords@.len() && places@.len() == all_coords@.len()
                        && assigned_count(places@, places@.len() as int) == needed && exists|
                        ids: Seq<usize>,
                    | placed_kind(nodes, places@, ids, true),
                    Err(error) => needed > all_coords@.len() && error == (
                    RoutingError::NotEnoughLogicCells {
                        needed: needed as usize,
                        available: all_coords@.len() as usize,
                    }),
                }
            }),
    {
        let logic_cell_indices = nodes_of_kind(impl_graph, true);
        let logic_cells_required = logic_cell_indices.len();
        if all_coords.len() < logic_cells_required {
            Err(
                RoutingError::NotEnoughLogicCells {
                    needed: logic_cells_required,
                    available: all_coords.len(),
                },
            )
        } else {
            let places = assign_at_random(&logic_cell_indices, all_coords.len());
            assert(placed_kind(impl_nodes(*impl_graph), places@, logic_cell_indices@, true));
            Ok(places)
        }
    }

    fn _assign_io_block_coords(impl_graph: &ImplGraph, all_coords: &Vec<IoBlockCoordinates>) -> (assigned:
        Result<Vec<Option<usize>>, RoutingError>)
        ensures
            ({
                let nodes = impl_nodes(*impl_graph);
                let ports = kind_count(nodes, false, nodes.len() as int);
                match assigned {
                    Ok(places) => ports <= all_coords@.len() && places@.len() == all_coords@.len()
                        && assigned_count(places@, places@.len() as int) == ports && exists|
                        ids: Seq<usize>,
                    | placed_kind(nodes, places@, ids, false),
                    Err(error) => ports > all_coords@.len() && error == (
                    RoutingError::NotEnoughIoBlocks {
                        needed: ports as usize,
                        available: all_coords@.len() as usize,
                    }),
                }
            }),
    {
        let module_port_indices = nodes_of_kind(impl_graph, false);
        let io_blocks_required = module_port_indices.len();
        if all_coords.len() < io_blocks_required {
            Err(
                RoutingError::NotEnoughIoBlocks {
                    needed: io_blocks_required,
                    available: all_coords.len(),
                },
            )
        } else {
            let places = assign_at_random(&module_port_indices, all_coords.len());
            assert(placed_kind(impl_nodes(*impl_graph), places@, module_port_indices@, false));
            Ok(places)
        }
    }

    /// Makes one move: with a chance in proportion to their numbers among
    /// the logic cells, otherwise among the I/O blocks.
    pub fn mutate(&mut self)
        requires
            old(self).well_formed(),
        ensures
            final(self).well_formed(),
            final(self).topology() == old(self).topology(),
            final(self).logic_cell_coords() == old(self).logic_cell_coords(),
            final(self).io_block_coords() == old(self).io_block_coords(),
            (is_move(old(self).logic_cells(), final(self).logic_cells()) && final(self).io_blocks()
                == old(self).io_blocks()) || (is_move(old(self).io_blocks(), final(self).io_blocks())
                && final(self).logic_cells() == old(self).logic_cells()),
            final(self).logic_cells().to_multiset() == old(self).logic_cells().to_multiset(),
            final(self).io_blocks().to_multiset() == old(self).io_blocks().to_multiset(),
            forall|nodes: Seq<ImplGraphNode>| #[trigger]
                old(self).places(nodes) ==> final(self).places(nodes),
    {
        proof {
            self.topology.lemma_node_count_bound();
        }
        let logic_cell_count = self.all_logic_cell_coords.len();
        let io_block_count = self.all_io_block_coords.len();
        let drawn = random_below(logic_cell_count + io_block_count);
        if drawn < logic_cell_count {
            swap_positions(&mut self.assigned_logic_cell_coords);
        } else {
            swap_positions(&mut self.assigned_io_block_coords);
        }
        proof {
            lemma_move_keeps(old(self).logic_cells(), self.logic_cells());
            lemma_move_keeps(old(self).io_blocks(), self.io_blocks());
            assert forall|nodes: Seq<ImplGraphNode>| #[trigger]
                old(self).places(nodes) implies self.places(nodes) by {
                lemma_move_keeps_kind(nodes, old(self).logic_cells(), self.logic_cells(), true);
                lemma_move_keeps_kind(nodes, old(self).io_blocks(), self.io_blocks(), false);
            }
        }
    }
}

/// Whether `places` holds exactly the nodes `ids`, which are the logic cells
/// of the graph, or its module ports.
pub open spec fn placed_kind(
    nodes: Seq<ImplGraphNode>,
    places: Seq<Option<usize>>,
    ids: Seq<usize>,
    cells: bool,
) -> bool {
    &&& holds_exactly(places, ids)
    &&& forall|id: usize| #[trigger] ids.contains(id) <==> is_kind(nodes, id as int, cells)
}

/// A move, or none, keeps an assignment injective, of the same length, and
/// with the same nodes.
pub proof fn lemma_move_keeps(before: Seq<Option<usize>>, after: Seq<Option<usize>>)
    requires
        is_move(before, after) || after == before,
    ensures
        after.len() == before.len(),
        after.to_multiset() == before.to_multiset(),
        injective(before) ==> injective(after),
        forall|node: Option<usize>| before.contains(node) <==> after.contains(node),
{
    if after != before {
        let (a, b) = choose|a: int, b: int|
            #![trigger swapped(before, a, b)]
            0 <= a < before.len() && 0 <= b < before.len() && a != b && before[a] is Some && after
                == swapped(before, a, b);
        lemma_swapped(before, a, b);
    }
}

proof fn lemma_move_keeps_kind(
    nodes: Seq<ImplGraphNode>,
    before: Seq<Option<usize>>,
    after: Seq<Option<usize>>,
    cells: bool,
)
    requires
        is_move(before, after) || after == before,
        forall|i: int|
            0 <= i < before.len() && (#[trigger] before[i]) is Some ==> is_kind(
                nodes,
                before[i].unwrap() as int,
                cells,
            ),
    ensures
        forall|i: int|
            0 <= i < after.len() && (#[trigger] after[i]) is Some ==> is_kind(
                nodes,
                after[i].unwrap() as int,
                cells,
            ),
{
    lemma_move_keeps(before, after);
    assert forall|i: int| 0 <= i < after.len() && (#[trigger] after[i]) is Some implies is_kind(
        nodes,
        after[i].unwrap() as int,
        cells,
    ) by {
        assert(after.contains(after[i]));
        assert(before.contains(after[i]));
        let j = choose|j: int| 0 <= j < before.len() && before[j] == after[i];
        assert(before[j] is Some);
    }
}


/// For each of the first `node_count` nodes, the place at which `assigned`
/// holds it, if it does.
pub fn places_by_node(assigned: &Vec<Option<usize>>, node_count: usize) -> (found: Vec<
    Option<usize>,
>)
    ensures
        found@.len() == node_count,
        forall|id: int|
            0 <= id < node_count ==> match #[trigger] found@[id] {
                Some(place) => place < assigned@.len() && assigned@[place as int] == Some(
                    id as usize,
                ),
                None => !assigned@.contains(Some(id as usize)),
            },
{
    let mut found: Vec<Option<usize>> = Vec::new();
    while found.len() < node_count
        invariant
            found@.len() <= node_count,
            forall|id: int| 0 <= id < found@.len() ==> (#[trigger] found@[id]) is None,
        decreases node_count - found@.len(),
    {
        found.push(None);
    }
    let mut place: usize = 0;
    while place < assigned.len()
        invariant
            place <= assigned@.len(),
            found@.len() == node_count,
            forall|id: int|
                0 <= id < node_count ==> match #[trigger] found@[id] {
                    Some(at) => at < place && assigned@[at as int] == Some(id as usize),
                    None => forall|at: int| 0 <= at < place ==> assigned@[at] != Some(id as usize),
                },
        decreases assigned@.len() - place,
    {
        if let Some(node) = assigned[place] {
            if node < node_count {
                found.set(node, Some(place));
            }
        }
        place += 1;
    }
    found
}

impl RoutingConfiguration {
    /// The logic cell of the device to which node `id` is assigned.
    pub open spec fn cell_of(&self, id: usize) -> LogicCellCoordinates {
        self.logic_cell_coords()[place_of(self.logic_cells(), id)]
    }

    /// The I/O block of the device to which node `id` is assigned.
    pub open spec fn io_block_of(&self, id: usize) -> IoBlockCoordinates {
        self.io_block_coords()[place_of(self.io_blocks(), id)]
    }

    /// The node of the fabric that drives what node `id` of the
    /// implementation graph drives: the output of its logic cell, or its I/O
    /// block.
    pub open spec fn fabric_source(&self, nodes: Seq<ImplGraphNode>, id: usize) -> RoutingGraphNode {
        match nodes[id as int] {
            ImplGraphNode::LogicCell(_) => RoutingGraphNode::LogicCellOutput {
                coords: self.cell_of(id),
            },
            ImplGraphNode::ModulePort(_) => RoutingGraphNode::IoBlock { coords: self.io_block_of(id) },
        }
    }

    /// The node of the fabric at which `edge` ends: an input of the logic
    /// cell of its target, or the I/O block of its target. An edge to the
    /// clock of a logic cell ends at no node of the fabric.
    pub open spec fn fabric_sink(&self, nodes: Seq<ImplGraphNode>, edge: ImplEdge) -> Option<
        RoutingGraphNode,
    > {
        match (nodes[edge.target as int], edge.weight) {
            (ImplGraphNode::LogicCell(_), ImplGraphEdge::LogicCellInput(input)) => Some(
                RoutingGraphNode::LogicCellInput { coords: self.cell_of(edge.target), input },
            ),
            (ImplGraphNode::ModulePort(_), ImplGraphEdge::ModulePortInput) => Some(
                RoutingGraphNode::IoBlock { coords: self.io_block_of(edge.target) },
            ),
            _ => None,
        }
    }

    /// The netlist of the first `count` of `edges`: each edge but those to a
    /// clock adds the node at which it ends to the net of the node that
    /// drives it.
    pub open spec fn spec_netlist(
        &self,
        nodes: Seq<ImplGraphNode>,
        edges: Seq<ImplEdge>,
        count: int,
    ) -> Seq<(usize, Seq<usize>)>
        decreases count,
    {
        if count <= 0 {
            Seq::empty()
        } else {
            let before = self.spec_netlist(nodes, edges, count - 1);
            let edge = edges[count - 1];
            match self.fabric_sink(nodes, edge) {
                None => before,
                Some(sink) => net_insert(
                    before,
                    self.topology().index_of(self.fabric_source(nodes, edge.source)) as usize,
                    self.topology().index_of(sink) as usize,
                ),
            }
        }
    }

    /// A design whose edges all lead to clocks has an empty netlist, however
    /// it is placed.
    pub proof fn lemma_nothing_to_route(&self, nodes: Seq<ImplGraphNode>, edges: Seq<ImplEdge>, count: int)
        requires
            nothing_to_route(nodes, edges),
            count <= edges.len(),
        ensures
            self.spec_netlist(nodes, edges, count) == Seq::<(usize, Seq<usize>)>::empty(),
        decreases count,
    {
        if count > 0 {
            self.lemma_nothing_to_route(nodes, edges, count - 1);
            assert(!is_routed(nodes, edges[count - 1]));
        }
    }

    /// The netlist to be routed: for every edge of the implementation graph
    /// but those to a clock, the node of the fabric at which it ends is a
    /// sink of the node of the fabric that drives it.
    pub fn generate_netlist(&self, impl_graph: &ImplGraph, node_index_map: &NodeIndexMap) -> (netlist:
        RoutingNetList)
        requires
            self.well_formed(),
            self.places(impl_nodes(*impl_graph)),
            impl_graph_is_legal(*impl_graph),
            node_index_map.topology() == self.topology(),
        ensures
            netlist.well_formed(),
            netlist.within(self.topology().node_count() as nat),
            netlist@ == self.spec_netlist(
                impl_nodes(*impl_graph),
                impl_edges(*impl_graph),
                impl_edges(*impl_graph).len() as int,
            ),
    {
        let ghost nodes = impl_nodes(*impl_graph);
        let ghost edges = impl_edges(*impl_graph);
        let node_count = impl_node_count(impl_graph);
        let cell_at = places_by_node(&self.assigned_logic_cell_coords, node_count);
        let io_at = places_by_node(&self.assigned_io_block_coords, node_count);
        let edge_count = impl_edge_count(impl_graph);
        let mut netlist = RoutingNetList::new();
        assert(netlist@ =~= Seq::<(usize, Seq<usize>)>::empty());
        let mut k: usize = 0;
        while k < edge_count
            invariant
                k <= edge_count == edges.len(),
                nodes == impl_nodes(*impl_graph),
                edges == impl_edges(*impl_graph),
                node_count == nodes.len(),
                self.well_formed(),
                self.places(nodes),
                impl_graph_is_legal(*impl_graph),
                node_index_map.topology() == self.topology(),
                cell_at@.len() == node_count,
                io_at@.len() == node_count,
                forall|id: int|
                    0 <= id < node_count ==> match #[trigger] cell_at@[id] {
                        Some(place) => place < self.logic_cells().len() && self.logic_cells()[place as int]
                            == Some(id as usize),
                        None => !self.logic_cells().contains(Some(id as usize)),
                    },
                forall|id: int|
                    0 <= id < node_count ==> match #[trigger] io_at@[id] {
                        Some(place) => place < self.io_blocks().len() && self.io_blocks()[place as int]
                            == Some(id as usize),
                        None => !self.io_blocks().contains(Some(id as usize)),
                    },
                netlist.well_formed(),
                netlist.within(self.topology().node_count() as nat),
                netlist@ == self.spec_netlist(nodes, edges, k as int),
            decreases edge_count - k,
        {
            let edge = impl_edge_at(impl_graph, k);
            let routing_source = match impl_node_at(impl_graph, edge.source) {
                ImplGraphNode::LogicCell(_) => RoutingGraphNode::LogicCellOutput {
                    coords: self.placed_cell(&cell_at, edge.source, Ghost(nodes)),
                },
                ImplGraphNode::ModulePort(_) => RoutingGraphNode::IoBlock {
                    coords: self.placed_io_block(&io_at, edge.source, Ghost(nodes)),
                },
            };
            let routing_sink = match (impl_node_at(impl_graph, edge.target), edge.weight) {
                (ImplGraphNode::LogicCell(_), ImplGraphEdge::LogicCellInput(input)) => Some(
                    RoutingGraphNode::LogicCellInput {
                        coords: self.placed_cell(&cell_at, edge.target, Ghost(nodes)),
                        input,
                    },
                ),
                (ImplGraphNode::ModulePort(_), ImplGraphEdge::ModulePortInput) => Some(
                    RoutingGraphNode::IoBlock {
                        coords: self.placed_io_block(&io_at, edge.target, Ghost(nodes)),
                    },
                ),
                _ => None,
            };
            if let Some(sink) = routing_sink {
                netlist.insert(node_index_map.index(routing_source), node_index_map.index(sink));
            }
            k += 1;
        }
        netlist
    }

    /// The logic cell of the device to which logic cell `id` of the design
    /// is assigned.
    fn placed_cell(
        &self,
        cell_at: &Vec<Option<usize>>,
        id: usize,
        Ghost(nodes): Ghost<Seq<ImplGraphNode>>,
    ) -> (coords: LogicCellCoordinates)
        requires
            self.well_formed(),
            self.places(nodes),
            is_kind(nodes, id as int, true),
            cell_at@.len() == nodes.len(),
            forall|node: int|
                0 <= node < nodes.len() ==> match #[trigger] cell_at@[node] {
                    Some(place) => place < self.logic_cells().len() && self.logic_cells()[place as int]
                        == Some(node as usize),
                    None => !self.logic_cells().contains(Some(node as usize)),
                },
        ensures
            coords == self.cell_of(id),
            self.topology().has_logic_cell(coords),
    {
        proof {
            assert(self.logic_cells().contains(Some(id)));
            let at = place_of(self.logic_cells(), id);
            let found = cell_at@[id as int];
            assert(found is Some);
            if found.unwrap() != at {
                if found.unwrap() < at {
                    assert(self.logic_cells()[found.unwrap() as int] != self.logic_cells()[at]);
                } else {
                    assert(self.logic_cells()[at] != self.logic_cells()[found.unwrap() as int]);
                }
            }
        }
        self.all_logic_cell_coords[cell_at[id].unwrap()]
    }

    /// The I/O block of the device to which module port `id` of the design
    /// is assigned.
    fn placed_io_block(
        &self,
        io_at: &Vec<Option<usize>>,
        id: usize,
        Ghost(nodes): Ghost<Seq<ImplGraphNode>>,
    ) -> (coords: IoBlockCoordinates)
        requires
            self.well_formed(),
            self.places(nodes),
            is_kind(nodes, id as int, false),
            io_at@.len() == nodes.len(),
            forall|node: int|
                0 <= node < nodes.len() ==> match #[trigger] io_at@[node] {
                    Some(place) => place < self.io_blocks().len() && self.io_blocks()[place as int]
                        == Some(node as usize),
                    None => !self.io_blocks().contains(Some(node as usize)),
                },
        ensures
            coords == self.io_block_of(id),
            self.topology().has_io_block(coords),
    {
        proof {
            assert(self.io_blocks().contains(Some(id)));
            let at = place_of(self.io_blocks(), id);
            let found = io_at@[id as int];
            assert(found is Some);
            if found.unwrap() != at {
                if found.unwrap() < at {
                    assert(self.io_blocks()[found.unwrap() as int] != self.io_blocks()[at]);
                } else {
                    assert(self.io_blocks()[at] != self.io_blocks()[found.unwrap() as int]);
                }
            }
        }
        self.all_io_block_coords[io_at[id].unwrap()]
    }
}

} // verus!
