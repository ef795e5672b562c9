//! The numbering of the nodes of a device: which node of the routing graph
//! has which index.

use vstd::prelude::*;
use crate::routing::topology::{
    lemma_grid_bound, lemma_grid_order, CardinalDirection, DeviceTopology, RoutingGraphNode,
    SwitchBlockChannel, SwitchBlockCoordinates, SwitchBlockPort, MAX_SWITCH_BLOCKS,
};

verus! {

impl SwitchBlockPort {
    /// The place of a port among the sixteen on one face of a switch block:
    /// side after side, four channels each.
    pub open spec fn slot(self) -> int {
        self.side.ordinal() * 4 + self.channel.ordinal()
    }

    /// The port of the switch block at `coords` with the given slot.
    pub fn at(coords: SwitchBlockCoordinates, slot: usize) -> (port: Self)
        requires
            slot < 16,
        ensures
            port.coords == coords,
            port.slot() == slot,
    {
        SwitchBlockPort {
            coords,
            side: CardinalDirection::from_ordinal(slot / 4),
            channel: SwitchBlockChannel::from_ordinal(slot % 4),
        }
    }
}

/// Two ports of one switch block with the same slot are the same port.
pub proof fn lemma_port_by_slot(p: SwitchBlockPort, q: SwitchBlockPort)
    requires
        p.coords == q.coords,
        p.slot() == q.slot(),
    ensures
        p == q,
{
}

impl DeviceTopology {
    /// The number of nodes of the device's routing graph: 36 for each switch
    /// block (sixteen inputs, sixteen outputs, four corners), five for each
    /// logic cell (four inputs, one output), one for each I/O block.
    pub open spec fn node_count(&self) -> int {
        36 * self.switch_block_count() + 5 * self.logic_cell_count() + self.io_block_count()
    }

    /// The index of a node in the device's routing graph. The nodes of the
    /// switch blocks come first, block after block: inputs, outputs, corners.
    /// Then come the logic cells, each with its inputs and then its output,
    /// and last the I/O blocks.
    pub open spec fn index_of(&self, node: RoutingGraphNode) -> int {
        match node {
            RoutingGraphNode::SwitchBlockInput(port) => 36 * self.block_ordinal(port.coords)
                + port.slot(),
            RoutingGraphNode::SwitchBlockOutput(port) => 36 * self.block_ordinal(port.coords) + 16
                + port.slot(),
            RoutingGraphNode::SwitchBlockCorner(corner) => 36 * self.block_ordinal(corner.coords)
                + 32 + corner.direction.ordinal(),
            RoutingGraphNode::LogicCellInput { coords, input } => 36 * self.switch_block_count() + 5
                * self.cell_ordinal(coords) + input.ordinal(),
            RoutingGraphNode::LogicCellOutput { coords } => 36 * self.switch_block_count() + 5
                * self.cell_ordinal(coords) + 4,
            RoutingGraphNode::IoBlock { coords } => 36 * self.switch_block_count() + 5
                * self.logic_cell_count() + self.io_ordinal(coords),
        }
    }

    /// A device that fits has fewer nodes than a graph can hold.
    pub proof fn lemma_node_count_bound(&self)
        requires
            self.fits(),
        ensures
            0 < self.switch_block_count() <= MAX_SWITCH_BLOCKS,
            0 <= self.logic_cell_count() <= self.switch_block_count(),
            self.io_block_count() <= 4 * self.switch_block_count(),
            self.node_count() <= 45 * MAX_SWITCH_BLOCKS,
            self.width < MAX_SWITCH_BLOCKS,
            self.height < MAX_SWITCH_BLOCKS,
    {
        let w = self.width as int;
        let h = self.height as int;
        lemma_grid_bound(0, 0, w + 1, h + 1);
        assert((w + 1) * (h + 1) == w * h + w + h + 1) by (nonlinear_arith);
        assert(w * h >= 0) by (nonlinear_arith)
            requires
                w >= 0,
                h >= 0,
        ;
    }

    /// Every node of the device has an index below the number of nodes.
    pub proof fn lemma_index_bound(&self, node: RoutingGraphNode)
        requires
            self.contains(node),
        ensures
            0 <= self.index_of(node) < self.node_count(),
    {
        let w = self.width as int;
        let h = self.height as int;
        assert(w * h >= 0) by (nonlinear_arith)
            requires
                w >= 0,
                h >= 0,
        ;
        match node {
            RoutingGraphNode::SwitchBlockInput(port) => {
                lemma_grid_bound(port.coords.x as int, port.coords.y as int, w + 1, h + 1);
            },
            RoutingGraphNode::SwitchBlockOutput(port) => {
                lemma_grid_bound(port.coords.x as int, port.coords.y as int, w + 1, h + 1);
            },
            RoutingGraphNode::SwitchBlockCorner(corner) => {
                lemma_grid_bound(corner.coords.x as int, corner.coords.y as int, w + 1, h + 1);
            },
            RoutingGraphNode::LogicCellInput { coords, .. } => {
                lemma_grid_bound(coords.x as int, coords.y as int, w, h);
                lemma_grid_bound(0, 0, w + 1, h + 1);
            },
            RoutingGraphNode::LogicCellOutput { coords } => {
                lemma_grid_bound(coords.x as int, coords.y as int, w, h);
                lemma_grid_bound(0, 0, w + 1, h + 1);
            },
            RoutingGraphNode::IoBlock { coords } => {
                lemma_grid_bound(0, 0, w + 1, h + 1);
            },
        }
    }

    /// Which of the three runs of indices a node belongs to: 0 for the nodes
    /// of switch blocks, 1 for those of logic cells, 2 for I/O blocks.
    pub open spec fn family(node: RoutingGraphNode) -> int {
        match node {
            RoutingGraphNode::SwitchBlockInput(_) => 0,
            RoutingGraphNode::SwitchBlockOutput(_) => 0,
            RoutingGraphNode::SwitchBlockCorner(_) => 0,
            RoutingGraphNode::LogicCellInput { .. } => 1,
            RoutingGraphNode::LogicCellOutput { .. } => 1,
            RoutingGraphNode::IoBlock { .. } => 2,
        }
    }

    /// The place, in the device's list, of the switch block, logic cell or
    /// I/O block that a node belongs to.
    pub open spec fn owner_ordinal(&self, node: RoutingGraphNode) -> int {
        match node {
            RoutingGraphNode::SwitchBlockInput(port) => self.block_ordinal(port.coords),
            RoutingGraphNode::SwitchBlockOutput(port) => self.block_ordinal(port.coords),
            RoutingGraphNode::SwitchBlockCorner(corner) => self.block_ordinal(corner.coords),
            RoutingGraphNode::LogicCellInput { coords, .. } => self.cell_ordinal(coords),
            RoutingGraphNode::LogicCellOutput { coords } => self.cell_ordinal(coords),
            RoutingGraphNode::IoBlock { coords } => self.io_ordinal(coords),
        }
    }

    /// The place of a node among the nodes of its switch block or logic cell.
    pub open spec fn node_slot(node: RoutingGraphNode) -> int {
        match node {
            RoutingGraphNode::SwitchBlockInput(port) => port.slot(),
            RoutingGraphNode::SwitchBlockOutput(port) => 16 + port.slot(),
            RoutingGraphNode::SwitchBlockCorner(corner) => 32 + corner.direction.ordinal(),
            RoutingGraphNode::LogicCellInput { input, .. } => input.ordinal(),
            RoutingGraphNode::LogicCellOutput { .. } => 4,
            RoutingGraphNode::IoBlock { .. } => 0,
        }
    }

    proof fn lemma_index_parts(&self, node: RoutingGraphNode)
        requires
            self.contains(node),
        ensures
            Self::family(node) == 0 ==> self.index_of(node) == 36 * self.owner_ordinal(node)
                + Self::node_slot(node) && 0 <= self.owner_ordinal(node)
                < self.switch_block_count() && 0 <= Self::node_slot(node) < 36,
            Self::family(node) == 1 ==> self.index_of(node) == 36 * self.switch_block_count() + 5
                * self.owner_ordinal(node) + Self::node_slot(node) && 0 <= self.owner_ordinal(node)
                < self.logic_cell_count() && 0 <= Self::node_slot(node) < 5,
            Self::family(node) == 2 ==> self.index_of(node) == 36 * self.switch_block_count() + 5
                * self.logic_cell_count() + self.owner_ordinal(node) && 0 <= self.owner_ordinal(
                node,
            ) < self.io_block_count(),
            self.logic_cell_count() >= 0,
            self.switch_block_count() >= 0,
    {
        let w = self.width as int;
        let h = self.height as int;
        assert(w * h >= 0) by (nonlinear_arith)
            requires
                w >= 0,
                h >= 0,
        ;
        lemma_grid_bound(0, 0, w + 1, h + 1);
        let (x, y, rows) = self.grid_place(node);
        if rows > 0 {
            lemma_grid_bound(x, y, if rows == h {
                w
            } else {
                w + 1
            }, rows);
        }
    }

    proof fn lemma_same_owner(&self, a: RoutingGraphNode, b: RoutingGraphNode)
        requires
            self.contains(a),
            self.contains(b),
            Self::family(a) == Self::family(b),
            self.owner_ordinal(a) == self.owner_ordinal(b),
            Self::node_slot(a) == Self::node_slot(b),
        ensures
            a == b,
    {
        let (ax, ay, ar) = self.grid_place(a);
        let (bx, by, br) = self.grid_place(b);
        if ar > 0 {
            lemma_grid_order(ax, ay, bx, by, ar);
        }
    }

    /// No two nodes of the device share an index.
    pub proof fn lemma_index_injective(&self, a: RoutingGraphNode, b: RoutingGraphNode)
        requires
            self.contains(a),
            self.contains(b),
            self.index_of(a) == self.index_of(b),
        ensures
            a == b,
    {
        self.lemma_index_parts(a);
        self.lemma_index_parts(b);
        let blocks = self.switch_block_count();
        let cells = self.logic_cell_count();
        let (fa, oa, sa) = (Self::family(a), self.owner_ordinal(a), Self::node_slot(a));
        let (fb, ob, sb) = (Self::family(b), self.owner_ordinal(b), Self::node_slot(b));
        assert(fa == fb && oa == ob && sa == sb) by {
            if fa == 0 {
                assert(36 * oa + sa < 36 * blocks);
            }
            if fb == 0 {
                assert(36 * ob + sb < 36 * blocks);
            }
            if fa == 1 {
                assert(5 * oa + sa < 5 * cells);
            }
            if fb == 1 {
                assert(5 * ob + sb < 5 * cells);
            }
        }
        self.lemma_same_owner(a, b);
    }

    /// The column and row of the switch block or logic cell that a node
    /// belongs to, with the number of rows of its grid; zeros for an I/O
    /// block.
    pub open spec fn grid_place(&self, node: RoutingGraphNode) -> (int, int, int) {
        match node {
            RoutingGraphNode::SwitchBlockInput(port) => (
                port.coords.x as int,
                port.coords.y as int,
                self.height + 1,
            ),
            RoutingGraphNode::SwitchBlockOutput(port) => (
                port.coords.x as int,
                port.coords.y as int,
                self.height + 1,
            ),
            RoutingGraphNode::SwitchBlockCorner(corner) => (
                corner.coords.x as int,
                corner.coords.y as int,
                self.height + 1,
            ),
            RoutingGraphNode::LogicCellInput { coords, .. } => (
                coords.x as int,
                coords.y as int,
                self.height as int,
            ),
            RoutingGraphNode::LogicCellOutput { coords } => (
                coords.x as int,
                coords.y as int,
                self.height as int,
            ),
            RoutingGraphNode::IoBlock { .. } => (0, 0, 0),
        }
    }

    /// Whether `node` is a routing resource of this device.
    pub fn has_node(&self, node: RoutingGraphNode) -> (r: bool)
        ensures
            r == self.contains(node),
    {
        match node {
            RoutingGraphNode::SwitchBlockInput(port) => port.coords.x <= self.width
                && port.coords.y <= self.height,
            RoutingGraphNode::SwitchBlockOutput(port) => port.coords.x <= self.width
                && port.coords.y <= self.height,
            RoutingGraphNode::SwitchBlockCorner(corner) => corner.coords.x <= self.width
                && corner.coords.y <= self.height,
            RoutingGraphNode::LogicCellInput { coords, .. } => coords.x < self.width && coords.y
                < self.height,
            RoutingGraphNode::LogicCellOutput { coords } => coords.x < self.width && coords.y
                < self.height,
            RoutingGraphNode::IoBlock { coords } => coords.position <= match coords.direction {
                CardinalDirection::North | CardinalDirection::South => self.width,
                CardinalDirection::West | CardinalDirection::East => self.height,
            },
        }
    }

    /// The index of a node of the device in its routing graph.
    pub fn node_index(&self, node: RoutingGraphNode) -> (index: usize)
        requires
            self.fits(),
            self.contains(node),
        ensures
            index == self.index_of(node),
            index < self.node_count(),
    {
        proof {
            self.lemma_node_count_bound();
            self.lemma_index_bound(node);
            let (x, y, rows) = self.grid_place(node);
            if rows > 0 {
                lemma_grid_bound(x, y, if rows == self.height {
                    self.width as int
                } else {
                    self.width + 1
                }, rows);
                assert(x * rows >= 0) by (nonlinear_arith)
                    requires
                        x >= 0,
                        rows >= 0,
                ;
            }
            assert(self.width * self.height >= 0) by (nonlinear_arith);
        }
        let blocks: usize = (self.width + 1) * (self.height + 1);
        match node {
            RoutingGraphNode::SwitchBlockInput(port) => 36 * (port.coords.x * (self.height + 1)
                + port.coords.y) + (port.side.index() * 4 + port.channel.index()),
            RoutingGraphNode::SwitchBlockOutput(port) => 36 * (port.coords.x * (self.height + 1)
                + port.coords.y) + 16 + (port.side.index() * 4 + port.channel.index()),
            RoutingGraphNode::SwitchBlockCorner(corner) => 36 * (corner.coords.x * (self.height
                + 1) + corner.coords.y) + 32 + corner.direction.index(),
            RoutingGraphNode::LogicCellInput { coords, input } => 36 * blocks + 5 * (coords.x
                * self.height + coords.y) + input.index(),
            RoutingGraphNode::LogicCellOutput { coords } => 36 * blocks + 5 * (coords.x
                * self.height + coords.y) + 4,
            RoutingGraphNode::IoBlock { coords } => {
                let cells: usize = self.width * self.height;
                let before: usize = match coords.direction {
                    CardinalDirection::North => 0,
                    CardinalDirection::South => self.width + 1,
                    CardinalDirection::West => 2 * (self.width + 1),
                    CardinalDirection::East => 2 * (self.width + 1) + (self.height + 1),
                };
                36 * blocks + 5 * cells + before + coords.position
            },
        }
    }

    /// Whether `nodes` are the nodes of the device, each at its index.
    pub open spec fn holds_nodes(&self, nodes: Seq<RoutingGraphNode>) -> bool {
        &&& nodes.len() == self.node_count()
        &&& self.numbered(nodes)
    }

    /// Whether each of `nodes` is a node of the device and stands at its
    /// index.
    pub open spec fn numbered(&self, nodes: Seq<RoutingGraphNode>) -> bool {
        forall|i: int|
            0 <= i < nodes.len() ==> self.contains(#[trigger] nodes[i]) && self.index_of(nodes[i])
                == i
    }

    /// Every node of the device stands at its index.
    pub proof fn lemma_node_at_index(&self, nodes: Seq<RoutingGraphNode>, node: RoutingGraphNode)
        requires
            self.holds_nodes(nodes),
            self.contains(node),
        ensures
            0 <= self.index_of(node) < nodes.len(),
            nodes[self.index_of(node)] == node,
    {
        self.lemma_index_bound(node);
        self.lemma_index_injective(nodes[self.index_of(node)], node);
    }
}

/// Paired with the routing graph of a device: gives each node of the device
/// its index in the graph.
#[derive(Debug)]
pub struct NodeIndexMap {
    topology: DeviceTopology,
}

impl NodeIndexMap {
    /// The map of the nodes of `topology`.
    pub fn new(topology: DeviceTopology) -> (map: Self)
        requires
            topology.spec_fits(),
        ensures
            map.topology() == topology,
    {
        NodeIndexMap { topology }
    }

    /// The device whose nodes the map knows.
    pub closed spec fn topology(&self) -> DeviceTopology {
        self.topology
    }

    #[verifier::type_invariant]
    spec fn fits_graph(&self) -> bool {
        self.topology.fits()
    }

    /// The device whose nodes the map knows.
    pub fn device(&self) -> (topology: DeviceTopology)
        ensures
            topology == self.topology(),
            topology.spec_fits(),
    {
        proof {
            use_type_invariant(self);
        }
        self.topology
    }

    /// The index of a node of the device.
    pub fn index(&self, node: RoutingGraphNode) -> (index: usize)
        requires
            self@.contains_key(node),
        ensures
            index == self@[node],
            index == self.topology().index_of(node),
            index < self.topology().node_count(),
    {
        proof {
            use_type_invariant(self);
        }
        self.topology.node_index(node)
    }

    /// The index of `node`, if it is a node of the device.
    pub fn get(&self, node: RoutingGraphNode) -> (index: Option<usize>)
        ensures
            index == (if self@.contains_key(node) {
                Some(self@[node])
            } else {
                None
            }),
    {
        proof {
            use_type_invariant(self);
        }
        if self.topology.has_node(node) {
            Some(self.topology.node_index(node))
        } else {
            None
        }
    }
}

impl View for NodeIndexMap {
    type V = Map<RoutingGraphNode, usize>;

    open spec fn view(&self) -> Map<RoutingGraphNode, usize> {
        Map::new(
            |node: RoutingGraphNode| self.topology().contains(node),
            |node: RoutingGraphNode| self.topology().index_of(node) as usize,
        )
    }
}

} // verus!
