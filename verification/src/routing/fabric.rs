//! The routing graph of a device: which nodes are joined by an edge, and the
//! function that builds the graph.

use vstd::prelude::*;
use crate::routing::graph::{
    add_edge, add_node, has_edge, new_graph, passes, routing_edges, routing_nodes, Edge,
    RoutingGraph,
};
use crate::routing::index::{lemma_port_by_slot, NodeIndexMap};
use crate::routing::topology::{
    lemma_grid_bound, lemma_grid_order, CardinalDirection, DeviceTopology, IntercardinalDirection,
    IoBlockCoordinates, LogicCellCoordinates, RoutingGraphNode, SwitchBlockChannel,
    SwitchBlockCoordinates, SwitchBlockCorner, SwitchBlockPort, MAX_SWITCH_BLOCKS,
};
use crate::synthesis::LookUpTableInput;

verus! {

/// After an edge has been added, the edges hold an edge between two nodes
/// where they held one before, or where the new edge joins the two.
pub proof fn lemma_has_edge_push(edges: Seq<Edge>, edge: Edge)
    ensures
        has_edge(edges.push(edge), edge.source as int, edge.target as int),
        forall|source: int, target: int| #[trigger]
            has_edge(edges.push(edge), source, target) <==> has_edge(edges, source, target) || (
            source == edge.source && target == edge.target),
{
    let longer = edges.push(edge);
    assert(longer[edges.len() as int] == edge);
    assert forall|source: int, target: int| #[trigger]
        has_edge(longer, source, target) implies has_edge(edges, source, target) || (source
        == edge.source && target == edge.target) by {
        let k = choose|k: int|
            0 <= k < longer.len() && (#[trigger] longer[k]).source == source && longer[k].target
                == target;
        if k < edges.len() {
            assert(edges[k] == longer[k]);
        }
    }
    assert forall|source: int, target: int| has_edge(edges, source, target) implies #[trigger]
        has_edge(longer, source, target) by {
        let k = choose|k: int|
            0 <= k < edges.len() && (#[trigger] edges[k]).source == source && edges[k].target
                == target;
        assert(longer[k] == edges[k]);
    }
}

/// The quadrant whose logic cell is driven by the outputs on `side` of a
/// switch block: north drives the north-east cell, west the south-west cell,
/// south and east the south-east cell. Nothing drives the north-west cell.
pub open spec fn fed_quadrant(side: CardinalDirection) -> IntercardinalDirection {
    match side {
        CardinalDirection::North => IntercardinalDirection::Northeast,
        CardinalDirection::West => IntercardinalDirection::Southwest,
        CardinalDirection::South => IntercardinalDirection::Southeast,
        CardinalDirection::East => IntercardinalDirection::Southeast,
    }
}

/// The sides of a switch block whose outputs drive the logic cell in
/// `quadrant`.
pub open spec fn spec_feeding_sides(quadrant: IntercardinalDirection) -> Seq<CardinalDirection> {
    match quadrant {
        IntercardinalDirection::Northwest => Seq::empty(),
        IntercardinalDirection::Northeast => seq![CardinalDirection::North],
        IntercardinalDirection::Southwest => seq![CardinalDirection::West],
        IntercardinalDirection::Southeast => seq![CardinalDirection::South, CardinalDirection::East],
    }
}

/// The sides of a switch block whose outputs drive the logic cell in
/// `quadrant`: those for which `fed_quadrant` names the quadrant.
pub fn feeding_sides(quadrant: IntercardinalDirection) -> (sides: Vec<CardinalDirection>)
    ensures
        sides@ == spec_feeding_sides(quadrant),
        forall|side: CardinalDirection|
            fed_quadrant(side) == quadrant <==> #[trigger] sides@.contains(side),
{
    let sides = match quadrant {
        IntercardinalDirection::Northwest => Vec::new(),
        IntercardinalDirection::Northeast => vec![CardinalDirection::North],
        IntercardinalDirection::Southwest => vec![CardinalDirection::West],
        IntercardinalDirection::Southeast => vec![CardinalDirection::South, CardinalDirection::East],
    };
    proof {
        assert forall|side: CardinalDirection| fed_quadrant(side) == quadrant implies #[trigger]
            sides@.contains(side) by {
            if side == CardinalDirection::East {
                assert(sides@[1] == side);
            } else {
                assert(sides@[0] == side);
            }
        }
    }
    sides
}

impl DeviceTopology {
    /// Whether the device's routing graph has an edge from `a` to `b`.
    ///
    /// Inside a switch block every input drives every output on another
    /// side, and every corner drives every output. An output drives the
    /// input of the same channel on the facing side of the next switch block.
    /// A logic cell's output drives the corner that each of its four switch
    /// blocks turns towards it, and its inputs are driven by the outputs of
    /// those blocks as `fed_quadrant` says. A switch block on the rim
    /// exchanges every channel of the rim side with its I/O block.
    pub open spec fn connects(&self, a: RoutingGraphNode, b: RoutingGraphNode) -> bool {
        match (a, b) {
            (
                RoutingGraphNode::SwitchBlockInput(input),
                RoutingGraphNode::SwitchBlockOutput(output),
            ) => self.has_switch_block(output.coords) && input.coords == output.coords
                && input.side != output.side,
            (
                RoutingGraphNode::SwitchBlockCorner(corner),
                RoutingGraphNode::SwitchBlockOutput(output),
            ) => self.has_switch_block(output.coords) && corner.coords == output.coords,
            (
                RoutingGraphNode::SwitchBlockOutput(output),
                RoutingGraphNode::SwitchBlockInput(input),
            ) => self.has_switch_block(output.coords) && self.spec_switch_block_at(
                output.coords,
                output.side,
            ) == Some(input.coords) && input.side == output.side.spec_opposite() && input.channel
                == output.channel,
            (
                RoutingGraphNode::LogicCellOutput { coords },
                RoutingGraphNode::SwitchBlockCorner(corner),
            ) => self.has_switch_block(corner.coords) && self.spec_logic_cell_at(
                corner.coords,
                corner.direction,
            ) == Some(coords),
            (
                RoutingGraphNode::SwitchBlockOutput(output),
                RoutingGraphNode::LogicCellInput { coords, .. },
            ) => self.has_switch_block(output.coords) && self.spec_logic_cell_at(
                output.coords,
                fed_quadrant(output.side),
            ) == Some(coords),
            (RoutingGraphNode::SwitchBlockOutput(output), RoutingGraphNode::IoBlock { coords }) =>
                self.has_switch_block(output.coords) && self.spec_io_block_at(
                    output.coords,
                    output.side,
                ) == Some(coords),
            (RoutingGraphNode::IoBlock { coords }, RoutingGraphNode::SwitchBlockInput(input)) =>
                self.has_switch_block(input.coords) && self.spec_io_block_at(
                    input.coords,
                    input.side,
                ) == Some(coords),
            _ => false,
        }
    }

    /// The base cost of the edge from `a` to `b`: the cost of the channel of
    /// the switch-block port at its end, or at its start where it ends at no
    /// port, and 1 for the edge from a logic cell's output to a corner.
    pub open spec fn link_cost(a: RoutingGraphNode, b: RoutingGraphNode) -> u32 {
        match (a, b) {
            (_, RoutingGraphNode::SwitchBlockOutput(output)) => output.channel.spec_cost(),
            (RoutingGraphNode::SwitchBlockOutput(output), _) => output.channel.spec_cost(),
            (_, RoutingGraphNode::SwitchBlockInput(input)) => input.channel.spec_cost(),
            _ => 1,
        }
    }

    /// Every edge of the fabric is one that the connectivity table allows,
    /// joins two nodes of the device, and costs at least 1.
    pub proof fn lemma_connects_allowed(&self, a: RoutingGraphNode, b: RoutingGraphNode)
        requires
            self.connects(a, b),
        ensures
            a.spec_can_connect_to(b),
            self.contains(a),
            self.contains(b),
            Self::link_cost(a, b) >= 1,
    {
    }

    /// The switch block in whose turn the edge from `a` to `b` is laid.
    spec fn owner(a: RoutingGraphNode, b: RoutingGraphNode) -> SwitchBlockCoordinates {
        match (a, b) {
            (RoutingGraphNode::SwitchBlockOutput(output), _) => output.coords,
            (_, RoutingGraphNode::SwitchBlockOutput(output)) => output.coords,
            (_, RoutingGraphNode::SwitchBlockCorner(corner)) => corner.coords,
            (_, RoutingGraphNode::SwitchBlockInput(input)) => input.coords,
            _ => SwitchBlockCoordinates { x: 0, y: 0 },
        }
    }

    /// The place of the edge from `a` to `b` among the edges laid in the turn
    /// of one switch block. The edges from inputs to outputs have the places
    /// from 0, the edges from corners those from 256, the edges to the next
    /// switch blocks those from 320, the edges of the four logic cells those
    /// from 336, forty for each, and the edges of the I/O blocks those from
    /// 496, so that a turn has 528 places.
    spec fn local_rank(a: RoutingGraphNode, b: RoutingGraphNode) -> int {
        match (a, b) {
            (
                RoutingGraphNode::SwitchBlockInput(input),
                RoutingGraphNode::SwitchBlockOutput(output),
            ) => 16 * input.slot() + output.slot(),
            (
                RoutingGraphNode::SwitchBlockCorner(corner),
                RoutingGraphNode::SwitchBlockOutput(output),
            ) => 256 + 16 * corner.direction.ordinal() + output.slot(),
            (RoutingGraphNode::SwitchBlockOutput(output), RoutingGraphNode::SwitchBlockInput(_)) =>
                320 + output.slot(),
            (RoutingGraphNode::LogicCellOutput { .. }, RoutingGraphNode::SwitchBlockCorner(corner)) =>
                336 + 40 * corner.direction.ordinal(),
            (
                RoutingGraphNode::SwitchBlockOutput(output),
                RoutingGraphNode::LogicCellInput { input, .. },
            ) => 337 + 40 * fed_quadrant(output.side).ordinal() + 8 * input.ordinal() + (
            if output.side == CardinalDirection::East {
                4int
            } else {
                0int
            }) + output.channel.ordinal(),
            (RoutingGraphNode::IoBlock { .. }, RoutingGraphNode::SwitchBlockInput(input)) => 496 + 8
                * input.side.ordinal() + input.channel.ordinal(),
            (RoutingGraphNode::SwitchBlockOutput(output), RoutingGraphNode::IoBlock { .. }) => 500
                + 8 * output.side.ordinal() + output.channel.ordinal(),
            _ => 0,
        }
    }

    /// The place of the edge from `a` to `b` in the order in which the edges
    /// are laid: switch block after switch block.
    spec fn rank(&self, a: RoutingGraphNode, b: RoutingGraphNode) -> int {
        528 * self.block_ordinal(Self::owner(a, b)) + Self::local_rank(a, b)
    }

    proof fn lemma_rank_bound(&self, a: RoutingGraphNode, b: RoutingGraphNode)
        requires
            self.connects(a, b),
        ensures
            self.has_switch_block(Self::owner(a, b)),
            0 <= Self::local_rank(a, b) < 528,
            0 <= self.rank(a, b) < 528 * self.switch_block_count(),
    {
        let c = Self::owner(a, b);
        lemma_grid_bound(c.x as int, c.y as int, self.width + 1, self.height + 1);
    }

    /// An edge whose place lies within the turn of one switch block is laid
    /// in that turn.
    proof fn lemma_rank_owner(
        &self,
        a: RoutingGraphNode,
        b: RoutingGraphNode,
        coords: SwitchBlockCoordinates,
    )
        requires
            self.connects(a, b),
            self.has_switch_block(coords),
            528 * self.block_ordinal(coords) <= self.rank(a, b) < 528 * self.block_ordinal(coords)
                + 528,
        ensures
            Self::owner(a, b) == coords,
            Self::local_rank(a, b) == self.rank(a, b) - 528 * self.block_ordinal(coords),
    {
        self.lemma_rank_bound(a, b);
        let c = Self::owner(a, b);
        assert(self.block_ordinal(c) == self.block_ordinal(coords));
        lemma_grid_order(
            c.x as int,
            c.y as int,
            coords.x as int,
            coords.y as int,
            self.height + 1,
        );
    }

    /// Whether `edge` joins two of `nodes` that the fabric connects, at the
    /// cost that the fabric gives their edge.
    pub open spec fn edge_ok(&self, nodes: Seq<RoutingGraphNode>, edge: Edge) -> bool {
        &&& edge.source < nodes.len()
        &&& edge.target < nodes.len()
        &&& self.connects(nodes[edge.source as int], nodes[edge.target as int])
        &&& edge.weight == Self::link_cost(nodes[edge.source as int], nodes[edge.target as int])
    }

    spec fn edge_rank(&self, nodes: Seq<RoutingGraphNode>, edge: Edge) -> int {
        self.rank(nodes[edge.source as int], nodes[edge.target as int])
    }

    /// The graph holds the device's nodes, and its edges are edges of the
    /// fabric, laid in order, all before place `cursor`.
    spec fn laid(&self, graph: RoutingGraph, cursor: int) -> bool {
        let nodes = routing_nodes(graph);
        let edges = routing_edges(graph);
        &&& self.holds_nodes(nodes)
        &&& edges.len() <= cursor
        &&& forall|k: int|
            0 <= k < edges.len() ==> self.edge_ok(nodes, #[trigger] edges[k]) && self.edge_rank(
                nodes,
                edges[k],
            ) < cursor
        &&& forall|j: int, k: int|
            0 <= j < k < edges.len() ==> self.edge_rank(nodes, #[trigger] edges[j])
                < self.edge_rank(nodes, #[trigger] edges[k])
    }

    /// Every edge of the fabric whose place is before `cursor` is among
    /// `edges`.
    spec fn covered(&self, edges: Seq<Edge>, cursor: int) -> bool {
        forall|a: RoutingGraphNode, b: RoutingGraphNode| #[trigger]
            self.connects(a, b) && self.rank(a, b) < cursor ==> has_edge(
                edges,
                self.index_of(a),
                self.index_of(b),
            )
    }

    spec fn built(&self, graph: RoutingGraph, cursor: int) -> bool {
        self.laid(graph, cursor) && self.covered(routing_edges(graph), cursor)
    }

    /// Lays the edge from `source` to `target`.
    fn link(
        &self,
        graph: &mut RoutingGraph,
        source: RoutingGraphNode,
        target: RoutingGraphNode,
        weight: u32,
        Ghost(cursor): Ghost<int>,
    )
        requires
            self.fits(),
            self.laid(*old(graph), cursor),
            self.connects(source, target),
            weight == Self::link_cost(source, target),
            cursor <= self.rank(source, target),
        ensures
            self.laid(*final(graph), self.rank(source, target) + 1),
            routing_nodes(*final(graph)) == routing_nodes(*old(graph)),
            forall|from: int, to: int| #[trigger]
                has_edge(routing_edges(*final(graph)), from, to) <==> has_edge(
                    routing_edges(*old(graph)),
                    from,
                    to,
                ) || (from == self.index_of(source) && to == self.index_of(target)),
    {
        proof {
            self.lemma_connects_allowed(source, target);
            self.lemma_node_at_index(routing_nodes(*graph), source);
            self.lemma_node_at_index(routing_nodes(*graph), target);
            self.lemma_rank_bound(source, target);
            self.lemma_node_count_bound();
        }
        let from = self.node_index(source);
        let to = self.node_index(target);
        proof {
            lemma_has_edge_push(routing_edges(*graph), Edge { source: from, target: to, weight });
        }
        add_edge(graph, from, to, weight);
    }

    /// Appends the node whose index is the number of nodes so far.
    fn add_numbered(&self, graph: &mut RoutingGraph, node: RoutingGraphNode)
        requires
            self.fits(),
            self.contains(node),
            self.numbered(routing_nodes(*old(graph))),
            self.index_of(node) == routing_nodes(*old(graph)).len(),
        ensures
            self.numbered(routing_nodes(*final(graph))),
            routing_nodes(*final(graph)).len() == routing_nodes(*old(graph)).len() + 1,
            routing_edges(*final(graph)) == routing_edges(*old(graph)),
    {
        proof {
            self.lemma_node_count_bound();
            self.lemma_index_bound(node);
        }
        add_node(graph, node);
    }

    /// Appends the 36 nodes of one switch block.
    fn add_switch_block_nodes(&self, graph: &mut RoutingGraph, coords: SwitchBlockCoordinates)
        requires
            self.fits(),
            self.has_switch_block(coords),
            self.numbered(routing_nodes(*old(graph))),
            routing_nodes(*old(graph)).len() == 36 * self.block_ordinal(coords),
        ensures
            self.numbered(routing_nodes(*final(graph))),
            routing_nodes(*final(graph)).len() == 36 * self.block_ordinal(coords) + 36,
            routing_edges(*final(graph)) == routing_edges(*old(graph)),
    {
        let mut slot: usize = 0;
        while slot < 16
            invariant
                slot <= 16,
                self.fits(),
                self.has_switch_block(coords),
                self.numbered(routing_nodes(*graph)),
                routing_nodes(*graph).len() == 36 * self.block_ordinal(coords) + slot,
                routing_edges(*graph) == routing_edges(*old(graph)),
            decreases 16 - slot,
        {
            self.add_numbered(graph, RoutingGraphNode::SwitchBlockInput(SwitchBlockPort::at(coords, slot)));
            slot += 1;
        }
        slot = 0;
        while slot < 16
            invariant
                slot <= 16,
                self.fits(),
                self.has_switch_block(coords),
                self.numbered(routing_nodes(*graph)),
                routing_nodes(*graph).len() == 36 * self.block_ordinal(coords) + 16 + slot,
                routing_edges(*graph) == routing_edges(*old(graph)),
            decreases 16 - slot,
        {
            self.add_numbered(
                graph,
                RoutingGraphNode::SwitchBlockOutput(SwitchBlockPort::at(coords, slot)),
            );
            slot += 1;
        }
        let mut corner: usize = 0;
        while corner < 4
            invariant
                corner <= 4,
                self.fits(),
                self.has_switch_block(coords),
                self.numbered(routing_nodes(*graph)),
                routing_nodes(*graph).len() == 36 * self.block_ordinal(coords) + 32 + corner,
                routing_edges(*graph) == routing_edges(*old(graph)),
            decreases 4 - corner,
        {
            let direction = IntercardinalDirection::from_ordinal(corner);
            self.add_numbered(
                graph,
                RoutingGraphNode::SwitchBlockCorner(SwitchBlockCorner { coords, direction }),
            );
            corner += 1;
        }
    }

    /// Appends the five nodes of one logic cell.
    fn add_logic_cell_nodes(&self, graph: &mut RoutingGraph, coords: LogicCellCoordinates)
        requires
            self.fits(),
            self.has_logic_cell(coords),
            self.numbered(routing_nodes(*old(graph))),
            routing_nodes(*old(graph)).len() == 36 * self.switch_block_count() + 5
                * self.cell_ordinal(coords),
        ensures
            self.numbered(routing_nodes(*final(graph))),
            routing_nodes(*final(graph)).len() == 36 * self.switch_block_count() + 5
                * self.cell_ordinal(coords) + 5,
            routing_edges(*final(graph)) == routing_edges(*old(graph)),
    {
        let mut i: usize = 0;
        while i < 4
            invariant
                i <= 4,
                self.fits(),
                self.has_logic_cell(coords),
                self.numbered(routing_nodes(*graph)),
                routing_nodes(*graph).len() == 36 * self.switch_block_count() + 5
                    * self.cell_ordinal(coords) + i,
                routing_edges(*graph) == routing_edges(*old(graph)),
            decreases 4 - i,
        {
            let input = LookUpTableInput::from_ordinal(i);
            self.add_numbered(graph, RoutingGraphNode::LogicCellInput { coords, input });
            i += 1;
        }
        self.add_numbered(graph, RoutingGraphNode::LogicCellOutput { coords });
    }

    /// Appends the nodes of the device, each at its index.
    fn add_nodes(&self, graph: &mut RoutingGraph)
        requires
            self.fits(),
            routing_nodes(*old(graph)).len() == 0,
        ensures
            self.holds_nodes(routing_nodes(*final(graph))),
            routing_edges(*final(graph)) == routing_edges(*old(graph)),
    {
        proof {
            self.lemma_node_count_bound();
        }
        let ghost rows = self.height + 1;
        let mut x: usize = 0;
        while x <= self.width
            invariant
                x <= self.width + 1,
                rows == self.height + 1,
                self.fits(),
                self.width < MAX_SWITCH_BLOCKS,
                self.height < MAX_SWITCH_BLOCKS,
                self.numbered(routing_nodes(*graph)),
                routing_nodes(*graph).len() == 36 * (x * rows),
                routing_edges(*graph) == routing_edges(*old(graph)),
            decreases self.width + 1 - x,
        {
            let mut y: usize = 0;
            while y <= self.height
                invariant
                    x <= self.width,
                    y <= self.height + 1,
                    rows == self.height + 1,
                    self.fits(),
                    self.width < MAX_SWITCH_BLOCKS,
                    self.height < MAX_SWITCH_BLOCKS,
                    self.numbered(routing_nodes(*graph)),
                    routing_nodes(*graph).len() == 36 * (x * rows + y),
                    routing_edges(*graph) == routing_edges(*old(graph)),
                decreases self.height + 1 - y,
            {
                self.add_switch_block_nodes(graph, SwitchBlockCoordinates { x, y });
                y += 1;
            }
            proof {
                assert(x * rows + rows == (x + 1) * rows) by (nonlinear_arith);
            }
            x += 1;
        }
        let ghost cell_rows = self.height as int;
        x = 0;
        assert(0 * cell_rows == 0);
        while x < self.width
            invariant
                x <= self.width,
                cell_rows == self.height,
                rows == self.height + 1,
                self.fits(),
                self.numbered(routing_nodes(*graph)),
                routing_nodes(*graph).len() == 36 * self.switch_block_count() + 5 * (x
                    * cell_rows),
                routing_edges(*graph) == routing_edges(*old(graph)),
            decreases self.width - x,
        {
            let mut y: usize = 0;
            while y < self.height
                invariant
                    x < self.width,
                    y <= self.height,
                    cell_rows == self.height,
                    self.fits(),
                    self.numbered(routing_nodes(*graph)),
                    routing_nodes(*graph).len() == 36 * self.switch_block_count() + 5 * (x
                        * cell_rows + y),
                    routing_edges(*graph) == routing_edges(*old(graph)),
                decreases self.height - y,
            {
                self.add_logic_cell_nodes(graph, LogicCellCoordinates { x, y });
                y += 1;
            }
            proof {
                assert(x * cell_rows + cell_rows == (x + 1) * cell_rows) by (nonlinear_arith);
            }
            x += 1;
        }
        let mut side: usize = 0;
        while side < 4
            invariant
                side <= 4,
                self.fits(),
                self.width < MAX_SWITCH_BLOCKS,
                self.height < MAX_SWITCH_BLOCKS,
                self.numbered(routing_nodes(*graph)),
                routing_nodes(*graph).len() == 36 * self.switch_block_count() + 5
                    * self.logic_cell_count() + self.side_base(side as int),
                routing_edges(*graph) == routing_edges(*old(graph)),
            decreases 4 - side,
        {
            let direction = CardinalDirection::from_ordinal(side);
            let last = match direction {
                CardinalDirection::North | CardinalDirection::South => self.width,
                CardinalDirection::West | CardinalDirection::East => self.height,
            };
            let mut position: usize = 0;
            while position <= last
                invariant
                    side < 4,
                    direction.ordinal() == side,
                    last == self.side_length(direction),
                    position <= last + 1,
                    self.fits(),
                    self.width < MAX_SWITCH_BLOCKS,
                    self.height < MAX_SWITCH_BLOCKS,
                    self.numbered(routing_nodes(*graph)),
                    routing_nodes(*graph).len() == 36 * self.switch_block_count() + 5
                        * self.logic_cell_count() + self.side_base(side as int) + position,
                    routing_edges(*graph) == routing_edges(*old(graph)),
                decreases last + 1 - position,
            {
                let coords = IoBlockCoordinates { direction, position };
                self.add_numbered(graph, RoutingGraphNode::IoBlock { coords });
                position += 1;
            }
            side += 1;
        }
    }

    /// Inside the switch block at `coords`, joins every input to every
    /// output on another side.
    fn connect_inputs_to_outputs(&self, graph: &mut RoutingGraph, coords: SwitchBlockCoordinates)
        requires
            self.fits(),
            self.has_switch_block(coords),
            self.built(*old(graph), 528 * self.block_ordinal(coords)),
        ensures
            self.built(*final(graph), 528 * self.block_ordinal(coords) + 256),
    {
        let ghost base = 528 * self.block_ordinal(coords);
        let mut i: usize = 0;
        while i < 16
            invariant
                i <= 16,
                self.fits(),
                self.has_switch_block(coords),
                base == 528 * self.block_ordinal(coords),
                self.laid(*graph, base + 16 * i),
                self.covered(routing_edges(*graph), base),
                forall|input: SwitchBlockPort, output: SwitchBlockPort|
                    input.coords == coords && output.coords == coords && input.side != output.side
                        && input.slot() < i ==> #[trigger] has_edge(
                        routing_edges(*graph),
                        self.index_of(RoutingGraphNode::SwitchBlockInput(input)),
                        self.index_of(RoutingGraphNode::SwitchBlockOutput(output)),
                    ),
            decreases 16 - i,
        {
            let input = SwitchBlockPort::at(coords, i);
            let mut o: usize = 0;
            while o < 16
                invariant
                    i < 16,
                    o <= 16,
                    self.fits(),
                    self.has_switch_block(coords),
                    base == 528 * self.block_ordinal(coords),
                    input.coords == coords,
                    input.slot() == i,
                    self.laid(*graph, base + 16 * i + o),
                    self.covered(routing_edges(*graph), base),
                    forall|input: SwitchBlockPort, output: SwitchBlockPort|
                        input.coords == coords && output.coords == coords && input.side
                            != output.side && (input.slot() < i || (input.slot() == i
                            && output.slot() < o)) ==> #[trigger] has_edge(
                            routing_edges(*graph),
                            self.index_of(RoutingGraphNode::SwitchBlockInput(input)),
                            self.index_of(RoutingGraphNode::SwitchBlockOutput(output)),
                        ),
                decreases 16 - o,
            {
                let output = SwitchBlockPort::at(coords, o);
                let ghost prior = routing_edges(*graph);
                if input.side != output.side {
                    self.link(
                        graph,
                        RoutingGraphNode::SwitchBlockInput(input),
                        RoutingGraphNode::SwitchBlockOutput(output),
                        output.channel.cost(),
                        Ghost(base + 16 * i + o),
                    );
                }
                proof {
                    assert forall|p: SwitchBlockPort, q: SwitchBlockPort|
                        p.coords == coords && q.coords == coords && p.side != q.side && (p.slot()
                            < i || (p.slot() == i && q.slot() <= o)) implies #[trigger] has_edge(
                        routing_edges(*graph),
                        self.index_of(RoutingGraphNode::SwitchBlockInput(p)),
                        self.index_of(RoutingGraphNode::SwitchBlockOutput(q)),
                    ) by {
                        if p.slot() == i && q.slot() == o {
                            lemma_port_by_slot(p, input);
                            lemma_port_by_slot(q, output);
                        } else {
                            assert(has_edge(
                                prior,
                                self.index_of(RoutingGraphNode::SwitchBlockInput(p)),
                                self.index_of(RoutingGraphNode::SwitchBlockOutput(q)),
                            ));
                        }
                    }
                }
                o += 1;
            }
            i += 1;
        }
        proof {
            let edges = routing_edges(*graph);
            assert forall|a: RoutingGraphNode, b: RoutingGraphNode| #[trigger]
                self.connects(a, b) && self.rank(a, b) < base + 256 implies has_edge(
                edges,
                self.index_of(a),
                self.index_of(b),
            ) by {
                if self.rank(a, b) >= base {
                    self.lemma_rank_owner(a, b, coords);
                }
            }
        }
    }

    /// Joins every corner of the switch block at `coords` to every output of
    /// the block.
    fn connect_corners_to_outputs(&self, graph: &mut RoutingGraph, coords: SwitchBlockCoordinates)
        requires
            self.fits(),
            self.has_switch_block(coords),
            self.built(*old(graph), 528 * self.block_ordinal(coords) + 256),
        ensures
            self.built(*final(graph), 528 * self.block_ordinal(coords) + 320),
    {
        let ghost base = 528 * self.block_ordinal(coords);
        let mut d: usize = 0;
        while d < 4
            invariant
                d <= 4,
                self.fits(),
                self.has_switch_block(coords),
                base == 528 * self.block_ordinal(coords),
                self.laid(*graph, base + 256 + 16 * d),
                self.covered(routing_edges(*graph), base + 256),
                forall|direction: IntercardinalDirection, output: SwitchBlockPort|
                    output.coords == coords && direction.ordinal() < d ==> #[trigger] has_edge(
                        routing_edges(*graph),
                        self.index_of(
                            RoutingGraphNode::SwitchBlockCorner(SwitchBlockCorner { coords, direction }),
                        ),
                        self.index_of(RoutingGraphNode::SwitchBlockOutput(output)),
                    ),
            decreases 4 - d,
        {
            let corner = SwitchBlockCorner { coords, direction: IntercardinalDirection::from_ordinal(d) };
            let mut o: usize = 0;
            while o < 16
                invariant
                    d < 4,
                    o <= 16,
                    self.fits(),
                    self.has_switch_block(coords),
                    base == 528 * self.block_ordinal(coords),
                    corner.coords == coords,
                    corner.direction.ordinal() == d,
                    self.laid(*graph, base + 256 + 16 * d + o),
                    self.covered(routing_edges(*graph), base + 256),
                    forall|direction: IntercardinalDirection, output: SwitchBlockPort|
                        output.coords == coords && (direction.ordinal() < d || (direction.ordinal()
                            == d && output.slot() < o)) ==> #[trigger] has_edge(
                            routing_edges(*graph),
                            self.index_of(
                                RoutingGraphNode::SwitchBlockCorner(
                                    SwitchBlockCorner { coords, direction },
                                ),
                            ),
                            self.index_of(RoutingGraphNode::SwitchBlockOutput(output)),
                        ),
                decreases 16 - o,
            {
                let output = SwitchBlockPort::at(coords, o);
                let ghost prior = routing_edges(*graph);
                self.link(
                    graph,
                    RoutingGraphNode::SwitchBlockCorner(corner),
                    RoutingGraphNode::SwitchBlockOutput(output),
                    output.channel.cost(),
                    Ghost(base + 256 + 16 * d + o),
                );
                proof {
                    assert forall|direction: IntercardinalDirection, q: SwitchBlockPort|
                        q.coords == coords && (direction.ordinal() < d || (direction.ordinal() == d
                            && q.slot() <= o)) implies #[trigger] has_edge(
                        routing_edges(*graph),
                        self.index_of(
                            RoutingGraphNode::SwitchBlockCorner(SwitchBlockCorner { coords, direction }),
                        ),
                        self.index_of(RoutingGraphNode::SwitchBlockOutput(q)),
                    ) by {
                        if direction.ordinal() == d && q.slot() == o {
                            lemma_port_by_slot(q, output);
                            assert(direction == corner.direction);
                        } else {
                            assert(has_edge(
                                prior,
                                self.index_of(
                                    RoutingGraphNode::SwitchBlockCorner(
                                        SwitchBlockCorner { coords, direction },
                                    ),
                                ),
                                self.index_of(RoutingGraphNode::SwitchBlockOutput(q)),
                            ));
                        }
                    }
                }
                o += 1;
            }
            d += 1;
        }
        proof {
            let edges = routing_edges(*graph);
            assert forall|a: RoutingGraphNode, b: RoutingGraphNode| #[trigger]
                self.connects(a, b) && self.rank(a, b) < base + 320 implies has_edge(
                edges,
                self.index_of(a),
                self.index_of(b),
            ) by {
                if self.rank(a, b) >= base + 256 {
                    self.lemma_rank_owner(a, b, coords);
                    match (a, b) {
                        (
                            RoutingGraphNode::SwitchBlockCorner(c),
                            RoutingGraphNode::SwitchBlockOutput(q),
                        ) => {
                            assert(c == SwitchBlockCorner { coords, direction: c.direction });
                            assert(has_edge(
                                edges,
                                self.index_of(
                                    RoutingGraphNode::SwitchBlockCorner(
                                        SwitchBlockCorner { coords, direction: c.direction },
                                    ),
                                ),
                                self.index_of(RoutingGraphNode::SwitchBlockOutput(q)),
                            ));
                        },
                        _ => {},
                    }
                }
            }
        }
    }

    /// The input that an output of the switch block at `coords` drives on
    /// the next switch block: the same channel on the facing side of the
    /// block at `other`.
    pub open spec fn facing_input(output: SwitchBlockPort, other: SwitchBlockCoordinates) -> SwitchBlockPort {
        SwitchBlockPort {
            coords: other,
            side: output.side.spec_opposite(),
            channel: output.channel,
        }
    }

    /// Joins the outputs of the switch block at `coords` to the inputs of
    /// the switch blocks next to it.
    fn connect_to_neighbours(&self, graph: &mut RoutingGraph, coords: SwitchBlockCoordinates)
        requires
            self.fits(),
            self.has_switch_block(coords),
            self.built(*old(graph), 528 * self.block_ordinal(coords) + 320),
        ensures
            self.built(*final(graph), 528 * self.block_ordinal(coords) + 336),
    {
        let ghost base = 528 * self.block_ordinal(coords);
        let mut s: usize = 0;
        while s < 4
            invariant
                s <= 4,
                self.fits(),
                self.has_switch_block(coords),
                base == 528 * self.block_ordinal(coords),
                self.laid(*graph, base + 320 + 4 * s),
                self.covered(routing_edges(*graph), base + 320),
                forall|output: SwitchBlockPort|
                    output.coords == coords && self.spec_switch_block_at(coords, output.side)
                        is Some && output.slot() < 4 * s ==> #[trigger] has_edge(
                        routing_edges(*graph),
                        self.index_of(RoutingGraphNode::SwitchBlockOutput(output)),
                        self.index_of(
                            RoutingGraphNode::SwitchBlockInput(
                                Self::facing_input(
                                    output,
                                    self.spec_switch_block_at(coords, output.side).unwrap(),
                                ),
                            ),
                        ),
                    ),
            decreases 4 - s,
        {
            let side = CardinalDirection::from_ordinal(s);
            if let Some(other) = self.switch_block_at(coords, side) {
                let mut c: usize = 0;
                while c < 4
                    invariant
                        s < 4,
                        c <= 4,
                        side.ordinal() == s,
                        self.spec_switch_block_at(coords, side) == Some(other),
                        self.fits(),
                        self.has_switch_block(coords),
                        base == 528 * self.block_ordinal(coords),
                        self.laid(*graph, base + 320 + 4 * s + c),
                        self.covered(routing_edges(*graph), base + 320),
                        forall|output: SwitchBlockPort|
                            output.coords == coords && self.spec_switch_block_at(
                                coords,
                                output.side,
                            ) is Some && output.slot() < 4 * s + c ==> #[trigger] has_edge(
                                routing_edges(*graph),
                                self.index_of(RoutingGraphNode::SwitchBlockOutput(output)),
                                self.index_of(
                                    RoutingGraphNode::SwitchBlockInput(
                                        Self::facing_input(
                                            output,
                                            self.spec_switch_block_at(coords, output.side).unwrap(),
                                        ),
                                    ),
                                ),
                            ),
                    decreases 4 - c,
                {
                    let channel = SwitchBlockChannel::from_ordinal(c);
                    let output = SwitchBlockPort { coords, side, channel };
                    let input = SwitchBlockPort { coords: other, side: side.opposite(), channel };
                    let ghost prior = routing_edges(*graph);
                    self.link(
                        graph,
                        RoutingGraphNode::SwitchBlockOutput(output),
                        RoutingGraphNode::SwitchBlockInput(input),
                        channel.cost(),
                        Ghost(base + 320 + 4 * s + c),
                    );
                    proof {
                        assert forall|q: SwitchBlockPort|
                            q.coords == coords && self.spec_switch_block_at(coords, q.side)
                                is Some && q.slot() <= 4 * s + c implies #[trigger] has_edge(
                            routing_edges(*graph),
                            self.index_of(RoutingGraphNode::SwitchBlockOutput(q)),
                            self.index_of(
                                RoutingGraphNode::SwitchBlockInput(
                                    Self::facing_input(
                                        q,
                                        self.spec_switch_block_at(coords, q.side).unwrap(),
                                    ),
                                ),
                            ),
                        ) by {
                            if q.slot() == 4 * s + c {
                                lemma_port_by_slot(q, output);
                            } else {
                                assert(has_edge(
                                    prior,
                                    self.index_of(RoutingGraphNode::SwitchBlockOutput(q)),
                                    self.index_of(
                                        RoutingGraphNode::SwitchBlockInput(
                                            Self::facing_input(
                                                q,
                                                self.spec_switch_block_at(coords, q.side).unwrap(),
                                            ),
                                        ),
                                    ),
                                ));
                            }
                        }
                    }
                    c += 1;
                }
            }
            s += 1;
        }
        proof {
            let edges = routing_edges(*graph);
            assert forall|a: RoutingGraphNode, b: RoutingGraphNode| #[trigger]
                self.connects(a, b) && self.rank(a, b) < base + 336 implies has_edge(
                edges,
                self.index_of(a),
                self.index_of(b),
            ) by {
                if self.rank(a, b) >= base + 320 {
                    self.lemma_rank_owner(a, b, coords);
                    match (a, b) {
                        (
                            RoutingGraphNode::SwitchBlockOutput(q),
                            RoutingGraphNode::SwitchBlockInput(i),
                        ) => {
                            assert(i == Self::facing_input(
                                q,
                                self.spec_switch_block_at(coords, q.side).unwrap(),
                            ));
                            assert(has_edge(
                                edges,
                                self.index_of(RoutingGraphNode::SwitchBlockOutput(q)),
                                self.index_of(
                                    RoutingGraphNode::SwitchBlockInput(
                                        Self::facing_input(
                                            q,
                                            self.spec_switch_block_at(coords, q.side).unwrap(),
                                        ),
                                    ),
                                ),
                            ));
                        },
                        _ => {},
                    }
                }
            }
        }
    }

    /// The place of the edge from output `output` to input `input` of a
    /// logic cell among the edges that drive the cell from one switch block.
    spec fn feed_slot(input: LookUpTableInput, output: SwitchBlockPort) -> int {
        8 * input.ordinal() + (if output.side == CardinalDirection::East {
            4int
        } else {
            0int
        }) + output.channel.ordinal()
    }

    /// Joins the switch block at `coords` with the logic cell in `quadrant`:
    /// the cell's output drives the block's corner, and the outputs on the
    /// sides that `feeding_sides` names drive each of the cell's inputs.
    fn connect_logic_cell(
        &self,
        graph: &mut RoutingGraph,
        coords: SwitchBlockCoordinates,
        quadrant: IntercardinalDirection,
    )
        requires
            self.fits(),
            self.has_switch_block(coords),
            self.built(
                *old(graph),
                528 * self.block_ordinal(coords) + 336 + 40 * quadrant.ordinal(),
            ),
        ensures
            self.built(
                *final(graph),
                528 * self.block_ordinal(coords) + 376 + 40 * quadrant.ordinal(),
            ),
    {
        let ghost base = 528 * self.block_ordinal(coords) + 336 + 40 * quadrant.ordinal();
        let found = self.logic_cell_at(coords, quadrant);
        if let Some(cell) = found {
            let corner = SwitchBlockCorner { coords, direction: quadrant };
            self.link(
                graph,
                RoutingGraphNode::LogicCellOutput { coords: cell },
                RoutingGraphNode::SwitchBlockCorner(corner),
                1,
                Ghost(base),
            );
            let sides = feeding_sides(quadrant);
            let mut i: usize = 0;
            while i < 4
                invariant
                    i <= 4,
                    self.fits(),
                    self.has_switch_block(coords),
                    base == 528 * self.block_ordinal(coords) + 336 + 40 * quadrant.ordinal(),
                    found == Some(cell),
                    self.spec_logic_cell_at(coords, quadrant) == Some(cell),
                    sides@ == spec_feeding_sides(quadrant),
                    self.laid(*graph, base + 1 + 8 * i),
                    self.covered(routing_edges(*graph), base),
                    has_edge(
                        routing_edges(*graph),
                        self.index_of(RoutingGraphNode::LogicCellOutput { coords: cell }),
                        self.index_of(
                            RoutingGraphNode::SwitchBlockCorner(
                                SwitchBlockCorner { coords, direction: quadrant },
                            ),
                        ),
                    ),
                    forall|input: LookUpTableInput, output: SwitchBlockPort|
                        output.coords == coords && fed_quadrant(output.side) == quadrant
                            && Self::feed_slot(input, output) < 8 * i ==> #[trigger] has_edge(
                            routing_edges(*graph),
                            self.index_of(RoutingGraphNode::SwitchBlockOutput(output)),
                            self.index_of(RoutingGraphNode::LogicCellInput { coords: cell, input }),
                        ),
                decreases 4 - i,
            {
                let input = LookUpTableInput::from_ordinal(i);
                let mut s: usize = 0;
                while s < sides.len()
                    invariant
                        i < 4,
                        input.ordinal() == i,
                        s <= sides@.len() <= 2,
                        self.fits(),
                        self.has_switch_block(coords),
                        base == 528 * self.block_ordinal(coords) + 336 + 40 * quadrant.ordinal(),
                        self.spec_logic_cell_at(coords, quadrant) == Some(cell),
                        sides@ == spec_feeding_sides(quadrant),
                        self.laid(*graph, base + 1 + 8 * i + 4 * s),
                        self.covered(routing_edges(*graph), base),
                        has_edge(
                            routing_edges(*graph),
                            self.index_of(RoutingGraphNode::LogicCellOutput { coords: cell }),
                            self.index_of(
                                RoutingGraphNode::SwitchBlockCorner(
                                    SwitchBlockCorner { coords, direction: quadrant },
                                ),
                            ),
                        ),
                        forall|input: LookUpTableInput, output: SwitchBlockPort|
                            output.coords == coords && fed_quadrant(output.side) == quadrant
                                && Self::feed_slot(input, output) < 8 * i + 4 * s
                                ==> #[trigger] has_edge(
                                routing_edges(*graph),
                                self.index_of(RoutingGraphNode::SwitchBlockOutput(output)),
                                self.index_of(
                                    RoutingGraphNode::LogicCellInput { coords: cell, input },
                                ),
                            ),
                    decreases sides@.len() - s,
                {
                    let side = sides[s];
                    let mut c: usize = 0;
                    while c < 4
                        invariant
                            i < 4,
                            input.ordinal() == i,
                            s < sides@.len() <= 2,
                            side == sides@[s as int],
                            c <= 4,
                            self.fits(),
                            self.has_switch_block(coords),
                            base == 528 * self.block_ordinal(coords) + 336 + 40
                                * quadrant.ordinal(),
                            self.spec_logic_cell_at(coords, quadrant) == Some(cell),
                            sides@ == spec_feeding_sides(quadrant),
                            self.laid(*graph, base + 1 + 8 * i + 4 * s + c),
                            self.covered(routing_edges(*graph), base),
                            has_edge(
                                routing_edges(*graph),
                                self.index_of(RoutingGraphNode::LogicCellOutput { coords: cell }),
                                self.index_of(
                                    RoutingGraphNode::SwitchBlockCorner(
                                        SwitchBlockCorner { coords, direction: quadrant },
                                    ),
                                ),
                            ),
                            forall|input: LookUpTableInput, output: SwitchBlockPort|
                                output.coords == coords && fed_quadrant(output.side) == quadrant
                                    && Self::feed_slot(input, output) < 8 * i + 4 * s + c
                                    ==> #[trigger] has_edge(
                                    routing_edges(*graph),
                                    self.index_of(RoutingGraphNode::SwitchBlockOutput(output)),
                                    self.index_of(
                                        RoutingGraphNode::LogicCellInput { coords: cell, input },
                                    ),
                                ),
                        decreases 4 - c,
                    {
                        let channel = SwitchBlockChannel::from_ordinal(c);
                        let output = SwitchBlockPort { coords, side, channel };
                        let ghost prior = routing_edges(*graph);
                        self.link(
                            graph,
                            RoutingGraphNode::SwitchBlockOutput(output),
                            RoutingGraphNode::LogicCellInput { coords: cell, input },
                            channel.cost(),
                            Ghost(base + 1 + 8 * i + 4 * s + c),
                        );
                        proof {
                            assert forall|n: LookUpTableInput, q: SwitchBlockPort|
                                q.coords == coords && fed_quadrant(q.side) == quadrant
                                    && Self::feed_slot(n, q) <= 8 * i + 4 * s
                                    + c implies #[trigger] has_edge(
                                routing_edges(*graph),
                                self.index_of(RoutingGraphNode::SwitchBlockOutput(q)),
                                self.index_of(
                                    RoutingGraphNode::LogicCellInput { coords: cell, input: n },
                                ),
                            ) by {
                                if Self::feed_slot(n, q) == 8 * i + 4 * s + c {
                                    assert(n == input);
                                    assert(q.side == side);
                                    assert(q == output);
                                } else {
                                    assert(has_edge(
                                        prior,
                                        self.index_of(RoutingGraphNode::SwitchBlockOutput(q)),
                                        self.index_of(
                                            RoutingGraphNode::LogicCellInput {
                                                coords: cell,
                                                input: n,
                                            },
                                        ),
                                    ));
                                }
                            }
                        }
                        c += 1;
                    }
                    s += 1;
                }
                i += 1;
            }
        }
        proof {
            let edges = routing_edges(*graph);
            let block = 528 * self.block_ordinal(coords);
            assert forall|a: RoutingGraphNode, b: RoutingGraphNode| #[trigger]
                self.connects(a, b) && self.rank(a, b) < base + 40 implies has_edge(
                edges,
                self.index_of(a),
                self.index_of(b),
            ) by {
                if self.rank(a, b) >= base {
                    self.lemma_rank_owner(a, b, coords);
                    match (a, b) {
                        (
                            RoutingGraphNode::LogicCellOutput { coords: cell },
                            RoutingGraphNode::SwitchBlockCorner(c),
                        ) => {
                            assert(c.direction == quadrant);
                            assert(c == SwitchBlockCorner { coords, direction: quadrant });
                        },
                        (
                            RoutingGraphNode::SwitchBlockOutput(q),
                            RoutingGraphNode::LogicCellInput { coords: cell, input },
                        ) => {
                            assert(fed_quadrant(q.side) == quadrant);
                            assert(has_edge(
                                edges,
                                self.index_of(RoutingGraphNode::SwitchBlockOutput(q)),
                                self.index_of(RoutingGraphNode::LogicCellInput { coords: cell, input }),
                            ));
                        },
                        _ => {},
                    }
                }
            }
        }
    }

    /// Joins the switch block at `coords` with the I/O block on each rim on
    /// which it lies: the I/O block drives the inputs of that side and is
    /// driven by its outputs.
    fn connect_io_blocks(&self, graph: &mut RoutingGraph, coords: SwitchBlockCoordinates)
        requires
            self.fits(),
            self.has_switch_block(coords),
            self.built(*old(graph), 528 * self.block_ordinal(coords) + 496),
        ensures
            self.built(*final(graph), 528 * self.block_ordinal(coords) + 528),
    {
        let ghost base = 528 * self.block_ordinal(coords) + 496;
        let mut s: usize = 0;
        while s < 4
            invariant
                s <= 4,
                self.fits(),
                self.has_switch_block(coords),
                base == 528 * self.block_ordinal(coords) + 496,
                self.laid(*graph, base + 8 * s),
                self.covered(routing_edges(*graph), base),
                forall|port: SwitchBlockPort|
                    port.coords == coords && self.spec_io_block_at(coords, port.side) is Some
                        && port.slot() < 4 * s ==> #[trigger] has_edge(
                        routing_edges(*graph),
                        self.index_of(
                            RoutingGraphNode::IoBlock {
                                coords: self.spec_io_block_at(coords, port.side).unwrap(),
                            },
                        ),
                        self.index_of(RoutingGraphNode::SwitchBlockInput(port)),
                    ),
                forall|port: SwitchBlockPort|
                    port.coords == coords && self.spec_io_block_at(coords, port.side) is Some
                        && port.slot() < 4 * s ==> #[trigger] has_edge(
                        routing_edges(*graph),
                        self.index_of(RoutingGraphNode::SwitchBlockOutput(port)),
                        self.index_of(
                            RoutingGraphNode::IoBlock {
                                coords: self.spec_io_block_at(coords, port.side).unwrap(),
                            },
                        ),
                    ),
            decreases 4 - s,
        {
            let side = CardinalDirection::from_ordinal(s);
            if let Some(io) = self.io_block_at(coords, side) {
                let io_block = RoutingGraphNode::IoBlock { coords: io };
                let mut c: usize = 0;
                while c < 4
                    invariant
                        s < 4,
                        c <= 4,
                        side.ordinal() == s,
                        self.spec_io_block_at(coords, side) == Some(io),
                        io_block == (RoutingGraphNode::IoBlock { coords: io }),
                        self.fits(),
                        self.has_switch_block(coords),
                        base == 528 * self.block_ordinal(coords) + 496,
                        self.laid(*graph, base + 8 * s + c),
                        self.covered(routing_edges(*graph), base),
                        forall|port: SwitchBlockPort|
                            port.coords == coords && self.spec_io_block_at(coords, port.side)
                                is Some && port.slot() < 4 * s + c ==> #[trigger] has_edge(
                                routing_edges(*graph),
                                self.index_of(
                                    RoutingGraphNode::IoBlock {
                                        coords: self.spec_io_block_at(coords, port.side).unwrap(),
                                    },
                                ),
                                self.index_of(RoutingGraphNode::SwitchBlockInput(port)),
                            ),
                        forall|port: SwitchBlockPort|
                            port.coords == coords && self.spec_io_block_at(coords, port.side)
                                is Some && port.slot() < 4 * s ==> #[trigger] has_edge(
                                routing_edges(*graph),
                                self.index_of(RoutingGraphNode::SwitchBlockOutput(port)),
                                self.index_of(
                                    RoutingGraphNode::IoBlock {
                                        coords: self.spec_io_block_at(coords, port.side).unwrap(),
                                    },
                                ),
                            ),
                    decreases 4 - c,
                {
                    let channel = SwitchBlockChannel::from_ordinal(c);
                    let input = SwitchBlockPort { coords, side, channel };
                    let ghost prior = routing_edges(*graph);
                    self.link(
                        graph,
                        io_block,
                        RoutingGraphNode::SwitchBlockInput(input),
                        channel.cost(),
                        Ghost(base + 8 * s + c),
                    );
                    proof {
                        assert forall|q: SwitchBlockPort|
                            q.coords == coords && self.spec_io_block_at(coords, q.side) is Some
                                && q.slot() <= 4 * s + c implies #[trigger] has_edge(
                            routing_edges(*graph),
                            self.index_of(
                                RoutingGraphNode::IoBlock {
                                    coords: self.spec_io_block_at(coords, q.side).unwrap(),
                                },
                            ),
                            self.index_of(RoutingGraphNode::SwitchBlockInput(q)),
                        ) by {
                            if q.slot() == 4 * s + c {
                                lemma_port_by_slot(q, input);
                            } else {
                                assert(has_edge(
                                    prior,
                                    self.index_of(
                                        RoutingGraphNode::IoBlock {
                                            coords: self.spec_io_block_at(coords, q.side).unwrap(),
                                        },
                                    ),
                                    self.index_of(RoutingGraphNode::SwitchBlockInput(q)),
                                ));
                            }
                        }
                        assert forall|q: SwitchBlockPort|
                            q.coords == coords && self.spec_io_block_at(coords, q.side) is Some
                                && q.slot() < 4 * s implies #[trigger] has_edge(
                            routing_edges(*graph),
                            self.index_of(RoutingGraphNode::SwitchBlockOutput(q)),
                            self.index_of(
                                RoutingGraphNode::IoBlock {
                                    coords: self.spec_io_block_at(coords, q.side).unwrap(),
                                },
                            ),
                        ) by {
                            assert(has_edge(
                                prior,
                                self.index_of(RoutingGraphNode::SwitchBlockOutput(q)),
                                self.index_of(
                                    RoutingGraphNode::IoBlock {
                                        coords: self.spec_io_block_at(coords, q.side).unwrap(),
                                    },
                                ),
                            ));
                        }
                    }
                    c += 1;
                }
                c = 0;
                while c < 4
                    invariant
                        s < 4,
                        c <= 4,
                        side.ordinal() == s,
                        self.spec_io_block_at(coords, side) == Some(io),
                        io_block == (RoutingGraphNode::IoBlock { coords: io }),
                        self.fits(),
                        self.has_switch_block(coords),
                        base == 528 * self.block_ordinal(coords) + 496,
                        self.laid(*graph, base + 8 * s + 4 + c),
                        self.covered(routing_edges(*graph), base),
                        forall|port: SwitchBlockPort|
                            port.coords == coords && self.spec_io_block_at(coords, port.side)
                                is Some && port.slot() < 4 * s + 4 ==> #[trigger] has_edge(
                                routing_edges(*graph),
                                self.index_of(
                                    RoutingGraphNode::IoBlock {
                                        coords: self.spec_io_block_at(coords, port.side).unwrap(),
                                    },
                                ),
                                self.index_of(RoutingGraphNode::SwitchBlockInput(port)),
                            ),
                        forall|port: SwitchBlockPort|
                            port.coords == coords && self.spec_io_block_at(coords, port.side)
                                is Some && port.slot() < 4 * s + c ==> #[trigger] has_edge(
                                routing_edges(*graph),
                                self.index_of(RoutingGraphNode::SwitchBlockOutput(port)),
                                self.index_of(
                                    RoutingGraphNode::IoBlock {
                                        coords: self.spec_io_block_at(coords, port.side).unwrap(),
                                    },
                                ),
                            ),
                    decreases 4 - c,
                {
                    let channel = SwitchBlockChannel::from_ordinal(c);
                    let output = SwitchBlockPort { coords, side, channel };
                    let ghost prior = routing_edges(*graph);
                    self.link(
                        graph,
                        RoutingGraphNode::SwitchBlockOutput(output),
                        io_block,
                        channel.cost(),
                        Ghost(base + 8 * s + 4 + c),
                    );
                    proof {
                        assert forall|q: SwitchBlockPort|
                            q.coords == coords && self.spec_io_block_at(coords, q.side) is Some
                                && q.slot() <= 4 * s + c implies #[trigger] has_edge(
                            routing_edges(*graph),
                            self.index_of(RoutingGraphNode::SwitchBlockOutput(q)),
                            self.index_of(
                                RoutingGraphNode::IoBlock {
                                    coords: self.spec_io_block_at(coords, q.side).unwrap(),
                                },
                            ),
                        ) by {
                            if q.slot() == 4 * s + c {
                                lemma_port_by_slot(q, output);
                            } else {
                                assert(has_edge(
                                    prior,
                                    self.index_of(RoutingGraphNode::SwitchBlockOutput(q)),
                                    self.index_of(
                                        RoutingGraphNode::IoBlock {
                                            coords: self.spec_io_block_at(coords, q.side).unwrap(),
                                        },
                                    ),
                                ));
                            }
                        }
                        assert forall|q: SwitchBlockPort|
                            q.coords == coords && self.spec_io_block_at(coords, q.side) is Some
                                && q.slot() < 4 * s + 4 implies #[trigger] has_edge(
                            routing_edges(*graph),
                            self.index_of(
                                RoutingGraphNode::IoBlock {
                                    coords: self.spec_io_block_at(coords, q.side).unwrap(),
                                },
                            ),
                            self.index_of(RoutingGraphNode::SwitchBlockInput(q)),
                        ) by {
                            assert(has_edge(
                                prior,
                                self.index_of(
                                    RoutingGraphNode::IoBlock {
                                        coords: self.spec_io_block_at(coords, q.side).unwrap(),
                                    },
                                ),
                                self.index_of(RoutingGraphNode::SwitchBlockInput(q)),
                            ));
                        }
                    }
                    c += 1;
                }
            }
            s += 1;
        }
        proof {
            let edges = routing_edges(*graph);
            assert forall|a: RoutingGraphNode, b: RoutingGraphNode| #[trigger]
                self.connects(a, b) && self.rank(a, b) < base + 32 implies has_edge(
                edges,
                self.index_of(a),
                self.index_of(b),
            ) by {
                if self.rank(a, b) >= base {
                    self.lemma_rank_owner(a, b, coords);
                    match (a, b) {
                        (
                            RoutingGraphNode::IoBlock { coords: io },
                            RoutingGraphNode::SwitchBlockInput(q),
                        ) => {
                            assert(has_edge(
                                edges,
                                self.index_of(
                                    RoutingGraphNode::IoBlock {
                                        coords: self.spec_io_block_at(coords, q.side).unwrap(),
                                    },
                                ),
                                self.index_of(RoutingGraphNode::SwitchBlockInput(q)),
                            ));
                        },
                        (
                            RoutingGraphNode::SwitchBlockOutput(q),
                            RoutingGraphNode::IoBlock { coords: io },
                        ) => {
                            assert(has_edge(
                                edges,
                                self.index_of(RoutingGraphNode::SwitchBlockOutput(q)),
                                self.index_of(
                                    RoutingGraphNode::IoBlock {
                                        coords: self.spec_io_block_at(coords, q.side).unwrap(),
                                    },
                                ),
                            ));
                        },
                        _ => {},
                    }
                }
            }
        }
    }

    /// Lays every edge that belongs to the turn of the switch block at
    /// `coords`.
    fn connect_switch_block(&self, graph: &mut RoutingGraph, coords: SwitchBlockCoordinates)
        requires
            self.fits(),
            self.has_switch_block(coords),
            self.built(*old(graph), 528 * self.block_ordinal(coords)),
        ensures
            self.built(*final(graph), 528 * self.block_ordinal(coords) + 528),
    {
        self.connect_inputs_to_outputs(graph, coords);
        self.connect_corners_to_outputs(graph, coords);
        self.connect_to_neighbours(graph, coords);
        let mut q: usize = 0;
        while q < 4
            invariant
                q <= 4,
                self.fits(),
                self.has_switch_block(coords),
                self.built(*graph, 528 * self.block_ordinal(coords) + 336 + 40 * q),
            decreases 4 - q,
        {
            self.connect_logic_cell(graph, coords, IntercardinalDirection::from_ordinal(q));
            q += 1;
        }
        self.connect_io_blocks(graph, coords);
    }

    /// Whether `graph` is the routing graph of this device: its nodes are
    /// the device's nodes, each at its index; its edges are exactly the edges
    /// that `connects` describes, each once and at the cost that `link_cost`
    /// gives it.
    pub open spec fn is_fabric(&self, graph: RoutingGraph) -> bool {
        let nodes = routing_nodes(graph);
        let edges = routing_edges(graph);
        &&& self.holds_nodes(nodes)
        &&& forall|k: int| 0 <= k < edges.len() ==> self.edge_ok(nodes, #[trigger] edges[k])
        &&& forall|a: RoutingGraphNode, b: RoutingGraphNode| #[trigger]
            self.connects(a, b) ==> has_edge(edges, self.index_of(a), self.index_of(b))
        &&& forall|j: int, k: int|
            0 <= j < k < edges.len() ==> (#[trigger] edges[j]).source != (#[trigger] edges[k]).source
                || edges[j].target != edges[k].target
    }

    proof fn lemma_built_is_fabric(&self, graph: RoutingGraph)
        requires
            self.built(graph, 528 * self.switch_block_count()),
        ensures
            self.is_fabric(graph),
    {
        let nodes = routing_nodes(graph);
        let edges = routing_edges(graph);
        assert forall|a: RoutingGraphNode, b: RoutingGraphNode| #[trigger]
            self.connects(a, b) implies has_edge(edges, self.index_of(a), self.index_of(b)) by {
            self.lemma_rank_bound(a, b);
        }
        assert forall|j: int, k: int| 0 <= j < k < edges.len() implies (#[trigger] edges[j]).source
            != (#[trigger] edges[k]).source || edges[j].target != edges[k].target by {
            assert(self.edge_rank(nodes, edges[j]) < self.edge_rank(nodes, edges[k]));
        }
    }

    /// Builds the routing graph of the device, and the map from each node to
    /// its index in the graph.
    pub fn build_graph(&self) -> (built: (RoutingGraph, NodeIndexMap))
        requires
            self.fits(),
        ensures
            self.is_fabric(built.0),
            built.1.topology() == *self,
            forall|k: int|
                0 <= k < routing_edges(built.0).len() ==> routing_nodes(
                    built.0,
                )[(#[trigger] routing_edges(built.0)[k]).source as int].spec_can_connect_to(
                    routing_nodes(built.0)[routing_edges(built.0)[k].target as int],
                ),
    {
        let mut graph = new_graph();
        self.add_nodes(&mut graph);
        proof {
            self.lemma_node_count_bound();
            assert forall|a: RoutingGraphNode, b: RoutingGraphNode| #[trigger]
                self.connects(a, b) && self.rank(a, b) < 0 implies has_edge(
                routing_edges(graph),
                self.index_of(a),
                self.index_of(b),
            ) by {
                self.lemma_rank_bound(a, b);
            }
        }
        let ghost rows = self.height + 1;
        let mut x: usize = 0;
        while x <= self.width
            invariant
                x <= self.width + 1,
                rows == self.height + 1,
                self.fits(),
                self.width < MAX_SWITCH_BLOCKS,
                self.height < MAX_SWITCH_BLOCKS,
                self.built(graph, 528 * (x * rows)),
            decreases self.width + 1 - x,
        {
            let mut y: usize = 0;
            while y <= self.height
                invariant
                    x <= self.width,
                    y <= self.height + 1,
                    rows == self.height + 1,
                    self.fits(),
                    self.width < MAX_SWITCH_BLOCKS,
                    self.height < MAX_SWITCH_BLOCKS,
                    self.built(graph, 528 * (x * rows + y)),
                decreases self.height + 1 - y,
            {
                self.connect_switch_block(&mut graph, SwitchBlockCoordinates { x, y });
                y += 1;
            }
            proof {
                assert(x * rows + rows == (x + 1) * rows) by (nonlinear_arith);
            }
            x += 1;
        }
        proof {
            self.lemma_built_is_fabric(graph);
            assert forall|k: int| 0 <= k < routing_edges(graph).len() implies routing_nodes(
                graph,
            )[(#[trigger] routing_edges(graph)[k]).source as int].spec_can_connect_to(
                routing_nodes(graph)[routing_edges(graph)[k].target as int],
            ) by {
                let e = routing_edges(graph)[k];
                assert(self.edge_ok(routing_nodes(graph), e));
                self.lemma_connects_allowed(
                    routing_nodes(graph)[e.source as int],
                    routing_nodes(graph)[e.target as int],
                );
            }
        }
        (graph, NodeIndexMap::new(*self))
    }

    /// No output of a switch block drives an input of the logic cell to the
    /// block's north-west.
    pub proof fn lemma_northwest_cell_not_fed(
        &self,
        output: SwitchBlockPort,
        cell: LogicCellCoordinates,
        input: LookUpTableInput,
    )
        requires
            self.spec_logic_cell_at(output.coords, IntercardinalDirection::Northwest) == Some(cell),
        ensures
            !self.connects(
                RoutingGraphNode::SwitchBlockOutput(output),
                RoutingGraphNode::LogicCellInput { coords: cell, input },
            ),
    {
    }

    /// A walk over the fabric passes through switch blocks and I/O blocks
    /// only: nothing leaves an input of a logic cell, and nothing leads to
    /// the output of one.
    pub proof fn lemma_walks_pass_no_logic_cell(&self, graph: RoutingGraph, node: int)
        requires
            self.is_fabric(graph),
            passes(routing_edges(graph), node),
        ensures
            0 <= node < routing_nodes(graph).len(),
            match routing_nodes(graph)[node] {
                RoutingGraphNode::LogicCellInput { .. } => false,
                RoutingGraphNode::LogicCellOutput { .. } => false,
                _ => true,
            },
    {
        let nodes = routing_nodes(graph);
        let edges = routing_edges(graph);
        let into = choose|k: int| 0 <= k < edges.len() && (#[trigger] edges[k]).target == node;
        let out = choose|k: int| 0 <= k < edges.len() && (#[trigger] edges[k]).source == node;
        assert(self.edge_ok(nodes, edges[into]));
        assert(self.edge_ok(nodes, edges[out]));
    }

    /// Of two edges into ports of a switch block, the one into the lower
    /// channel costs less.
    pub proof fn lemma_lower_channel_costs_less(
        a: RoutingGraphNode,
        low: SwitchBlockPort,
        b: RoutingGraphNode,
        high: SwitchBlockPort,
    )
        requires
            low.channel.ordinal() < high.channel.ordinal(),
        ensures
            Self::link_cost(a, RoutingGraphNode::SwitchBlockOutput(low)) < Self::link_cost(
                b,
                RoutingGraphNode::SwitchBlockOutput(high),
            ),
    {
    }
}

} // verus!
