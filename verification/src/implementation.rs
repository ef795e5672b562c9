//! The implementation graph: the design after look-up tables and flip-flops
//! have been gathered into logic cells.

use vstd::prelude::*;
use crate::synthesis::{
    design_edge_at, design_edge_count, design_edges, design_graph_is_legal, design_node_at,
    design_node_count, design_nodes, design_out_degree, out_count, DesignEdge, DesignGraph,
    DesignGraphEdge, DesignGraphNode, FlipFlop, FlipFlopInput, LookUpTable, LookUpTableInput,
    LookUpTableMask, ModulePort, ModulePortDirection,
};
use vstd::string::*;
use petgraph::graph::NodeIndex;

verus! {

/// A look-up table with the flip-flop that buffers its output, if any.
/// Without a flip-flop the output of the cell is that of the table.
#[derive(Debug)]
pub struct LogicCell {
    pub lut: LookUpTable,
    pub ff: Option<FlipFlop>,
}

/// A node of the implementation graph.
#[derive(Debug)]
pub enum ImplGraphNode {
    LogicCell(LogicCell),
    ModulePort(ModulePort),
}

/// What an edge of the implementation graph drives at its target.
#[derive(Debug, Clone, Copy, PartialEq, Eq, Structural)]
pub enum ImplGraphEdge {
    LogicCellInput(LookUpTableInput),
    LogicCellClock,
    ModulePortInput,
}

impl ImplGraphEdge {
    /// Whether an edge of this kind may end at `node`: an input or the clock
    /// of a logic cell at a logic cell, and the input of a module port at an
    /// output port.
    pub open spec fn spec_can_connect_to(self, node: &ImplGraphNode) -> bool {
        match (self, node) {
            (ImplGraphEdge::LogicCellInput(_), ImplGraphNode::LogicCell(_)) => true,
            (ImplGraphEdge::LogicCellClock, ImplGraphNode::LogicCell(_)) => true,
            (ImplGraphEdge::ModulePortInput, ImplGraphNode::ModulePort(port)) => port.direction
                == ModulePortDirection::Output,
            _ => false,
        }
    }

    /// Whether an edge of this kind may end at `node`.
    #[verifier::when_used_as_spec(spec_can_connect_to)]
    pub fn can_connect_to(self, node: &ImplGraphNode) -> (r: bool)
        ensures
            r == self.spec_can_connect_to(node),
    {
        match (self, node) {
            (ImplGraphEdge::LogicCellInput(_), ImplGraphNode::LogicCell(_)) => true,
            (ImplGraphEdge::LogicCellClock, ImplGraphNode::LogicCell(_)) => true,
            (ImplGraphEdge::ModulePortInput, ImplGraphNode::ModulePort(port)) => port.direction
                == ModulePortDirection::Output,
            _ => false,
        }
    }
}

/// Why a design cannot be implemented.
#[derive(Debug)]
pub enum ImplError {
    /// A flip-flop is clocked by something other than an input port of the
    /// module.
    FlipFlopClockSource { ff: String, clock_source: String },
    /// Flip-flops are clocked from more than one port.
    MultipleClockDomains { ff: String, expected_clock_source: String, actual_clock_source: String },
}

/// The implementation graph, a `petgraph` directed graph. As with the
/// routing graph, the library speaks of it through the sequence of its nodes
/// and the sequence of its edges, and reaches it only through the functions
/// below, whose contracts are taken on trust.
pub type ImplGraph = petgraph::graph::Graph<ImplGraphNode, ImplGraphEdge, petgraph::Directed, u32>;

/// An edge of the implementation graph: the indices of the two nodes it
/// joins, and what it drives.
#[derive(Debug, Clone, Copy, PartialEq, Eq, Structural)]
pub struct ImplEdge {
    pub source: usize,
    pub target: usize,
    pub weight: ImplGraphEdge,
}

/// The nodes of an implementation graph, each at its index.
pub uninterp spec fn impl_nodes(graph: ImplGraph) -> Seq<ImplGraphNode>;

/// The edges of an implementation graph, each at its index.
pub uninterp spec fn impl_edges(graph: ImplGraph) -> Seq<ImplEdge>;

/// `Graph::new`: a graph without nodes or edges.
#[verifier::external_body]
pub(crate) fn new_impl_graph() -> (graph: ImplGraph)
    ensures
        impl_nodes(graph) == Seq::<ImplGraphNode>::empty(),
        impl_edges(graph) == Seq::<ImplEdge>::empty(),
{
    petgraph::graph::Graph::new()
}

/// `Graph::add_node`: appends a node and returns its index. `petgraph`
/// panics when the index would not fit in 32 bits.
#[verifier::external_body]
pub(crate) fn add_impl_node(graph: &mut ImplGraph, node: ImplGraphNode) -> (index: usize)
    requires
        impl_nodes(*old(graph)).len() < u32::MAX,
    ensures
        index == impl_nodes(*old(graph)).len(),
        impl_nodes(*final(graph)) == impl_nodes(*old(graph)).push(node),
        impl_edges(*final(graph)) == impl_edges(*old(graph)),
{
    graph.add_node(node).index()
}

/// `Graph::add_edge`: appends an edge between two nodes of the graph.
/// `petgraph` panics when either node is missing or when the edge's index
/// would not fit in 32 bits.
#[verifier::external_body]
pub(crate) fn add_impl_edge(graph: &mut ImplGraph, source: usize, target: usize, weight: ImplGraphEdge)
    requires
        source < impl_nodes(*old(graph)).len(),
        target < impl_nodes(*old(graph)).len(),
        impl_edges(*old(graph)).len() < u32::MAX,
    ensures
        impl_nodes(*final(graph)) == impl_nodes(*old(graph)),
        impl_edges(*final(graph)) == impl_edges(*old(graph)).push(
            ImplEdge { source, target, weight },
        ),
{
    graph.add_edge(NodeIndex::new(source), NodeIndex::new(target), weight);
}

/// `Graph::node_count`. Node indices have 32 bits, and the largest is kept
/// free.
#[verifier::external_body]
pub(crate) fn impl_node_count(graph: &ImplGraph) -> (count: usize)
    ensures
        count == impl_nodes(*graph).len(),
        count <= u32::MAX,
{
    graph.node_count()
}

/// `Graph::edge_count`.
#[verifier::external_body]
pub(crate) fn impl_edge_count(graph: &ImplGraph) -> (count: usize)
    ensures
        count == impl_edges(*graph).len(),
        count <= u32::MAX,
{
    graph.edge_count()
}

/// Indexing a graph by a node index: the node's weight.
#[verifier::external_body]
pub(crate) fn impl_node_at(graph: &ImplGraph, index: usize) -> (node: &ImplGraphNode)
    requires
        index < impl_nodes(*graph).len(),
    ensures
        *node == impl_nodes(*graph)[index as int],
{
    &graph[NodeIndex::new(index)]
}

/// `Graph::raw_edges`, at one index. Both ends of an edge are nodes of the
/// graph: `add_edge` admits no other.
#[verifier::external_body]
pub(crate) fn impl_edge_at(graph: &ImplGraph, index: usize) -> (edge: ImplEdge)
    requires
        index < impl_edges(*graph).len(),
    ensures
        edge == impl_edges(*graph)[index as int],
        edge.source < impl_nodes(*graph).len(),
        edge.target < impl_nodes(*graph).len(),
{
    let raw = &graph.raw_edges()[index];
    ImplEdge { source: raw.source().index(), target: raw.target().index(), weight: raw.weight }
}

/// Whether every edge of the graph ends at a node that its kind may drive.
pub open spec fn impl_graph_is_legal(graph: ImplGraph) -> bool {
    forall|k: int|
        0 <= k < impl_edges(graph).len() ==> (#[trigger] impl_edges(graph)[k]).target
            < impl_nodes(graph).len() && impl_edges(graph)[k].source < impl_nodes(graph).len()
            && impl_edges(graph)[k].weight.spec_can_connect_to(
            &impl_nodes(graph)[impl_edges(graph)[k].target as int],
        )
}


/// Whether `edge` drives the clock input of a flip-flop.
pub open spec fn is_clock_edge(nodes: Seq<DesignGraphNode>, edge: DesignEdge) -> bool {
    nodes[edge.target as int] is FlipFlop && edge.weight == DesignGraphEdge::FlipFlopInput(
        FlipFlopInput::Clock,
    )
}

/// Whether `node` is an input port of the module.
pub open spec fn is_input_port(node: DesignGraphNode) -> bool {
    node matches DesignGraphNode::ModulePort(port) && port.direction == ModulePortDirection::Input
}

/// The clock of the first `count` edges: the port that drives the first
/// clock input among them, if there is one. There is an error instead where
/// a clock input is driven by anything but an input port, or by another
/// input port than the one before; the first such edge is reported.
pub open spec fn clock_check(nodes: Seq<DesignGraphNode>, edges: Seq<DesignEdge>, count: int) -> Result<
    Option<usize>,
    ImplError,
>
    decreases count,
{
    if count <= 0 {
        Ok(None)
    } else {
        match clock_check(nodes, edges, count - 1) {
            Err(error) => Err(error),
            Ok(main_clock) => {
                let edge = edges[count - 1];
                let source = nodes[edge.source as int];
                let ff = nodes[edge.target as int].spec_name();
                if !is_clock_edge(nodes, edge) {
                    Ok(main_clock)
                } else if !is_input_port(source) {
                    Err(ImplError::FlipFlopClockSource { ff, clock_source: source.spec_name() })
                } else {
                    match main_clock {
                        None => Ok(Some(edge.source)),
                        Some(port) => if port == edge.source {
                            Ok(main_clock)
                        } else {
                            Err(
                                ImplError::MultipleClockDomains {
                                    ff,
                                    expected_clock_source: nodes[port as int].spec_name(),
                                    actual_clock_source: source.spec_name(),
                                },
                            )
                        },
                    }
                }
            },
        }
    }
}

/// Once an edge fails the clock check, the check fails with that edge
/// however many edges follow.
pub proof fn lemma_clock_check_fails_on(
    nodes: Seq<DesignGraphNode>,
    edges: Seq<DesignEdge>,
    failed: int,
    count: int,
)
    requires
        0 < failed <= count,
        clock_check(nodes, edges, failed) is Err,
    ensures
        clock_check(nodes, edges, count) == clock_check(nodes, edges, failed),
    decreases count - failed,
{
    if failed < count {
        lemma_clock_check_fails_on(nodes, edges, failed, count - 1);
    }
}

/// Where the clock check succeeds, every clock input is driven by an input
/// port.
pub proof fn lemma_clock_check_passed(
    nodes: Seq<DesignGraphNode>,
    edges: Seq<DesignEdge>,
    count: int,
    k: int,
)
    requires
        0 <= k < count,
        clock_check(nodes, edges, count) is Ok,
        is_clock_edge(nodes, edges[k]),
    ensures
        is_input_port(nodes[edges[k].source as int]),
    decreases count,
{
    if k < count - 1 {
        lemma_clock_check_passed(nodes, edges, count - 1, k);
    }
}

/// Checks that the flip-flops are clocked by one input port of the module.
/// A design without flip-flops needs no clock.
pub fn sanity_check_flip_flops(design_graph: &DesignGraph) -> (checked: Result<(), ImplError>)
    ensures
        match clock_check(
            design_nodes(*design_graph),
            design_edges(*design_graph),
            design_edges(*design_graph).len() as int,
        ) {
            Ok(_) => checked is Ok,
            Err(error) => checked matches Err(reported) && reported == error,
        },
{
    let ghost nodes = design_nodes(*design_graph);
    let ghost edges = design_edges(*design_graph);
    let mut main_clock_port: Option<usize> = None;
    let edge_count = design_edge_count(design_graph);
    let mut k: usize = 0;
    while k < edge_count
        invariant
            k <= edge_count == edges.len(),
            nodes == design_nodes(*design_graph),
            edges == design_edges(*design_graph),
            clock_check(nodes, edges, k as int) == Ok::<Option<usize>, ImplError>(main_clock_port),
            main_clock_port matches Some(port) ==> port < nodes.len(),
        decreases edge_count - k,
    {
        let edge = design_edge_at(design_graph, k);
        let source = design_node_at(design_graph, edge.source);
        let sink = design_node_at(design_graph, edge.target);
        let clocked = match (sink, edge.weight) {
            (DesignGraphNode::FlipFlop(_), DesignGraphEdge::FlipFlopInput(FlipFlopInput::Clock)) => true,
            _ => false,
        };
        if clocked {
            let from_input = match source {
                DesignGraphNode::ModulePort(port) => port.direction == ModulePortDirection::Input,
                _ => false,
            };
            if from_input {
                match main_clock_port {
                    Some(port) => {
                        if edge.source != port {
                            proof {
                                lemma_clock_check_fails_on(nodes, edges, k + 1, edges.len() as int);
                            }
                            return Err(
                                ImplError::MultipleClockDomains {
                                    ff: sink.name(),
                                    expected_clock_source: design_node_at(design_graph, port).name(),
                                    actual_clock_source: source.name(),
                                },
                            );
                        }
                    },
                    None => {
                        main_clock_port = Some(edge.source);
                    },
                }
            } else {
                proof {
                    lemma_clock_check_fails_on(nodes, edges, k + 1, edges.len() as int);
                }
                return Err(
                    ImplError::FlipFlopClockSource { ff: sink.name(), clock_source: source.name() },
                );
            }
        }
        k += 1;
    }
    Ok(())
}


/// Whether `edge` is fused into one logic cell: it is the only edge that
/// leaves a look-up table, and it drives the data input of a flip-flop.
pub open spec fn fuses(nodes: Seq<DesignGraphNode>, edges: Seq<DesignEdge>, edge: DesignEdge) -> bool {
    &&& out_count(edges, edge.source as int, edges.len() as int) == 1
    &&& nodes[edge.source as int] is LookUpTable
    &&& nodes[edge.target as int] is FlipFlop
    &&& edge.weight == DesignGraphEdge::FlipFlopInput(FlipFlopInput::Data)
}

/// Whether `lut` passes its input `A` on: the look-up table that stands
/// before a flip-flop which is not fused with one of the design.
pub open spec fn is_passthrough(lut: LookUpTable) -> bool {
    lut.name@ == "$lut$passthrough"@ && lut.mask.0 == 0xaaaa
}

/// What an edge of the design becomes in the implementation: the data input
/// of a flip-flop is input `A` of its logic cell, and its clock input the
/// clock of the cell; the other inputs stay what they are.
pub open spec fn spec_implement_edge(weight: DesignGraphEdge) -> ImplGraphEdge {
    match weight {
        DesignGraphEdge::LookUpTableInput(input) => ImplGraphEdge::LogicCellInput(input),
        DesignGraphEdge::ModulePortInput => ImplGraphEdge::ModulePortInput,
        DesignGraphEdge::FlipFlopInput(FlipFlopInput::Clock) => ImplGraphEdge::LogicCellClock,
        DesignGraphEdge::FlipFlopInput(FlipFlopInput::Data) => ImplGraphEdge::LogicCellInput(
            LookUpTableInput::A,
        ),
    }
}

/// What an edge of the design becomes in the implementation.
#[verifier::when_used_as_spec(spec_implement_edge)]
pub fn implement_edge(weight: DesignGraphEdge) -> (implemented: ImplGraphEdge)
    ensures
        implemented == spec_implement_edge(weight),
{
    match weight {
        DesignGraphEdge::LookUpTableInput(input) => ImplGraphEdge::LogicCellInput(input),
        DesignGraphEdge::ModulePortInput => ImplGraphEdge::ModulePortInput,
        DesignGraphEdge::FlipFlopInput(FlipFlopInput::Clock) => ImplGraphEdge::LogicCellClock,
        DesignGraphEdge::FlipFlopInput(FlipFlopInput::Data) => ImplGraphEdge::LogicCellInput(
            LookUpTableInput::A,
        ),
    }
}

/// The edges of the implementation that stand for the first `count` edges
/// of the design, where `map` gives the node of the implementation for each
/// node of the design: every edge is kept but the edge between the look-up
/// table and the flip-flop of one logic cell.
pub open spec fn kept_edges(edges: Seq<DesignEdge>, map: Seq<Option<usize>>, count: int) -> Seq<
    ImplEdge,
>
    decreases count,
{
    if count <= 0 {
        Seq::empty()
    } else {
        let before = kept_edges(edges, map, count - 1);
        let edge = edges[count - 1];
        let source = map[edge.source as int].unwrap();
        let target = map[edge.target as int].unwrap();
        if source == target && edge.weight is FlipFlopInput {
            before
        } else {
            before.push(ImplEdge { source, target, weight: spec_implement_edge(edge.weight) })
        }
    }
}

/// The flip-flop of the logic cell of look-up table `lut`: the one that
/// the table is fused with, if it is fused.
pub open spec fn fused_ff(nodes: Seq<DesignGraphNode>, edges: Seq<DesignEdge>, lut: int) -> Option<
    FlipFlop,
> {
    if exists|k: int|
        0 <= k < edges.len() && (#[trigger] edges[k]).source == lut && fuses(nodes, edges, edges[k]) {
        let k = choose|k: int|
            0 <= k < edges.len() && (#[trigger] edges[k]).source == lut && fuses(
                nodes,
                edges,
                edges[k],
            );
        Some(nodes[edges[k].target as int]->FlipFlop_0)
    } else {
        None
    }
}

/// Whether node `v` of the design stands in the node of the implementation
/// that `map` gives for it, if it gives one. A port stands for itself. A
/// look-up table stands in a logic cell, with the flip-flop that it is fused
/// with, or with none. A flip-flop stands in the logic cell of a look-up
/// table that it is fused with, or behind a look-up table that passes its
/// input on.
pub open spec fn stands(
    nodes: Seq<DesignGraphNode>,
    edges: Seq<DesignEdge>,
    map: Seq<Option<usize>>,
    cells: Seq<ImplGraphNode>,
    v: int,
) -> bool {
    map[v] matches Some(at) ==> at < cells.len() && match nodes[v] {
        DesignGraphNode::ModulePort(port) => cells[at as int] == ImplGraphNode::ModulePort(port),
        DesignGraphNode::LookUpTable(lut) => cells[at as int] matches ImplGraphNode::LogicCell(cell)
            && cell.lut == lut && cell.ff == fused_ff(nodes, edges, v),
        DesignGraphNode::FlipFlop(ff) => cells[at as int] matches ImplGraphNode::LogicCell(cell)
            && cell.ff == Some(ff) && (stands_fused(nodes, edges, map, v) || (is_passthrough(
            cell.lut,
        ) && never_fused(nodes, edges, v))),
    }
}

/// Whether no edge into flip-flop `ff` is fused.
pub open spec fn never_fused(nodes: Seq<DesignGraphNode>, edges: Seq<DesignEdge>, ff: int) -> bool {
    forall|k: int|
        0 <= k < edges.len() && (#[trigger] edges[k]).target == ff ==> !fuses(nodes, edges, edges[k])
}

/// Whether the nodes `cells` of the implementation stand for the nodes of
/// the design as `map` says: every node that is mapped stands in its cell,
/// no two nodes stand in one cell but a look-up table and a flip-flop that
/// are fused, and every cell has a node that stands in it.
pub open spec fn cells_stand(
    nodes: Seq<DesignGraphNode>,
    edges: Seq<DesignEdge>,
    map: Seq<Option<usize>>,
    cells: Seq<ImplGraphNode>,
) -> bool {
    &&& map.len() == nodes.len()
    &&& forall|v: int| 0 <= v < map.len() ==> #[trigger] stands(nodes, edges, map, cells, v)
    &&& forall|u: int, v: int|
        0 <= u < v < map.len() && (#[trigger] map[u]) is Some && map[u] == (#[trigger] map[v])
            ==> joined(nodes, edges, u, v) || joined(nodes, edges, v, u)
    &&& forall|m: int| 0 <= m < cells.len() ==> #[trigger] owned(nodes, map, m)
}

/// Whether flip-flop `ff` stands in the cell of a look-up table that it is
/// fused with.
pub open spec fn stands_fused(
    nodes: Seq<DesignGraphNode>,
    edges: Seq<DesignEdge>,
    map: Seq<Option<usize>>,
    ff: int,
) -> bool {
    exists|k: int|
        0 <= k < edges.len() && (#[trigger] edges[k]).target == ff && fuses(nodes, edges, edges[k])
            && map[edges[k].source as int] == map[ff]
}

/// Whether an edge that is fused leads from `lut` to `ff`.
pub open spec fn joined(nodes: Seq<DesignGraphNode>, edges: Seq<DesignEdge>, lut: int, ff: int) -> bool {
    exists|k: int|
        0 <= k < edges.len() && (#[trigger] edges[k]).source == lut && edges[k].target == ff
            && fuses(nodes, edges, edges[k])
}

/// Whether a node of the design that is no fused flip-flop stands in cell
/// `cell`.
pub open spec fn owned(nodes: Seq<DesignGraphNode>, map: Seq<Option<usize>>, cell: int) -> bool {
    exists|v: int| 0 <= v < map.len() && #[trigger] map[v] == Some(cell as usize)
}

/// Whether `graph` implements the design: there is a map from the nodes of
/// the design that have an edge to the nodes of the graph such that the
/// nodes of the graph stand for them as `cells_stand` says, and the edges of
/// the graph are those of the design that are kept.
pub open spec fn implements(design_graph: DesignGraph, graph: ImplGraph) -> bool {
    exists|map: Seq<Option<usize>>| #[trigger]
        cells_stand(design_nodes(design_graph), design_edges(design_graph), map, impl_nodes(graph))
            && mapped_where_joined(design_edges(design_graph), map) && impl_edges(graph)
            == kept_edges(
            design_edges(design_graph),
            map,
            design_edges(design_graph).len() as int,
        )
}

/// Whether `map` gives a node for both ends of every edge.
pub open spec fn mapped_where_joined(edges: Seq<DesignEdge>, map: Seq<Option<usize>>) -> bool {
    forall|k: int|
        0 <= k < edges.len() ==> map[(#[trigger] edges[k]).source as int] is Some
            && map[edges[k].target as int] is Some
}

/// An edge that is the only one to leave its source is the only edge with
/// that source.
pub proof fn lemma_only_edge(edges: Seq<DesignEdge>, node: int, upto: int, j: int, k: int)
    requires
        0 <= j < upto <= edges.len(),
        0 <= k < upto,
        edges[j].source == node,
        edges[k].source == node,
        out_count(edges, node, upto) <= 1,
    ensures
        j == k,
    decreases upto,
{
    lemma_out_count_bounds(edges, node, upto - 1);
    if j < upto - 1 && k < upto - 1 {
        lemma_only_edge(edges, node, upto - 1, j, k);
    } else if j < upto - 1 {
        lemma_out_count_positive(edges, node, upto - 1, j);
    } else if k < upto - 1 {
        lemma_out_count_positive(edges, node, upto - 1, k);
    }
}

proof fn lemma_out_count_bounds(edges: Seq<DesignEdge>, node: int, upto: int)
    ensures
        out_count(edges, node, upto) >= 0,
    decreases upto,
{
    if upto > 0 {
        lemma_out_count_bounds(edges, node, upto - 1);
    }
}

proof fn lemma_out_count_positive(edges: Seq<DesignEdge>, node: int, upto: int, j: int)
    requires
        0 <= j < upto,
        edges[j].source == node,
    ensures
        out_count(edges, node, upto) >= 1,
    decreases upto,
{
    lemma_out_count_bounds(edges, node, upto - 1);
    if j < upto - 1 {
        lemma_out_count_positive(edges, node, upto - 1, j);
    }
}

/// The flip-flop that a fused look-up table is fused with.
pub proof fn lemma_fused_ff(nodes: Seq<DesignGraphNode>, edges: Seq<DesignEdge>, k: int)
    requires
        0 <= k < edges.len(),
        fuses(nodes, edges, edges[k]),
    ensures
        fused_ff(nodes, edges, edges[k].source as int) == Some(
            nodes[edges[k].target as int]->FlipFlop_0,
        ),
{
    let lut = edges[k].source as int;
    let other = choose|j: int|
        0 <= j < edges.len() && (#[trigger] edges[j]).source == lut && fuses(nodes, edges, edges[j]);
    lemma_only_edge(edges, lut, edges.len() as int, k, other);
}


/// The number of the first `count` nodes of the design that are mapped.
pub open spec fn mapped_count(map: Seq<Option<usize>>, count: int) -> int
    decreases count,
{
    if count <= 0 {
        0
    } else {
        mapped_count(map, count - 1) + if map[count - 1] is Some {
            1int
        } else {
            0int
        }
    }
}

proof fn lemma_count_update(map: Seq<Option<usize>>, place: int, value: usize, count: int)
    requires
        0 <= place < map.len(),
        0 <= count <= map.len(),
    ensures
        mapped_count(map.update(place, Some(value)), count) == mapped_count(map, count) + if place
            < count && map[place] is None {
            1int
        } else {
            0int
        },
        0 <= mapped_count(map, count) <= count,
        map[place] is None && place < count ==> mapped_count(map, count) < count,
    decreases count,
{
    if count > 0 {
        lemma_count_update(map, place, value, count - 1);
    }
}

proof fn lemma_count_bounds_all(map: Seq<Option<usize>>, count: int)
    requires
        0 <= count <= map.len(),
    ensures
        0 <= mapped_count(map, count) <= count,
    decreases count,
{
    if count > 0 {
        lemma_count_bounds_all(map, count - 1);
    }
}

/// Whether both ends of every edge are among the first `node_count` nodes.
pub open spec fn in_range(edges: Seq<DesignEdge>, node_count: nat) -> bool {
    forall|k: int|
        0 <= k < edges.len() ==> (#[trigger] edges[k]).source < node_count && edges[k].target
            < node_count
}

/// Whether both ends of every fused edge are mapped.
pub open spec fn all_fused(
    nodes: Seq<DesignGraphNode>,
    edges: Seq<DesignEdge>,
    map: Seq<Option<usize>>,
) -> bool {
    forall|k: int|
        0 <= k < edges.len() && fuses(nodes, edges, #[trigger] edges[k]) ==> map[edges[k].source as int]
            is Some && map[edges[k].target as int] is Some
}

/// Whether a look-up table stands in cell `cell`.
spec fn lut_owned(nodes: Seq<DesignGraphNode>, map: Seq<Option<usize>>, cell: int) -> bool {
    exists|v: int|
        0 <= v < map.len() && nodes[v] is LookUpTable && #[trigger] map[v] == Some(cell as usize)
}

/// Whether node `v`, if it is mapped, is a flip-flop, or a look-up table
/// with a fused edge among the first `upto`.
spec fn mapped_by_fusing(
    nodes: Seq<DesignGraphNode>,
    edges: Seq<DesignEdge>,
    map: Seq<Option<usize>>,
    upto: int,
    v: int,
) -> bool {
    map[v] is Some ==> (nodes[v] is FlipFlop || (nodes[v] is LookUpTable && exists|k: int|
        0 <= k < upto && (#[trigger] edges[k]).source == v && fuses(nodes, edges, edges[k])))
}

/// What holds after the first `upto` edges have been looked at for fusing.
spec fn fused_so_far(
    nodes: Seq<DesignGraphNode>,
    edges: Seq<DesignEdge>,
    map: Seq<Option<usize>>,
    cells: Seq<ImplGraphNode>,
    upto: int,
) -> bool {
    &&& forall|k: int|
        0 <= k < upto && fuses(nodes, edges, #[trigger] edges[k]) ==> map[edges[k].source as int]
            is Some && map[edges[k].target as int] is Some
    &&& forall|v: int|
        0 <= v < map.len() ==> #[trigger] mapped_by_fusing(nodes, edges, map, upto, v)
    &&& forall|m: int| 0 <= m < cells.len() ==> #[trigger] lut_owned(nodes, map, m)
    &&& cells.len() <= mapped_count(map, map.len() as int)
}

proof fn lemma_fuse_skip(
    nodes: Seq<DesignGraphNode>,
    edges: Seq<DesignEdge>,
    map: Seq<Option<usize>>,
    cells: Seq<ImplGraphNode>,
    k: int,
)
    requires
        0 <= k < edges.len(),
        !fuses(nodes, edges, edges[k]),
        fused_so_far(nodes, edges, map, cells, k),
    ensures
        fused_so_far(nodes, edges, map, cells, k + 1),
{
    assert forall|v: int| 0 <= v < map.len() implies #[trigger] mapped_by_fusing(
        nodes,
        edges,
        map,
        k + 1,
        v,
    ) by {
        assert(mapped_by_fusing(nodes, edges, map, k, v));
        if map[v] is Some && nodes[v] is LookUpTable {
            let j = choose|j: int|
                0 <= j < k && (#[trigger] edges[j]).source == v && fuses(nodes, edges, edges[j]);
            assert(edges[j].source == v);
        }
    }
}

/// The map after edge `k` has been fused into a new cell.
spec fn fused_map(edges: Seq<DesignEdge>, map: Seq<Option<usize>>, cell: usize, k: int) -> Seq<
    Option<usize>,
> {
    map.update(edges[k].source as int, Some(cell)).update(edges[k].target as int, Some(cell))
}

proof fn lemma_fuse_source_unmapped(
    nodes: Seq<DesignGraphNode>,
    edges: Seq<DesignEdge>,
    map: Seq<Option<usize>>,
    cells: Seq<ImplGraphNode>,
    k: int,
)
    requires
        0 <= k < edges.len(),
        fuses(nodes, edges, edges[k]),
        edges[k].source < map.len(),
        fused_so_far(nodes, edges, map, cells, k),
    ensures
        map[edges[k].source as int] is None,
{
    let u = edges[k].source as int;
    if map[u] is Some {
        assert(mapped_by_fusing(nodes, edges, map, k, u));
        let j = choose|j: int|
            0 <= j < k && (#[trigger] edges[j]).source == u && fuses(nodes, edges, edges[j]);
        lemma_only_edge(edges, u, edges.len() as int, j, k);
    }
}

proof fn lemma_fuse_step_progress(
    nodes: Seq<DesignGraphNode>,
    edges: Seq<DesignEdge>,
    map: Seq<Option<usize>>,
    cells: Seq<ImplGraphNode>,
    k: int,
    cell: ImplGraphNode,
)
    requires
        0 <= k < edges.len(),
        fuses(nodes, edges, edges[k]),
        edges[k].source < map.len(),
        edges[k].target < map.len(),
        map.len() == nodes.len(),
        in_range(edges, nodes.len()),
        cells.len() <= usize::MAX,
        fused_so_far(nodes, edges, map, cells, k),
    ensures
        fused_so_far(
            nodes,
            edges,
            fused_map(edges, map, cells.len() as usize, k),
            cells.push(cell),
            k + 1,
        ),
{
    let u = edges[k].source as int;
    let v = edges[k].target as int;
    let node = cells.len() as usize;
    let after = fused_map(edges, map, node, k);
    let grown = cells.push(cell);
    lemma_fuse_source_unmapped(nodes, edges, map, cells, k);
    lemma_count_update(map, u, node, map.len() as int);
    lemma_count_update(map.update(u, Some(node)), v, node, map.len() as int);
    assert forall|j: int| 0 <= j < k + 1 && fuses(nodes, edges, #[trigger] edges[j]) implies after[edges[j].source as int]
        is Some && after[edges[j].target as int] is Some by {
        if j < k {
            assert(map[edges[j].source as int] is Some);
        }
    }
    assert forall|w: int| 0 <= w < after.len() implies #[trigger] mapped_by_fusing(
        nodes,
        edges,
        after,
        k + 1,
        w,
    ) by {
        assert(mapped_by_fusing(nodes, edges, map, k, w));
        if w == u {
            assert(edges[k].source == w);
        } else if w != v && map[w] is Some && nodes[w] is LookUpTable {
            let j = choose|j: int|
                0 <= j < k && (#[trigger] edges[j]).source == w && fuses(nodes, edges, edges[j]);
            assert(edges[j].source == w);
        }
    }
    assert forall|m: int| 0 <= m < grown.len() implies #[trigger] lut_owned(nodes, after, m) by {
        if m < cells.len() {
            assert(lut_owned(nodes, map, m));
            let w = choose|w: int|
                0 <= w < map.len() && nodes[w] is LookUpTable && #[trigger] map[w] == Some(
                    m as usize,
                );
            assert(after[w] == Some(m as usize));
        } else {
            assert(after[u] == Some(m as usize));
        }
    }
}

proof fn lemma_fuse_step_stands(
    nodes: Seq<DesignGraphNode>,
    edges: Seq<DesignEdge>,
    map: Seq<Option<usize>>,
    cells: Seq<ImplGraphNode>,
    k: int,
    logic_cell: LogicCell,
)
    requires
        0 <= k < edges.len(),
        fuses(nodes, edges, edges[k]),
        edges[k].source < map.len(),
        edges[k].target < map.len(),
        cells.len() <= usize::MAX,
        in_range(edges, nodes.len()),
        logic_cell.lut == nodes[edges[k].source as int]->LookUpTable_0,
        logic_cell.ff == Some(nodes[edges[k].target as int]->FlipFlop_0),
        cells_stand(nodes, edges, map, cells),
        fused_so_far(nodes, edges, map, cells, k),
    ensures
        cells_stand(
            nodes,
            edges,
            fused_map(edges, map, cells.len() as usize, k),
            cells.push(ImplGraphNode::LogicCell(logic_cell)),
        ),
{
    let u = edges[k].source as int;
    let v = edges[k].target as int;
    let node = cells.len() as usize;
    let after = fused_map(edges, map, node, k);
    let grown = cells.push(ImplGraphNode::LogicCell(logic_cell));
    lemma_fuse_source_unmapped(nodes, edges, map, cells, k);
    lemma_fused_ff(nodes, edges, k);
    assert forall|w: int| 0 <= w < after.len() implies #[trigger] stands(
        nodes,
        edges,
        after,
        grown,
        w,
    ) by {
        assert(stands(nodes, edges, map, cells, w));
        if w == v {
            assert(edges[k].target == v && after[edges[k].source as int] == after[v]);
            assert(stands_fused(nodes, edges, after, v));
        } else if w != u && map[w] is Some {
            assert(grown[map[w].unwrap() as int] == cells[map[w].unwrap() as int]);
            if nodes[w] is FlipFlop && stands_fused(nodes, edges, map, w) {
                let j = choose|j: int|
                    0 <= j < edges.len() && (#[trigger] edges[j]).target == w && fuses(
                        nodes,
                        edges,
                        edges[j],
                    ) && map[edges[j].source as int] == map[w];
                assert(after[edges[j].source as int] == after[w]);
                assert(stands_fused(nodes, edges, after, w));
            }
        }
    }
    assert forall|a: int, b: int|
        0 <= a < b < after.len() && (#[trigger] after[a]) is Some && after[a] == (
        #[trigger] after[b]) implies joined(nodes, edges, a, b) || joined(nodes, edges, b, a) by {
        if after[a] == Some(node) {
            assert(stands(nodes, edges, map, cells, a));
            assert(stands(nodes, edges, map, cells, b));
            assert(edges[k].source == u && edges[k].target == v);
        } else {
            assert(map[a] is Some && map[a] == map[b]);
        }
    }
    lemma_fuse_step_progress(nodes, edges, map, cells, k, ImplGraphNode::LogicCell(logic_cell));
    assert forall|m: int| 0 <= m < grown.len() implies #[trigger] owned(nodes, after, m) by {
        assert(lut_owned(nodes, after, m));
        let w = choose|w: int|
            0 <= w < after.len() && nodes[w] is LookUpTable && #[trigger] after[w] == Some(
                m as usize,
            );
    }
}

/// The first pass: a look-up table whose only edge drives the data input of
/// a flip-flop becomes one logic cell with that flip-flop.
fn fuse_cells(
    design_graph: &DesignGraph,
    impl_graph: &mut ImplGraph,
    node_replacements: &mut Vec<Option<usize>>,
)
    requires
        in_range(design_edges(*design_graph), design_nodes(*design_graph).len()),
        impl_nodes(*old(impl_graph)).len() == 0,
        impl_edges(*old(impl_graph)).len() == 0,
        old(node_replacements)@.len() == design_nodes(*design_graph).len(),
        forall|v: int|
            0 <= v < old(node_replacements)@.len() ==> (#[trigger] old(node_replacements)@[v])
                is None,
    ensures
        impl_edges(*final(impl_graph)).len() == 0,
        cells_stand(
            design_nodes(*design_graph),
            design_edges(*design_graph),
            final(node_replacements)@,
            impl_nodes(*final(impl_graph)),
        ),
        all_fused(
            design_nodes(*design_graph),
            design_edges(*design_graph),
            final(node_replacements)@,
        ),
        impl_nodes(*final(impl_graph)).len() <= mapped_count(
            final(node_replacements)@,
            final(node_replacements)@.len() as int,
        ),
{
    let ghost nodes = design_nodes(*design_graph);
    let ghost edges = design_edges(*design_graph);
    let edge_count = design_edge_count(design_graph);
    proof {
        lemma_count_bounds_all(node_replacements@, node_replacements@.len() as int);
        assert forall|v: int| 0 <= v < node_replacements@.len() implies #[trigger] stands(
            nodes,
            edges,
            node_replacements@,
            impl_nodes(*impl_graph),
            v,
        ) by {}
        assert forall|v: int| 0 <= v < node_replacements@.len() implies #[trigger] mapped_by_fusing(
            nodes,
            edges,
            node_replacements@,
            0,
            v,
        ) by {}
    }
    let mut k: usize = 0;
    while k < edge_count
        invariant
            k <= edge_count == edges.len(),
            edge_count <= u32::MAX,
            nodes == design_nodes(*design_graph),
            edges == design_edges(*design_graph),
            in_range(edges, nodes.len()),
            impl_edges(*impl_graph).len() == 0,
            node_replacements@.len() == nodes.len(),
            cells_stand(nodes, edges, node_replacements@, impl_nodes(*impl_graph)),
            fused_so_far(nodes, edges, node_replacements@, impl_nodes(*impl_graph), k as int),
            impl_nodes(*impl_graph).len() <= k,
        decreases edge_count - k,
    {
        let edge = design_edge_at(design_graph, k);
        let ghost map = node_replacements@;
        let ghost cells = impl_nodes(*impl_graph);
        let fused = if design_out_degree(design_graph, edge.source) == 1 {
            match (
                design_node_at(design_graph, edge.source),
                design_node_at(design_graph, edge.target),
                edge.weight,
            ) {
                (
                    DesignGraphNode::LookUpTable(lut),
                    DesignGraphNode::FlipFlop(ff),
                    DesignGraphEdge::FlipFlopInput(FlipFlopInput::Data),
                ) => Some(LogicCell { lut: lut.clone(), ff: Some(ff.clone()) }),
                _ => None,
            }
        } else {
            None
        };
        match fused {
            Some(logic_cell) => {
                proof {
                    assert(fuses(nodes, edges, edges[k as int]));
                    lemma_fuse_step_stands(nodes, edges, map, cells, k as int, logic_cell);
                    lemma_fuse_step_progress(
                        nodes,
                        edges,
                        map,
                        cells,
                        k as int,
                        ImplGraphNode::LogicCell(logic_cell),
                    );
                }
                let node = add_impl_node(impl_graph, ImplGraphNode::LogicCell(logic_cell));
                node_replacements.set(edge.source, Some(node));
                node_replacements.set(edge.target, Some(node));
                assert(node_replacements@ == fused_map(edges, map, node, k as int));
            },
            None => {
                proof {
                    assert(!fuses(nodes, edges, edges[k as int]));
                    lemma_fuse_skip(nodes, edges, map, cells, k as int);
                }
            },
        }
        k += 1;
    }
}


/// Whether `cell` is the node of the implementation of a node of the design
/// that is not fused: a port is itself, a look-up table a logic cell
/// without flip-flop, and a flip-flop a logic cell behind a look-up table
/// that passes its input on.
pub open spec fn stands_alone(node: DesignGraphNode, cell: ImplGraphNode) -> bool {
    match node {
        DesignGraphNode::ModulePort(port) => cell == ImplGraphNode::ModulePort(port),
        DesignGraphNode::LookUpTable(lut) => cell matches ImplGraphNode::LogicCell(logic_cell)
            && logic_cell.lut == lut && logic_cell.ff is None,
        DesignGraphNode::FlipFlop(ff) => cell matches ImplGraphNode::LogicCell(logic_cell)
            && logic_cell.ff == Some(ff) && is_passthrough(logic_cell.lut),
    }
}

proof fn lemma_stand_alone(
    nodes: Seq<DesignGraphNode>,
    edges: Seq<DesignEdge>,
    map: Seq<Option<usize>>,
    cells: Seq<ImplGraphNode>,
    v: int,
    cell: ImplGraphNode,
)
    requires
        0 <= v < map.len(),
        map[v] is None,
        cells.len() <= usize::MAX,
        in_range(edges, nodes.len()),
        cells_stand(nodes, edges, map, cells),
        all_fused(nodes, edges, map),
        stands_alone(nodes[v], cell),
    ensures
        cells_stand(nodes, edges, map.update(v, Some(cells.len() as usize)), cells.push(cell)),
        all_fused(nodes, edges, map.update(v, Some(cells.len() as usize))),
{
    let after = map.update(v, Some(cells.len() as usize));
    let grown = cells.push(cell);
    assert forall|w: int| 0 <= w < after.len() implies #[trigger] stands(
        nodes,
        edges,
        after,
        grown,
        w,
    ) by {
        assert(stands(nodes, edges, map, cells, w));
        if w == v {
            if nodes[v] is LookUpTable {
                if fused_ff(nodes, edges, v) is Some {
                    let k = choose|k: int|
                        0 <= k < edges.len() && (#[trigger] edges[k]).source == v && fuses(
                            nodes,
                            edges,
                            edges[k],
                        );
                    assert(map[edges[k].source as int] is Some);
                }
            } else if nodes[v] is FlipFlop {
                assert forall|k: int|
                    0 <= k < edges.len() && (#[trigger] edges[k]).target == v implies !fuses(
                    nodes,
                    edges,
                    edges[k],
                ) by {
                    if fuses(nodes, edges, edges[k]) {
                        assert(map[edges[k].target as int] is Some);
                    }
                }
            }
        } else if map[w] is Some {
            assert(grown[map[w].unwrap() as int] == cells[map[w].unwrap() as int]);
            if nodes[w] is FlipFlop && stands_fused(nodes, edges, map, w) {
                let j = choose|j: int|
                    0 <= j < edges.len() && (#[trigger] edges[j]).target == w && fuses(
                        nodes,
                        edges,
                        edges[j],
                    ) && map[edges[j].source as int] == map[w];
                assert(after[edges[j].source as int] == after[w]);
                assert(stands_fused(nodes, edges, after, w));
            }
        }
    }
    assert forall|a: int, b: int|
        0 <= a < b < after.len() && (#[trigger] after[a]) is Some && after[a] == (
        #[trigger] after[b]) implies joined(nodes, edges, a, b) || joined(nodes, edges, b, a) by {
        if a == v || b == v {
            assert(stands(nodes, edges, map, cells, a));
            assert(stands(nodes, edges, map, cells, b));
        } else {
            assert(map[a] is Some && map[a] == map[b]);
        }
    }
    assert forall|m: int| 0 <= m < grown.len() implies #[trigger] owned(nodes, after, m) by {
        if m < cells.len() {
            assert(owned(nodes, map, m));
            let w = choose|w: int| 0 <= w < map.len() && #[trigger] map[w] == Some(m as usize);
            assert(after[w] == Some(m as usize));
        } else {
            assert(after[v] == Some(m as usize));
        }
    }
    assert forall|k: int|
        0 <= k < edges.len() && fuses(nodes, edges, #[trigger] edges[k]) implies after[edges[k].source as int]
        is Some && after[edges[k].target as int] is Some by {
        assert(map[edges[k].source as int] is Some);
    }
}

/// The node of the implementation for node `node_index` of the design: the
/// one that `node_replacements` gives, or a new one where it gives none.
fn replace_node(
    node_index: usize,
    design_graph: &DesignGraph,
    impl_graph: &mut ImplGraph,
    node_replacements: &mut Vec<Option<usize>>,
) -> (replacement: usize)
    requires
        node_index < design_nodes(*design_graph).len(),
        in_range(design_edges(*design_graph), design_nodes(*design_graph).len()),
        cells_stand(
            design_nodes(*design_graph),
            design_edges(*design_graph),
            old(node_replacements)@,
            impl_nodes(*old(impl_graph)),
        ),
        all_fused(design_nodes(*design_graph), design_edges(*design_graph), old(node_replacements)@),
        impl_nodes(*old(impl_graph)).len() <= mapped_count(
            old(node_replacements)@,
            old(node_replacements)@.len() as int,
        ),
        design_nodes(*design_graph).len() <= u32::MAX,
    ensures
        cells_stand(
            design_nodes(*design_graph),
            design_edges(*design_graph),
            final(node_replacements)@,
            impl_nodes(*final(impl_graph)),
        ),
        all_fused(
            design_nodes(*design_graph),
            design_edges(*design_graph),
            final(node_replacements)@,
        ),
        impl_nodes(*final(impl_graph)).len() <= mapped_count(
            final(node_replacements)@,
            final(node_replacements)@.len() as int,
        ),
        impl_edges(*final(impl_graph)) == impl_edges(*old(impl_graph)),
        impl_nodes(*old(impl_graph)).is_prefix_of(impl_nodes(*final(impl_graph))),
        final(node_replacements)@[node_index as int] == Some(replacement),
        replacement < impl_nodes(*final(impl_graph)).len(),
        forall|v: int|
            0 <= v < old(node_replacements)@.len() && (#[trigger] old(node_replacements)@[v])
                is Some ==> final(node_replacements)@[v] == old(node_replacements)@[v],
{
    let ghost nodes = design_nodes(*design_graph);
    let ghost edges = design_edges(*design_graph);
    let ghost map = node_replacements@;
    let ghost cells = impl_nodes(*impl_graph);
    proof {
        assert(stands(nodes, edges, map, cells, node_index as int));
    }
    if let Some(replacement_node_index) = node_replacements[node_index] {
        replacement_node_index
    } else {
        let impl_node = match design_node_at(design_graph, node_index) {
            DesignGraphNode::LookUpTable(lut) => ImplGraphNode::LogicCell(
                LogicCell { lut: lut.clone(), ff: None },
            ),
            DesignGraphNode::FlipFlop(ff) => {
                let lut = LookUpTable {
                    name: String::from_str("$lut$passthrough"),
                    mask: LookUpTableMask::new(0b1010_1010_1010_1010),
                };
                ImplGraphNode::LogicCell(LogicCell { lut, ff: Some(ff.clone()) })
            },
            DesignGraphNode::ModulePort(port) => ImplGraphNode::ModulePort(port.clone()),
        };
        proof {
            lemma_count_update(map, node_index as int, 0, map.len() as int);
            lemma_stand_alone(nodes, edges, map, cells, node_index as int, impl_node);
        }
        let replacement = add_impl_node(impl_graph, impl_node);
        node_replacements.set(node_index, Some(replacement));
        proof {
            lemma_count_update(map, node_index as int, replacement, map.len() as int);
        }
        replacement
    }
}

/// The edges that are kept depend on the map only at the ends of the edges.
pub proof fn lemma_kept_edges_stable(
    edges: Seq<DesignEdge>,
    map: Seq<Option<usize>>,
    later: Seq<Option<usize>>,
    count: int,
)
    requires
        0 <= count <= edges.len(),
        forall|k: int|
            0 <= k < count ==> map[(#[trigger] edges[k]).source as int]
                == later[edges[k].source as int] && map[edges[k].target as int]
                == later[edges[k].target as int],
    ensures
        kept_edges(edges, map, count) == kept_edges(edges, later, count),
    decreases count,
{
    if count > 0 {
        lemma_kept_edges_stable(edges, map, later, count - 1);
    }
}

/// No more edges are kept than there are.
pub proof fn lemma_kept_edges_len(edges: Seq<DesignEdge>, map: Seq<Option<usize>>, count: int)
    requires
        0 <= count,
    ensures
        kept_edges(edges, map, count).len() <= count,
    decreases count,
{
    if count > 0 {
        lemma_kept_edges_len(edges, map, count - 1);
    }
}

/// Whether every one of `edges` joins two of `cells` and ends at a cell that
/// its kind may drive.
pub open spec fn edges_are_legal(cells: Seq<ImplGraphNode>, edges: Seq<ImplEdge>) -> bool {
    forall|k: int|
        0 <= k < edges.len() ==> (#[trigger] edges[k]).target < cells.len() && edges[k].source
            < cells.len() && edges[k].weight.spec_can_connect_to(&cells[edges[k].target as int])
}

/// Gathers the look-up tables and flip-flops of a design into logic cells.
/// A look-up table whose only edge drives the data input of a flip-flop
/// becomes one cell with it; every other look-up table becomes a cell
/// without flip-flop, and every other flip-flop a cell behind a look-up
/// table that passes its input `A` on. Nodes without an edge are left out.
pub fn implement_design(design_graph: DesignGraph) -> (result: Result<ImplGraph, ImplError>)
    requires
        design_graph_is_legal(design_graph),
    ensures
        match clock_check(
            design_nodes(design_graph),
            design_edges(design_graph),
            design_edges(design_graph).len() as int,
        ) {
            Ok(_) => result matches Ok(graph) && implements(design_graph, graph)
                && impl_graph_is_legal(graph),
            Err(error) => result matches Err(reported) && reported == error,
        },
{
    match sanity_check_flip_flops(&design_graph) {
        Ok(_) => {},
        Err(error) => {
            return Err(error);
        },
    }
    let ghost nodes = design_nodes(design_graph);
    let ghost edges = design_edges(design_graph);
    let mut impl_graph = new_impl_graph();
    let node_count = design_node_count(&design_graph);
    let mut node_replacements: Vec<Option<usize>> = Vec::new();
    while node_replacements.len() < node_count
        invariant
            node_replacements@.len() <= node_count,
            forall|v: int|
                0 <= v < node_replacements@.len() ==> (#[trigger] node_replacements@[v]) is None,
        decreases node_count - node_replacements@.len(),
    {
        node_replacements.push(None);
    }
    assert(in_range(edges, nodes.len()));
    fuse_cells(&design_graph, &mut impl_graph, &mut node_replacements);
    let edge_count = design_edge_count(&design_graph);
    let mut k: usize = 0;
    while k < edge_count
        invariant
            k <= edge_count == edges.len(),
            edge_count <= u32::MAX,
            node_count == nodes.len(),
            node_count <= u32::MAX,
            nodes == design_nodes(design_graph),
            edges == design_edges(design_graph),
            design_graph_is_legal(design_graph),
            in_range(edges, nodes.len()),
            clock_check(nodes, edges, edges.len() as int) is Ok,
            cells_stand(nodes, edges, node_replacements@, impl_nodes(impl_graph)),
            all_fused(nodes, edges, node_replacements@),
            impl_nodes(impl_graph).len() <= mapped_count(
                node_replacements@,
                node_replacements@.len() as int,
            ),
            forall|j: int|
                0 <= j < k ==> node_replacements@[(#[trigger] edges[j]).source as int] is Some
                    && node_replacements@[edges[j].target as int] is Some,
            impl_edges(impl_graph) == kept_edges(edges, node_replacements@, k as int),
            edges_are_legal(impl_nodes(impl_graph), impl_edges(impl_graph)),
        decreases edge_count - k,
    {
        let edge = design_edge_at(&design_graph, k);
        let ghost map = node_replacements@;
        let ghost cells = impl_nodes(impl_graph);
        let source_index = replace_node(
            edge.source,
            &design_graph,
            &mut impl_graph,
            &mut node_replacements,
        );
        let ghost between = node_replacements@;
        let sink_index = replace_node(
            edge.target,
            &design_graph,
            &mut impl_graph,
            &mut node_replacements,
        );
        proof {
            let after = node_replacements@;
            assert forall|j: int| 0 <= j < k + 1 implies after[(#[trigger] edges[j]).source as int]
                is Some && after[edges[j].target as int] is Some by {
                if j < k {
                    assert(map[edges[j].source as int] is Some);
                    assert(between[edges[j].source as int] == map[edges[j].source as int]);
                    assert(between[edges[j].target as int] == map[edges[j].target as int]);
                } else {
                    assert(between[edge.source as int] is Some);
                }
            }
            assert forall|j: int| 0 <= j < k implies map[(#[trigger] edges[j]).source as int]
                == after[edges[j].source as int] && map[edges[j].target as int]
                == after[edges[j].target as int] by {
                assert(map[edges[j].source as int] is Some);
                assert(between[edges[j].source as int] == map[edges[j].source as int]);
                assert(between[edges[j].target as int] == map[edges[j].target as int]);
            }
            lemma_kept_edges_stable(edges, map, after, k as int);
            lemma_kept_edges_len(edges, after, k as int);
            assert(after[edge.source as int] == Some(source_index));
            let grown = impl_nodes(impl_graph);
            assert forall|e: int| 0 <= e < impl_edges(impl_graph).len() implies (
            #[trigger] impl_edges(impl_graph)[e]).target < grown.len() && impl_edges(
                impl_graph,
            )[e].source < grown.len() && impl_edges(impl_graph)[e].weight.spec_can_connect_to(
                &grown[impl_edges(impl_graph)[e].target as int],
            ) by {
                let kept = impl_edges(impl_graph)[e];
                assert(kept.target < cells.len());
                assert(grown[kept.target as int] == cells[kept.target as int]);
            }
        }
        let skipped = source_index == sink_index && match edge.weight {
            DesignGraphEdge::FlipFlopInput(_) => true,
            _ => false,
        };
        if !skipped {
            let ghost kept = impl_edges(impl_graph);
            proof {
                assert(stands(nodes, edges, node_replacements@, impl_nodes(impl_graph), edge.target as int));
            }
            add_impl_edge(&mut impl_graph, source_index, sink_index, implement_edge(edge.weight));
            proof {
                let added = impl_edges(impl_graph);
                let grown = impl_nodes(impl_graph);
                assert forall|e: int| 0 <= e < added.len() implies (#[trigger] added[e]).target
                    < grown.len() && added[e].source < grown.len() && added[e].weight.spec_can_connect_to(
                    &grown[added[e].target as int],
                ) by {
                    if e < kept.len() {
                        assert(added[e] == kept[e]);
                    }
                }
            }
        }
        k += 1;
    }
    proof {
        assert(mapped_where_joined(edges, node_replacements@));
        assert(cells_stand(nodes, edges, node_replacements@, impl_nodes(impl_graph))
            && mapped_where_joined(edges, node_replacements@) && impl_edges(impl_graph)
            == kept_edges(edges, node_replacements@, edges.len() as int));
    }
    Ok(impl_graph)
}

} // verus!
