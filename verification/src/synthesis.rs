//! The post-synthesis netlist: look-up tables, flip-flops and module ports,
//! and the masks that configure a four-input look-up table.

use vstd::prelude::*;
use vstd::string::*;
use crate::text::{decimal, decimal_digits, last_part, same_text, spec_last_part};
use petgraph::graph::NodeIndex;

verus! {

/// The sixteen configuration bits of a four-input look-up table.
#[derive(Debug, Clone, Copy)]
pub struct LookUpTableMask(pub u16);

impl LookUpTableMask {
    /// The mask with the given bits.
    pub fn new(mask: u16) -> (r: Self)
        ensures
            r.0 == mask,
    {
        Self(mask)
    }

    /// The bits of the mask.
    pub fn get(self) -> (r: u16)
        ensures
            r == self.0,
    {
        self.0
    }
}

/// One of the four inputs of a look-up table.
#[derive(Debug, Clone, Copy, PartialEq, Eq, Structural, PartialOrd, Ord, Hash)]
pub enum LookUpTableInput {
    A,
    B,
    C,
    D,
}

impl LookUpTableInput {
    /// The place of the input among the four: `A` is 0, `D` is 3.
    pub open spec fn ordinal(self) -> int {
        match self {
            LookUpTableInput::A => 0,
            LookUpTableInput::B => 1,
            LookUpTableInput::C => 2,
            LookUpTableInput::D => 3,
        }
    }

    pub fn index(self) -> (i: usize)
        ensures
            i == self.ordinal(),
            i < 4,
    {
        match self {
            LookUpTableInput::A => 0,
            LookUpTableInput::B => 1,
            LookUpTableInput::C => 2,
            LookUpTableInput::D => 3,
        }
    }

    pub fn from_ordinal(i: usize) -> (r: Self)
        requires
            i < 4,
        ensures
            r.ordinal() == i,
    {
        if i == 0 {
            LookUpTableInput::A
        } else if i == 1 {
            LookUpTableInput::B
        } else if i == 2 {
            LookUpTableInput::C
        } else {
            LookUpTableInput::D
        }
    }

    /// The four inputs, in order.
    pub fn iter() -> (r: Vec<Self>)
        ensures
            r@ == seq![
                LookUpTableInput::A,
                LookUpTableInput::B,
                LookUpTableInput::C,
                LookUpTableInput::D,
            ],
    {
        vec![LookUpTableInput::A, LookUpTableInput::B, LookUpTableInput::C, LookUpTableInput::D]
    }
}

/// A mask as the synthesis tool writes it: either a string of binary digits,
/// or an integer together with the number of bits it stands for.
#[derive(Debug, Clone, Copy)]
pub enum YosysLutMask<'a> {
    BitString(&'a str),
    Integer(u16, usize),
}

/// The digits of a bit string: the string itself, without one leading `+`.
pub open spec fn binary_digits(s: Seq<char>) -> Seq<char> {
    if s.len() > 0 && s[0] == '+' {
        s.skip(1)
    } else {
        s
    }
}

/// Whether every one of `digits` is `0` or `1`.
pub open spec fn is_binary(digits: Seq<char>) -> bool {
    forall|i: int| 0 <= i < digits.len() ==> digits[i] == '0' || digits[i] == '1'
}

/// The number that a sequence of binary digits denotes, most significant first.
pub open spec fn binary_value(digits: Seq<char>) -> nat
    decreases digits.len(),
{
    if digits.len() == 0 {
        0
    } else {
        2 * binary_value(digits.drop_last()) + if digits.last() == '1' {
            1nat
        } else {
            0nat
        }
    }
}

/// `raw` laid `count` times side by side, each copy `width` bits above the
/// one before, cut to sixteen bits. A count of zero gives `raw` itself.
pub open spec fn repeat_mask(raw: u16, width: u16, count: nat) -> u16
    decreases count,
{
    if count <= 1 {
        raw
    } else {
        (repeat_mask(raw, width, (count - 1) as nat) << width) | raw
    }
}

/// A mask of `width` bits widened to the sixteen bits of a four-input table.
pub open spec fn expand_mask(raw: u16, width: nat) -> u16 {
    if width > 8 {
        raw
    } else {
        repeat_mask(raw, width as u16, 16nat / width)
    }
}

impl<'a> YosysLutMask<'a> {
    /// The inputs that can be decoded: a bit string is one or more binary
    /// digits that fit in sixteen bits, and a width is never zero.
    pub open spec fn decodable(self) -> bool {
        match self {
            YosysLutMask::BitString(s) => {
                &&& binary_digits(s@).len() > 0
                &&& is_binary(binary_digits(s@))
                &&& binary_value(binary_digits(s@)) <= u16::MAX
            },
            YosysLutMask::Integer(_, width) => width > 0,
        }
    }

    /// The bits as they are written, before they are widened.
    pub open spec fn raw_value(self) -> u16 {
        match self {
            YosysLutMask::BitString(s) => binary_value(binary_digits(s@)) as u16,
            YosysLutMask::Integer(raw, _) => raw,
        }
    }

    /// The number of bits that the mask is written with: the length of a
    /// bit string, a leading `+` counted.
    pub open spec fn width(self) -> nat {
        match self {
            YosysLutMask::BitString(s) => s@.len(),
            YosysLutMask::Integer(_, width) => width as nat,
        }
    }

    /// The mask of a four-input look-up table: the bits as written,
    /// repeated until they fill sixteen bits.
    pub fn decode(self) -> (r: LookUpTableMask)
        requires
            self.decodable(),
        ensures
            r.0 == expand_mask(self.raw_value(), self.width()),
    {
        match self {
            YosysLutMask::BitString(raw_config) => {
                let width = raw_config.unicode_len();
                let decoded = parse_binary(raw_config);
                LookUpTableMask::new(expand_to_16_bits(decoded, width))
            },
            YosysLutMask::Integer(raw_config, width) => LookUpTableMask::new(
                expand_to_16_bits(raw_config, width),
            ),
        }
    }
}

proof fn lemma_binary_value_prefix(digits: Seq<char>, n: int)
    requires
        0 <= n <= digits.len(),
    ensures
        binary_value(digits.take(n)) <= binary_value(digits),
    decreases digits.len() - n,
{
    if n < digits.len() {
        lemma_binary_value_prefix(digits, n + 1);
        assert(digits.take(n + 1).drop_last() =~= digits.take(n));
    } else {
        assert(digits.take(n) =~= digits);
    }
}

fn parse_binary(s: &str) -> (r: u16)
    requires
        binary_digits(s@).len() > 0,
        is_binary(binary_digits(s@)),
        binary_value(binary_digits(s@)) <= u16::MAX,
    ensures
        r == binary_value(binary_digits(s@)),
{
    let len = s.unicode_len();
    let start: usize = if s.get_char(0) == '+' {
        1
    } else {
        0
    };
    let ghost digits = binary_digits(s@);
    let mut value: u16 = 0;
    let mut i: usize = start;
    assert(digits.take(0) =~= Seq::<char>::empty());
    while i < len
        invariant
            start <= i <= len,
            len == s@.len(),
            digits == binary_digits(s@),
            digits.len() == len - start,
            forall|k: int| 0 <= k < digits.len() ==> digits[k] == s@[k + start],
            is_binary(digits),
            binary_value(digits) <= u16::MAX,
            value == binary_value(digits.take(i - start)),
        decreases len - i,
    {
        let c = s.get_char(i);
        let ghost n = i - start;
        proof {
            lemma_binary_value_prefix(digits, n + 1);
            assert(digits.take(n + 1).drop_last() =~= digits.take(n));
            assert(digits.take(n + 1).last() == c);
        }
        let bit: u16 = if c == '1' {
            1
        } else {
            0
        };
        value = 2 * value + bit;
        i += 1;
    }
    assert(digits.take(len - start) =~= digits);
    value
}

fn expand_to_16_bits(raw_value: u16, width: usize) -> (r: u16)
    requires
        width > 0,
    ensures
        r == expand_mask(raw_value, width as nat),
{
    if width > 8 {
        return raw_value;
    }
    let repeat_count: usize = 16 / width;
    assert(16int / (width as int) >= 1) by (nonlinear_arith)
        requires
            0 < width <= 8,
    ;
    let shift: u16 = width as u16;
    let mut acc: u16 = raw_value;
    let mut k: usize = 1;
    while k < repeat_count
        invariant
            1 <= k <= repeat_count,
            shift == width,
            0 < shift <= 8,
            acc == repeat_mask(raw_value, shift, k as nat),
        decreases repeat_count - k,
    {
        acc = (acc << shift) | raw_value;
        k += 1;
    }
    acc
}


/// On which edge of the clock a flip-flop takes its input.
#[derive(Debug, Clone, Copy, PartialEq, Eq, Structural)]
pub enum FlipFlopTrigger {
    RisingEdge,
    FallingEdge,
}

#[derive(Debug, Clone, Copy, PartialEq, Eq, Structural)]
pub enum ModulePortDirection {
    Input,
    Output,
}

/// One bit of a port of the top-level module.
#[derive(Debug)]
pub struct ModulePort {
    pub name: String,
    pub direction: ModulePortDirection,
}

impl Clone for ModulePort {
    fn clone(&self) -> (copy: Self)
        ensures
            copy == *self,
    {
        ModulePort { name: self.name.clone(), direction: self.direction }
    }
}

#[derive(Debug)]
pub struct FlipFlop {
    pub name: String,
    pub trigger: FlipFlopTrigger,
}

impl Clone for FlipFlop {
    fn clone(&self) -> (copy: Self)
        ensures
            copy == *self,
    {
        FlipFlop { name: self.name.clone(), trigger: self.trigger }
    }
}

#[derive(Debug)]
pub struct LookUpTable {
    pub name: String,
    pub mask: LookUpTableMask,
}

impl Clone for LookUpTable {
    fn clone(&self) -> (copy: Self)
        ensures
            copy == *self,
    {
        LookUpTable { name: self.name.clone(), mask: self.mask }
    }
}

/// A node of the design graph.
#[derive(Debug)]
pub enum DesignGraphNode {
    LookUpTable(LookUpTable),
    FlipFlop(FlipFlop),
    ModulePort(ModulePort),
}

impl DesignGraphNode {
    pub open spec fn spec_name(&self) -> String {
        match self {
            DesignGraphNode::LookUpTable(lut) => lut.name,
            DesignGraphNode::FlipFlop(ff) => ff.name,
            DesignGraphNode::ModulePort(port) => port.name,
        }
    }

    /// The name of the look-up table, flip-flop or port.
    pub fn name(&self) -> (name: String)
        ensures
            name == self.spec_name(),
    {
        match self {
            DesignGraphNode::LookUpTable(lut) => lut.name.clone(),
            DesignGraphNode::FlipFlop(ff) => ff.name.clone(),
            DesignGraphNode::ModulePort(port) => port.name.clone(),
        }
    }
}

#[derive(Debug, Clone, Copy, PartialEq, Eq, Structural)]
pub enum FlipFlopInput {
    Clock,
    Data,
}

/// What an edge of the design graph drives at its target.
#[derive(Debug, Clone, Copy, PartialEq, Eq, Structural)]
pub enum DesignGraphEdge {
    LookUpTableInput(LookUpTableInput),
    FlipFlopInput(FlipFlopInput),
    ModulePortInput,
}

impl DesignGraphEdge {
    /// Whether an edge of this kind may end at `node`: an input of a
    /// look-up table at a look-up table, an input of a flip-flop at a
    /// flip-flop, and the input of a module port at an output port.
    pub open spec fn spec_can_connect_to(self, node: &DesignGraphNode) -> bool {
        match (self, node) {
            (DesignGraphEdge::LookUpTableInput(_), DesignGraphNode::LookUpTable(_)) => true,
            (DesignGraphEdge::FlipFlopInput(_), DesignGraphNode::FlipFlop(_)) => true,
            (DesignGraphEdge::ModulePortInput, DesignGraphNode::ModulePort(port)) => port.direction
                == ModulePortDirection::Output,
            _ => false,
        }
    }

    /// Whether an edge of this kind may end at `node`.
    #[verifier::when_used_as_spec(spec_can_connect_to)]
    pub fn can_connect_to(self, node: &DesignGraphNode) -> (r: bool)
        ensures
            r == self.spec_can_connect_to(node),
    {
        match (self, node) {
            (DesignGraphEdge::LookUpTableInput(_), DesignGraphNode::LookUpTable(_)) => true,
            (DesignGraphEdge::FlipFlopInput(_), DesignGraphNode::FlipFlop(_)) => true,
            (DesignGraphEdge::ModulePortInput, DesignGraphNode::ModulePort(port)) => port.direction
                == ModulePortDirection::Output,
            _ => false,
        }
    }
}


/// The design graph, a `petgraph` directed graph. The library speaks of it
/// through the sequence of its nodes and the sequence of its edges, and
/// reaches it only through the functions below, whose contracts are taken on
/// trust.
pub type DesignGraph = petgraph::graph::Graph<DesignGraphNode, DesignGraphEdge, petgraph::Directed, u32>;

/// An edge of the design graph: the indices of the two nodes it joins, and
/// what it drives.
#[derive(Debug, Clone, Copy, PartialEq, Eq, Structural)]
pub struct DesignEdge {
    pub source: usize,
    pub target: usize,
    pub weight: DesignGraphEdge,
}

/// The nodes of a design graph, each at its index.
pub uninterp spec fn design_nodes(graph: DesignGraph) -> Seq<DesignGraphNode>;

/// The edges of a design graph, each at its index.
pub uninterp spec fn design_edges(graph: DesignGraph) -> Seq<DesignEdge>;

/// `Graph::new`: a graph without nodes or edges.
#[verifier::external_body]
pub(crate) fn new_design_graph() -> (graph: DesignGraph)
    ensures
        design_nodes(graph) == Seq::<DesignGraphNode>::empty(),
        design_edges(graph) == Seq::<DesignEdge>::empty(),
{
    petgraph::graph::Graph::new()
}

/// `Graph::add_node`: appends a node and returns its index. `petgraph`
/// panics when the index would not fit in 32 bits.
#[verifier::external_body]
pub(crate) fn add_design_node(graph: &mut DesignGraph, node: DesignGraphNode) -> (index: usize)
    requires
        design_nodes(*old(graph)).len() < u32::MAX,
    ensures
        index == design_nodes(*old(graph)).len(),
        design_nodes(*final(graph)) == design_nodes(*old(graph)).push(node),
        design_edges(*final(graph)) == design_edges(*old(graph)),
{
    graph.add_node(node).index()
}

/// `Graph::add_edge`: appends an edge between two nodes of the graph.
/// `petgraph` panics when either node is missing or when the edge's index
/// would not fit in 32 bits.
#[verifier::external_body]
pub(crate) fn add_design_edge(
    graph: &mut DesignGraph,
    source: usize,
    target: usize,
    weight: DesignGraphEdge,
)
    requires
        source < design_nodes(*old(graph)).len(),
        target < design_nodes(*old(graph)).len(),
        design_edges(*old(graph)).len() < u32::MAX,
    ensures
        design_nodes(*final(graph)) == design_nodes(*old(graph)),
        design_edges(*final(graph)) == design_edges(*old(graph)).push(
            DesignEdge { source, target, weight },
        ),
{
    graph.add_edge(NodeIndex::new(source), NodeIndex::new(target), weight);
}

/// `Graph::node_count`. Node indices have 32 bits, and the largest is kept
/// free.
#[verifier::external_body]
pub(crate) fn design_node_count(graph: &DesignGraph) -> (count: usize)
    ensures
        count == design_nodes(*graph).len(),
        count <= u32::MAX,
{
    graph.node_count()
}

/// `Graph::edge_count`.
#[verifier::external_body]
pub(crate) fn design_edge_count(graph: &DesignGraph) -> (count: usize)
    ensures
        count == design_edges(*graph).len(),
        count <= u32::MAX,
{
    graph.edge_count()
}

/// Indexing a graph by a node index: the node's weight.
#[verifier::external_body]
pub(crate) fn design_node_at(graph: &DesignGraph, index: usize) -> (node: &DesignGraphNode)
    requires
        index < design_nodes(*graph).len(),
    ensures
        *node == design_nodes(*graph)[index as int],
{
    &graph[NodeIndex::new(index)]
}

/// `Graph::raw_edges`, at one index. Both ends of an edge are nodes of the
/// graph: `add_edge` admits no other.
#[verifier::external_body]
pub(crate) fn design_edge_at(graph: &DesignGraph, index: usize) -> (edge: DesignEdge)
    requires
        index < design_edges(*graph).len(),
    ensures
        edge == design_edges(*graph)[index as int],
        edge.source < design_nodes(*graph).len(),
        edge.target < design_nodes(*graph).len(),
{
    let raw = &graph.raw_edges()[index];
    DesignEdge { source: raw.source().index(), target: raw.target().index(), weight: raw.weight }
}

/// The number of the first `upto` edges that leave `node`.
pub open spec fn out_count(edges: Seq<DesignEdge>, node: int, upto: int) -> int
    decreases upto,
{
    if upto <= 0 {
        0
    } else {
        out_count(edges, node, upto - 1) + if edges[upto - 1].source == node {
            1int
        } else {
            0int
        }
    }
}

/// `Graph::edges(node).count()`: the number of edges that leave a node.
#[verifier::external_body]
pub(crate) fn design_out_degree(graph: &DesignGraph, node: usize) -> (degree: usize)
    requires
        node < design_nodes(*graph).len(),
    ensures
        degree == out_count(design_edges(*graph), node as int, design_edges(*graph).len() as int),
{
    graph.edges(NodeIndex::new(node)).count()
}

/// Whether every edge of the graph joins two of its nodes and ends at a node
/// that its kind may drive.
pub open spec fn design_graph_is_legal(graph: DesignGraph) -> bool {
    forall|k: int|
        0 <= k < design_edges(graph).len() ==> (#[trigger] design_edges(graph)[k]).target
            < design_nodes(graph).len() && design_edges(graph)[k].source < design_nodes(
            graph,
        ).len() && design_edges(graph)[k].weight.spec_can_connect_to(
            &design_nodes(graph)[design_edges(graph)[k].target as int],
        )
}

/// Why a netlist is no design.
#[derive(Debug)]
pub enum SynthesisError {
    /// Nothing drives an output port of the module.
    ModulePortUndriven { port: String },
}

/// The number of a net of the netlist.
#[derive(Debug, Clone, Copy, PartialEq, Eq, Structural, Hash)]
pub struct NetId(pub u32);

/// A look-up table of the netlist: its name and mask, the nets at its
/// inputs `A` to `D`, and the net that it drives.
#[derive(Debug)]
pub struct LookUpTableConfig {
    pub name: String,
    pub mask: LookUpTableMask,
    pub inputs: [Option<NetId>; 4],
    pub output: NetId,
}

/// A flip-flop of the netlist, with the nets at its clock and data inputs
/// and the net that it drives.
#[derive(Debug)]
pub struct FlipFlopConfig {
    pub name: String,
    pub trigger: FlipFlopTrigger,
    pub clock: NetId,
    pub data: NetId,
    pub output: NetId,
}

/// One bit of a port of the module, with its net: the net that an input
/// drives, or the net that drives an output.
#[derive(Debug)]
pub struct ModulePortConfig {
    pub name: String,
    pub direction: ModulePortDirection,
    pub net: NetId,
}

impl ModulePortConfig {
    /// The port without its net.
    pub open spec fn port(self) -> ModulePort {
        ModulePort { name: self.name, direction: self.direction }
    }
}

impl FlipFlopConfig {
    /// The flip-flop without its nets.
    pub open spec fn flip_flop(self) -> FlipFlop {
        FlipFlop { name: self.name, trigger: self.trigger }
    }
}

impl LookUpTableConfig {
    /// The look-up table without its nets.
    pub open spec fn look_up_table(self) -> LookUpTable {
        LookUpTable { name: self.name, mask: self.mask }
    }
}

impl ModulePort {
    /// The port of a configuration, without its net.
    pub fn from(config: ModulePortConfig) -> (port: Self)
        ensures
            port == config.port(),
    {
        ModulePort { name: config.name, direction: config.direction }
    }
}

impl FlipFlop {
    /// The flip-flop of a configuration, without its nets.
    pub fn from(config: FlipFlopConfig) -> (ff: Self)
        ensures
            ff == config.flip_flop(),
    {
        FlipFlop { name: config.name, trigger: config.trigger }
    }
}

impl LookUpTable {
    /// The look-up table of a configuration, without its nets.
    pub fn from(config: LookUpTableConfig) -> (lut: Self)
        ensures
            lut == config.look_up_table(),
    {
        LookUpTable { name: config.name, mask: config.mask }
    }
}

/// The netlist of one module: its ports, flip-flops and look-up tables.
pub struct Design {
    pub name: String,
    pub ports: Vec<ModulePortConfig>,
    pub flip_flops: Vec<FlipFlopConfig>,
    pub lookup_tables: Vec<LookUpTableConfig>,
}


impl Design {
    /// The number of nodes of the design: its ports, flip-flops and look-up
    /// tables.
    pub open spec fn node_count(&self) -> int {
        (self.ports@.len() + self.flip_flops@.len() + self.lookup_tables@.len()) as int
    }

    /// The node with index `node`: the ports come first, then the
    /// flip-flops, then the look-up tables.
    pub open spec fn node(&self, node: int) -> DesignGraphNode {
        let ports = self.ports@.len() as int;
        let flip_flops = self.flip_flops@.len() as int;
        if node < ports {
            DesignGraphNode::ModulePort(self.ports@[node].port())
        } else if node < ports + flip_flops {
            DesignGraphNode::FlipFlop(self.flip_flops@[node - ports].flip_flop())
        } else {
            DesignGraphNode::LookUpTable(
                self.lookup_tables@[node - ports - flip_flops].look_up_table(),
            )
        }
    }

    /// Whether node `node` drives net `net`: an input port drives its net,
    /// and a flip-flop or a look-up table the net at its output.
    pub open spec fn drives(&self, node: int, net: NetId) -> bool {
        let ports = self.ports@.len() as int;
        let flip_flops = self.flip_flops@.len() as int;
        if node < 0 {
            false
        } else if node < ports {
            self.ports@[node].direction == ModulePortDirection::Input && self.ports@[node].net
                == net
        } else if node < ports + flip_flops {
            self.flip_flops@[node - ports].output == net
        } else if node < self.node_count() {
            self.lookup_tables@[node - ports - flip_flops].output == net
        } else {
            false
        }
    }

    /// Whether node `node` takes net `net` at its input `input`: an output
    /// port takes its net, a flip-flop the nets at its clock and data
    /// inputs, and a look-up table the nets at the inputs that are used.
    pub open spec fn reads(&self, node: int, net: NetId, input: DesignGraphEdge) -> bool {
        let ports = self.ports@.len() as int;
        let flip_flops = self.flip_flops@.len() as int;
        if node < 0 {
            false
        } else if node < ports {
            self.ports@[node].direction == ModulePortDirection::Output && self.ports@[node].net
                == net && input == DesignGraphEdge::ModulePortInput
        } else if node < ports + flip_flops {
            let ff = self.flip_flops@[node - ports];
            (input == DesignGraphEdge::FlipFlopInput(FlipFlopInput::Clock) && ff.clock == net) || (
            input == DesignGraphEdge::FlipFlopInput(FlipFlopInput::Data) && ff.data == net)
        } else if node < self.node_count() {
            let lut = self.lookup_tables@[node - ports - flip_flops];
            input matches DesignGraphEdge::LookUpTableInput(which) && lut.inputs@[which.ordinal()]
                == Some(net)
        } else {
            false
        }
    }

    /// Whether `edge` leads from the node that drives a net to an input
    /// that takes the net.
    pub open spec fn links(&self, edge: DesignEdge) -> bool {
        exists|net: NetId| #[trigger]
            self.drives(edge.source as int, net) && self.reads(edge.target as int, net, edge.weight)
    }

    /// Whether port number `port` is an output that no node drives.
    pub open spec fn undriven(&self, port: int) -> bool {
        &&& 0 <= port < self.ports@.len()
        &&& self.ports@[port].direction == ModulePortDirection::Output
        &&& forall|node: int| !#[trigger] self.drives(node, self.ports@[port].net)
    }

    /// No net is driven by two nodes.
    pub open spec fn single_driver(&self) -> bool {
        forall|a: int, b: int, net: NetId|
            #![trigger self.drives(a, net), self.drives(b, net)]
            self.drives(a, net) && self.drives(b, net) ==> a == b
    }

    /// The design is small enough for a graph: its nodes and the inputs that
    /// they take can be numbered in 32 bits.
    pub open spec fn fits(&self) -> bool {
        self.ports@.len() + 2 * self.flip_flops@.len() + 4 * self.lookup_tables@.len() < u32::MAX
    }

    /// Whether `graph` is the graph of this design: its nodes are those of
    /// the design, in order, and its edges lead from the node that drives a
    /// net to each input that takes the net, and are no other.
    pub open spec fn is_graph(&self, graph: DesignGraph) -> bool {
        &&& design_nodes(graph).len() == self.node_count()
        &&& forall|node: int|
            0 <= node < self.node_count() ==> #[trigger] design_nodes(graph)[node] == self.node(node)
        &&& forall|k: int|
            0 <= k < design_edges(graph).len() ==> self.links(#[trigger] design_edges(graph)[k])
        &&& forall|edge: DesignEdge| #[trigger]
            self.links(edge) ==> design_edges(graph).contains(edge)
    }

    /// The graph of the design, or the first output port that nothing drives.
    pub fn into_graph(self) -> (result: Result<DesignGraph, SynthesisError>)
        requires
            self.fits(),
            self.single_driver(),
        ensures
            match result {
                Ok(graph) => self.is_graph(graph) && design_graph_is_legal(graph) && forall|
                    port: int,
                | !#[trigger] self.undriven(port),
                Err(SynthesisError::ModulePortUndriven { port }) => exists|at: int| #[trigger]
                    self.undriven(at) && port == self.ports@[at].name && forall|before: int|
                        0 <= before < at ==> !self.undriven(before),
            },
    {
        let mut graph = new_design_graph();
        let mut sources: Vec<(NetId, usize)> = Vec::new();
        let mut sinks: Vec<(NetId, usize, DesignGraphEdge)> = Vec::new();
        let port_count = self.ports.len();
        let flip_flop_count = self.flip_flops.len();
        let mut i: usize = 0;
        while i < port_count
            invariant
                i <= port_count == self.ports@.len(),
                self.fits(),
                design_nodes(graph).len() == i,
                design_edges(graph).len() == 0,
                forall|node: int|
                    0 <= node < i ==> #[trigger] design_nodes(graph)[node] == self.node(node),
                self.listed(sources@, sinks@, i as int),
                sinks@.len() <= i,
            decreases port_count - i,
        {
            let config = &self.ports[i];
            let ghost before_sources = sources@;
            let ghost before_sinks = sinks@;
            let node = add_design_node(
                &mut graph,
                DesignGraphNode::ModulePort(
                    ModulePort { name: config.name.clone(), direction: config.direction },
                ),
            );
            match config.direction {
                ModulePortDirection::Input => {
                    sources.push((config.net, node));
                },
                ModulePortDirection::Output => {
                    sinks.push((config.net, node, DesignGraphEdge::ModulePortInput));
                },
            }
            proof {
                if config.direction == ModulePortDirection::Input {
                    assert(sources@[sources@.len() - 1] == (config.net, node));
                } else {
                    assert(sinks@[sinks@.len() - 1] == (
                        config.net,
                        node,
                        DesignGraphEdge::ModulePortInput,
                    ));
                }
                self.lemma_listed_next(before_sources, before_sinks, sources@, sinks@, i as int);
            }
            i += 1;
        }
        i = 0;
        while i < flip_flop_count
            invariant
                i <= flip_flop_count == self.flip_flops@.len(),
                port_count == self.ports@.len(),
                self.fits(),
                design_nodes(graph).len() == port_count + i,
                design_edges(graph).len() == 0,
                forall|node: int|
                    0 <= node < port_count + i ==> #[trigger] design_nodes(graph)[node] == self.node(
                        node,
                    ),
                self.listed(sources@, sinks@, port_count + i),
                sinks@.len() <= port_count + 2 * i,
            decreases flip_flop_count - i,
        {
            let config = &self.flip_flops[i];
            let ghost before_sources = sources@;
            let ghost before_sinks = sinks@;
            let node = add_design_node(
                &mut graph,
                DesignGraphNode::FlipFlop(FlipFlop { name: config.name.clone(), trigger: config.trigger }),
            );
            sinks.push((config.clock, node, DesignGraphEdge::FlipFlopInput(FlipFlopInput::Clock)));
            sinks.push((config.data, node, DesignGraphEdge::FlipFlopInput(FlipFlopInput::Data)));
            sources.push((config.output, node));
            proof {
                assert(sources@[sources@.len() - 1] == (config.output, node));
                assert(sinks@[sinks@.len() - 2] == (
                    config.clock,
                    node,
                    DesignGraphEdge::FlipFlopInput(FlipFlopInput::Clock),
                ));
                assert(sinks@[sinks@.len() - 1] == (
                    config.data,
                    node,
                    DesignGraphEdge::FlipFlopInput(FlipFlopInput::Data),
                ));
                self.lemma_listed_next(
                    before_sources,
                    before_sinks,
                    sources@,
                    sinks@,
                    port_count + i,
                );
            }
            i += 1;
        }
        i = 0;
        while i < self.lookup_tables.len()
            invariant
                i <= self.lookup_tables@.len(),
                port_count == self.ports@.len(),
                flip_flop_count == self.flip_flops@.len(),
                self.fits(),
                design_nodes(graph).len() == port_count + flip_flop_count + i,
                design_edges(graph).len() == 0,
                forall|node: int|
                    0 <= node < port_count + flip_flop_count + i ==> #[trigger] design_nodes(
                        graph,
                    )[node] == self.node(node),
                self.listed(sources@, sinks@, port_count + flip_flop_count + i),
                sinks@.len() <= port_count + 2 * flip_flop_count + 4 * i,
            decreases self.lookup_tables@.len() - i,
        {
            let config = &self.lookup_tables[i];
            let ghost before_sources = sources@;
            let ghost before_sinks = sinks@;
            let node = add_design_node(
                &mut graph,
                DesignGraphNode::LookUpTable(LookUpTable { name: config.name.clone(), mask: config.mask }),
            );
            let mut which: usize = 0;
            while which < 4
                invariant
                    which <= 4,
                    i < self.lookup_tables@.len(),
                    *config == self.lookup_tables@[i as int],
                    node == port_count + flip_flop_count + i,
                    port_count == self.ports@.len(),
                    flip_flop_count == self.flip_flops@.len(),
                    before_sinks.is_prefix_of(sinks@),
                    sinks@.len() <= before_sinks.len() + which,
                    forall|j: int|
                        before_sinks.len() <= j < sinks@.len() ==> (#[trigger] sinks@[j]).1 == node
                            && self.reads(node as int, sinks@[j].0, sinks@[j].2),
                    forall|input: LookUpTableInput|
                        input.ordinal() < which && (#[trigger] config.inputs@[input.ordinal()])
                            is Some ==> sinks@.contains(
                            (
                                config.inputs@[input.ordinal()].unwrap(),
                                node,
                                DesignGraphEdge::LookUpTableInput(input),
                            ),
                        ),
                decreases 4 - which,
            {
                let input = LookUpTableInput::from_ordinal(which);
                let ghost earlier = sinks@;
                if let Some(net) = config.inputs[which] {
                    sinks.push((net, node, DesignGraphEdge::LookUpTableInput(input)));
                }
                proof {
                    assert forall|other: LookUpTableInput|
                        other.ordinal() < which + 1 && (#[trigger] config.inputs@[other.ordinal()])
                            is Some implies sinks@.contains(
                        (
                            config.inputs@[other.ordinal()].unwrap(),
                            node,
                            DesignGraphEdge::LookUpTableInput(other),
                        ),
                    ) by {
                        if other.ordinal() == which {
                            assert(other == input);
                            assert(sinks@[earlier.len() as int] == (
                                config.inputs@[which as int].unwrap(),
                                node,
                                DesignGraphEdge::LookUpTableInput(input),
                            ));
                        } else {
                            let entry = (
                                config.inputs@[other.ordinal()].unwrap(),
                                node,
                                DesignGraphEdge::LookUpTableInput(other),
                            );
                            assert(earlier.contains(entry));
                            let j = choose|j: int| 0 <= j < earlier.len() && earlier[j] == entry;
                            assert(sinks@[j] == entry);
                        }
                    }
                }
                which += 1;
            }
            sources.push((config.output, node));
            proof {
                assert(sources@[sources@.len() - 1] == (config.output, node));
                self.lemma_listed_next(
                    before_sources,
                    before_sinks,
                    sources@,
                    sinks@,
                    port_count + flip_flop_count + i,
                );
            }
            i += 1;
        }
        let ghost nodes = design_nodes(graph);
        let mut k: usize = 0;
        while k < sinks.len()
            invariant
                k <= sinks@.len() < u32::MAX,
                port_count == self.ports@.len(),
                self.listed(sources@, sinks@, self.node_count()),
                self.single_driver(),
                design_nodes(graph) == nodes,
                nodes.len() == self.node_count(),
                design_edges(graph).len() <= k,
                forall|e: int|
                    0 <= e < design_edges(graph).len() ==> self.links(
                        #[trigger] design_edges(graph)[e],
                    ),
                forall|a: int, b: int|
                    #![trigger sources@[a], sinks@[b]]
                    0 <= a < sources@.len() && 0 <= b < k && sources@[a].0 == sinks@[b].0
                        ==> design_edges(graph).contains(
                        DesignEdge { source: sources@[a].1, target: sinks@[b].1, weight: sinks@[b].2 },
                    ),
                forall|b: int|
                    0 <= b < k && self.ports@.len() > (#[trigger] sinks@[b]).1 ==> exists|a: int|
                        0 <= a < sources@.len() && (#[trigger] sources@[a]).0 == sinks@[b].0,
            decreases sinks@.len() - k,
        {
            let sink = sinks[k];
            let mut found: Option<usize> = None;
            let mut a: usize = 0;
            while a < sources.len() && found.is_none()
                invariant
                    a <= sources@.len(),
                    match found {
                        Some(node) => exists|at: int|
                            0 <= at < sources@.len() && #[trigger] sources@[at] == (sink.0, node),
                        None => forall|at: int| 0 <= at < a ==> (#[trigger] sources@[at]).0 != sink.0,
                    },
                decreases sources@.len() - a + if found is None {
                    1int
                } else {
                    0int
                },
            {
                if sources[a].0 == sink.0 {
                    found = Some(sources[a].1);
                } else {
                    a += 1;
                }
            }
            match found {
                Some(source) => {
                    let ghost earlier = design_edges(graph);
                    let ghost at = choose|at: int|
                        0 <= at < sources@.len() && #[trigger] sources@[at] == (sink.0, source);
                    proof {
                        assert(self.drives(sources@[at].1 as int, sources@[at].0));
                        assert(self.reads(sinks@[k as int].1 as int, sinks@[k as int].0, sinks@[k as int].2));
                    }
                    add_design_edge(&mut graph, source, sink.1, sink.2);
                    proof {
                        assert(sources@[at].0 == sinks@[k as int].0);
                        let added = DesignEdge { source, target: sink.1, weight: sink.2 };
                        assert(self.links(added)) by {
                            assert(self.drives(added.source as int, sink.0));
                        }
                        let edges = design_edges(graph);
                        assert(edges[earlier.len() as int] == added);
                        assert forall|e: int| 0 <= e < edges.len() implies self.links(
                            #[trigger] edges[e],
                        ) by {
                            if e < earlier.len() {
                                assert(edges[e] == earlier[e]);
                            }
                        }
                        assert forall|a: int, b: int|
                            #![trigger sources@[a], sinks@[b]]
                            0 <= a < sources@.len() && 0 <= b < k + 1 && sources@[a].0
                                == sinks@[b].0 implies edges.contains(
                            DesignEdge {
                                source: sources@[a].1,
                                target: sinks@[b].1,
                                weight: sinks@[b].2,
                            },
                        ) by {
                            if b < k {
                                let edge = DesignEdge {
                                    source: sources@[a].1,
                                    target: sinks@[b].1,
                                    weight: sinks@[b].2,
                                };
                                assert(earlier.contains(edge));
                                let e = choose|e: int| 0 <= e < earlier.len() && earlier[e] == edge;
                                assert(edges[e] == edge);
                            } else {
                                assert(self.drives(sources@[a].1 as int, sink.0));
                                assert(self.drives(sources@[at].1 as int, sink.0));
                            }
                        }
                    }
                },
                None => {
                    if sink.1 < port_count {
                        proof {
                            assert(self.reads(sinks@[k as int].1 as int, sinks@[k as int].0, sinks@[k as int].2));
                            assert forall|node: int| !#[trigger] self.drives(node, sink.0) by {
                                if self.drives(node, sink.0) {
                                    assert(sources@.contains((sink.0, node as usize)));
                                    let at = choose|at: int|
                                        0 <= at < sources@.len() && sources@[at] == (
                                            sink.0,
                                            node as usize,
                                        );
                                    assert(sources@[at].0 == sink.0);
                                }
                            }
                            assert(sink == sinks@[k as int]);
                            assert(self.ports@[sink.1 as int].net == sink.0);
                            assert(self.ports@[sink.1 as int].direction
                                == ModulePortDirection::Output);
                            assert(self.undriven(sink.1 as int));
                            assert forall|before: int| 0 <= before < sink.1 implies !self.undriven(
                                before,
                            ) by {
                                if self.undriven(before) {
                                    let entry = (
                                        self.ports@[before].net,
                                        before as usize,
                                        DesignGraphEdge::ModulePortInput,
                                    );
                                    assert(self.reads(before, entry.0, entry.2));
                                    assert(sinks@.contains(entry));
                                    let b = choose|b: int| 0 <= b < sinks@.len() && sinks@[b] == entry;
                                    self.lemma_sinks_in_order(sources@, sinks@, b, k as int);
                                    let a = choose|a: int|
                                        0 <= a < sources@.len() && (#[trigger] sources@[a]).0
                                            == sinks@[b].0;
                                    assert(self.drives(sources@[a].1 as int, sources@[a].0));
                                }
                            }
                        }
                        return Err(
                            SynthesisError::ModulePortUndriven { port: self.ports[sink.1].name.clone() },
                        );
                    }
                },
            }
            k += 1;
        }
        proof {
            let edges = design_edges(graph);
            assert forall|edge: DesignEdge| #[trigger] self.links(edge) implies edges.contains(
                edge,
            ) by {
                let net = choose|net: NetId| #[trigger]
                    self.drives(edge.source as int, net) && self.reads(
                        edge.target as int,
                        net,
                        edge.weight,
                    );
                assert(sources@.contains((net, edge.source)));
                assert(sinks@.contains((net, edge.target, edge.weight)));
                let a = choose|a: int| 0 <= a < sources@.len() && sources@[a] == (net, edge.source);
                let b = choose|b: int|
                    0 <= b < sinks@.len() && sinks@[b] == (net, edge.target, edge.weight);
                assert(sources@[a].0 == sinks@[b].0);
            }
            assert forall|e: int| 0 <= e < edges.len() implies (#[trigger] edges[e]).target
                < nodes.len() && edges[e].source < nodes.len() && edges[e].weight.spec_can_connect_to(
                &nodes[edges[e].target as int],
            ) by {
                assert(self.links(edges[e]));
            }
            assert forall|port: int| !#[trigger] self.undriven(port) by {
                if self.undriven(port) {
                    let entry = (
                        self.ports@[port].net,
                        port as usize,
                        DesignGraphEdge::ModulePortInput,
                    );
                    assert(self.reads(port, entry.0, entry.2));
                    assert(sinks@.contains(entry));
                    let b = choose|b: int| 0 <= b < sinks@.len() && sinks@[b] == entry;
                    let a = choose|a: int|
                        0 <= a < sources@.len() && (#[trigger] sources@[a]).0 == sinks@[b].0;
                    assert(self.drives(sources@[a].1 as int, sources@[a].0));
                }
            }
        }
        Ok(graph)
    }

    /// Whether `sources` and `sinks` list what the first `count` nodes drive
    /// and take, the sinks node after node.
    pub open spec fn listed(
        &self,
        sources: Seq<(NetId, usize)>,
        sinks: Seq<(NetId, usize, DesignGraphEdge)>,
        count: int,
    ) -> bool {
        &&& 0 <= count <= self.node_count()
        &&& forall|a: int|
            0 <= a < sources.len() ==> (#[trigger] sources[a]).1 < count && self.drives(
                sources[a].1 as int,
                sources[a].0,
            )
        &&& forall|node: int, net: NetId| #[trigger]
            self.drives(node, net) && node < count ==> sources.contains((net, node as usize))
        &&& forall|b: int|
            0 <= b < sinks.len() ==> (#[trigger] sinks[b]).1 < count && self.reads(
                sinks[b].1 as int,
                sinks[b].0,
                sinks[b].2,
            )
        &&& forall|node: int, net: NetId, input: DesignGraphEdge| #[trigger]
            self.reads(node, net, input) && node < count ==> sinks.contains(
                (net, node as usize, input),
            )
        &&& forall|b: int, c: int|
            0 <= b < c < sinks.len() ==> (#[trigger] sinks[b]).1 <= (#[trigger] sinks[c]).1
    }

    proof fn lemma_sinks_in_order(
        &self,
        sources: Seq<(NetId, usize)>,
        sinks: Seq<(NetId, usize, DesignGraphEdge)>,
        b: int,
        k: int,
    )
        requires
            self.listed(sources, sinks, self.node_count()),
            0 <= b < sinks.len(),
            0 <= k < sinks.len(),
            sinks[b].1 < sinks[k].1,
        ensures
            b < k,
    {
        if k < b {
            assert(sinks[k].1 <= sinks[b].1);
        }
    }

    proof fn lemma_listed_next(
        &self,
        sources: Seq<(NetId, usize)>,
        sinks: Seq<(NetId, usize, DesignGraphEdge)>,
        more_sources: Seq<(NetId, usize)>,
        more_sinks: Seq<(NetId, usize, DesignGraphEdge)>,
        node: int,
    )
        requires
            self.listed(sources, sinks, node),
            node < self.node_count(),
            sources.is_prefix_of(more_sources),
            sinks.is_prefix_of(more_sinks),
            forall|a: int|
                sources.len() <= a < more_sources.len() ==> (#[trigger] more_sources[a]).1 == node
                    && self.drives(node, more_sources[a].0),
            forall|b: int|
                sinks.len() <= b < more_sinks.len() ==> (#[trigger] more_sinks[b]).1 == node
                    && self.reads(node, more_sinks[b].0, more_sinks[b].2),
            forall|net: NetId| #[trigger]
                self.drives(node, net) ==> more_sources.contains((net, node as usize)),
            forall|net: NetId, input: DesignGraphEdge| #[trigger]
                self.reads(node, net, input) ==> more_sinks.contains((net, node as usize, input)),
        ensures
            self.listed(more_sources, more_sinks, node + 1),
    {
        assert forall|n: int, net: NetId| #[trigger]
            self.drives(n, net) && n < node + 1 implies more_sources.contains(
            (net, n as usize),
        ) by {
            if n < node {
                assert(sources.contains((net, n as usize)));
                let a = choose|a: int| 0 <= a < sources.len() && sources[a] == (net, n as usize);
                assert(more_sources[a] == sources[a]);
            }
        }
        assert forall|n: int, net: NetId, input: DesignGraphEdge| #[trigger]
            self.reads(n, net, input) && n < node + 1 implies more_sinks.contains(
            (net, n as usize, input),
        ) by {
            if n < node {
                assert(sinks.contains((net, n as usize, input)));
                let b = choose|b: int| 0 <= b < sinks.len() && sinks[b] == (net, n as usize, input);
                assert(more_sinks[b] == sinks[b]);
            }
        }
        assert forall|a: int| 0 <= a < more_sources.len() implies (#[trigger] more_sources[a]).1
            < node + 1 && self.drives(more_sources[a].1 as int, more_sources[a].0) by {
            if a < sources.len() {
                assert(more_sources[a] == sources[a]);
            }
        }
        assert forall|b: int| 0 <= b < more_sinks.len() implies (#[trigger] more_sinks[b]).1 < node
            + 1 && self.reads(more_sinks[b].1 as int, more_sinks[b].0, more_sinks[b].2) by {
            if b < sinks.len() {
                assert(more_sinks[b] == sinks[b]);
            }
        }
        assert forall|b: int, c: int| 0 <= b < c < more_sinks.len() implies (
        #[trigger] more_sinks[b]).1 <= (#[trigger] more_sinks[c]).1 by {
            if c < sinks.len() {
                assert(more_sinks[b] == sinks[b]);
                assert(more_sinks[c] == sinks[c]);
            } else if b < sinks.len() {
                assert(more_sinks[b] == sinks[b]);
            }
        }
    }
}


/// A port of a module as the synthesis tool writes it: its name, its
/// direction, and the nets of its bits.
pub struct YosysPort {
    pub name: String,
    pub direction: String,
    pub bits: Vec<u32>,
}

/// The `LUT` parameter of a cell as the synthesis tool writes it: a number
/// with the `WIDTH` parameter beside it, or a string of binary digits.
pub enum YosysLutParameter {
    Number { value: u16, width: usize },
    BitString(String),
}

/// A cell of a module as the synthesis tool writes it: its name and type,
/// its `LUT` parameter, and the nets at its connections `A` (all of them),
/// `Y`, `C`, `D` and `Q` (the first of each), as far as it has them.
pub struct YosysCell {
    pub name: String,
    pub kind: String,
    pub lut: Option<YosysLutParameter>,
    pub a: Vec<u32>,
    pub y: Option<u32>,
    pub c: Option<u32>,
    pub d: Option<u32>,
    pub q: Option<u32>,
}

/// A module as the synthesis tool writes it.
pub struct YosysModule {
    pub name: String,
    pub ports: Vec<YosysPort>,
    pub cells: Vec<YosysCell>,
}

impl YosysLutParameter {
    /// Whether the parameter is a mask that can be decoded.
    pub open spec fn decodable(&self) -> bool {
        match self {
            YosysLutParameter::Number { width, .. } => *width > 0,
            YosysLutParameter::BitString(digits) => {
                &&& binary_digits(digits@).len() > 0
                &&& is_binary(binary_digits(digits@))
                &&& binary_value(binary_digits(digits@)) <= u16::MAX
            },
        }
    }

    /// The mask that the parameter gives a look-up table.
    pub open spec fn mask(&self) -> u16 {
        match self {
            YosysLutParameter::Number { value, width } => expand_mask(*value, *width as nat),
            YosysLutParameter::BitString(digits) => expand_mask(
                binary_value(binary_digits(digits@)) as u16,
                digits@.len(),
            ),
        }
    }
}

impl YosysPort {
    /// The direction of the port; the tool writes `input` or `output`.
    pub open spec fn well_formed(&self) -> bool {
        self.direction@ == "input"@ || self.direction@ == "output"@
    }

    /// The direction that the port is written with.
    pub open spec fn spec_direction(&self) -> ModulePortDirection {
        if self.direction@ == "input"@ {
            ModulePortDirection::Input
        } else {
            ModulePortDirection::Output
        }
    }

    /// The name of bit `bit` of the port: the name of the port where it has
    /// one bit, and the name with the number of the bit in brackets where it
    /// has more.
    pub open spec fn bit_name(&self, bit: int) -> Seq<char> {
        if self.bits@.len() == 1 {
            self.name@
        } else {
            self.name@ + "["@ + decimal_digits(bit as nat) + "]"@
        }
    }
}

impl YosysCell {
    /// Whether the cell is a look-up table.
    pub open spec fn is_lut(&self) -> bool {
        self.kind@ == "$lut"@
    }

    /// The edge on which the cell triggers, if it is a flip-flop.
    pub open spec fn trigger(&self) -> Option<FlipFlopTrigger> {
        if self.kind@ == "$_DFF_P_"@ {
            Some(FlipFlopTrigger::RisingEdge)
        } else if self.kind@ == "$_DFF_N_"@ {
            Some(FlipFlopTrigger::FallingEdge)
        } else {
            None
        }
    }

    /// A look-up table has a mask that can be decoded, at most four inputs
    /// and an output; a flip-flop has a clock, a data input and an output.
    pub open spec fn well_formed(&self) -> bool {
        &&& self.is_lut() ==> (self.lut matches Some(parameter) && parameter.decodable()
            && self.a@.len() <= 4 && self.y is Some)
        &&& self.trigger() is Some ==> self.c is Some && self.d is Some && self.q is Some
    }

    /// The name of the cell as a node of the design: what it is, and the
    /// part of its name after the last `$`.
    pub open spec fn node_name(&self) -> Seq<char> {
        (if self.is_lut() {
            "$lut$"@
        } else if self.trigger() == Some(FlipFlopTrigger::RisingEdge) {
            "$dff_pos$"@
        } else {
            "$dff_neg$"@
        }) + spec_last_part(self.name@, '$')
    }

    /// The net at input number `input` of the look-up table, if it has that
    /// many inputs.
    pub open spec fn input_net(&self, input: int) -> Option<NetId> {
        if 0 <= input < self.a@.len() {
            Some(NetId(self.a@[input]))
        } else {
            None
        }
    }
}

impl ModulePortConfig {
    /// Whether this is bit number `bit` of `port`.
    pub open spec fn is_bit_of(&self, port: &YosysPort, bit: int) -> bool {
        &&& self.name@ == port.bit_name(bit)
        &&& self.direction == port.spec_direction()
        &&& self.net == NetId(port.bits@[bit])
    }

    /// The bits of a port of the module, each with its net.
    pub fn read(port: &YosysPort) -> (bits: Vec<Self>)
        requires
            port.well_formed(),
        ensures
            bits@.len() == port.bits@.len(),
            forall|bit: int| 0 <= bit < bits@.len() ==> (#[trigger] bits@[bit]).is_bit_of(port, bit),
    {
        let direction = if same_text(port.direction.as_str(), "input") {
            ModulePortDirection::Input
        } else {
            ModulePortDirection::Output
        };
        let mut bits: Vec<ModulePortConfig> = Vec::new();
        let mut i: usize = 0;
        while i < port.bits.len()
            invariant
                i <= port.bits@.len(),
                direction == port.spec_direction(),
                bits@.len() == i,
                forall|bit: int| 0 <= bit < i ==> (#[trigger] bits@[bit]).is_bit_of(port, bit),
            decreases port.bits@.len() - i,
        {
            let name = if port.bits.len() == 1 {
                port.name.clone()
            } else {
                port.name.clone().concat("[").concat(decimal(i).as_str()).concat("]")
            };
            bits.push(ModulePortConfig { name, direction, net: NetId(port.bits[i]) });
            i += 1;
        }
        bits
    }
}

impl LookUpTableConfig {
    /// Whether this is the look-up table that `cell` describes.
    pub open spec fn is_read_from(&self, cell: &YosysCell) -> bool {
        &&& self.name@ == cell.node_name()
        &&& self.mask.0 == cell.lut.unwrap().mask()
        &&& forall|input: int| 0 <= input < 4 ==> #[trigger] self.inputs@[input] == cell.input_net(input)
        &&& self.output == NetId(cell.y.unwrap())
    }

    /// The look-up table that a cell describes, if the cell is one.
    pub fn try_read(cell: &YosysCell) -> (read: Option<Self>)
        requires
            cell.well_formed(),
        ensures
            read is Some == cell.is_lut(),
            read matches Some(config) ==> config.is_read_from(cell),
    {
        if !same_text(cell.kind.as_str(), "$lut") {
            return None;
        }
        let mask = match &cell.lut {
            Some(YosysLutParameter::Number { value, width }) => YosysLutMask::Integer(
                *value,
                *width,
            ).decode(),
            Some(YosysLutParameter::BitString(digits)) => YosysLutMask::BitString(digits.as_str()).decode(),
            None => LookUpTableMask::new(0),
        };
        let mut inputs: [Option<NetId>; 4] = [None, None, None, None];
        let mut i: usize = 0;
        while i < cell.a.len()
            invariant
                i <= cell.a@.len() <= 4,
                forall|input: int|
                    0 <= input < 4 ==> #[trigger] inputs@[input] == (if input < i {
                        Some(NetId(cell.a@[input]))
                    } else {
                        None
                    }),
            decreases cell.a@.len() - i,
        {
            inputs[i] = Some(NetId(cell.a[i]));
            i += 1;
        }
        let output = match cell.y {
            Some(net) => NetId(net),
            None => NetId(0),
        };
        let name = String::from_str("$lut$").concat(last_part(cell.name.as_str(), '$'));
        Some(LookUpTableConfig { name, mask, inputs, output })
    }
}

impl FlipFlopConfig {
    /// Whether this is the flip-flop that `cell` describes.
    pub open spec fn is_read_from(&self, cell: &YosysCell) -> bool {
        &&& self.name@ == cell.node_name()
        &&& Some(self.trigger) == cell.trigger()
        &&& self.clock == NetId(cell.c.unwrap())
        &&& self.data == NetId(cell.d.unwrap())
        &&& self.output == NetId(cell.q.unwrap())
    }

    /// The flip-flop that a cell describes, if the cell is one.
    pub fn try_read(cell: &YosysCell) -> (read: Option<Self>)
        requires
            cell.well_formed(),
        ensures
            read is Some == cell.trigger() is Some,
            read matches Some(config) ==> config.is_read_from(cell),
    {
        let trigger = if same_text(cell.kind.as_str(), "$_DFF_P_") {
            FlipFlopTrigger::RisingEdge
        } else if same_text(cell.kind.as_str(), "$_DFF_N_") {
            FlipFlopTrigger::FallingEdge
        } else {
            return None;
        };
        proof {
            reveal_strlit("$lut");
            reveal_strlit("$_DFF_P_");
            reveal_strlit("$_DFF_N_");
        }
        let id = last_part(cell.name.as_str(), '$');
        let name = match trigger {
            FlipFlopTrigger::RisingEdge => String::from_str("$dff_pos$").concat(id),
            FlipFlopTrigger::FallingEdge => String::from_str("$dff_neg$").concat(id),
        };
        assert(!cell.is_lut()) by {
            assert("$lut"@.len() == 4);
            assert("$_DFF_P_"@.len() == 8);
            assert("$_DFF_N_"@.len() == 8);
        }
        match (cell.c, cell.d, cell.q) {
            (Some(clock), Some(data), Some(output)) => Some(
                FlipFlopConfig {
                    name,
                    trigger,
                    clock: NetId(clock),
                    data: NetId(data),
                    output: NetId(output),
                },
            ),
            _ => None,
        }
    }
}

/// The ports of the first `count` of `ports`, bit by bit.
pub open spec fn port_bits(ports: Seq<YosysPort>, count: int) -> Seq<(int, int)>
    decreases count,
{
    if count <= 0 {
        Seq::empty()
    } else {
        port_bits(ports, count - 1) + Seq::new(
            ports[count - 1].bits@.len(),
            |bit: int| (count - 1, bit),
        )
    }
}

/// The places, among the first `count` of `cells`, of the look-up tables,
/// where `luts` is asked for, or of the flip-flops, where it is not.
pub open spec fn cells_of_kind(cells: Seq<YosysCell>, luts: bool, count: int) -> Seq<int>
    decreases count,
{
    if count <= 0 {
        Seq::empty()
    } else {
        let before = cells_of_kind(cells, luts, count - 1);
        let is_kind = if luts {
            cells[count - 1].is_lut()
        } else {
            cells[count - 1].trigger() is Some
        };
        if is_kind {
            before.push(count - 1)
        } else {
            before
        }
    }
}

impl YosysModule {
    pub open spec fn well_formed(&self) -> bool {
        &&& forall|i: int| 0 <= i < self.ports@.len() ==> (#[trigger] self.ports@[i]).well_formed()
        &&& forall|i: int| 0 <= i < self.cells@.len() ==> (#[trigger] self.cells@[i]).well_formed()
    }
}

impl Design {
    /// Whether this is the design that `module` describes: it has the name
    /// of the module, the bits of its ports in order, and its look-up tables
    /// and flip-flops in order.
    pub open spec fn is_read_from(&self, module: &YosysModule) -> bool {
        let bits = port_bits(module.ports@, module.ports@.len() as int);
        let luts = cells_of_kind(module.cells@, true, module.cells@.len() as int);
        let ffs = cells_of_kind(module.cells@, false, module.cells@.len() as int);
        &&& self.name@ == module.name@
        &&& self.ports@.len() == bits.len()
        &&& forall|i: int|
            0 <= i < bits.len() ==> (#[trigger] self.ports@[i]).is_bit_of(
                &module.ports@[bits[i].0],
                bits[i].1,
            )
        &&& self.lookup_tables@.len() == luts.len()
        &&& forall|i: int|
            0 <= i < luts.len() ==> (#[trigger] self.lookup_tables@[i]).is_read_from(
                &module.cells@[luts[i]],
            )
        &&& self.flip_flops@.len() == ffs.len()
        &&& forall|i: int|
            0 <= i < ffs.len() ==> (#[trigger] self.flip_flops@[i]).is_read_from(
                &module.cells@[ffs[i]],
            )
    }

    /// The design that a module describes.
    pub fn read(module: &YosysModule) -> (design: Self)
        requires
            module.well_formed(),
        ensures
            design.is_read_from(module),
    {
        let mut ports: Vec<ModulePortConfig> = Vec::new();
        let mut i: usize = 0;
        while i < module.ports.len()
            invariant
                i <= module.ports@.len(),
                module.well_formed(),
                ports@.len() == port_bits(module.ports@, i as int).len(),
                forall|k: int|
                    0 <= k < ports@.len() ==> (#[trigger] ports@[k]).is_bit_of(
                        &module.ports@[port_bits(module.ports@, i as int)[k].0],
                        port_bits(module.ports@, i as int)[k].1,
                    ),
            decreases module.ports@.len() - i,
        {
            let ghost before = ports@;
            let mut bits = ModulePortConfig::read(&module.ports[i]);
            let ghost read = bits@;
            ports.append(&mut bits);
            proof {
                let listed = port_bits(module.ports@, i as int);
                let grown = port_bits(module.ports@, i + 1);
                assert(ports@ == before + read);
                assert forall|k: int| 0 <= k < ports@.len() implies (#[trigger] ports@[k]).is_bit_of(
                    &module.ports@[grown[k].0],
                    grown[k].1,
                ) by {
                    if k < before.len() {
                        assert(ports@[k] == before[k]);
                        assert(grown[k] == listed[k]);
                    } else {
                        assert(ports@[k] == read[k - before.len()]);
                        assert(grown[k] == (i as int, k - before.len()));
                    }
                }
            }
            i += 1;
        }
        let mut lookup_tables: Vec<LookUpTableConfig> = Vec::new();
        let mut flip_flops: Vec<FlipFlopConfig> = Vec::new();
        i = 0;
        while i < module.cells.len()
            invariant
                i <= module.cells@.len(),
                module.well_formed(),
                lookup_tables@.len() == cells_of_kind(module.cells@, true, i as int).len(),
                forall|k: int|
                    0 <= k < lookup_tables@.len() ==> (#[trigger] lookup_tables@[k]).is_read_from(
                        &module.cells@[cells_of_kind(module.cells@, true, i as int)[k]],
                    ),
                flip_flops@.len() == cells_of_kind(module.cells@, false, i as int).len(),
                forall|k: int|
                    0 <= k < flip_flops@.len() ==> (#[trigger] flip_flops@[k]).is_read_from(
                        &module.cells@[cells_of_kind(module.cells@, false, i as int)[k]],
                    ),
            decreases module.cells@.len() - i,
        {
            if let Some(lut) = LookUpTableConfig::try_read(&module.cells[i]) {
                lookup_tables.push(lut);
            }
            if let Some(ff) = FlipFlopConfig::try_read(&module.cells[i]) {
                flip_flops.push(ff);
            }
            i += 1;
        }
        Design { name: module.name.clone(), ports, flip_flops, lookup_tables }
    }
}

} // verus!
