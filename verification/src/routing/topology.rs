//! The routing fabric of a device: directions, channels and coordinates, the
//! nodes of the routing graph, and the rules by which they are connected.

use vstd::prelude::*;
use vstd::string::*;
use crate::synthesis::LookUpTableInput;
use crate::text::{decimal, decimal_digits};

verus! {

#[derive(Debug, Clone, Copy, PartialEq, Eq, Structural, PartialOrd, Ord, Hash)]
pub enum CardinalDirection {
    North,
    South,
    West,
    East,
}

impl CardinalDirection {
    /// The place of the direction in the order north, south, west, east.
    pub open spec fn ordinal(self) -> int {
        match self {
            CardinalDirection::North => 0,
            CardinalDirection::South => 1,
            CardinalDirection::West => 2,
            CardinalDirection::East => 3,
        }
    }

    pub fn index(self) -> (i: usize)
        ensures
            i == self.ordinal(),
            i < 4,
    {
        match self {
            CardinalDirection::North => 0,
            CardinalDirection::South => 1,
            CardinalDirection::West => 2,
            CardinalDirection::East => 3,
        }
    }

    pub fn from_ordinal(i: usize) -> (r: Self)
        requires
            i < 4,
        ensures
            r.ordinal() == i,
    {
        if i == 0 {
            CardinalDirection::North
        } else if i == 1 {
            CardinalDirection::South
        } else if i == 2 {
            CardinalDirection::West
        } else {
            CardinalDirection::East
        }
    }

    pub open spec fn spec_opposite(self) -> Self {
        match self {
            CardinalDirection::North => CardinalDirection::South,
            CardinalDirection::South => CardinalDirection::North,
            CardinalDirection::West => CardinalDirection::East,
            CardinalDirection::East => CardinalDirection::West,
        }
    }

    #[verifier::when_used_as_spec(spec_opposite)]
    pub fn opposite(self) -> (r: Self)
        ensures
            r == self.spec_opposite(),
    {
        match self {
            CardinalDirection::North => CardinalDirection::South,
            CardinalDirection::South => CardinalDirection::North,
            CardinalDirection::West => CardinalDirection::East,
            CardinalDirection::East => CardinalDirection::West,
        }
    }

    pub open spec fn spec_name(self) -> Seq<char> {
        match self {
            CardinalDirection::North => "north"@,
            CardinalDirection::South => "south"@,
            CardinalDirection::West => "west"@,
            CardinalDirection::East => "east"@,
        }
    }

    pub fn name(self) -> (r: &'static str)
        ensures
            r@ == self.spec_name(),
    {
        match self {
            CardinalDirection::North => "north",
            CardinalDirection::South => "south",
            CardinalDirection::West => "west",
            CardinalDirection::East => "east",
        }
    }
}

#[derive(Debug, Clone, Copy, PartialEq, Eq, Structural, PartialOrd, Ord, Hash)]
pub enum IntercardinalDirection {
    Northwest,
    Northeast,
    Southwest,
    Southeast,
}

impl IntercardinalDirection {
    /// The place of the direction in the order north-west, north-east,
    /// south-west, south-east.
    pub open spec fn ordinal(self) -> int {
        match self {
            IntercardinalDirection::Northwest => 0,
            IntercardinalDirection::Northeast => 1,
            IntercardinalDirection::Southwest => 2,
            IntercardinalDirection::Southeast => 3,
        }
    }

    pub fn index(self) -> (i: usize)
        ensures
            i == self.ordinal(),
            i < 4,
    {
        match self {
            IntercardinalDirection::Northwest => 0,
            IntercardinalDirection::Northeast => 1,
            IntercardinalDirection::Southwest => 2,
            IntercardinalDirection::Southeast => 3,
        }
    }

    pub fn from_ordinal(i: usize) -> (r: Self)
        requires
            i < 4,
        ensures
            r.ordinal() == i,
    {
        if i == 0 {
            IntercardinalDirection::Northwest
        } else if i == 1 {
            IntercardinalDirection::Northeast
        } else if i == 2 {
            IntercardinalDirection::Southwest
        } else {
            IntercardinalDirection::Southeast
        }
    }

    pub open spec fn spec_opposite(self) -> Self {
        match self {
            IntercardinalDirection::Northwest => IntercardinalDirection::Southeast,
            IntercardinalDirection::Northeast => IntercardinalDirection::Southwest,
            IntercardinalDirection::Southwest => IntercardinalDirection::Northeast,
            IntercardinalDirection::Southeast => IntercardinalDirection::Northwest,
        }
    }

    #[verifier::when_used_as_spec(spec_opposite)]
    pub fn opposite(self) -> (r: Self)
        ensures
            r == self.spec_opposite(),
    {
        match self {
            IntercardinalDirection::Northwest => IntercardinalDirection::Southeast,
            IntercardinalDirection::Northeast => IntercardinalDirection::Southwest,
            IntercardinalDirection::Southwest => IntercardinalDirection::Northeast,
            IntercardinalDirection::Southeast => IntercardinalDirection::Northwest,
        }
    }
}

/// One of the parallel wires on each side of a switch block.
#[derive(Debug, Clone, Copy, PartialEq, Eq, Structural, PartialOrd, Ord, Hash)]
pub enum SwitchBlockChannel {
    A,
    B,
    C,
    D,
}

impl SwitchBlockChannel {
    /// The place of the channel among the four: `A` is 0, `D` is 3.
    pub open spec fn ordinal(self) -> int {
        match self {
            SwitchBlockChannel::A => 0,
            SwitchBlockChannel::B => 1,
            SwitchBlockChannel::C => 2,
            SwitchBlockChannel::D => 3,
        }
    }

    pub fn index(self) -> (i: usize)
        ensures
            i == self.ordinal(),
            i < 4,
    {
        match self {
            SwitchBlockChannel::A => 0,
            SwitchBlockChannel::B => 1,
            SwitchBlockChannel::C => 2,
            SwitchBlockChannel::D => 3,
        }
    }

    pub fn from_ordinal(i: usize) -> (r: Self)
        requires
            i < 4,
        ensures
            r.ordinal() == i,
    {
        if i == 0 {
            SwitchBlockChannel::A
        } else if i == 1 {
            SwitchBlockChannel::B
        } else if i == 2 {
            SwitchBlockChannel::C
        } else {
            SwitchBlockChannel::D
        }
    }

    /// The base cost of a wire of this channel: 1 for `A`, and one more for
    /// each channel after it.
    pub open spec fn spec_cost(self) -> u32 {
        (self.ordinal() + 1) as u32
    }

    /// The base cost of a wire of this channel.
    #[verifier::when_used_as_spec(spec_cost)]
    pub fn cost(self) -> (r: u32)
        ensures
            r == self.spec_cost(),
            r >= 1,
    {
        match self {
            SwitchBlockChannel::A => 1,
            SwitchBlockChannel::B => 2,
            SwitchBlockChannel::C => 3,
            SwitchBlockChannel::D => 4,
        }
    }
}

#[derive(Debug, Clone, Copy, PartialEq, Eq, Structural, PartialOrd, Ord, Hash)]
pub struct LogicCellCoordinates {
    pub x: usize,
    pub y: usize,
}

#[derive(Debug, Clone, Copy, PartialEq, Eq, Structural, PartialOrd, Ord, Hash)]
pub struct SwitchBlockCoordinates {
    pub x: usize,
    pub y: usize,
}

#[derive(Debug, Clone, Copy, PartialEq, Eq, Structural, PartialOrd, Ord, Hash)]
pub struct IoBlockCoordinates {
    pub direction: CardinalDirection,
    pub position: usize,
}

impl LogicCellCoordinates {
    pub open spec fn spec_name(self) -> Seq<char> {
        "$cell["@ + decimal_digits(self.x as nat) + ","@ + decimal_digits(self.y as nat) + "]"@
    }

    /// The name of the logic cell: `$cell[x,y]`.
    pub fn name(self) -> (name: String)
        ensures
            name@ == self.spec_name(),
    {
        String::from_str("$cell[").concat(decimal(self.x).as_str()).concat(",").concat(
            decimal(self.y).as_str(),
        ).concat("]")
    }
}

impl SwitchBlockCoordinates {
    pub open spec fn spec_name(self) -> Seq<char> {
        "$junction["@ + decimal_digits(self.x as nat) + ","@ + decimal_digits(self.y as nat) + "]"@
    }

    /// The name of the switch block: `$junction[x,y]`.
    pub fn name(self) -> (name: String)
        ensures
            name@ == self.spec_name(),
    {
        String::from_str("$junction[").concat(decimal(self.x).as_str()).concat(",").concat(
            decimal(self.y).as_str(),
        ).concat("]")
    }
}

impl IoBlockCoordinates {
    pub open spec fn spec_name(self) -> Seq<char> {
        "$io_"@ + self.direction.spec_name() + "["@ + decimal_digits(self.position as nat) + "]"@
    }

    /// The name of the I/O block: `$io_`, its side, and `[position]`.
    pub fn name(self) -> (name: String)
        ensures
            name@ == self.spec_name(),
    {
        String::from_str("$io_").concat(self.direction.name()).concat("[").concat(
            decimal(self.position).as_str(),
        ).concat("]")
    }
}

#[derive(Debug, Clone, Copy, PartialEq, Eq, Structural, PartialOrd, Ord, Hash)]
pub struct SwitchBlockPort {
    pub coords: SwitchBlockCoordinates,
    pub side: CardinalDirection,
    pub channel: SwitchBlockChannel,
}

#[derive(Debug, Clone, Copy, PartialEq, Eq, Structural, PartialOrd, Ord, Hash)]
pub struct SwitchBlockCorner {
    pub coords: SwitchBlockCoordinates,
    pub direction: IntercardinalDirection,
}

#[allow(inconsistent_fields)]
#[derive(Debug, Clone, Copy, PartialEq, Eq, Structural, PartialOrd, Ord, Hash)]
pub enum RoutingGraphNode {
    SwitchBlockInput(SwitchBlockPort),
    SwitchBlockOutput(SwitchBlockPort),
    SwitchBlockCorner(SwitchBlockCorner),
    LogicCellInput { coords: LogicCellCoordinates, input: LookUpTableInput },
    LogicCellOutput { coords: LogicCellCoordinates },
    IoBlock { coords: IoBlockCoordinates },
}

/// The quadrant of switch block `block` in which logic cell `cell` lies, if
/// the cell touches the block.
pub open spec fn quadrant_of(
    block: SwitchBlockCoordinates,
    cell: LogicCellCoordinates,
) -> Option<IntercardinalDirection> {
    if cell.x + 1 == block.x && cell.y + 1 == block.y {
        Some(IntercardinalDirection::Northwest)
    } else if cell.x == block.x && cell.y + 1 == block.y {
        Some(IntercardinalDirection::Northeast)
    } else if cell.x + 1 == block.x && cell.y == block.y {
        Some(IntercardinalDirection::Southwest)
    } else if cell.x == block.x && cell.y == block.y {
        Some(IntercardinalDirection::Southeast)
    } else {
        None
    }
}

fn exec_quadrant_of(block: SwitchBlockCoordinates, cell: LogicCellCoordinates) -> (r: Option<
    IntercardinalDirection,
>)
    ensures
        r == quadrant_of(block, cell),
{
    let west = block.x > 0 && cell.x == block.x - 1;
    let north = block.y > 0 && cell.y == block.y - 1;
    if west && north {
        Some(IntercardinalDirection::Northwest)
    } else if cell.x == block.x && north {
        Some(IntercardinalDirection::Northeast)
    } else if west && cell.y == block.y {
        Some(IntercardinalDirection::Southwest)
    } else if cell.x == block.x && cell.y == block.y {
        Some(IntercardinalDirection::Southeast)
    } else {
        None
    }
}

impl RoutingGraphNode {
    /// The connectivity table: which kind of node may drive which.
    ///
    /// A logic cell's output drives a corner; a corner drives an output of a
    /// switch block; an input drives an output on another side; an output
    /// drives an input, an I/O block, or an input of a logic cell that lies
    /// north-east, south-west or south-east of the block; an I/O block
    /// drives an input. Nothing else is connected. The table does not say
    /// that the two nodes are neighbours on a device.
    pub open spec fn spec_can_connect_to(self, other: Self) -> bool {
        match (self, other) {
            (RoutingGraphNode::LogicCellOutput { .. }, RoutingGraphNode::SwitchBlockCorner(_)) => true,
            (RoutingGraphNode::SwitchBlockCorner(_), RoutingGraphNode::SwitchBlockOutput(_)) => true,
            (
                RoutingGraphNode::SwitchBlockInput(input),
                RoutingGraphNode::SwitchBlockOutput(output),
            ) => input.side != output.side,
            (RoutingGraphNode::SwitchBlockOutput(_), RoutingGraphNode::SwitchBlockInput(_)) => true,
            (
                RoutingGraphNode::SwitchBlockOutput(output),
                RoutingGraphNode::LogicCellInput { coords, .. },
            ) => quadrant_of(output.coords, coords) matches Some(q) && q
                != IntercardinalDirection::Northwest,
            (RoutingGraphNode::SwitchBlockOutput(_), RoutingGraphNode::IoBlock { .. }) => true,
            (RoutingGraphNode::IoBlock { .. }, RoutingGraphNode::SwitchBlockInput(_)) => true,
            _ => false,
        }
    }

    /// Whether the connectivity table allows an edge from this node to
    /// `other`.
    #[verifier::when_used_as_spec(spec_can_connect_to)]
    pub fn can_connect_to(self, other: Self) -> (r: bool)
        ensures
            r == self.spec_can_connect_to(other),
    {
        match (self, other) {
            (RoutingGraphNode::LogicCellOutput { .. }, RoutingGraphNode::SwitchBlockCorner(_)) => true,
            (RoutingGraphNode::SwitchBlockCorner(_), RoutingGraphNode::SwitchBlockOutput(_)) => true,
            (
                RoutingGraphNode::SwitchBlockInput(input),
                RoutingGraphNode::SwitchBlockOutput(output),
            ) => input.side != output.side,
            (RoutingGraphNode::SwitchBlockOutput(_), RoutingGraphNode::SwitchBlockInput(_)) => true,
            (
                RoutingGraphNode::SwitchBlockOutput(output),
                RoutingGraphNode::LogicCellInput { coords, .. },
            ) => {
                match exec_quadrant_of(output.coords, coords) {
                    Some(q) => q != IntercardinalDirection::Northwest,
                    None => false,
                }
            },
            (RoutingGraphNode::SwitchBlockOutput(_), RoutingGraphNode::IoBlock { .. }) => true,
            (RoutingGraphNode::IoBlock { .. }, RoutingGraphNode::SwitchBlockInput(_)) => true,
            _ => false,
        }
    }
}


/// The largest number of switch blocks of a device whose routing graph can
/// be built: with more, the graph's edges could not be numbered in 32 bits.
pub const MAX_SWITCH_BLOCKS: usize = 8_000_000;

/// A device of `width` x `height` logic cells, with a switch block at every
/// corner of every cell and I/O blocks around the rim.
#[derive(Debug, Clone, Copy, PartialEq, Eq, Structural)]
pub struct DeviceTopology {
    pub width: usize,
    pub height: usize,
}

/// A place in a grid of `columns` columns of `rows` rows each, counted
/// column after column, has a number below `columns * rows`.
pub proof fn lemma_grid_bound(x: int, y: int, columns: int, rows: int)
    requires
        0 <= x < columns,
        0 <= y < rows,
    ensures
        0 <= x * rows + y < columns * rows,
        columns * rows >= rows,
        columns * rows >= columns,
{
    assert(x * rows + y < columns * rows && x * rows >= 0 && columns * rows >= rows && columns
        * rows >= columns) by (nonlinear_arith)
        requires
            0 <= x < columns,
            0 <= y < rows,
    ;
}

/// Counted column after column, a place in an earlier column has the lower
/// number, and no two places have the same number.
pub proof fn lemma_grid_order(x1: int, y1: int, x2: int, y2: int, rows: int)
    requires
        0 <= y1 < rows,
        0 <= y2 < rows,
        0 <= x1,
        0 <= x2,
    ensures
        x1 < x2 ==> x1 * rows + y1 < x2 * rows + y2,
        x1 * rows + y1 == x2 * rows + y2 ==> x1 == x2 && y1 == y2,
{
    assert(x1 < x2 ==> x1 * rows + y1 < x2 * rows + y2) by (nonlinear_arith)
        requires
            0 <= y1 < rows,
            0 <= y2 < rows,
            0 <= x1,
            0 <= x2,
    ;
    assert(x2 < x1 ==> x2 * rows + y2 < x1 * rows + y1) by (nonlinear_arith)
        requires
            0 <= y1 < rows,
            0 <= y2 < rows,
            0 <= x1,
            0 <= x2,
    ;
}

impl DeviceTopology {
    /// Whether the device has a switch block at `coords`: there is one at
    /// every corner of every logic cell.
    pub open spec fn has_switch_block(&self, coords: SwitchBlockCoordinates) -> bool {
        coords.x <= self.width && coords.y <= self.height
    }

    /// Whether the device has a logic cell at `coords`.
    pub open spec fn has_logic_cell(&self, coords: LogicCellCoordinates) -> bool {
        coords.x < self.width && coords.y < self.height
    }

    /// The last position on a side of the device: the width on the north
    /// and south sides, the height on the west and east sides.
    pub open spec fn side_length(&self, side: CardinalDirection) -> usize {
        match side {
            CardinalDirection::North | CardinalDirection::South => self.width,
            CardinalDirection::West | CardinalDirection::East => self.height,
        }
    }

    /// Whether the device has an I/O block at `coords`: there is one beside
    /// every switch block on the rim.
    pub open spec fn has_io_block(&self, coords: IoBlockCoordinates) -> bool {
        coords.position <= self.side_length(coords.direction)
    }

    /// Whether `node` is a routing resource of this device.
    pub open spec fn contains(&self, node: RoutingGraphNode) -> bool {
        match node {
            RoutingGraphNode::SwitchBlockInput(port) => self.has_switch_block(port.coords),
            RoutingGraphNode::SwitchBlockOutput(port) => self.has_switch_block(port.coords),
            RoutingGraphNode::SwitchBlockCorner(corner) => self.has_switch_block(corner.coords),
            RoutingGraphNode::LogicCellInput { coords, .. } => self.has_logic_cell(coords),
            RoutingGraphNode::LogicCellOutput { coords } => self.has_logic_cell(coords),
            RoutingGraphNode::IoBlock { coords } => self.has_io_block(coords),
        }
    }

    /// The number of switch blocks of the device.
    pub open spec fn switch_block_count(&self) -> int {
        (self.width + 1) * (self.height + 1)
    }

    /// The number of logic cells of the device.
    pub open spec fn logic_cell_count(&self) -> int {
        self.width * self.height
    }

    /// The number of I/O blocks of the device.
    pub open spec fn io_block_count(&self) -> int {
        2 * (self.width + 1) + 2 * (self.height + 1)
    }

    /// Whether the device is small enough for its routing graph to be built.
    pub open spec fn spec_fits(&self) -> bool {
        self.switch_block_count() <= MAX_SWITCH_BLOCKS
    }

    /// Whether the device is small enough for its routing graph to be built.
    #[verifier::when_used_as_spec(spec_fits)]
    pub fn fits(&self) -> (r: bool)
        ensures
            r == self.spec_fits(),
    {
        if self.width >= MAX_SWITCH_BLOCKS || self.height >= MAX_SWITCH_BLOCKS {
            proof {
                lemma_grid_bound(0, 0, self.width + 1, self.height + 1);
            }
            return false;
        }
        let columns: u64 = self.width as u64 + 1;
        let rows: u64 = self.height as u64 + 1;
        assert(columns * rows <= 8_000_000 * 8_000_000) by (nonlinear_arith)
            requires
                0 <= columns <= 8_000_000,
                0 <= rows <= 8_000_000,
        ;
        columns * rows <= MAX_SWITCH_BLOCKS as u64
    }

    /// The I/O block that the switch block at `coords` reaches on `side`:
    /// there is one where the switch block lies on that rim of the device.
    pub open spec fn spec_io_block_at(
        &self,
        coords: SwitchBlockCoordinates,
        side: CardinalDirection,
    ) -> Option<IoBlockCoordinates> {
        let on_rim = match side {
            CardinalDirection::North => coords.y == 0,
            CardinalDirection::South => coords.y == self.height,
            CardinalDirection::West => coords.x == 0,
            CardinalDirection::East => coords.x == self.width,
        };
        let position = match side {
            CardinalDirection::North | CardinalDirection::South => coords.x,
            CardinalDirection::West | CardinalDirection::East => coords.y,
        };
        if on_rim {
            Some(IoBlockCoordinates { direction: side, position })
        } else {
            None
        }
    }

    /// The I/O block that the switch block at `coords` reaches on `side`.
    #[verifier::when_used_as_spec(spec_io_block_at)]
    pub fn io_block_at(&self, coords: SwitchBlockCoordinates, side: CardinalDirection) -> (r:
        Option<IoBlockCoordinates>)
        ensures
            r == self.spec_io_block_at(coords, side),
    {
        let on_rim = match side {
            CardinalDirection::North => coords.y == 0,
            CardinalDirection::South => coords.y == self.height,
            CardinalDirection::West => coords.x == 0,
            CardinalDirection::East => coords.x == self.width,
        };
        let position = match side {
            CardinalDirection::North | CardinalDirection::South => coords.x,
            CardinalDirection::West | CardinalDirection::East => coords.y,
        };
        if on_rim {
            Some(IoBlockCoordinates { direction: side, position })
        } else {
            None
        }
    }

    /// The logic cell in `quadrant` of the switch block at `coords`, if the
    /// device has one there.
    pub open spec fn spec_logic_cell_at(
        &self,
        coords: SwitchBlockCoordinates,
        quadrant: IntercardinalDirection,
    ) -> Option<LogicCellCoordinates> {
        match quadrant {
            IntercardinalDirection::Northwest => if coords.y > 0 && coords.x > 0 {
                Some(LogicCellCoordinates { x: (coords.x - 1) as usize, y: (coords.y - 1) as usize })
            } else {
                None
            },
            IntercardinalDirection::Northeast => if coords.y > 0 && coords.x < self.width {
                Some(LogicCellCoordinates { x: coords.x, y: (coords.y - 1) as usize })
            } else {
                None
            },
            IntercardinalDirection::Southwest => if coords.y < self.height && coords.x > 0 {
                Some(LogicCellCoordinates { x: (coords.x - 1) as usize, y: coords.y })
            } else {
                None
            },
            IntercardinalDirection::Southeast => if coords.y < self.height && coords.x
                < self.width {
                Some(LogicCellCoordinates { x: coords.x, y: coords.y })
            } else {
                None
            },
        }
    }

    /// The logic cell in `quadrant` of the switch block at `coords`.
    #[verifier::when_used_as_spec(spec_logic_cell_at)]
    pub fn logic_cell_at(
        &self,
        coords: SwitchBlockCoordinates,
        quadrant: IntercardinalDirection,
    ) -> (r: Option<LogicCellCoordinates>)
        ensures
            r == self.spec_logic_cell_at(coords, quadrant),
    {
        match quadrant {
            IntercardinalDirection::Northwest => if coords.y > 0 && coords.x > 0 {
                Some(LogicCellCoordinates { x: coords.x - 1, y: coords.y - 1 })
            } else {
                None
            },
            IntercardinalDirection::Northeast => if coords.y > 0 && coords.x < self.width {
                Some(LogicCellCoordinates { x: coords.x, y: coords.y - 1 })
            } else {
                None
            },
            IntercardinalDirection::Southwest => if coords.y < self.height && coords.x > 0 {
                Some(LogicCellCoordinates { x: coords.x - 1, y: coords.y })
            } else {
                None
            },
            IntercardinalDirection::Southeast => if coords.y < self.height && coords.x
                < self.width {
                Some(LogicCellCoordinates { x: coords.x, y: coords.y })
            } else {
                None
            },
        }
    }

    /// The switch block one step from `coords` towards `side`, if the device
    /// has one there.
    pub open spec fn spec_switch_block_at(
        &self,
        coords: SwitchBlockCoordinates,
        side: CardinalDirection,
    ) -> Option<SwitchBlockCoordinates> {
        match side {
            CardinalDirection::North => if coords.y > 0 {
                Some(SwitchBlockCoordinates { x: coords.x, y: (coords.y - 1) as usize })
            } else {
                None
            },
            CardinalDirection::South => if coords.y < self.height {
                Some(SwitchBlockCoordinates { x: coords.x, y: (coords.y + 1) as usize })
            } else {
                None
            },
            CardinalDirection::West => if coords.x > 0 {
                Some(SwitchBlockCoordinates { x: (coords.x - 1) as usize, y: coords.y })
            } else {
                None
            },
            CardinalDirection::East => if coords.x < self.width {
                Some(SwitchBlockCoordinates { x: (coords.x + 1) as usize, y: coords.y })
            } else {
                None
            },
        }
    }

    /// The switch block one step from `coords` towards `side`.
    #[verifier::when_used_as_spec(spec_switch_block_at)]
    pub fn switch_block_at(&self, coords: SwitchBlockCoordinates, side: CardinalDirection) -> (r:
        Option<SwitchBlockCoordinates>)
        ensures
            r == self.spec_switch_block_at(coords, side),
    {
        match side {
            CardinalDirection::North => if coords.y > 0 {
                Some(SwitchBlockCoordinates { x: coords.x, y: coords.y - 1 })
            } else {
                None
            },
            CardinalDirection::South => if coords.y < self.height {
                Some(SwitchBlockCoordinates { x: coords.x, y: coords.y + 1 })
            } else {
                None
            },
            CardinalDirection::West => if coords.x > 0 {
                Some(SwitchBlockCoordinates { x: coords.x - 1, y: coords.y })
            } else {
                None
            },
            CardinalDirection::East => if coords.x < self.width {
                Some(SwitchBlockCoordinates { x: coords.x + 1, y: coords.y })
            } else {
                None
            },
        }
    }

    /// The I/O block on `side` of a switch block with that side, if there
    /// is one: a sequence of one entry or of none.
    pub open spec fn io_entry(&self, coords: SwitchBlockCoordinates, side: CardinalDirection) -> Seq<
        (CardinalDirection, IoBlockCoordinates),
    > {
        match self.spec_io_block_at(coords, side) {
            Some(io) => seq![(side, io)],
            None => Seq::empty(),
        }
    }

    /// The I/O blocks next to a switch block, each with the side on which it
    /// lies, in the order north, south, west, east.
    pub open spec fn spec_adjacent_io_blocks(&self, coords: SwitchBlockCoordinates) -> Seq<
        (CardinalDirection, IoBlockCoordinates),
    > {
        self.io_entry(coords, CardinalDirection::North) + self.io_entry(
            coords,
            CardinalDirection::South,
        ) + self.io_entry(coords, CardinalDirection::West) + self.io_entry(
            coords,
            CardinalDirection::East,
        )
    }

    /// The I/O blocks next to a switch block, each with the side on which it
    /// lies.
    pub fn adjacent_io_blocks(&self, coords: SwitchBlockCoordinates) -> (results: Vec<
        (CardinalDirection, IoBlockCoordinates),
    >)
        ensures
            results@ == self.spec_adjacent_io_blocks(coords),
    {
        let mut results = Vec::new();
        if let Some(io) = self.io_block_at(coords, CardinalDirection::North) {
            results.push((CardinalDirection::North, io));
        }
        if let Some(io) = self.io_block_at(coords, CardinalDirection::South) {
            results.push((CardinalDirection::South, io));
        }
        if let Some(io) = self.io_block_at(coords, CardinalDirection::West) {
            results.push((CardinalDirection::West, io));
        }
        if let Some(io) = self.io_block_at(coords, CardinalDirection::East) {
            results.push((CardinalDirection::East, io));
        }
        assert(results@ =~= self.spec_adjacent_io_blocks(coords));
        results
    }

    /// The logic cell in `quadrant` of a switch block with that quadrant, if
    /// there is one: a sequence of one entry or of none.
    pub open spec fn cell_entry(
        &self,
        coords: SwitchBlockCoordinates,
        quadrant: IntercardinalDirection,
    ) -> Seq<(IntercardinalDirection, LogicCellCoordinates)> {
        match self.spec_logic_cell_at(coords, quadrant) {
            Some(cell) => seq![(quadrant, cell)],
            None => Seq::empty(),
        }
    }

    /// The logic cells that touch a switch block, each with its quadrant, in
    /// the order north-west, north-east, south-west, south-east.
    pub open spec fn spec_adjacent_logic_cells(&self, coords: SwitchBlockCoordinates) -> Seq<
        (IntercardinalDirection, LogicCellCoordinates),
    > {
        self.cell_entry(coords, IntercardinalDirection::Northwest) + self.cell_entry(
            coords,
            IntercardinalDirection::Northeast,
        ) + self.cell_entry(coords, IntercardinalDirection::Southwest) + self.cell_entry(
            coords,
            IntercardinalDirection::Southeast,
        )
    }

    /// The logic cells that touch a switch block, each with its quadrant.
    pub fn adjacent_logic_cells(&self, coords: SwitchBlockCoordinates) -> (results: Vec<
        (IntercardinalDirection, LogicCellCoordinates),
    >)
        ensures
            results@ == self.spec_adjacent_logic_cells(coords),
    {
        let mut results = Vec::new();
        if let Some(cell) = self.logic_cell_at(coords, IntercardinalDirection::Northwest) {
            results.push((IntercardinalDirection::Northwest, cell));
        }
        if let Some(cell) = self.logic_cell_at(coords, IntercardinalDirection::Northeast) {
            results.push((IntercardinalDirection::Northeast, cell));
        }
        if let Some(cell) = self.logic_cell_at(coords, IntercardinalDirection::Southwest) {
            results.push((IntercardinalDirection::Southwest, cell));
        }
        if let Some(cell) = self.logic_cell_at(coords, IntercardinalDirection::Southeast) {
            results.push((IntercardinalDirection::Southeast, cell));
        }
        assert(results@ =~= self.spec_adjacent_logic_cells(coords));
        results
    }

    /// The switch block on `side` of a switch block with that side, if there
    /// is one: a sequence of one entry or of none.
    pub open spec fn block_entry(
        &self,
        coords: SwitchBlockCoordinates,
        side: CardinalDirection,
    ) -> Seq<(CardinalDirection, SwitchBlockCoordinates)> {
        match self.spec_switch_block_at(coords, side) {
            Some(block) => seq![(side, block)],
            None => Seq::empty(),
        }
    }

    /// The switch blocks one step from a switch block, each with the side on
    /// which it lies, in the order north, south, west, east.
    pub open spec fn spec_adjacent_switch_blocks(&self, coords: SwitchBlockCoordinates) -> Seq<
        (CardinalDirection, SwitchBlockCoordinates),
    > {
        self.block_entry(coords, CardinalDirection::North) + self.block_entry(
            coords,
            CardinalDirection::South,
        ) + self.block_entry(coords, CardinalDirection::West) + self.block_entry(
            coords,
            CardinalDirection::East,
        )
    }

    /// The switch blocks one step from a switch block, each with the side on
    /// which it lies.
    pub fn adjacent_switch_blocks(&self, coords: SwitchBlockCoordinates) -> (results: Vec<
        (CardinalDirection, SwitchBlockCoordinates),
    >)
        ensures
            results@ == self.spec_adjacent_switch_blocks(coords),
    {
        let mut results = Vec::new();
        if let Some(block) = self.switch_block_at(coords, CardinalDirection::North) {
            results.push((CardinalDirection::North, block));
        }
        if let Some(block) = self.switch_block_at(coords, CardinalDirection::South) {
            results.push((CardinalDirection::South, block));
        }
        if let Some(block) = self.switch_block_at(coords, CardinalDirection::West) {
            results.push((CardinalDirection::West, block));
        }
        if let Some(block) = self.switch_block_at(coords, CardinalDirection::East) {
            results.push((CardinalDirection::East, block));
        }
        assert(results@ =~= self.spec_adjacent_switch_blocks(coords));
        results
    }

    /// The place of a switch block in the device's list of switch blocks:
    /// column after column, each from north to south.
    pub open spec fn block_ordinal(&self, coords: SwitchBlockCoordinates) -> int {
        coords.x * (self.height + 1) + coords.y
    }

    /// The place of a logic cell in the device's list of logic cells: column
    /// after column, each from north to south.
    pub open spec fn cell_ordinal(&self, coords: LogicCellCoordinates) -> int {
        coords.x * self.height + coords.y
    }

    /// The number of I/O blocks on the sides that come before side number
    /// `side` in the order north, south, west, east.
    pub open spec fn side_base(&self, side: int) -> int {
        if side <= 0 {
            0
        } else if side == 1 {
            self.width + 1
        } else if side == 2 {
            2 * (self.width + 1)
        } else if side == 3 {
            2 * (self.width + 1) + (self.height + 1)
        } else {
            2 * (self.width + 1) + 2 * (self.height + 1)
        }
    }

    /// The place of an I/O block in the device's list of I/O blocks: the
    /// north side, then the south, west and east sides.
    pub open spec fn io_ordinal(&self, coords: IoBlockCoordinates) -> int {
        self.side_base(coords.direction.ordinal()) + coords.position
    }

    /// Every switch block of the device, column after column.
    pub fn iter_switch_block_coords(&self) -> (all: Vec<SwitchBlockCoordinates>)
        requires
            self.switch_block_count() <= usize::MAX,
        ensures
            all@.len() == self.switch_block_count(),
            forall|c: SwitchBlockCoordinates| #[trigger]
                self.has_switch_block(c) ==> 0 <= self.block_ordinal(c) < all@.len()
                    && all@[self.block_ordinal(c)] == c,
            forall|i: int| 0 <= i < all@.len() ==> self.has_switch_block(#[trigger] all@[i]),
    {
        let mut all: Vec<SwitchBlockCoordinates> = Vec::new();
        let ghost rows = self.height + 1;
        proof {
            lemma_grid_bound(0, 0, self.width + 1, rows);
        }
        let mut x: usize = 0;
        while x <= self.width
            invariant
                0 <= x <= self.width + 1,
                rows == self.height + 1,
                self.width < usize::MAX,
                self.height < usize::MAX,
                self.switch_block_count() <= usize::MAX,
                all@.len() == x * rows,
                forall|c: SwitchBlockCoordinates| #[trigger]
                    self.has_switch_block(c) && c.x < x ==> 0 <= self.block_ordinal(c) < all@.len()
                        && all@[self.block_ordinal(c)] == c,
                forall|i: int| 0 <= i < all@.len() ==> self.has_switch_block(#[trigger] all@[i]),
            decreases self.width + 1 - x,
        {
            let mut y: usize = 0;
            while y <= self.height
                invariant
                    0 <= x <= self.width,
                    0 <= y <= self.height + 1,
                    rows == self.height + 1,
                    self.width < usize::MAX,
                    self.height < usize::MAX,
                    self.switch_block_count() <= usize::MAX,
                    all@.len() == x * rows + y,
                    forall|c: SwitchBlockCoordinates| #[trigger]
                        self.has_switch_block(c) && (c.x < x || (c.x == x && c.y < y)) ==> 0
                            <= self.block_ordinal(c) < all@.len() && all@[self.block_ordinal(c)]
                            == c,
                    forall|i: int| 0 <= i < all@.len() ==> self.has_switch_block(#[trigger] all@[i]),
                decreases self.height + 1 - y,
            {
                let coords = SwitchBlockCoordinates { x, y };
                proof {
                    lemma_grid_bound(x as int, y as int, self.width + 1, rows);
                    assert forall|c: SwitchBlockCoordinates| #[trigger]
                        self.has_switch_block(c) && (c.x < x || (c.x == x && c.y <= y)) implies 0
                        <= self.block_ordinal(c) < all@.len() + 1 && all@.push(
                        coords,
                    )[self.block_ordinal(c)] == c by {
                        lemma_grid_order(c.x as int, c.y as int, x as int, y as int, rows);
                        lemma_grid_bound(c.x as int, c.y as int, self.width + 1, rows);
                    }
                }
                all.push(coords);
                y += 1;
            }
            proof {
                assert(x * rows + rows == (x + 1) * rows) by (nonlinear_arith);
            }
            x += 1;
        }
        all
    }

    /// Every logic cell of the device, column after column.
    pub fn iter_logic_cell_coords(&self) -> (all: Vec<LogicCellCoordinates>)
        requires
            self.logic_cell_count() <= usize::MAX,
        ensures
            all@.len() == self.logic_cell_count(),
            forall|c: LogicCellCoordinates| #[trigger]
                self.has_logic_cell(c) ==> 0 <= self.cell_ordinal(c) < all@.len()
                    && all@[self.cell_ordinal(c)] == c,
            forall|i: int| 0 <= i < all@.len() ==> self.has_logic_cell(#[trigger] all@[i]),
    {
        let mut all: Vec<LogicCellCoordinates> = Vec::new();
        let ghost rows = self.height as int;
        let mut x: usize = 0;
        assert(0 * rows == 0);
        while x < self.width
            invariant
                0 <= x <= self.width,
                rows == self.height,
                self.logic_cell_count() <= usize::MAX,
                all@.len() == x * rows,
                forall|c: LogicCellCoordinates| #[trigger]
                    self.has_logic_cell(c) && c.x < x ==> 0 <= self.cell_ordinal(c) < all@.len()
                        && all@[self.cell_ordinal(c)] == c,
                forall|i: int| 0 <= i < all@.len() ==> self.has_logic_cell(#[trigger] all@[i]),
            decreases self.width - x,
        {
            let mut y: usize = 0;
            while y < self.height
                invariant
                    0 <= x < self.width,
                    0 <= y <= self.height,
                    rows == self.height,
                    self.logic_cell_count() <= usize::MAX,
                    all@.len() == x * rows + y,
                    forall|c: LogicCellCoordinates| #[trigger]
                        self.has_logic_cell(c) && (c.x < x || (c.x == x && c.y < y)) ==> 0
                            <= self.cell_ordinal(c) < all@.len() && all@[self.cell_ordinal(c)]
                            == c,
                    forall|i: int| 0 <= i < all@.len() ==> self.has_logic_cell(#[trigger] all@[i]),
                decreases self.height - y,
            {
                let coords = LogicCellCoordinates { x, y };
                proof {
                    lemma_grid_bound(x as int, y as int, self.width as int, rows);
                    assert forall|c: LogicCellCoordinates| #[trigger]
                        self.has_logic_cell(c) && (c.x < x || (c.x == x && c.y <= y)) implies 0
                        <= self.cell_ordinal(c) < all@.len() + 1 && all@.push(
                        coords,
                    )[self.cell_ordinal(c)] == c by {
                        lemma_grid_order(c.x as int, c.y as int, x as int, y as int, rows);
                        lemma_grid_bound(c.x as int, c.y as int, self.width as int, rows);
                    }
                }
                all.push(coords);
                y += 1;
            }
            proof {
                assert(x * rows + rows == (x + 1) * rows) by (nonlinear_arith);
            }
            x += 1;
        }
        all
    }

    /// Every I/O block of the device: the north side from west to east, then
    /// the south side, then the west side from north to south, then the east
    /// side.
    pub fn iter_io_block_coords(&self) -> (all: Vec<IoBlockCoordinates>)
        requires
            self.io_block_count() <= usize::MAX,
        ensures
            all@.len() == self.io_block_count(),
            forall|c: IoBlockCoordinates| #[trigger]
                self.has_io_block(c) ==> 0 <= self.io_ordinal(c) < all@.len()
                    && all@[self.io_ordinal(c)] == c,
            forall|i: int| 0 <= i < all@.len() ==> self.has_io_block(#[trigger] all@[i]),
    {
        let mut all: Vec<IoBlockCoordinates> = Vec::new();
        let mut side: usize = 0;
        while side < 4
            invariant
                0 <= side <= 4,
                self.io_block_count() <= usize::MAX,
                all@.len() == self.side_base(side as int),
                forall|c: IoBlockCoordinates| #[trigger]
                    self.has_io_block(c) && c.direction.ordinal() < side ==> 0 <= self.io_ordinal(
                        c,
                    ) < all@.len() && all@[self.io_ordinal(c)] == c,
                forall|i: int| 0 <= i < all@.len() ==> self.has_io_block(#[trigger] all@[i]),
            decreases 4 - side,
        {
            let direction = CardinalDirection::from_ordinal(side);
            let last = match direction {
                CardinalDirection::North | CardinalDirection::South => self.width,
                CardinalDirection::West | CardinalDirection::East => self.height,
            };
            let ghost base = all@.len();
            let mut position: usize = 0;
            while position <= last
                invariant
                    0 <= side < 4,
                    direction.ordinal() == side,
                    last == self.side_length(direction),
                    0 <= position <= last + 1,
                    self.io_block_count() <= usize::MAX,
                    base == self.side_base(side as int),
                    all@.len() == base + position,
                    forall|c: IoBlockCoordinates| #[trigger]
                        self.has_io_block(c) && (c.direction.ordinal() < side || (c.direction
                            == direction && c.position < position)) ==> 0 <= self.io_ordinal(c)
                            < all@.len() && all@[self.io_ordinal(c)] == c,
                    forall|i: int| 0 <= i < all@.len() ==> self.has_io_block(#[trigger] all@[i]),
                decreases last + 1 - position,
            {
                all.push(IoBlockCoordinates { direction, position });
                position += 1;
            }
            side += 1;
        }
        all
    }

    /// Where a node lies on a grid in which switch blocks have odd
    /// coordinates, logic cells even ones, and the I/O blocks stand on the
    /// frame `x = 0`, `x = width + 1`, `y = 0`, `y = height + 1`.
    pub open spec fn absolute_xy(&self, node: RoutingGraphNode) -> (int, int) {
        match node {
            RoutingGraphNode::IoBlock { coords } => {
                let position = 2 * coords.position + 1;
                match coords.direction {
                    CardinalDirection::North => (position, 0),
                    CardinalDirection::South => (position, self.height + 1),
                    CardinalDirection::West => (0, position),
                    CardinalDirection::East => (self.width + 1, position),
                }
            },
            RoutingGraphNode::SwitchBlockInput(port) => (2 * port.coords.x + 1, 2 * port.coords.y + 1),
            RoutingGraphNode::SwitchBlockOutput(port) => (2 * port.coords.x + 1, 2 * port.coords.y + 1),
            RoutingGraphNode::SwitchBlockCorner(corner) => (
                2 * corner.coords.x + 1,
                2 * corner.coords.y + 1,
            ),
            RoutingGraphNode::LogicCellInput { coords, .. } => (2 * coords.x + 2, 2 * coords.y + 2),
            RoutingGraphNode::LogicCellOutput { coords } => (2 * coords.x + 2, 2 * coords.y + 2),
        }
    }

    /// Where a node lies on the grid of `absolute_xy`.
    pub fn get_absolute_xy_coords(&self, node: RoutingGraphNode) -> (xy: (u128, u128))
        ensures
            xy.0 == self.absolute_xy(node).0,
            xy.1 == self.absolute_xy(node).1,
    {
        match node {
            RoutingGraphNode::IoBlock { coords } => {
                let width = self.width as u128 + 1;
                let height = self.height as u128 + 1;
                let position = 2 * (coords.position as u128) + 1;
                match coords.direction {
                    CardinalDirection::North => (position, 0),
                    CardinalDirection::South => (position, height),
                    CardinalDirection::West => (0, position),
                    CardinalDirection::East => (width, position),
                }
            },
            RoutingGraphNode::SwitchBlockInput(port) => (
                2 * (port.coords.x as u128) + 1,
                2 * (port.coords.y as u128) + 1,
            ),
            RoutingGraphNode::SwitchBlockOutput(port) => (
                2 * (port.coords.x as u128) + 1,
                2 * (port.coords.y as u128) + 1,
            ),
            RoutingGraphNode::SwitchBlockCorner(corner) => (
                2 * (corner.coords.x as u128) + 1,
                2 * (corner.coords.y as u128) + 1,
            ),
            RoutingGraphNode::LogicCellInput { coords, .. } => (
                2 * (coords.x as u128) + 2,
                2 * (coords.y as u128) + 2,
            ),
            RoutingGraphNode::LogicCellOutput { coords } => (
                2 * (coords.x as u128) + 2,
                2 * (coords.y as u128) + 2,
            ),
        }
    }

    /// The Manhattan distance between two nodes on the grid of `absolute_xy`.
    pub open spec fn spec_estimate_distance(&self, a: RoutingGraphNode, b: RoutingGraphNode) -> int {
        let (ax, ay) = self.absolute_xy(a);
        let (bx, by) = self.absolute_xy(b);
        (if ax >= bx {
            ax - bx
        } else {
            bx - ax
        }) + (if ay >= by {
            ay - by
        } else {
            by - ay
        })
    }

    /// The largest distance that `estimate_distance` can return.
    pub open spec fn max_estimate() -> int {
        4 * usize::MAX + 4
    }

    /// An estimate of the distance between two nodes: their Manhattan
    /// distance on the grid of `absolute_xy`.
    pub fn estimate_distance(&self, a: RoutingGraphNode, b: RoutingGraphNode) -> (distance: u128)
        ensures
            distance == self.spec_estimate_distance(a, b),
            distance <= Self::max_estimate(),
    {
        let (ax, ay) = self.get_absolute_xy_coords(a);
        let (bx, by) = self.get_absolute_xy_coords(b);
        let dx = if ax >= bx {
            ax - bx
        } else {
            bx - ax
        };
        let dy = if ay >= by {
            ay - by
        } else {
            by - ay
        };
        dx + dy
    }

    /// The distance estimate is a metric on the grid: a node is at distance
    /// zero from itself, the distance is the same in both directions, and a
    /// detour over a third node is never shorter.
    pub proof fn lemma_estimate_distance_metric(
        &self,
        a: RoutingGraphNode,
        b: RoutingGraphNode,
        c: RoutingGraphNode,
    )
        ensures
            self.spec_estimate_distance(a, a) == 0,
            self.spec_estimate_distance(a, b) == self.spec_estimate_distance(b, a),
            self.spec_estimate_distance(a, b) >= 0,
            self.spec_estimate_distance(a, c) <= self.spec_estimate_distance(a, b)
                + self.spec_estimate_distance(b, c),
    {
    }
}

} // verus!
