//! Place-and-route core of an FPGA toolchain: the routing fabric of a
//! width x height device, placement of a design onto it, and the Pathfinder
//! negotiated-congestion router, with the netlist types they consume.

pub mod bitstream;
pub mod implementation;
pub mod random;
pub mod synthesis;
pub mod text;
pub mod toolchain;
pub mod routing;
