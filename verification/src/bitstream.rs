//! The bitstream that configures a device. Nothing of a routed design is
//! written into it yet.

use vstd::prelude::*;
use crate::routing::placement::RoutingConfiguration;

verus! {

/// Why no bitstream can be generated.
#[derive(Debug, Clone, Copy, PartialEq, Eq, Structural)]
pub enum BitstreamError {
    /// The device cannot be configured. No design fails in this way yet.
    Unsupported,
}

/// The configuration of a device.
#[derive(Debug)]
pub struct BitstreamConfiguration {}

/// The configuration of the device for a design that is placed and routed.
pub fn generate_bitstream(routing_config: &RoutingConfiguration) -> (generated: Result<
    BitstreamConfiguration,
    BitstreamError,
>)
    ensures
        generated is Ok,
{
    let config = BitstreamConfiguration {  };
    Ok(config)
}

} // verus!
