//! The errors of the toolchain, each with the phase that it comes from and a
//! message for the user.

use vstd::prelude::*;
use vstd::string::*;
use crate::bitstream::BitstreamError;
use crate::implementation::ImplError;
use crate::routing::placement::RoutingError;
use crate::synthesis::SynthesisError;
use crate::text::{decimal, decimal_digits};

verus! {

/// An error of one phase of the toolchain, with its message.
#[derive(Debug)]
pub enum ToolchainError {
    Synthesis(String),
    Implementation(String),
    Routing(String),
    Bitstream(String),
}

impl ToolchainError {
    pub open spec fn spec_message(&self) -> String {
        match self {
            ToolchainError::Synthesis(msg) => *msg,
            ToolchainError::Implementation(msg) => *msg,
            ToolchainError::Routing(msg) => *msg,
            ToolchainError::Bitstream(msg) => *msg,
        }
    }

    /// The message of the error.
    pub fn message(&self) -> (message: &str)
        ensures
            message@ == self.spec_message()@,
    {
        match self {
            ToolchainError::Synthesis(msg) => msg.as_str(),
            ToolchainError::Implementation(msg) => msg.as_str(),
            ToolchainError::Routing(msg) => msg.as_str(),
            ToolchainError::Bitstream(msg) => msg.as_str(),
        }
    }

    pub open spec fn spec_phase(&self) -> Seq<char> {
        match self {
            ToolchainError::Synthesis(_) => "Synthesis"@,
            ToolchainError::Implementation(_) => "Implementation"@,
            ToolchainError::Routing(_) => "Routing"@,
            ToolchainError::Bitstream(_) => "Bitstream generation"@,
        }
    }

    /// The name of the phase that failed.
    pub fn phase(&self) -> (phase: &'static str)
        ensures
            phase@ == self.spec_phase(),
    {
        match self {
            ToolchainError::Synthesis(_) => "Synthesis",
            ToolchainError::Implementation(_) => "Implementation",
            ToolchainError::Routing(_) => "Routing",
            ToolchainError::Bitstream(_) => "Bitstream generation",
        }
    }

    /// The message of an error of synthesis.
    pub open spec fn synthesis_message(err: SynthesisError) -> Seq<char> {
        match err {
            SynthesisError::ModulePortUndriven { port } => "Module port \""@ + port@
                + "\" is undriven"@,
        }
    }

    /// An error of synthesis with its message.
    pub fn from_synthesis(err: SynthesisError) -> (error: Self)
        ensures
            error matches ToolchainError::Synthesis(message) && message@
                == Self::synthesis_message(err),
    {
        let message = match err {
            SynthesisError::ModulePortUndriven { port } => String::from_str("Module port \"").concat(
                port.as_str(),
            ).concat("\" is undriven"),
        };
        ToolchainError::Synthesis(message)
    }

    /// The message of an error of the implementation.
    pub open spec fn implementation_message(err: ImplError) -> Seq<char> {
        match err {
            ImplError::FlipFlopClockSource { ff, clock_source } => "\""@ + ff@
                + "\" clocked from non-module-input \""@ + clock_source@ + "\""@,
            ImplError::MultipleClockDomains { ff, expected_clock_source, actual_clock_source } =>
                "\""@ + ff@ + "\" should be clocked by main clock source \""@
                    + expected_clock_source@ + "\", not by \""@ + actual_clock_source@ + "\""@,
        }
    }

    /// An error of the implementation with its message.
    pub fn from_implementation(err: ImplError) -> (error: Self)
        ensures
            error matches ToolchainError::Implementation(message) && message@
                == Self::implementation_message(err),
    {
        let message = match err {
            ImplError::FlipFlopClockSource { ff, clock_source } => String::from_str("\"").concat(
                ff.as_str(),
            ).concat("\" clocked from non-module-input \"").concat(clock_source.as_str()).concat(
                "\"",
            ),
            ImplError::MultipleClockDomains { ff, expected_clock_source, actual_clock_source } =>
                String::from_str("\"").concat(ff.as_str()).concat(
                    "\" should be clocked by main clock source \"",
                ).concat(expected_clock_source.as_str()).concat("\", not by \"").concat(
                    actual_clock_source.as_str(),
                ).concat("\""),
        };
        ToolchainError::Implementation(message)
    }

    /// The message of an error of placement and routing.
    pub open spec fn routing_message(err: RoutingError) -> Seq<char> {
        match err {
            RoutingError::NotEnoughLogicCells { needed, available } => "Need "@ + decimal_digits(
                needed as nat,
            ) + " logic cells, but there are only "@ + decimal_digits(available as nat)
                + " available"@,
            RoutingError::NotEnoughIoBlocks { needed, available } => "Need "@ + decimal_digits(
                needed as nat,
            ) + " I/O blocks, but there are only "@ + decimal_digits(available as nat)
                + " available"@,
            RoutingError::FailedToRoute => "Unable to route the design"@,
        }
    }

    /// An error of placement and routing with its message.
    pub fn from_routing(err: RoutingError) -> (error: Self)
        ensures
            error matches ToolchainError::Routing(message) && message@ == Self::routing_message(
                err,
            ),
    {
        let message = match err {
            RoutingError::NotEnoughLogicCells { needed, available } => String::from_str(
                "Need ",
            ).concat(decimal(needed).as_str()).concat(" logic cells, but there are only ").concat(
                decimal(available).as_str(),
            ).concat(" available"),
            RoutingError::NotEnoughIoBlocks { needed, available } => String::from_str(
                "Need ",
            ).concat(decimal(needed).as_str()).concat(" I/O blocks, but there are only ").concat(
                decimal(available).as_str(),
            ).concat(" available"),
            RoutingError::FailedToRoute => String::from_str("Unable to route the design"),
        };
        ToolchainError::Routing(message)
    }

    /// The message of an error of bitstream generation.
    pub open spec fn bitstream_message(err: BitstreamError) -> Seq<char> {
        match err {
            BitstreamError::Unsupported => "The device is not supported"@,
        }
    }

    /// An error of bitstream generation with its message.
    pub fn from_bitstream(err: BitstreamError) -> (error: Self)
        ensures
            error matches ToolchainError::Bitstream(message) && message@
                == Self::bitstream_message(err),
    {
        let message = match err {
            BitstreamError::Unsupported => String::from_str("The device is not supported"),
        };
        ToolchainError::Bitstream(message)
    }
}

} // verus!
