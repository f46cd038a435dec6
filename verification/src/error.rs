//! What can go wrong.

use crate::dev::gal16v8::{Mode, OutputMode};
use crate::var::Var;
use vstd::prelude::*;

verus! {

/// A failed call. A call that fails changes nothing.
#[derive(Debug)]
pub enum Error {
    /// The pin cannot be used as an input.
    IllegalInputPin { pin: u32 },
    /// The pin cannot be used as an output.
    IllegalOutputPin { pin: u32 },
    /// The name is bound to the pin `bound` and cannot be bound to `pin`.
    ConflictingBinding { name: Var, bound: u32, pin: u32 },
    /// The output is configured as `current` and cannot become `requested`.
    ConflictingConfiguration { pin: u32, current: OutputMode, requested: OutputMode },
    /// The function of the output needs `needed` product terms, of which the
    /// output can take fewer than `available`.
    CapacityExceeded { pin: u32, needed: usize, available: usize },
    /// The function of the output depends on a variable that is no input.
    UnboundVariable { pin: u32, name: Var },
    /// A table without variables reached a comparison or a minimisation.
    IllFormedFunction,
}

/// A failure as a mathematical value.
pub enum Failure {
    IllegalInputPin { pin: u32 },
    IllegalOutputPin { pin: u32 },
    ConflictingBinding { name: Seq<char>, bound: u32, pin: u32 },
    ConflictingConfiguration { pin: u32, current: Mode, requested: Mode },
    CapacityExceeded { pin: u32, needed: nat, available: nat },
    UnboundVariable { pin: u32, name: Seq<char> },
    IllFormedFunction,
}

impl View for Error {
    type V = Failure;

    open spec fn view(&self) -> Failure {
        match self {
            Error::IllegalInputPin { pin } => Failure::IllegalInputPin { pin: *pin },
            Error::IllegalOutputPin { pin } => Failure::IllegalOutputPin { pin: *pin },
            Error::ConflictingBinding { name, bound, pin } => Failure::ConflictingBinding {
                name: name@,
                bound: *bound,
                pin: *pin,
            },
            Error::ConflictingConfiguration {
                pin,
                current,
                requested,
            } => Failure::ConflictingConfiguration {
                pin: *pin,
                current: current@,
                requested: requested@,
            },
            Error::CapacityExceeded { pin, needed, available } => Failure::CapacityExceeded {
                pin: *pin,
                needed: *needed as nat,
                available: *available as nat,
            },
            Error::UnboundVariable { pin, name } => Failure::UnboundVariable {
                pin: *pin,
                name: name@,
            },
            Error::IllFormedFunction => Failure::IllFormedFunction,
        }
    }
}

} // verus!
