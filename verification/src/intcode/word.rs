//! Words, fault kinds and run statuses shared by every component.

use vstd::prelude::*;

verus! {

/// A memory cell, an address, an I/O item, an instruction pointer or a relative base.
pub type Word = i64;

/// Why a machine or a pipeline gave up.
#[derive(Clone, Copy, Debug, PartialEq, Eq, Structural)]
pub enum Fault {
    /// The two low decimal digits of an instruction word name no operation.
    UnknownOpcode,
    /// A mode digit is not 0, 1 or 2, or a write parameter is in immediate mode.
    InvalidMode,
    /// A computed address is below zero.
    NegativeAddress,
    /// A full rotation of a pipeline passed without any machine making progress.
    PipelineDeadlock,
}

/// Where a machine stands in its life cycle.
#[derive(Clone, Copy, Debug, PartialEq, Eq, Structural)]
pub enum RunStatus {
    /// Created and never resumed.
    Ready,
    /// Executing instructions.
    Running,
    /// Stopped at an input instruction with nothing to read.
    AwaitingInput,
    /// Stopped at a halt instruction; terminal.
    Halted,
    /// Stopped by a fault; terminal.
    Faulted(Fault),
}

impl RunStatus {
    /// Halted and faulted machines never run again.
    pub open spec fn is_terminal(self) -> bool {
        self is Halted || self is Faulted
    }

    /// Exec counterpart of [`RunStatus::is_terminal`].
    pub fn terminal(&self) -> (b: bool)
        ensures
            b == self.is_terminal(),
    {
        match self {
            RunStatus::Halted => true,
            RunStatus::Faulted(_) => true,
            _ => false,
        }
    }
}

} // verus!
