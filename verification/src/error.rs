//! The failures that the simulator reports to its host.

use vstd::prelude::*;

verus! {

/// A failure of a simulator operation. None of them leaves the process in doubt: the caller
/// gets the value back and decides.
#[derive(Debug, Clone, Copy, PartialEq, Eq, Structural)]
pub enum SimError {
    /// The pin names a component index that the component table does not hold.
    UnknownComponent,
    /// The component exists, but the operation has no use for the pin index given.
    UnknownPin,
    /// The component is of a kind that does not support the operation.
    KindMismatch,
    /// The signal could not be settled within the allowed depth: the chain of drivers behind
    /// the pin loops back on itself.
    CombinationalCycle,
}

} // verus!
