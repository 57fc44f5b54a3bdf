//! Addresses of components and of their pins.

use vstd::prelude::*;

verus! {

/// A pin of a component in the simulator: the component's index in the component table, then
/// the pin's index within the component.
///
/// Pins are numbered per component, inputs first: a component with `i` inputs and `o` outputs
/// has its inputs at `0..i` and its outputs at `i..i + o`.
#[derive(Debug, Clone, Copy, Hash, PartialEq, Eq, Structural)]
pub struct RegisteredPin(pub usize, pub usize);

/// The index of a component in the simulator's component table.
#[derive(Debug, Clone, Copy, PartialEq, Eq, Hash, Structural)]
pub struct ComponentHandle(pub usize);

impl ComponentHandle {
    /// The pin with index `pin` of the component behind this handle.
    pub fn to_pin(self, pin: usize) -> (out: RegisteredPin)
        ensures
            out == RegisteredPin(self.0, pin),
    {
        RegisteredPin(self.0, pin)
    }
}

impl RegisteredPin {
    /// The number that stands for this pin as a key: the component index in the upper 64
    /// bits, the pin index in the lower.
    pub open spec fn key_spec(self) -> u128 {
        (self.0 * 0x1_0000_0000_0000_0000 + self.1) as u128
    }

    /// The key of this pin. Different pins have different keys.
    #[verifier::when_used_as_spec(key_spec)]
    pub fn key(self) -> (k: u128)
        ensures
            k == self.key_spec(),
            k == self.0 * 0x1_0000_0000_0000_0000 + self.1,
    {
        (self.0 as u128) * 0x1_0000_0000_0000_0000u128 + (self.1 as u128)
    }

    /// Two pins with the same key are the same pin.
    pub proof fn lemma_key_injective(self, other: RegisteredPin)
        requires
            self.key_spec() == other.key_spec(),
        ensures
            self == other,
    {
    }
}

} // verus!
