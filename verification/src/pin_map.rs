//! A map keyed by pins.

use vstd::prelude::*;
use std::collections::HashMap;
use crate::pin::RegisteredPin;

verus! {

/// A finite map from pins to values of type `V`.
///
/// The entries live in a hash map under the pins' keys; its view is the map from the pins
/// themselves.
pub struct PinMap<V> {
    slots: HashMap<u128, V>,
}

impl<V> View for PinMap<V> {
    type V = Map<RegisteredPin, V>;

    closed spec fn view(&self) -> Map<RegisteredPin, V> {
        Map::new(
            |pin: RegisteredPin| self.slots@.contains_key(pin.key_spec()),
            |pin: RegisteredPin| self.slots@[pin.key_spec()],
        )
    }
}

impl<V: Copy> PinMap<V> {
    /// The empty map.
    pub fn new() -> (out: PinMap<V>)
        ensures
            out@ == Map::<RegisteredPin, V>::empty(),
    {
        let out = PinMap { slots: HashMap::new() };
        out
    }

    /// Binds `pin` to `value`, replacing what it was bound to before.
    pub fn insert(&mut self, pin: RegisteredPin, value: V)
        ensures
            final(self)@ == old(self)@.insert(pin, value),
    {
        self.slots.insert(pin.key(), value);
        proof {
            assert forall|other: RegisteredPin| other.key_spec() == pin.key_spec() implies other
                == pin by {
                other.lemma_key_injective(pin);
            }
        }
    }

    /// The value that `pin` is bound to, if any.
    pub fn get(&self, pin: &RegisteredPin) -> (out: Option<V>)
        ensures
            out == if self@.contains_key(*pin) {
                Some(self@[*pin])
            } else {
                None::<V>
            },
    {
        let key = pin.key();
        match self.slots.get(&key) {
            Some(value) => Some(*value),
            None => None,
        }
    }

    /// Whether `pin` is bound.
    pub fn contains(&self, pin: &RegisteredPin) -> (out: bool)
        ensures
            out == self@.contains_key(*pin),
    {
        let key = pin.key();
        self.slots.contains_key(&key)
    }
}

} // verus!
