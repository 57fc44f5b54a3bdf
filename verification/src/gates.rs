//! How each kind of component settles, given what settles on the pins that drive it.

use vstd::prelude::*;
use crate::circuit::Circuit;
use crate::component::Component;
use crate::error::SimError;
use crate::pin::RegisteredPin;
use crate::signal::State;

verus! {

impl Circuit {
    /// What settles through two driven inputs: the failure of the first driver that fails,
    /// left before right, or else the two signals.
    pub open spec fn settle_pair(self, left: RegisteredPin, right: RegisteredPin) -> Result<
        (State, State),
        SimError,
    > {
        match self.settle(self.drivers[left]) {
            Err(e) => Err(e),
            Ok(a) => match self.settle(self.drivers[right]) {
                Err(e) => Err(e),
                Ok(b) => Ok((a, b)),
            },
        }
    }

    /// A gate with two inputs, both driven, settles to what its truth table makes of the
    /// signals that settle on its two drivers, whichever of its pins is asked. Where a driver
    /// fails, it fails with that driver.
    pub proof fn lemma_binary_gate_settles(self, pin: RegisteredPin)
        requires
            pin.0 < self.components.len(),
            self.components[pin.0 as int].input_len_spec() == 2,
            self.drivers.contains_key(RegisteredPin(pin.0, 0)),
            self.drivers.contains_key(RegisteredPin(pin.0, 1)),
        ensures
            self.settle(pin) == match self.settle_pair(
                RegisteredPin(pin.0, 0),
                RegisteredPin(pin.0, 1),
            ) {
                Err(e) => Err::<State, SimError>(e),
                Ok((a, b)) => match self.components[pin.0 as int] {
                    Component::OrGate => Ok(a.or_spec(b)),
                    Component::AndGate => Ok(a.and_spec(b)),
                    _ => Ok(a.xor_spec(b)),
                },
            },
    {
        let pins = self.components[pin.0 as int].input_pins(pin.0);
        let drivers = self.sources(pins).unwrap();
        self.lemma_settle_from_inputs(pin);
        self.lemma_pull_all_step(drivers, 0, self.depth() + 1);
        self.lemma_pull_all_step(drivers, 1, self.depth() + 1);
    }

    /// A component with one input, which is driven, settles to what it makes of the signal
    /// that settles on its driver: a NOT gate inverts it, an `Output` passes it on. Where the
    /// driver fails, the component fails with it.
    pub proof fn lemma_unary_settles(self, pin: RegisteredPin)
        requires
            pin.0 < self.components.len(),
            self.components[pin.0 as int].input_len_spec() == 1,
            self.components[pin.0 as int].answers(pin.1),
            self.drivers.contains_key(RegisteredPin(pin.0, 0)),
        ensures
            self.settle(pin) == match self.settle(self.drivers[RegisteredPin(pin.0, 0)]) {
                Err(e) => Err::<State, SimError>(e),
                Ok(a) => match self.components[pin.0 as int] {
                    Component::NotGate => Ok(a.not_spec()),
                    _ => Ok(a),
                },
            },
    {
        let pins = self.components[pin.0 as int].input_pins(pin.0);
        let drivers = self.sources(pins).unwrap();
        self.lemma_settle_from_inputs(pin);
        self.lemma_pull_all_step(drivers, 0, self.depth() + 1);
    }

    /// A component with an input that nothing drives settles to `Invalid`, whatever drives its
    /// other inputs, and at any depth.
    pub proof fn lemma_undriven_input_settles_invalid(self, pin: RegisteredPin, input: usize, depth: nat)
        requires
            pin.0 < self.components.len(),
            self.components[pin.0 as int].answers(pin.1),
            input < self.components[pin.0 as int].input_len_spec(),
            !self.drivers.contains_key(RegisteredPin(pin.0, input)),
        ensures
            self.settle(pin) == Ok::<State, SimError>(State::Invalid),
            self.pull(pin, depth) == Ok::<State, SimError>(State::Invalid),
    {
        let pins = self.components[pin.0 as int].input_pins(pin.0);
        assert(!self.drivers.contains_key(pins[input as int]));
    }

    /// A component without inputs settles to the signal it holds: an `Input` to the one it
    /// stores, a `Custom` to `Low`.
    pub proof fn lemma_source_settles(self, pin: RegisteredPin, depth: nat)
        requires
            pin.0 < self.components.len(),
            self.components[pin.0 as int].input_len_spec() == 0,
            self.components[pin.0 as int].answers(pin.1),
        ensures
            self.settle(pin) == match self.components[pin.0 as int] {
                Component::Input(signal) => Ok::<State, SimError>(signal),
                _ => Ok(State::Low),
            },
            self.pull(pin, depth) == self.settle(pin),
    {
        let pins = self.components[pin.0 as int].input_pins(pin.0);
        self.lemma_no_inputs(pins, depth);
        self.lemma_no_inputs(pins, self.depth());
    }

    /// The undriven pins listed for the first `count` input pins of a component are those of
    /// them that have no driver.
    pub proof fn lemma_undriven_of(self, index: usize, count: nat, pin: RegisteredPin)
        requires
            count <= usize::MAX,
        ensures
            self.undriven_of(index, count).contains(pin) <==> pin.0 == index && pin.1 < count
                && !self.drivers.contains_key(pin),
        decreases count,
    {
        if count > 0 {
            let before = self.undriven_of(index, (count - 1) as nat);
            let last = RegisteredPin(index, (count - 1) as usize);
            self.lemma_undriven_of(index, (count - 1) as nat, pin);
            if !self.drivers.contains_key(last) {
                let listed = before.push(last);
                assert(listed[before.len() as int] == last);
                if before.contains(pin) {
                    let i = choose|i: int| 0 <= i < before.len() && before[i] == pin;
                    assert(listed[i] == pin);
                }
            }
        }
    }

    /// The undriven pins listed for the first `count` components are the input pins of those
    /// components that have no driver.
    pub proof fn lemma_undriven_among(self, count: nat, pin: RegisteredPin)
        requires
            count <= self.components.len(),
            count <= usize::MAX,
        ensures
            self.undriven_among(count).contains(pin) <==> pin.0 < count && pin.1
                < self.components[pin.0 as int].input_len_spec() && !self.drivers.contains_key(pin),
        decreases count,
    {
        if count > 0 {
            let index = (count - 1) as usize;
            let before = self.undriven_among((count - 1) as nat);
            let here = self.undriven_of(
                index,
                self.components[index as int].input_len_spec() as nat,
            );
            self.lemma_undriven_among((count - 1) as nat, pin);
            self.lemma_undriven_of(
                index,
                self.components[index as int].input_len_spec() as nat,
                pin,
            );
            let listed = before + here;
            if before.contains(pin) {
                let i = choose|i: int| 0 <= i < before.len() && before[i] == pin;
                assert(listed[i] == pin);
            }
            if here.contains(pin) {
                let i = choose|i: int| 0 <= i < here.len() && here[i] == pin;
                assert(listed[before.len() + i] == pin);
            }
        }
    }

    /// The pins listed as undriven are the input pins of the circuit that have no driver, and
    /// a component with such a pin settles to `Invalid` on every pin that it answers for.
    pub proof fn lemma_undriven_inputs(self, pin: RegisteredPin, asked: usize)
        requires
            self.components.len() <= usize::MAX,
        ensures
            self.undriven_inputs().contains(pin) <==> pin.0 < self.components.len() && pin.1
                < self.components[pin.0 as int].input_len_spec() && !self.drivers.contains_key(pin),
            self.undriven_inputs().contains(pin) && self.components[pin.0 as int].answers(asked)
                ==> self.settle(RegisteredPin(pin.0, asked)) == Ok::<State, SimError>(
                State::Invalid,
            ),
    {
        self.lemma_undriven_among(self.components.len(), pin);
        if self.undriven_inputs().contains(pin) && self.components[pin.0 as int].answers(asked) {
            self.lemma_undriven_input_settles_invalid(RegisteredPin(pin.0, asked), pin.1, 0);
        }
    }
}

} // verus!
