//! The kinds of component, their pin counts and the signal that each keeps.

use vstd::prelude::*;
use crate::error::SimError;
use crate::pin::RegisteredPin;
use crate::signal::State;

verus! {

/// One component of a circuit.
#[derive(Debug, Clone, Copy, PartialEq, Eq, Structural)]
pub enum Component {
    /// A source: no input, one output that carries the stored signal.
    Input(State),
    /// A sink: one input, no output. The stored signal is the one last settled on its input.
    Output(State),
    /// Two inputs, one output.
    OrGate,
    /// Two inputs, one output.
    AndGate,
    /// Two inputs, one output.
    XorGate,
    /// One input, one output.
    NotGate,
    /// No input and as many outputs as the number says. A placeholder for a composite
    /// component: every output carries `Low`.
    Custom(usize),
}

impl Component {
    pub open spec fn input_len_spec(&self) -> usize {
        match self {
            Component::Input(_) => 0,
            Component::Output(_) => 1,
            Component::OrGate => 2,
            Component::AndGate => 2,
            Component::XorGate => 2,
            Component::NotGate => 1,
            Component::Custom(_) => 0,
        }
    }

    pub open spec fn output_len_spec(&self) -> usize {
        match self {
            Component::Input(_) => 1,
            Component::Output(_) => 0,
            Component::OrGate => 1,
            Component::AndGate => 1,
            Component::XorGate => 1,
            Component::NotGate => 1,
            Component::Custom(n) => *n,
        }
    }

    /// Two components are of the same kind when they differ at most in the signal they store.
    pub open spec fn same_kind(&self, other: &Component) -> bool {
        match (*self, *other) {
            (Component::Input(_), Component::Input(_)) => true,
            (Component::Output(_), Component::Output(_)) => true,
            (a, b) => a == b,
        }
    }

    /// Two components drive alike when they are equal or both an `Output`: what an `Output`
    /// stores is what it last received, and has no part in what it passes on.
    pub open spec fn drives_like(&self, other: &Component) -> bool {
        *self == *other || (*self is Output && *other is Output)
    }

    /// The input pins of a component of this kind that stands at `index` in the component
    /// table, in the order in which an evaluation resolves them.
    pub open spec fn input_pins(&self, index: usize) -> Seq<RegisteredPin> {
        Seq::new(self.input_len_spec() as nat, |i: int| RegisteredPin(index, i as usize))
    }

    /// Whether an evaluation may be asked for the pin with index `pin`. An `Input` answers
    /// for its single output pin and an `Output` for its single input pin, both numbered 0.
    /// A gate or a `Custom` drives every output alike and does not look at the index.
    pub open spec fn answers(&self, pin: usize) -> bool {
        match self {
            Component::Input(_) | Component::Output(_) => pin == 0,
            _ => true,
        }
    }

    /// The signal that the component gives when its input pins carry `inputs`, one signal
    /// per input pin.
    pub open spec fn output_spec(&self, inputs: Seq<State>) -> State {
        match self {
            Component::Input(s) => *s,
            Component::Output(_) => inputs[0],
            Component::OrGate => inputs[0].or_spec(inputs[1]),
            Component::AndGate => inputs[0].and_spec(inputs[1]),
            Component::XorGate => inputs[0].xor_spec(inputs[1]),
            Component::NotGate => inputs[0].not_spec(),
            Component::Custom(_) => State::Low,
        }
    }

    /// The answer of the component to an evaluation, given what came of its inputs: their
    /// failure, or `Invalid` where one of them has no driver, or else the signal that the
    /// component makes of theirs.
    pub open spec fn answer_spec(&self, inputs: Result<Option<Seq<State>>, SimError>) -> Result<
        State,
        SimError,
    > {
        match inputs {
            Err(e) => Err(e),
            Ok(None) => Ok(State::Invalid),
            Ok(Some(signals)) => Ok(self.output_spec(signals)),
        }
    }

    /// The number of input pins, fixed by the kind.
    #[verifier::when_used_as_spec(input_len_spec)]
    pub fn input_len(&self) -> (n: usize)
        ensures
            n == self.input_len_spec(),
    {
        match self {
            Component::Input(_) => 0,
            Component::Output(_) => 1,
            Component::OrGate => 2,
            Component::AndGate => 2,
            Component::XorGate => 2,
            Component::NotGate => 1,
            Component::Custom(_) => 0,
        }
    }

    /// The number of output pins, fixed by the kind.
    #[verifier::when_used_as_spec(output_len_spec)]
    pub fn output_len(&self) -> (n: usize)
        ensures
            n == self.output_len_spec(),
    {
        match self {
            Component::Input(_) => 1,
            Component::Output(_) => 0,
            Component::OrGate => 1,
            Component::AndGate => 1,
            Component::XorGate => 1,
            Component::NotGate => 1,
            Component::Custom(i) => *i,
        }
    }

    /// What `set_pin` answers and leaves behind: an `Output` takes the signal on its input
    /// pin 0, every other kind refuses.
    pub open spec fn set_pin_spec(self, pin: usize, value: State) -> Result<Component, SimError> {
        match self {
            Component::Output(_) => if pin == 0 {
                Ok(Component::Output(value))
            } else {
                Err(SimError::UnknownPin)
            },
            _ => Err(SimError::KindMismatch),
        }
    }

    /// What `set_input` answers and leaves behind: an `Input` takes the signal for its output
    /// pin 0, every other kind refuses.
    pub open spec fn set_input_spec(self, pin: usize, value: State) -> Result<
        Component,
        SimError,
    > {
        match self {
            Component::Input(_) => if pin == 0 {
                Ok(Component::Input(value))
            } else {
                Err(SimError::UnknownPin)
            },
            _ => Err(SimError::KindMismatch),
        }
    }

    /// What `get_pin` answers: the signal that an `Input` drives on its output pin 0.
    pub open spec fn get_pin_spec(self, pin: usize) -> Result<State, SimError> {
        match self {
            Component::Input(s) => if pin == 0 {
                Ok(s)
            } else {
                Err(SimError::UnknownPin)
            },
            _ => Err(SimError::KindMismatch),
        }
    }

    /// What `inspect_pin` answers: the signal stored by an `Input` or an `Output`, whose only
    /// pin is pin 0.
    pub open spec fn inspect_pin_spec(self, pin: usize) -> Result<State, SimError> {
        match self {
            Component::Input(s) | Component::Output(s) => if pin == 0 {
                Ok(s)
            } else {
                Err(SimError::UnknownPin)
            },
            _ => Err(SimError::KindMismatch),
        }
    }

    /// Stores `value` as the signal settled on the input pin of an `Output`.
    ///
    /// Any other kind answers `KindMismatch`, an `Output` asked for a pin other than 0
    /// answers `UnknownPin`; in both cases the component stays as it was.
    pub fn set_pin(&mut self, pin: usize, value: State) -> (res: Result<(), SimError>)
        ensures
            match old(self).set_pin_spec(pin, value) {
                Ok(c) => res == Ok::<(), SimError>(()) && *final(self) == c,
                Err(e) => res == Err::<(), SimError>(e) && *final(self) == *old(self),
            },
    {
        match self {
            Component::Output(_) => {
                if pin != 0 {
                    return Err(SimError::UnknownPin);
                }
                *self = Component::Output(value);
                Ok(())
            },
            _ => Err(SimError::KindMismatch),
        }
    }

    /// The signal that an `Input` drives on its output pin.
    ///
    /// Any other kind answers `KindMismatch`, an `Input` asked for a pin other than 0
    /// answers `UnknownPin`.
    pub fn get_pin(&self, pin: usize) -> (res: Result<State, SimError>)
        ensures
            res == self.get_pin_spec(pin),
    {
        match self {
            Component::Input(b) => {
                if pin != 0 {
                    return Err(SimError::UnknownPin);
                }
                Ok(*b)
            },
            _ => Err(SimError::KindMismatch),
        }
    }

    /// Overwrites the signal of an `Input`.
    ///
    /// Any other kind answers `KindMismatch`, an `Input` asked for a pin other than 0
    /// answers `UnknownPin`; in both cases the component stays as it was.
    pub fn set_input(&mut self, pin: usize, value: State) -> (res: Result<(), SimError>)
        ensures
            match old(self).set_input_spec(pin, value) {
                Ok(c) => res == Ok::<(), SimError>(()) && *final(self) == c,
                Err(e) => res == Err::<(), SimError>(e) && *final(self) == *old(self),
            },
    {
        match self {
            Component::Input(_) => {
                if pin != 0 {
                    return Err(SimError::UnknownPin);
                }
                *self = Component::Input(value);
                Ok(())
            },
            _ => Err(SimError::KindMismatch),
        }
    }

    /// The signal stored by an `Input` or an `Output`, read without evaluating anything.
    ///
    /// Any other kind answers `KindMismatch`; a pin other than 0 answers `UnknownPin`.
    pub fn inspect_pin(&self, pin: usize) -> (res: Result<State, SimError>)
        ensures
            res == self.inspect_pin_spec(pin),
    {
        match self {
            Component::Input(b) => {
                if pin != 0 {
                    return Err(SimError::UnknownPin);
                }
                Ok(*b)
            },
            Component::Output(b) => {
                if pin != 0 {
                    return Err(SimError::UnknownPin);
                }
                Ok(*b)
            },
            _ => Err(SimError::KindMismatch),
        }
    }

    pub open spec fn label_spec(&self) -> Seq<char> {
        match self {
            Component::Input(_) => "input"@,
            Component::Output(_) => "output"@,
            Component::OrGate => "or gate"@,
            Component::AndGate => "and gate"@,
            Component::XorGate => "xor gate"@,
            Component::NotGate => "not gate"@,
            Component::Custom(_) => "custom"@,
        }
    }

    /// The name of the kind, for display.
    pub fn get_label(&self) -> (label: &'static str)
        ensures
            label@ == self.label_spec(),
    {
        match self {
            Component::Input(_) => "input",
            Component::Output(_) => "output",
            Component::OrGate => "or gate",
            Component::AndGate => "and gate",
            Component::XorGate => "xor gate",
            Component::NotGate => "not gate",
            Component::Custom(_) => "custom",
        }
    }
}

} // verus!
