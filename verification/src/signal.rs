//! The three-valued signal domain and the truth tables of the gates.

use vstd::prelude::*;

verus! {

/// The value carried by a pin.
///
/// `Invalid` is a value like the other two: it stands for a pin that nothing drives, or for an
/// indeterminacy that reached the pin from further up.
#[derive(Debug, Clone, Copy, PartialEq, Eq, Structural)]
pub enum State {
    Low,
    High,
    Invalid,
}

impl State {
    /// `true` for `Low` and `High`.
    pub open spec fn is_driven(self) -> bool {
        self != State::Invalid
    }

    /// The truth table of the OR gate: a `High` operand fixes the result whatever the other
    /// one is; otherwise an `Invalid` operand makes the result `Invalid`.
    pub open spec fn or_spec(self, other: State) -> State {
        if self == State::High || other == State::High {
            State::High
        } else if self == State::Invalid || other == State::Invalid {
            State::Invalid
        } else {
            State::Low
        }
    }

    /// The truth table of the AND gate: a `Low` operand fixes the result whatever the other
    /// one is; otherwise an `Invalid` operand makes the result `Invalid`.
    pub open spec fn and_spec(self, other: State) -> State {
        if self == State::Low || other == State::Low {
            State::Low
        } else if self == State::Invalid || other == State::Invalid {
            State::Invalid
        } else {
            State::High
        }
    }

    /// The truth table of the XOR gate: no operand alone fixes the result, so an `Invalid`
    /// operand always makes it `Invalid`.
    pub open spec fn xor_spec(self, other: State) -> State {
        if self == State::Invalid || other == State::Invalid {
            State::Invalid
        } else if self == other {
            State::Low
        } else {
            State::High
        }
    }

    /// The truth table of the NOT gate.
    pub open spec fn not_spec(self) -> State {
        match self {
            State::Low => State::High,
            State::High => State::Low,
            State::Invalid => State::Invalid,
        }
    }

    /// The name of the signal, as it is written in the source.
    pub open spec fn name_spec(self) -> Seq<char> {
        match self {
            State::Low => "Low"@,
            State::High => "High"@,
            State::Invalid => "Invalid"@,
        }
    }

    /// The name of the signal, for display: `Low`, `High` or `Invalid`.
    pub fn to_string(&self) -> (name: String)
        ensures
            name@ == self.name_spec(),
    {
        match self {
            State::Low => "Low".to_owned(),
            State::High => "High".to_owned(),
            State::Invalid => "Invalid".to_owned(),
        }
    }

    /// The driven signal that stands for a Boolean value.
    pub open spec fn of_bool(b: bool) -> State {
        if b {
            State::High
        } else {
            State::Low
        }
    }

    /// Output of an OR gate whose inputs carry `self` and `other`.
    #[verifier::when_used_as_spec(or_spec)]
    pub fn or(self, other: State) -> (out: State)
        ensures
            out == self.or_spec(other),
    {
        match (self, other) {
            (State::High, _) | (_, State::High) => State::High,
            (State::Invalid, _) | (_, State::Invalid) => State::Invalid,
            _ => State::Low,
        }
    }

    /// Output of an AND gate whose inputs carry `self` and `other`.
    #[verifier::when_used_as_spec(and_spec)]
    pub fn and(self, other: State) -> (out: State)
        ensures
            out == self.and_spec(other),
    {
        match (self, other) {
            (State::Low, _) | (_, State::Low) => State::Low,
            (State::Invalid, _) | (_, State::Invalid) => State::Invalid,
            _ => State::High,
        }
    }

    /// Output of an XOR gate whose inputs carry `self` and `other`.
    #[verifier::when_used_as_spec(xor_spec)]
    pub fn xor(self, other: State) -> (out: State)
        ensures
            out == self.xor_spec(other),
    {
        match (self, other) {
            (State::Invalid, _) | (_, State::Invalid) => State::Invalid,
            (State::High, State::High) => State::Low,
            (State::High, _) | (_, State::High) => State::High,
            _ => State::Low,
        }
    }

    /// Output of a NOT gate whose input carries `self`.
    #[verifier::when_used_as_spec(not_spec)]
    pub fn not(self) -> (out: State)
        ensures
            out == self.not_spec(),
    {
        match self {
            State::Invalid => State::Invalid,
            State::High => State::Low,
            State::Low => State::High,
        }
    }

    /// On driven operands the gates compute the Boolean functions they are named after.
    pub proof fn lemma_driven_operands(a: bool, b: bool)
        ensures
            State::of_bool(a).or_spec(State::of_bool(b)) == State::of_bool(a || b),
            State::of_bool(a).and_spec(State::of_bool(b)) == State::of_bool(a && b),
            State::of_bool(a).xor_spec(State::of_bool(b)) == State::of_bool(a != b),
            State::of_bool(a).not_spec() == State::of_bool(!a),
    {
    }

    /// How `Invalid` travels through the gates: an operand that fixes the result alone (`High`
    /// for OR, `Low` for AND) wins over an `Invalid` peer; without one, a single `Invalid`
    /// operand makes the result `Invalid`. XOR and NOT have no such operand.
    pub proof fn lemma_invalid_operands(a: State, b: State)
        ensures
            a == State::High || b == State::High ==> a.or_spec(b) == State::High,
            a == State::Low || b == State::Low ==> a.and_spec(b) == State::Low,
            (a == State::Invalid || b == State::Invalid) && a != State::High && b != State::High
                ==> a.or_spec(b) == State::Invalid,
            (a == State::Invalid || b == State::Invalid) && a != State::Low && b != State::Low
                ==> a.and_spec(b) == State::Invalid,
            a == State::Invalid || b == State::Invalid ==> a.xor_spec(b) == State::Invalid,
            a.not_spec() == State::Invalid <==> a == State::Invalid,
            a.is_driven() && b.is_driven() ==> a.or_spec(b).is_driven() && a.and_spec(
                b,
            ).is_driven() && a.xor_spec(b).is_driven(),
    {
    }
}

} // verus!
