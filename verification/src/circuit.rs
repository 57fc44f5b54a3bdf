//! The mathematical model of a circuit and of the signal that settles on each of its pins.
//!
//! A signal is pulled: to know what a pin carries, the component behind it asks the pins that
//! drive its own inputs, and so on down to the sources. The pull is bounded in depth, so that
//! it is defined on every circuit, looped or not; a pull that runs out of depth reports a
//! combinational cycle. The bound used for a whole circuit is its number of components, and
//! `lemma_settle_at_any_depth` shows that no larger bound would change any result.

use vstd::prelude::*;
use vstd::set_lib::*;
use crate::component::Component;
use crate::error::SimError;
use crate::pin::RegisteredPin;
use crate::signal::State;

verus! {

/// A circuit: the component table and the two connection maps.
pub struct Circuit {
    /// The components, each addressed by its position.
    pub components: Seq<Component>,
    /// From a consuming (input) pin to the pin that drives it.
    pub drivers: Map<RegisteredPin, RegisteredPin>,
    /// From a driving (output) pin to the pin that it feeds.
    pub consumers: Map<RegisteredPin, RegisteredPin>,
    /// The driving pins that feed a pin, in the order in which they were first connected.
    pub wires: Seq<RegisteredPin>,
}

impl Circuit {
    /// The circuit with one more component at the end of the table.
    pub open spec fn with_component(self, component: Component) -> Circuit {
        Circuit {
            components: self.components.push(component),
            drivers: self.drivers,
            consumers: self.consumers,
            wires: self.wires,
        }
    }

    /// The circuit with a wire from `driver` to `consumer`. What either pin was connected to
    /// before, on that side, is forgotten.
    pub open spec fn with_connection(self, driver: RegisteredPin, consumer: RegisteredPin) -> Circuit {
        Circuit {
            components: self.components,
            drivers: self.drivers.insert(consumer, driver),
            consumers: self.consumers.insert(driver, consumer),
            wires: if self.consumers.contains_key(driver) {
                self.wires
            } else {
                self.wires.push(driver)
            },
        }
    }

    /// The circuit with `component` in place of the component at `index`.
    pub open spec fn with_component_at(self, index: int, component: Component) -> Circuit {
        Circuit {
            components: self.components.update(index, component),
            drivers: self.drivers,
            consumers: self.consumers,
            wires: self.wires,
        }
    }

    /// The wires of the circuit, each as its driving pin and the pin that it feeds, in the
    /// order in which the driving pins were first connected.
    pub open spec fn connections(self) -> Seq<(RegisteredPin, RegisteredPin)> {
        Seq::new(self.wires.len(), |i: int| (self.wires[i], self.consumers[self.wires[i]]))
    }

    /// Whether the list of wires names the driving pins that feed a pin, each once.
    pub open spec fn wired_once(self) -> bool {
        &&& self.wires.no_duplicates()
        &&& forall|pin: RegisteredPin|
            self.wires.contains(pin) <==> #[trigger] self.consumers.contains_key(pin)
    }

    /// The component at `index`, if the table holds one there.
    pub open spec fn component(self, index: usize) -> Result<Component, SimError> {
        if index < self.components.len() {
            Ok(self.components[index as int])
        } else {
            Err(SimError::UnknownComponent)
        }
    }

    /// The component that `pin` belongs to, if the table holds it.
    pub open spec fn component_of(self, pin: RegisteredPin) -> Result<Component, SimError> {
        self.component(pin.0)
    }

    /// What `Simulator::set_input` makes of the circuit, or the failure it reports.
    pub open spec fn set_input_spec(self, pin: RegisteredPin, value: State) -> Result<
        Circuit,
        SimError,
    > {
        match self.component_of(pin) {
            Err(e) => Err(e),
            Ok(component) => match component.set_input_spec(pin.1, value) {
                Err(e) => Err(e),
                Ok(changed) => Ok(self.with_component_at(pin.0 as int, changed)),
            },
        }
    }

    /// What `Simulator::set_pin` makes of the circuit, or the failure it reports.
    pub open spec fn set_pin_spec(self, pin: RegisteredPin, value: State) -> Result<
        Circuit,
        SimError,
    > {
        match self.component_of(pin) {
            Err(e) => Err(e),
            Ok(component) => match component.set_pin_spec(pin.1, value) {
                Err(e) => Err(e),
                Ok(changed) => Ok(self.with_component_at(pin.0 as int, changed)),
            },
        }
    }

    /// What `Simulator::get_pin` answers.
    pub open spec fn get_pin_spec(self, pin: RegisteredPin) -> Result<State, SimError> {
        match self.component_of(pin) {
            Err(e) => Err(e),
            Ok(component) => component.get_pin_spec(pin.1),
        }
    }

    /// What `Simulator::inspect_pin` answers.
    pub open spec fn inspect_pin_spec(self, pin: RegisteredPin) -> Result<State, SimError> {
        match self.component_of(pin) {
            Err(e) => Err(e),
            Ok(component) => component.inspect_pin_spec(pin.1),
        }
    }

    /// The input pins of the component at `index` that nothing drives, among its first `count`
    /// input pins, in order.
    pub open spec fn undriven_of(self, index: usize, count: nat) -> Seq<RegisteredPin>
        decreases count,
    {
        if count == 0 {
            Seq::empty()
        } else {
            let before = self.undriven_of(index, (count - 1) as nat);
            let pin = RegisteredPin(index, (count - 1) as usize);
            if self.drivers.contains_key(pin) {
                before
            } else {
                before.push(pin)
            }
        }
    }

    /// The input pins that nothing drives, of the first `count` components: component by
    /// component in the order of the table, and pin by pin within a component.
    pub open spec fn undriven_among(self, count: nat) -> Seq<RegisteredPin>
        decreases count,
    {
        if count == 0 {
            Seq::empty()
        } else {
            let index = (count - 1) as usize;
            self.undriven_among((count - 1) as nat) + self.undriven_of(
                index,
                self.components[index as int].input_len_spec() as nat,
            )
        }
    }

    /// The input pins of the circuit that nothing drives: the places where a pull finds no
    /// wire to follow and gives `Invalid`.
    pub open spec fn undriven_inputs(self) -> Seq<RegisteredPin> {
        self.undriven_among(self.components.len())
    }

    /// Whether every pin of `pins` has a driver.
    pub open spec fn all_driven(self, pins: Seq<RegisteredPin>) -> bool {
        forall|i: int| 0 <= i < pins.len() ==> self.drivers.contains_key(#[trigger] pins[i])
    }

    /// The drivers of `pins`, pin by pin, or `None` where one of them has no driver.
    pub open spec fn sources(self, pins: Seq<RegisteredPin>) -> Option<Seq<RegisteredPin>> {
        if self.all_driven(pins) {
            Some(Seq::new(pins.len(), |i: int| self.drivers[pins[i]]))
        } else {
            None
        }
    }

    /// The signal that the component behind `pin` gives when it is evaluated for that pin, with
    /// `depth` wires at most between it and the furthest component consulted.
    ///
    /// A pin of no component is `UnknownComponent`; a pin index that the component does not
    /// answer for is `UnknownPin`. A component with an input that nothing drives gives
    /// `Invalid` and consults nothing. Otherwise the component consults the drivers of its
    /// inputs in order and applies its truth table; the first failure among them is its own.
    pub open spec fn pull(self, pin: RegisteredPin, depth: nat) -> Result<State, SimError>
        decreases depth, 3nat, 0nat,
    {
        if pin.0 >= self.components.len() {
            Err(SimError::UnknownComponent)
        } else {
            let kind = self.components[pin.0 as int];
            if !kind.answers(pin.1) {
                Err(SimError::UnknownPin)
            } else {
                kind.answer_spec(self.pull_inputs(kind.input_pins(pin.0), depth))
            }
        }
    }

    /// The signals on the input pins `pins` of a component evaluated at `depth`: `None` where
    /// one of the pins has no driver, else what their drivers give, in order.
    pub open spec fn pull_inputs(self, pins: Seq<RegisteredPin>, depth: nat) -> Result<
        Option<Seq<State>>,
        SimError,
    >
        decreases depth, 2nat, 0nat,
    {
        match self.sources(pins) {
            None => Ok(None),
            Some(drivers) => match self.pull_all(drivers, depth) {
                Err(e) => Err(e),
                Ok(signals) => Ok(Some(signals)),
            },
        }
    }

    /// The signals of the driving pins `drivers`, each followed from a component evaluated at
    /// `depth`. The first failure in order is the result.
    pub open spec fn pull_all(self, drivers: Seq<RegisteredPin>, depth: nat) -> Result<
        Seq<State>,
        SimError,
    >
        decreases depth, 1nat, drivers.len(),
    {
        if drivers.len() == 0 {
            Ok(Seq::empty())
        } else {
            match self.pull_all(drivers.drop_last(), depth) {
                Err(e) => Err(e),
                Ok(signals) => match self.follow(drivers.last(), depth) {
                    Err(e) => Err(e),
                    Ok(signal) => Ok(signals.push(signal)),
                },
            }
        }
    }

    /// The signal of the driving pin `driver`, seen from a component evaluated at `depth`:
    /// one wire further, so with one less to go. At depth 0 no wire is followed.
    pub open spec fn follow(self, driver: RegisteredPin, depth: nat) -> Result<State, SimError>
        decreases depth, 0nat, 0nat,
    {
        if depth == 0 {
            Err(SimError::CombinationalCycle)
        } else {
            self.pull(driver, (depth - 1) as nat)
        }
    }

    /// The depth at which a whole circuit is evaluated: its number of components.
    pub open spec fn depth(self) -> nat {
        self.components.len()
    }

    /// The signal that settles on `pin`.
    pub open spec fn settle(self, pin: RegisteredPin) -> Result<State, SimError> {
        self.pull(pin, self.depth())
    }

    /// The signals that settle on the driving pins `drivers`, or the first failure in order.
    pub open spec fn settle_all(self, drivers: Seq<RegisteredPin>) -> Result<Seq<State>, SimError> {
        self.pull_all(drivers, self.depth() + 1)
    }

    /// The signals that settle on the input pins `pins`: `None` where one of them has no
    /// driver.
    pub open spec fn settle_inputs(self, pins: Seq<RegisteredPin>) -> Result<
        Option<Seq<State>>,
        SimError,
    > {
        self.pull_inputs(pins, self.depth() + 1)
    }

    /// A result other than the cycle report stays the same at every greater depth.
    pub proof fn lemma_pull_deeper(self, pin: RegisteredPin, shallow: nat, deep: nat)
        requires
            shallow <= deep,
            self.pull(pin, shallow) != Err::<State, SimError>(SimError::CombinationalCycle),
        ensures
            self.pull(pin, deep) == self.pull(pin, shallow),
        decreases shallow, 3nat, 0nat,
    {
        if pin.0 < self.components.len() {
            let kind = self.components[pin.0 as int];
            if kind.answers(pin.1) {
                self.lemma_pull_inputs_deeper(kind.input_pins(pin.0), shallow, deep);
            }
        }
    }

    /// As `lemma_pull_deeper`, for the inputs of a component.
    pub proof fn lemma_pull_inputs_deeper(self, pins: Seq<RegisteredPin>, shallow: nat, deep: nat)
        requires
            shallow <= deep,
            self.pull_inputs(pins, shallow) != Err::<Option<Seq<State>>, SimError>(
                SimError::CombinationalCycle,
            ),
        ensures
            self.pull_inputs(pins, deep) == self.pull_inputs(pins, shallow),
        decreases shallow, 2nat, 0nat,
    {
        match self.sources(pins) {
            None => {},
            Some(drivers) => {
                self.lemma_pull_all_deeper(drivers, shallow, deep);
            },
        }
    }

    /// As `lemma_pull_deeper`, for a sequence of driving pins.
    pub proof fn lemma_pull_all_deeper(self, drivers: Seq<RegisteredPin>, shallow: nat, deep: nat)
        requires
            shallow <= deep,
            self.pull_all(drivers, shallow) != Err::<Seq<State>, SimError>(
                SimError::CombinationalCycle,
            ),
        ensures
            self.pull_all(drivers, deep) == self.pull_all(drivers, shallow),
        decreases shallow, 1nat, drivers.len(),
    {
        if drivers.len() > 0 {
            self.lemma_pull_all_deeper(drivers.drop_last(), shallow, deep);
            if self.pull_all(drivers.drop_last(), shallow) is Ok {
                self.lemma_follow_deeper(drivers.last(), shallow, deep);
            }
        }
    }

    /// As `lemma_pull_deeper`, for a pin seen through a wire.
    pub proof fn lemma_follow_deeper(self, driver: RegisteredPin, shallow: nat, deep: nat)
        requires
            shallow <= deep,
            self.follow(driver, shallow) != Err::<State, SimError>(SimError::CombinationalCycle),
        ensures
            self.follow(driver, deep) == self.follow(driver, shallow),
        decreases shallow, 0nat, 0nat,
    {
        self.lemma_pull_deeper(driver, (shallow - 1) as nat, (deep - 1) as nat);
    }

    /// Whether the component at `index` is short of depth when evaluated at `depth`.
    pub open spec fn stuck(self, index: int, depth: nat) -> bool {
        &&& 0 <= index < self.components.len()
        &&& self.pull_inputs(self.components[index].input_pins(index as usize), depth) == Err::<
            Option<Seq<State>>,
            SimError,
        >(SimError::CombinationalCycle)
    }

    /// Among drivers that are short of depth together at `depth` and no longer at `depth + 1`,
    /// one is short of depth at `depth` and no longer at `depth + 1` by itself.
    proof fn lemma_culprit(self, drivers: Seq<RegisteredPin>, depth: nat) -> (i: int)
        requires
            self.pull_all(drivers, depth) == Err::<Seq<State>, SimError>(
                SimError::CombinationalCycle,
            ),
            self.pull_all(drivers, depth + 1) != Err::<Seq<State>, SimError>(
                SimError::CombinationalCycle,
            ),
        ensures
            0 <= i < drivers.len(),
            self.follow(drivers[i], depth) == Err::<State, SimError>(SimError::CombinationalCycle),
            self.follow(drivers[i], depth + 1) != Err::<State, SimError>(
                SimError::CombinationalCycle,
            ),
        decreases drivers.len(),
    {
        let init = drivers.drop_last();
        if self.pull_all(init, depth) == Err::<Seq<State>, SimError>(SimError::CombinationalCycle) {
            self.lemma_culprit(init, depth)
        } else {
            self.lemma_pull_all_deeper(init, depth, depth + 1);
            drivers.len() - 1
        }
    }

    /// The least depth at which `pin` gives something else than the cycle report is smaller
    /// than the number of components that are still short of depth there.
    ///
    /// Each step down the chain of culprits meets a component that is short of depth one level
    /// lower, so a component that was not met before.
    proof fn lemma_least_depth_bounded(self, pin: RegisteredPin, least: nat, seen: Set<int>)
        requires
            self.pull(pin, least) != Err::<State, SimError>(SimError::CombinationalCycle),
            least > 0 ==> self.pull(pin, (least - 1) as nat) == Err::<State, SimError>(
                SimError::CombinationalCycle,
            ),
            seen.finite(),
            forall|index: int| seen.contains(index) ==> self.stuck(index, least),
        ensures
            least + seen.len() <= self.components.len(),
        decreases least,
    {
        if least == 0 {
            lemma_int_range(0, self.components.len() as int);
            lemma_len_subset(seen, set_int_range(0, self.components.len() as int));
        } else {
            let below = (least - 1) as nat;
            let index = pin.0 as int;
            let pins = self.components[index].input_pins(pin.0);
            let met = seen.insert(index);
            assert forall|other: int| met.contains(other) implies self.stuck(other, below) by {
                if other != index {
                    let others = self.components[other].input_pins(other as usize);
                    if self.pull_inputs(others, below) != Err::<Option<Seq<State>>, SimError>(
                        SimError::CombinationalCycle,
                    ) {
                        self.lemma_pull_inputs_deeper(others, below, least);
                    }
                }
            }
            let drivers = self.sources(pins).unwrap();
            let i = self.lemma_culprit(drivers, below);
            self.lemma_least_depth_bounded(drivers[i], below, met);
        }
    }

    /// The least depth, not above `depth`, at which `pin` gives what it gives at `depth`.
    proof fn lemma_least_depth(self, pin: RegisteredPin, depth: nat) -> (least: nat)
        requires
            self.pull(pin, depth) != Err::<State, SimError>(SimError::CombinationalCycle),
        ensures
            least <= depth,
            self.pull(pin, least) == self.pull(pin, depth),
            least > 0 ==> self.pull(pin, (least - 1) as nat) == Err::<State, SimError>(
                SimError::CombinationalCycle,
            ),
        decreases depth,
    {
        if depth > 0 && self.pull(pin, (depth - 1) as nat) != Err::<State, SimError>(
            SimError::CombinationalCycle,
        ) {
            self.lemma_pull_deeper(pin, (depth - 1) as nat, depth);
            self.lemma_least_depth(pin, (depth - 1) as nat)
        } else {
            depth
        }
    }

    /// The number of components is depth enough: at any depth a pin gives what settles on it,
    /// or else the cycle report for want of depth; and from the number of components on, no
    /// depth is wanting.
    ///
    /// So the cycle report of `settle` is never an effect of the bound: a pin that reports a
    /// cycle there reports it at every depth.
    pub proof fn lemma_settle_at_any_depth(self, pin: RegisteredPin, depth: nat)
        ensures
            self.pull(pin, depth) == self.settle(pin) || self.pull(pin, depth) == Err::<
                State,
                SimError,
            >(SimError::CombinationalCycle),
            depth >= self.depth() ==> self.pull(pin, depth) == self.settle(pin),
    {
        let cycle = Err::<State, SimError>(SimError::CombinationalCycle);
        if self.pull(pin, depth) != cycle {
            if depth <= self.depth() {
                self.lemma_pull_deeper(pin, depth, self.depth());
            } else {
                let least = self.lemma_least_depth(pin, depth);
                self.lemma_least_depth_bounded(pin, least, Set::<int>::empty());
                self.lemma_pull_deeper(pin, least, self.depth());
            }
        } else if depth >= self.depth() && self.settle(pin) != cycle {
            self.lemma_pull_deeper(pin, self.depth(), depth);
        }
    }

    /// As `lemma_settle_at_any_depth`, for a pin seen through a wire.
    pub proof fn lemma_settle_follow_at_any_depth(self, driver: RegisteredPin, depth: nat)
        ensures
            self.follow(driver, depth) == self.settle(driver) || self.follow(driver, depth)
                == Err::<State, SimError>(SimError::CombinationalCycle),
            depth > self.depth() ==> self.follow(driver, depth) == self.settle(driver),
    {
        if depth > 0 {
            self.lemma_settle_at_any_depth(driver, (depth - 1) as nat);
        }
    }

    /// As `lemma_settle_at_any_depth`, for a sequence of driving pins.
    pub proof fn lemma_settle_all_at_any_depth(self, drivers: Seq<RegisteredPin>, depth: nat)
        ensures
            self.pull_all(drivers, depth) == self.settle_all(drivers) || self.pull_all(
                drivers,
                depth,
            ) == Err::<Seq<State>, SimError>(SimError::CombinationalCycle),
            depth > self.depth() ==> self.pull_all(drivers, depth) == self.settle_all(drivers),
        decreases drivers.len(),
    {
        if drivers.len() > 0 {
            self.lemma_settle_all_at_any_depth(drivers.drop_last(), depth);
            self.lemma_settle_follow_at_any_depth(drivers.last(), depth);
            self.lemma_settle_follow_at_any_depth(drivers.last(), self.depth() + 1);
        }
    }

    /// What settles on a pin, in terms of what settles on the inputs of its component.
    pub open spec fn settle_from_inputs(self, pin: RegisteredPin) -> Result<State, SimError> {
        if pin.0 >= self.components.len() {
            Err(SimError::UnknownComponent)
        } else {
            let kind = self.components[pin.0 as int];
            if !kind.answers(pin.1) {
                Err(SimError::UnknownPin)
            } else {
                kind.answer_spec(self.settle_inputs(kind.input_pins(pin.0)))
            }
        }
    }

    /// The signal that settles on a pin is the one that its component makes of the signals
    /// that settle on the drivers of its inputs.
    pub proof fn lemma_settle_from_inputs(self, pin: RegisteredPin)
        ensures
            self.settle(pin) == self.settle_from_inputs(pin),
    {
        self.lemma_settle_at_any_depth(pin, self.depth() + 1);
    }

    /// The first `k + 1` driving pins give what the first `k` give, then what the next one
    /// gives.
    pub proof fn lemma_pull_all_step(self, drivers: Seq<RegisteredPin>, k: int, depth: nat)
        requires
            0 <= k < drivers.len(),
        ensures
            self.pull_all(drivers.take(k + 1), depth) == match self.pull_all(
                drivers.take(k),
                depth,
            ) {
                Err(e) => Err::<Seq<State>, SimError>(e),
                Ok(signals) => match self.follow(drivers[k], depth) {
                    Err(e) => Err(e),
                    Ok(signal) => Ok(signals.push(signal)),
                },
            },
    {
        assert(drivers.take(k + 1).drop_last() =~= drivers.take(k));
    }

    /// A failure among the first `k` driving pins is the failure of them all.
    pub proof fn lemma_pull_all_prefix(self, drivers: Seq<RegisteredPin>, k: int, depth: nat)
        requires
            0 <= k <= drivers.len(),
            self.pull_all(drivers.take(k), depth) is Err,
        ensures
            self.pull_all(drivers, depth) == self.pull_all(drivers.take(k), depth),
        decreases drivers.len(),
    {
        if k == drivers.len() {
            assert(drivers.take(k) =~= drivers);
        } else {
            assert(drivers.drop_last().take(k) =~= drivers.take(k));
            self.lemma_pull_all_prefix(drivers.drop_last(), k, depth);
        }
    }

    /// Whether `answer` may come back from an evaluation of `pin` that was given `depth`: it
    /// is what settles on the pin, or else the cycle report, and then the pin does report a
    /// cycle at that depth.
    pub open spec fn pulled(self, pin: RegisteredPin, depth: nat, answer: Result<State, SimError>) -> bool {
        ||| answer == self.settle(pin)
        ||| answer == Err::<State, SimError>(SimError::CombinationalCycle) && self.pull(pin, depth)
            == Err::<State, SimError>(SimError::CombinationalCycle)
    }

    /// As `pulled`, for the inputs of a component.
    pub open spec fn pulled_inputs(
        self,
        pins: Seq<RegisteredPin>,
        depth: nat,
        answer: Result<Option<Seq<State>>, SimError>,
    ) -> bool {
        ||| answer == self.settle_inputs(pins)
        ||| answer == Err::<Option<Seq<State>>, SimError>(SimError::CombinationalCycle)
            && self.pull_inputs(pins, depth) == Err::<Option<Seq<State>>, SimError>(
            SimError::CombinationalCycle,
        )
    }

    /// What may come back from the inputs of a component makes, by the component's truth
    /// table, what may come back from the component.
    pub proof fn lemma_pulled_from_inputs(
        self,
        pin: RegisteredPin,
        depth: nat,
        inputs: Result<Option<Seq<State>>, SimError>,
    )
        requires
            pin.0 < self.components.len(),
            self.components[pin.0 as int].answers(pin.1),
            self.pulled_inputs(self.components[pin.0 as int].input_pins(pin.0), depth, inputs),
        ensures
            self.pulled(pin, depth, self.components[pin.0 as int].answer_spec(inputs)),
    {
        self.lemma_settle_from_inputs(pin);
    }

    /// A component without inputs has nothing to wait for, at any depth.
    pub proof fn lemma_no_inputs(self, pins: Seq<RegisteredPin>, depth: nat)
        requires
            pins.len() == 0,
        ensures
            self.pull_inputs(pins, depth) == Ok::<Option<Seq<State>>, SimError>(
                Some(Seq::<State>::empty()),
            ),
    {
    }

    /// Where the drivers before the one at `k` have settled and that one fails an evaluation
    /// given `depth - 1`, the drivers together fail one given `depth` in the same way.
    pub proof fn lemma_failure_among(
        self,
        drivers: Seq<RegisteredPin>,
        k: int,
        depth: nat,
        failure: SimError,
    )
        requires
            0 <= k < drivers.len(),
            depth > 0,
            self.settle_all(drivers.take(k)) is Ok,
            self.pulled(drivers[k], (depth - 1) as nat, Err::<State, SimError>(failure)),
        ensures
            self.settle_all(drivers) == Err::<Seq<State>, SimError>(failure) || (failure
                == SimError::CombinationalCycle && self.pull_all(drivers, depth) == Err::<
                Seq<State>,
                SimError,
            >(SimError::CombinationalCycle)),
    {
        self.lemma_pull_all_step(drivers, k, self.depth() + 1);
        self.lemma_pull_all_step(drivers, k, depth);
        self.lemma_settle_all_at_any_depth(drivers.take(k), depth);
        if self.settle(drivers[k]) == Err::<State, SimError>(failure) {
            self.lemma_pull_all_prefix(drivers, k + 1, self.depth() + 1);
        } else {
            self.lemma_pull_all_prefix(drivers, k + 1, depth);
        }
    }
}

} // verus!
