//! The simulator: owner of the component table and of the connections, and driver of the
//! evaluation.

use vstd::prelude::*;
use crate::circuit::Circuit;
use crate::component::Component;
use crate::error::SimError;
use crate::pin::{ComponentHandle, RegisteredPin};
use crate::cache::PinCache;
use crate::pin_map::PinMap;
use crate::refresh::{input_indices, lemma_indices_by_kind, output_indices};
use crate::signal::State;

verus! {

/// A circuit under simulation.
pub struct Simulator {
    /// Indices into `components` of the `Input` components, in increasing order.
    input_components: Vec<usize>,
    /// Indices into `components` of the `Output` components, in increasing order.
    output_components: Vec<usize>,
    /// All the components of the circuit.
    components: Vec<Component>,
    /// From each driving pin to the pin that it feeds.
    driver_to_consumer: PinMap<RegisteredPin>,
    /// From each consuming pin to the pin that drives it.
    consumer_to_driver: PinMap<RegisteredPin>,
    /// The driving pins that feed a pin, in the order in which they were first connected.
    wired: Vec<RegisteredPin>,
}

impl View for Simulator {
    type V = Circuit;

    closed spec fn view(&self) -> Circuit {
        Circuit {
            components: self.components@,
            drivers: self.consumer_to_driver@,
            consumers: self.driver_to_consumer@,
            wires: self.wired@,
        }
    }
}

impl Simulator {
    /// The invariant of the simulator: the two index lists name the `Input` and the `Output`
    /// components, and the list of wires names the driving pins that feed a pin, each once.
    #[verifier::opaque]
    pub closed spec fn wf(&self) -> bool {
        &&& self.input_components@ == input_indices(self.components@)
        &&& self.output_components@ == output_indices(self.components@)
        &&& self@.wired_once()
    }

    /// In a simulator that keeps its invariant no wire is listed twice, and none is left out.
    pub proof fn lemma_wired_once(&self)
        requires
            self.wf(),
        ensures
            self@.wired_once(),
    {
        reveal(Simulator::wf);
    }

    /// Putting back the components of a circuit that drives like the present one keeps the
    /// invariant, and gives that circuit back.
    proof fn lemma_restore_keeps_wf(&self, after: &Simulator, start: Circuit)
        requires
            self.wf(),
            start.drives_like(self@),
            after.components@ == start.components,
            after.input_components == self.input_components,
            after.output_components == self.output_components,
            after.driver_to_consumer == self.driver_to_consumer,
            after.consumer_to_driver == self.consumer_to_driver,
            after.wired == self.wired,
        ensures
            after.wf(),
            after@ == start,
    {
        reveal(Simulator::wf);
        assert forall|i: int| 0 <= i < self.components@.len() implies (
        #[trigger] self.components@[i]).same_kind(&after.components@[i]) by {
        }
        lemma_indices_by_kind(self.components@, after.components@);
        assert(after@.consumers == self@.consumers);
    }

    /// Storing a signal in an `Output` keeps the invariant.
    proof fn lemma_store_keeps_wf(&self, after: &Simulator, index: int, signal: State)
        requires
            self.wf(),
            0 <= index < self.components@.len(),
            self.components@[index] is Output,
            after.components@ == self.components@.update(index, Component::Output(signal)),
            after.input_components == self.input_components,
            after.output_components == self.output_components,
            after.driver_to_consumer == self.driver_to_consumer,
            after.consumer_to_driver == self.consumer_to_driver,
            after.wired == self.wired,
        ensures
            after.wf(),
            after@ == self@.with_component_at(index, Component::Output(signal)),
    {
        reveal(Simulator::wf);
        lemma_indices_by_kind(self.components@, after.components@);
        assert(after@.consumers == self@.consumers);
    }

    /// A simulator without components or connections.
    pub fn new() -> (sim: Simulator)
        ensures
            sim.wf(),
            sim@.components == Seq::<Component>::empty(),
            sim@.drivers == Map::<RegisteredPin, RegisteredPin>::empty(),
            sim@.consumers == Map::<RegisteredPin, RegisteredPin>::empty(),
            sim@.wires == Seq::<RegisteredPin>::empty(),
    {
        proof {
            reveal(Simulator::wf);
        }
        Simulator {
            input_components: Vec::new(),
            output_components: Vec::new(),
            components: Vec::new(),
            driver_to_consumer: PinMap::new(),
            consumer_to_driver: PinMap::new(),
            wired: Vec::new(),
        }
    }

    /// The number of components.
    pub fn len(&self) -> (n: usize)
        ensures
            n == self@.components.len(),
    {
        self.components.len()
    }

    /// The component behind `handle`, or `UnknownComponent` where the table holds none.
    pub fn get_component(&self, handle: &ComponentHandle) -> (res: Result<&Component, SimError>)
        ensures
            match res {
                Ok(component) => self@.component(handle.0) == Ok::<Component, SimError>(*component),
                Err(e) => self@.component(handle.0) == Err::<Component, SimError>(e),
            },
    {
        if handle.0 < self.components.len() {
            Ok(&self.components[handle.0])
        } else {
            Err(SimError::UnknownComponent)
        }
    }

    /// Appends `component` to the table and returns its index, which it keeps for good.
    pub fn insert_component(&mut self, component: Component) -> (index: usize)
        requires
            old(self).wf(),
        ensures
            final(self).wf(),
            index == old(self)@.components.len(),
            final(self)@ == old(self)@.with_component(component),
    {
        proof {
            reveal(Simulator::wf);
        }
        let index = self.components.len();
        match component {
            Component::Input(_) => self.input_components.push(index),
            Component::Output(_) => self.output_components.push(index),
            _ => (),
        }
        self.components.push(component);
        proof {
            reveal(Simulator::wf);
            assert(self.components@.drop_last() =~= old(self).components@);
            assert(self@.consumers == old(self)@.consumers);
        }
        index
    }

    /// Wires the driving pin `driver` to the consuming pin `consumer`.
    ///
    /// Neither pin is checked against the component table. A driving pin feeds one pin, and a
    /// consuming pin has one driver: a pin that is connected again forgets, on its own side,
    /// what it was connected to before.
    pub fn connect(&mut self, driver: RegisteredPin, consumer: RegisteredPin)
        requires
            old(self).wf(),
        ensures
            final(self).wf(),
            final(self)@ == old(self)@.with_connection(driver, consumer),
    {
        proof {
            reveal(Simulator::wf);
            old(self)@.lemma_connection_wired_once(driver, consumer);
        }
        if !self.driver_to_consumer.contains(&driver) {
            self.wired.push(driver);
        }
        self.driver_to_consumer.insert(driver, consumer);
        self.consumer_to_driver.insert(consumer, driver);
    }

    /// Stores `value` in the `Output` component that `pin` addresses, as the signal settled
    /// on its input.
    ///
    /// Fails with `UnknownComponent` where the table holds no such component, with
    /// `KindMismatch` where the component is no `Output`, and with `UnknownPin` where `pin` is
    /// not pin 0 of it. A failure changes nothing.
    pub fn set_pin(&mut self, pin: RegisteredPin, value: State) -> (res: Result<(), SimError>)
        requires
            old(self).wf(),
        ensures
            final(self).wf(),
            match old(self)@.set_pin_spec(pin, value) {
                Ok(circuit) => res == Ok::<(), SimError>(()) && final(self)@ == circuit,
                Err(e) => res == Err::<(), SimError>(e) && final(self)@ == old(self)@,
            },
    {
        if pin.0 >= self.components.len() {
            return Err(SimError::UnknownComponent);
        }
        let res = self.components[pin.0].set_pin(pin.1, value);
        proof {
            reveal(Simulator::wf);
            lemma_indices_by_kind(old(self).components@, self.components@);
            assert(self.components@ =~= old(self).components@.update(
                pin.0 as int,
                self.components@[pin.0 as int],
            ));
            if res is Err {
                assert(self.components@ =~= old(self).components@);
            }
        }
        res
    }

    /// The signal that the `Input` component addressed by `pin` drives.
    ///
    /// Fails with `UnknownComponent` where the table holds no such component, with
    /// `KindMismatch` where the component is no `Input`, and with `UnknownPin` where `pin` is
    /// not pin 0 of it.
    pub fn get_pin(&self, pin: RegisteredPin) -> (res: Result<State, SimError>)
        ensures
            res == self@.get_pin_spec(pin),
    {
        if pin.0 >= self.components.len() {
            return Err(SimError::UnknownComponent);
        }
        self.components[pin.0].get_pin(pin.1)
    }

    /// Overwrites the signal of the `Input` component that `pin` addresses. The circuit sees
    /// it at the next tick.
    ///
    /// Fails with `UnknownComponent` where the table holds no such component, with
    /// `KindMismatch` where the component is no `Input`, and with `UnknownPin` where `pin` is
    /// not pin 0 of it. A failure changes nothing.
    pub fn set_input(&mut self, pin: RegisteredPin, value: State) -> (res: Result<(), SimError>)
        requires
            old(self).wf(),
        ensures
            final(self).wf(),
            match old(self)@.set_input_spec(pin, value) {
                Ok(circuit) => res == Ok::<(), SimError>(()) && final(self)@ == circuit,
                Err(e) => res == Err::<(), SimError>(e) && final(self)@ == old(self)@,
            },
    {
        if pin.0 >= self.components.len() {
            return Err(SimError::UnknownComponent);
        }
        let res = self.components[pin.0].set_input(pin.1, value);
        proof {
            reveal(Simulator::wf);
            lemma_indices_by_kind(old(self).components@, self.components@);
            assert(self.components@ =~= old(self).components@.update(
                pin.0 as int,
                self.components@[pin.0 as int],
            ));
            if res is Err {
                assert(self.components@ =~= old(self).components@);
            }
        }
        res
    }

    /// The signal stored by the `Input` or `Output` component that `pin` addresses: for an
    /// `Output`, the one that the last evaluation left there. Nothing is evaluated.
    ///
    /// Fails with `UnknownComponent` where the table holds no such component, with
    /// `KindMismatch` where the component is a gate or a `Custom`, and with `UnknownPin` where
    /// `pin` is not pin 0 of the component.
    pub fn inspect_pin(&self, pin: RegisteredPin) -> (res: Result<State, SimError>)
        ensures
            res == self@.inspect_pin_spec(pin),
    {
        if pin.0 >= self.components.len() {
            return Err(SimError::UnknownComponent);
        }
        self.components[pin.0].inspect_pin(pin.1)
    }

    /// The indices of the `Input` components, in increasing order.
    pub fn input_components(&self) -> (indices: &Vec<usize>)
        requires
            self.wf(),
        ensures
            indices@ == input_indices(self@.components),
    {
        proof {
            reveal(Simulator::wf);
        }
        &self.input_components
    }

    /// The indices of the `Output` components, in increasing order.
    pub fn output_components(&self) -> (indices: &Vec<usize>)
        requires
            self.wf(),
        ensures
            indices@ == output_indices(self@.components),
    {
        proof {
            reveal(Simulator::wf);
        }
        &self.output_components
    }

    /// The pin that drives the consuming pin `consumer`, if one does.
    pub fn driver_of(&self, consumer: &RegisteredPin) -> (driver: Option<RegisteredPin>)
        ensures
            driver == if self@.drivers.contains_key(*consumer) {
                Some(self@.drivers[*consumer])
            } else {
                None::<RegisteredPin>
            },
    {
        self.consumer_to_driver.get(consumer)
    }

    /// The pin that the driving pin `driver` feeds, if it feeds one.
    pub fn consumer_of(&self, driver: &RegisteredPin) -> (consumer: Option<RegisteredPin>)
        ensures
            consumer == if self@.consumers.contains_key(*driver) {
                Some(self@.consumers[*driver])
            } else {
                None::<RegisteredPin>
            },
    {
        self.driver_to_consumer.get(driver)
    }

    /// The input pins that nothing drives, in the order of the component table and, within a
    /// component, of its pins. A tick gives `Invalid` where it meets one of them, and goes on.
    pub fn undriven_inputs(&self) -> (pins: Vec<RegisteredPin>)
        ensures
            pins@ == self@.undriven_inputs(),
    {
        let mut pins: Vec<RegisteredPin> = Vec::new();
        let mut index: usize = 0;
        while index < self.components.len()
            invariant
                index <= self.components@.len(),
                pins@ == self@.undriven_among(index as nat),
            decreases self.components@.len() - index,
        {
            let inputs = self.components[index].input_len();
            let ghost among = pins@;
            let mut pin: usize = 0;
            while pin < inputs
                invariant
                    index < self.components@.len(),
                    pin <= inputs,
                    inputs == self@.components[index as int].input_len_spec(),
                    among == self@.undriven_among(index as nat),
                    pins@ == among + self@.undriven_of(index, pin as nat),
                decreases inputs - pin,
            {
                if self.consumer_to_driver.get(&RegisteredPin(index, pin)).is_none() {
                    pins.push(RegisteredPin(index, pin));
                    proof {
                        assert(pins@ =~= among + self@.undriven_of(index, pin as nat).push(
                            RegisteredPin(index, pin),
                        ));
                    }
                }
                pin += 1;
            }
            index += 1;
        }
        pins
    }

    /// The wires of the circuit, each as its driving pin and the pin that it feeds, in the
    /// order in which the driving pins were first connected.
    pub fn connections(&self) -> (wires: Vec<(RegisteredPin, RegisteredPin)>)
        requires
            self.wf(),
        ensures
            wires@ == self@.connections(),
            self@.wired_once(),
    {
        let mut wires: Vec<(RegisteredPin, RegisteredPin)> = Vec::new();
        let mut i: usize = 0;
        proof {
            self.lemma_wired_once();
        }
        while i < self.wired.len()
            invariant
                self@.wired_once(),
                i <= self.wired@.len(),
                wires@.len() == i,
                forall|k: int| 0 <= k < i ==> #[trigger] wires@[k] == self@.connections()[k],
            decreases self.wired@.len() - i,
        {
            let driver = self.wired[i];
            proof {
                assert(self@.consumers.contains_key(driver));
            }
            if let Some(consumer) = self.driver_to_consumer.get(&driver) {
                wires.push((driver, consumer));
            }
            i += 1;
        }
        wires
    }
}

/// The evaluation: a pull from a pin back through the wires, which remembers in a cache what
/// it has settled and stores in each `Output` it passes the signal that arrives there.
///
/// Every function takes the depth that it may still go. A tick starts each pull with the
/// number of components, which no pull in a circuit without a loop can use up.
impl Simulator {
    /// The signal on the driving pin `pin`: from the cache where it is there, else by
    /// evaluating the component behind the pin.
    ///
    /// A pin found in the cache costs no evaluation: the simulator and the cache stay as
    /// they are. Together with the cache's own invariant this makes every pin of a pass
    /// evaluated once, however often it is asked for.
    pub fn sim_pin(&mut self, pin: &RegisteredPin, cache: &mut PinCache, depth: usize) -> (res:
        Result<State, SimError>)
        requires
            old(self).wf(),
            old(cache).wf(),
            old(self)@.caches(old(cache)@),
        ensures
            final(self).wf(),
            final(cache).wf(),
            old(self)@.evaluates_to(old(cache)@, final(self)@, final(cache)@),
            old(self)@.pulled(*pin, depth as nat, res),
            depth >= old(self)@.depth() ==> res == old(self)@.settle(*pin),
            res matches Ok(signal) ==> {
                &&& final(cache)@.contains_key(*pin)
                &&& final(cache)@[*pin] == signal
                &&& final(self)@.components[pin.0 as int] == old(self)@.refreshed(pin.0 as int)
            },
            old(cache)@.contains_key(*pin) ==> {
                &&& final(cache)@ == old(cache)@
                &&& final(cache).evaluations() == old(cache).evaluations()
                &&& final(self)@ == old(self)@
            },
            Circuit::added(
                old(cache)@,
                final(cache)@,
                |added: RegisteredPin| old(self)@.no_later(added, *pin),
            ),
        decreases depth, 5nat,
    {
        let ghost before = self@;
        proof {
            before.lemma_nothing_evaluated(cache@);
        }
        match cache.get(pin) {
            Some(signal) => {
                proof {
                    before.lemma_cached(cache@, *pin);
                }
                Ok(signal)
            },
            None => {
                let res = self.rev_sim(*pin, cache, depth);
                proof {
                    assert forall|added: RegisteredPin| #[trigger]
                        cache@.contains_key(added) && !old(cache)@.contains_key(
                            added,
                        ) implies before.no_later(added, *pin) by {
                        before.lemma_earlier_no_later(added, *pin);
                    }
                }
                res
            },
        }
    }

    /// Evaluates the component behind `target` for that pin, and takes the signal down in the
    /// cache.
    ///
    /// An `Input` gives its stored signal and a `Custom` gives `Low`. An `Output` gives
    /// `Invalid` where nothing drives it; else it takes the signal of its driver, stores it
    /// and passes it on. A gate gives `Invalid` where one of its inputs has no driver; else it
    /// takes the signals of its drivers, in order, and applies its truth table.
    ///
    /// Fails with `UnknownComponent` where `target` addresses no component, with `UnknownPin`
    /// where an `Input` or an `Output` is asked for a pin other than 0, with the failure of
    /// the first driver that fails, and with `CombinationalCycle` where `depth` does not
    /// reach. A failure is not cached.
    pub fn rev_sim(&mut self, target: RegisteredPin, cache: &mut PinCache, depth: usize) -> (res:
        Result<State, SimError>)
        requires
            old(self).wf(),
            old(cache).wf(),
            old(self)@.caches(old(cache)@),
        ensures
            final(self).wf(),
            !old(cache)@.contains_key(target) ==> final(cache).wf(),
            old(self)@.evaluates_to(old(cache)@, final(self)@, final(cache)@),
            old(self)@.pulled(target, depth as nat, res),
            depth >= old(self)@.depth() ==> res == old(self)@.settle(target),
            res matches Ok(signal) ==> {
                &&& final(cache)@.contains_key(target)
                &&& final(cache)@[target] == signal
                &&& final(self)@.components[target.0 as int] == old(self)@.refreshed(
                    target.0 as int,
                )
            },
            Circuit::added(
                old(cache)@,
                final(cache)@,
                |added: RegisteredPin| added == target || old(self)@.earlier(added, target),
            ),
        decreases depth, 4nat,
    {
        let ghost before = self@;
        proof {
            before.lemma_nothing_evaluated(cache@);
            before.lemma_settle_at_any_depth(target, depth as nat);
        }
        let index = target.0;
        if index >= self.components.len() {
            return Err(SimError::UnknownComponent);
        }
        let component = self.components[index];
        let res = match component {
            Component::Input(signal) => {
                if target.1 != 0 {
                    return Err(SimError::UnknownPin);
                }
                proof {
                    before.lemma_source_answered(cache@, target, depth as nat);
                }
                Ok(signal)
            },
            Component::Output(_) => {
                if target.1 != 0 {
                    return Err(SimError::UnknownPin);
                }
                self.output_sim(index, cache, depth)
            },
            Component::OrGate | Component::AndGate | Component::XorGate => {
                self.gate_sim(target, cache, depth)
            },
            Component::NotGate => self.not_sim(target, cache, depth),
            Component::Custom(_) => {
                proof {
                    before.lemma_source_answered(cache@, target, depth as nat);
                }
                Ok(State::Low)
            },
        };
        proof {
            before.lemma_evaluated(old(cache)@, self@, cache@, target, depth as nat, res);
        }
        if let Ok(signal) = res {
            cache.record(target, signal);
        }
        res
    }

    /// The part of an evaluation that is proper to an `Output`, the one at `index`: it takes
    /// the signal of its driver, stores it and passes it on, or gives `Invalid` where nothing
    /// drives it.
    fn output_sim(&mut self, index: usize, cache: &mut PinCache, depth: usize) -> (res: Result<
        State,
        SimError,
    >)
        requires
            old(self).wf(),
            old(cache).wf(),
            old(self)@.caches(old(cache)@),
            index < old(self)@.components.len(),
            old(self)@.components[index as int] is Output,
        ensures
            final(self).wf(),
            final(cache).wf(),
            old(self)@.answered(
                old(cache)@,
                final(self)@,
                final(cache)@,
                RegisteredPin(index, 0),
                depth as nat,
                res,
            ),
        decreases depth, 3nat,
    {
        let ghost before = self@;
        let target = RegisteredPin(index, 0);
        let pins = [target];
        proof {
            before.lemma_inputs_of(index);
            assert(pins@ =~= seq![target]);
        }
        let inputs = self.nsim(pins, cache, depth);
        proof {
            before.lemma_pulled_from_inputs(target, depth as nat, array_answer(inputs));
        }
        match inputs {
            Err(e) => Err(e),
            Ok(None) => Ok(State::Invalid),
            Ok(Some(signals)) => {
                let signal = signals[0];
                let ghost between = *self;
                proof {
                    before.lemma_refreshes_to(self@);
                    before.lemma_store_refreshes(old(cache)@, self@, cache@, index, signal);
                }
                self.components[index] = Component::Output(signal);
                proof {
                    between.lemma_store_keeps_wf(&*self, index as int, signal);
                }
                Ok(signal)
            },
        }
    }

    /// The part of an evaluation that is proper to a gate with two inputs, the one behind
    /// `target`: it applies its truth table to the signals of its two drivers, or gives
    /// `Invalid` where one of its inputs has no driver.
    fn gate_sim(&mut self, target: RegisteredPin, cache: &mut PinCache, depth: usize) -> (res:
        Result<State, SimError>)
        requires
            old(self).wf(),
            old(cache).wf(),
            old(self)@.caches(old(cache)@),
            target.0 < old(self)@.components.len(),
            old(self)@.components[target.0 as int].input_len_spec() == 2,
        ensures
            final(self).wf(),
            final(cache).wf(),
            old(self)@.answered(
                old(cache)@,
                final(self)@,
                final(cache)@,
                target,
                depth as nat,
                res,
            ),
        decreases depth, 3nat,
    {
        let ghost before = self@;
        let index = target.0;
        let component = self.components[index];
        proof {
            before.lemma_inputs_of(index);
        }
        let inputs = self.binary_sim(
            &RegisteredPin(index, 0),
            &RegisteredPin(index, 1),
            cache,
            depth,
        );
        proof {
            before.lemma_pulled_from_inputs(target, depth as nat, pair_answer(inputs));
        }
        match inputs {
            Err(e) => Err(e),
            Ok(None) => Ok(State::Invalid),
            Ok(Some((left, right))) => Ok(
                match component {
                    Component::OrGate => left.or(right),
                    Component::AndGate => left.and(right),
                    _ => left.xor(right),
                },
            ),
        }
    }

    /// The part of an evaluation that is proper to a NOT gate, the one behind `target`: it
    /// inverts the signal of its driver, or gives `Invalid` where nothing drives it.
    fn not_sim(&mut self, target: RegisteredPin, cache: &mut PinCache, depth: usize) -> (res:
        Result<State, SimError>)
        requires
            old(self).wf(),
            old(cache).wf(),
            old(self)@.caches(old(cache)@),
            target.0 < old(self)@.components.len(),
            old(self)@.components[target.0 as int] is NotGate,
        ensures
            final(self).wf(),
            final(cache).wf(),
            old(self)@.answered(
                old(cache)@,
                final(self)@,
                final(cache)@,
                target,
                depth as nat,
                res,
            ),
        decreases depth, 3nat,
    {
        let ghost before = self@;
        let pins = [RegisteredPin(target.0, 0)];
        proof {
            before.lemma_inputs_of(target.0);
            assert(pins@ =~= seq![RegisteredPin(target.0, 0)]);
        }
        let inputs = self.nsim(pins, cache, depth);
        proof {
            before.lemma_pulled_from_inputs(target, depth as nat, array_answer(inputs));
        }
        match inputs {
            Err(e) => Err(e),
            Ok(None) => Ok(State::Invalid),
            Ok(Some(signals)) => Ok(signals[0].not()),
        }
    }

    /// The signals on the two input pins `left` and `right` of a component: `None` where one
    /// of them has no driver, and then nothing is evaluated; else the signals of the two
    /// drivers, the left one first.
    ///
    /// Fails with the failure of the first driver that fails, and with `CombinationalCycle`
    /// where both pins are driven and `depth` is 0.
    pub fn binary_sim(
        &mut self,
        left: &RegisteredPin,
        right: &RegisteredPin,
        cache: &mut PinCache,
        depth: usize,
    ) -> (res: Result<Option<(State, State)>, SimError>)
        requires
            old(self).wf(),
            old(cache).wf(),
            old(self)@.caches(old(cache)@),
        ensures
            final(self).wf(),
            final(cache).wf(),
            old(self)@.evaluates_to(old(cache)@, final(self)@, final(cache)@),
            old(self)@.pulled_inputs(seq![*left, *right], depth as nat, pair_answer(res)),
            res matches Ok(None) ==> {
                &&& final(cache)@ == old(cache)@
                &&& final(cache).evaluations() == old(cache).evaluations()
                &&& final(self)@ == old(self)@
            },
            Circuit::added(
                old(cache)@,
                final(cache)@,
                |added: RegisteredPin| old(self)@.behind_inputs(added, seq![*left, *right]),
            ),
        decreases depth, 2nat,
    {
        let pins = [*left, *right];
        match self.nsim(pins, cache, depth) {
            Err(e) => Err(e),
            Ok(None) => Ok(None),
            Ok(Some(signals)) => {
                proof {
                    assert(signals@ =~= seq![signals[0], signals[1]]);
                }
                Ok(Some((signals[0], signals[1])))
            },
        }
    }

    /// The signals on the input pins `pins` of a component: `None` where one of them has no
    /// driver, and then nothing is evaluated; else the signals of their drivers, taken in
    /// order.
    ///
    /// Fails with the failure of the first driver that fails, and with `CombinationalCycle`
    /// where there are pins, all driven, and `depth` is 0.
    pub fn nsim<const N: usize>(
        &mut self,
        pins: [RegisteredPin; N],
        cache: &mut PinCache,
        depth: usize,
    ) -> (res: Result<Option<[State; N]>, SimError>)
        requires
            old(self).wf(),
            old(cache).wf(),
            old(self)@.caches(old(cache)@),
        ensures
            final(self).wf(),
            final(cache).wf(),
            old(self)@.evaluates_to(old(cache)@, final(self)@, final(cache)@),
            old(self)@.pulled_inputs(pins@, depth as nat, array_answer(res)),
            res matches Ok(None) ==> {
                &&& final(cache)@ == old(cache)@
                &&& final(cache).evaluations() == old(cache).evaluations()
                &&& final(self)@ == old(self)@
            },
            Circuit::added(
                old(cache)@,
                final(cache)@,
                |added: RegisteredPin| old(self)@.behind_inputs(added, pins@),
            ),
        decreases depth, 1nat,
    {
        let ghost before = self@;
        let mut drivers = [RegisteredPin(0, 0);N];
        proof {
            before.lemma_nothing_evaluated(cache@);
        }
        let mut i: usize = 0;
        while i < N
            invariant
                i <= N,
                forall|j: int|
                    0 <= j < i ==> before.drivers.contains_key(#[trigger] pins@[j]) && drivers@[j]
                        == before.drivers[pins@[j]],
                self@ == before,
                self.wf(),
                cache.wf(),
                cache@ == old(cache)@,
                cache.evaluations() == old(cache).evaluations(),
                before.evaluates_to(old(cache)@, before, old(cache)@),
            decreases N - i,
        {
            match self.consumer_to_driver.get(&pins[i]) {
                Some(driver) => {
                    drivers[i] = driver;
                },
                None => {
                    return Ok(None);
                },
            }
            i += 1;
        }
        proof {
            assert(before.sources(pins@).unwrap() =~= drivers@);
        }
        let mut signals = [State::Invalid;N];
        if N > 0 && depth == 0 {
            proof {
                before.lemma_pull_all_step(drivers@, 0, 0);
                before.lemma_pull_all_prefix(drivers@, 1, 0);
            }
            return Err(SimError::CombinationalCycle);
        }
        proof {
            assert(signals@.take(0) =~= Seq::<State>::empty());
        }
        let mut i: usize = 0;
        while i < N
            invariant
                i <= N,
                N > 0 ==> depth > 0,
                self.wf(),
                cache.wf(),
                before == old(self)@,
                before.sources(pins@) == Some(drivers@),
                before.evaluates_to(old(cache)@, self@, cache@),
                before.settle_all(drivers@.take(i as int)) == Ok::<Seq<State>, SimError>(
                    signals@.take(i as int),
                ),
                Circuit::added(
                    old(cache)@,
                    cache@,
                    |added: RegisteredPin| before.behind_inputs(added, pins@),
                ),
            decreases N - i,
        {
            let ghost between = self@;
            let ghost between_cache = cache@;
            let res = self.sim_pin(&drivers[i], cache, depth - 1);
            proof {
                before.lemma_evaluates_twice(
                    old(cache)@,
                    between,
                    between_cache,
                    self@,
                    cache@,
                );
                before.lemma_drives_like_settle(between);
                before.lemma_drives_like_pull(between, drivers@[i as int], (depth - 1) as nat);
                before.lemma_pull_all_step(drivers@, i as int, before.depth() + 1);
                assert forall|added: RegisteredPin| #[trigger]
                    cache@.contains_key(added) && !old(cache)@.contains_key(
                        added,
                    ) implies before.behind_inputs(added, pins@) by {
                    if !between_cache.contains_key(added) {
                        before.lemma_behind_inputs_through(between, added, pins@, i as int);
                    }
                }
            }
            match res {
                Ok(signal) => {
                    let ghost so_far = signals@;
                    signals[i] = signal;
                    proof {
                        assert(signals@.take(i + 1) =~= so_far.take(i as int).push(signal));
                    }
                },
                Err(e) => {
                    proof {
                        before.lemma_failure_among(drivers@, i as int, depth as nat, e);
                    }
                    return Err(e);
                },
            }
            i += 1;
        }
        proof {
            assert(drivers@.take(N as int) =~= drivers@);
            assert(signals@.take(N as int) =~= signals@);
        }
        Ok(Some(signals))
    }

    /// A copy of the component table.
    fn saved_components(&self) -> (saved: Vec<Component>)
        ensures
            saved@ == self@.components,
    {
        let mut saved: Vec<Component> = Vec::new();
        let mut i: usize = 0;
        while i < self.components.len()
            invariant
                i <= self.components@.len(),
                saved@ == self.components@.take(i as int),
            decreases self.components@.len() - i,
        {
            saved.push(self.components[i]);
            proof {
                assert(self.components@.take(i + 1) =~= self.components@.take(i as int).push(
                    self.components@[i as int],
                ));
            }
            i += 1;
        }
        saved
    }

    /// Evaluates the circuit: pulls the signal of every `Output`, in the order of the
    /// component table and with one cache for them all, so that each `Output` whose input is
    /// driven stores the signal that settles there. An `Output` that nothing drives keeps the
    /// signal it has. In which order the outputs stand has no part in what they store.
    ///
    /// No pull goes deeper than the circuit has components. One that would has met a loop
    /// among the wires, and the tick fails with `CombinationalCycle`. A wire from a pin of no
    /// component fails it with `UnknownComponent`, one from a pin that an `Input` or an
    /// `Output` does not have with `UnknownPin`. Where several outputs fail, the first in the
    /// order of the table decides. A tick that fails leaves the circuit as it was.
    pub fn tick(&mut self) -> (res: Result<(), SimError>)
        requires
            old(self).wf(),
        ensures
            final(self).wf(),
            res == old(self)@.tick_result(),
            final(self)@ == if res is Ok {
                old(self)@.ticked()
            } else {
                old(self)@
            },
    {
        let ghost before = self@;
        let ghost roots = before.roots();
        let saved = self.saved_components();
        let mut cache = PinCache::new();
        let depth = self.components.len();
        let count = self.output_components.len();
        proof {
            reveal(Simulator::wf);
            before.lemma_nothing_evaluated(cache@);
        }
        let mut k: usize = 0;
        while k < count
            invariant
                k <= count,
                count == roots.len(),
                count == self.output_components@.len(),
                depth == before.depth(),
                before == old(self)@,
                saved@ == before.components,
                roots == before.roots(),
                self.wf(),
                cache.wf(),
                before.evaluates_to(Map::<RegisteredPin, State>::empty(), self@, cache@),
                before.settle_all(roots.take(k as int)) is Ok,
                forall|j: int| 0 <= j < k ==> cache@.contains_key(#[trigger] roots[j]),
            decreases count - k,
        {
            let ghost between = self@;
            let ghost between_cache = cache@;
            proof {
                reveal(Simulator::wf);
                before.lemma_refreshes_to(between);
                lemma_indices_by_kind(before.components, between.components);
            }
            let root = RegisteredPin(self.output_components[k], 0);
            let res = self.sim_pin(&root, &mut cache, depth);
            proof {
                before.lemma_evaluates_twice(
                    Map::<RegisteredPin, State>::empty(),
                    between,
                    between_cache,
                    self@,
                    cache@,
                );
                before.lemma_drives_like_settle(between);
                before.lemma_pull_all_step(roots, k as int, before.depth() + 1);
                lemma_indices_by_kind(before.components, self@.components);
            }
            match res {
                Ok(_) => {},
                Err(e) => {
                    let ghost failed = *self;
                    self.components = saved;
                    proof {
                        before.lemma_pull_all_prefix(roots, k + 1, before.depth() + 1);
                        failed.lemma_restore_keeps_wf(&*self, before);
                    }
                    return Err(e);
                },
            }
            k += 1;
        }
        proof {
            assert(roots.take(count as int) =~= roots);
            before.lemma_all_roots_refreshed(self@, cache@);
        }
        Ok(())
    }
}

/// The signals of a pair as a sequence, for what came of two inputs.
pub open spec fn pair_answer(inputs: Result<Option<(State, State)>, SimError>) -> Result<
    Option<Seq<State>>,
    SimError,
> {
    match inputs {
        Ok(Some(pair)) => Ok(Some(seq![pair.0, pair.1])),
        Ok(None) => Ok(None),
        Err(e) => Err(e),
    }
}

/// The signals of an array as a sequence, for what came of any number of inputs.
pub open spec fn array_answer<const N: usize>(inputs: Result<Option<[State; N]>, SimError>) -> Result<
    Option<Seq<State>>,
    SimError,
> {
    match inputs {
        Ok(Some(signals)) => Ok(Some(signals@)),
        Ok(None) => Ok(None),
        Err(e) => Err(e),
    }
}

} // verus!
