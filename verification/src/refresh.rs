//! What a tick makes of a circuit: which components it evaluates from, what it stores where,
//! and why a second tick changes nothing.

use vstd::prelude::*;
use crate::circuit::Circuit;
use crate::component::Component;
use crate::error::SimError;
use crate::lists::lemma_push_fresh;
use crate::pin::RegisteredPin;
use crate::signal::State;

verus! {

/// The positions of the `Input` components in `components`, in increasing order.
pub open spec fn input_indices(components: Seq<Component>) -> Seq<usize>
    decreases components.len(),
{
    if components.len() == 0 {
        Seq::empty()
    } else {
        let before = input_indices(components.drop_last());
        if components.last() is Input {
            before.push((components.len() - 1) as usize)
        } else {
            before
        }
    }
}

/// The positions of the `Output` components in `components`, in increasing order.
pub open spec fn output_indices(components: Seq<Component>) -> Seq<usize>
    decreases components.len(),
{
    if components.len() == 0 {
        Seq::empty()
    } else {
        let before = output_indices(components.drop_last());
        if components.last() is Output {
            before.push((components.len() - 1) as usize)
        } else {
            before
        }
    }
}

/// Component tables that agree in their kinds, position by position, have their `Input` and
/// `Output` components at the same positions.
pub proof fn lemma_indices_by_kind(a: Seq<Component>, b: Seq<Component>)
    requires
        a.len() == b.len(),
        forall|i: int| 0 <= i < a.len() ==> (#[trigger] a[i]).same_kind(&b[i]),
    ensures
        input_indices(a) == input_indices(b),
        output_indices(a) == output_indices(b),
    decreases a.len(),
{
    if a.len() > 0 {
        lemma_indices_by_kind(a.drop_last(), b.drop_last());
    }
}

/// The positions listed by `input_indices` and `output_indices` are positions of `Input` and
/// of `Output` components, and they are listed in increasing order.
pub proof fn lemma_indices_in_range(components: Seq<Component>)
    requires
        components.len() <= usize::MAX,
    ensures
        forall|k: int|
            0 <= k < input_indices(components).len() ==> (#[trigger] input_indices(
                components,
            )[k]) < components.len() && components[input_indices(components)[k] as int] is Input,
        forall|k: int|
            0 <= k < output_indices(components).len() ==> (#[trigger] output_indices(
                components,
            )[k]) < components.len() && components[output_indices(components)[k] as int] is Output,
        forall|k: int, l: int|
            0 <= k < l < input_indices(components).len() ==> (#[trigger] input_indices(
                components,
            )[k]) < (#[trigger] input_indices(components)[l]),
        forall|k: int, l: int|
            0 <= k < l < output_indices(components).len() ==> (#[trigger] output_indices(
                components,
            )[k]) < (#[trigger] output_indices(components)[l]),
    decreases components.len(),
{
    if components.len() > 0 {
        lemma_indices_in_range(components.drop_last());
    }
}

/// Every `Input` of the table is listed by `input_indices`.
pub proof fn lemma_input_listed(components: Seq<Component>, index: int) -> (k: int)
    requires
        components.len() <= usize::MAX,
        0 <= index < components.len(),
        components[index] is Input,
    ensures
        0 <= k < input_indices(components).len(),
        input_indices(components)[k] == index,
    decreases components.len(),
{
    if index == components.len() - 1 {
        input_indices(components).len() - 1
    } else {
        lemma_input_listed(components.drop_last(), index)
    }
}

/// Every `Output` of the table is listed by `output_indices`.
pub proof fn lemma_output_listed(components: Seq<Component>, index: int) -> (k: int)
    requires
        components.len() <= usize::MAX,
        0 <= index < components.len(),
        components[index] is Output,
    ensures
        0 <= k < output_indices(components).len(),
        output_indices(components)[k] == index,
    decreases components.len(),
{
    if index == components.len() - 1 {
        output_indices(components).len() - 1
    } else {
        lemma_output_listed(components.drop_last(), index)
    }
}

impl Circuit {
    /// Whether `other` is this circuit but for the signals that its `Output` components store.
    pub open spec fn drives_like(self, other: Circuit) -> bool {
        &&& self.drivers == other.drivers
        &&& self.consumers == other.consumers
        &&& self.wires == other.wires
        &&& self.components.len() == other.components.len()
        &&& forall|i: int|
            0 <= i < self.components.len() ==> (#[trigger] self.components[i]).drives_like(
                &other.components[i],
            )
    }

    /// What an `Output` stores has no part in what any pin gives.
    pub proof fn lemma_drives_like_pull(self, other: Circuit, pin: RegisteredPin, depth: nat)
        requires
            self.drives_like(other),
        ensures
            self.pull(pin, depth) == other.pull(pin, depth),
        decreases depth, 3nat, 0nat,
    {
        if pin.0 < self.components.len() {
            let kind = self.components[pin.0 as int];
            self.lemma_drives_like_pull_inputs(other, kind.input_pins(pin.0), depth);
        }
    }

    /// As `lemma_drives_like_pull`, for the inputs of a component.
    pub proof fn lemma_drives_like_pull_inputs(
        self,
        other: Circuit,
        pins: Seq<RegisteredPin>,
        depth: nat,
    )
        requires
            self.drives_like(other),
        ensures
            self.pull_inputs(pins, depth) == other.pull_inputs(pins, depth),
        decreases depth, 2nat, 0nat,
    {
        match self.sources(pins) {
            None => {},
            Some(drivers) => {
                self.lemma_drives_like_pull_all(other, drivers, depth);
            },
        }
    }

    /// As `lemma_drives_like_pull`, for a sequence of driving pins.
    pub proof fn lemma_drives_like_pull_all(
        self,
        other: Circuit,
        drivers: Seq<RegisteredPin>,
        depth: nat,
    )
        requires
            self.drives_like(other),
        ensures
            self.pull_all(drivers, depth) == other.pull_all(drivers, depth),
        decreases depth, 1nat, drivers.len(),
    {
        if drivers.len() > 0 {
            self.lemma_drives_like_pull_all(other, drivers.drop_last(), depth);
            if depth > 0 {
                self.lemma_drives_like_pull(other, drivers.last(), (depth - 1) as nat);
            }
            assert(self.follow(drivers.last(), depth) == other.follow(drivers.last(), depth));
        }
    }

    /// The pins from which a tick pulls: the input pin of each `Output`, in the order of the
    /// component table.
    pub open spec fn roots(self) -> Seq<RegisteredPin> {
        Seq::new(
            output_indices(self.components).len(),
            |k: int| RegisteredPin(output_indices(self.components)[k], 0),
        )
    }

    /// What a tick answers: the first failure among the roots, in order, if there is one.
    pub open spec fn tick_result(self) -> Result<(), SimError> {
        match self.settle_all(self.roots()) {
            Ok(_) => Ok(()),
            Err(e) => Err(e),
        }
    }

    /// The component at `index` once it has been evaluated: an `Output` whose input is driven
    /// stores the signal that settles there; an `Output` that nothing drives, or whose signal
    /// fails to settle, keeps what it stored, and so does every other component.
    pub open spec fn refreshed(self, index: int) -> Component {
        let pin = RegisteredPin(index as usize, 0);
        match self.components[index] {
            Component::Output(stored) => match self.settle(pin) {
                Ok(signal) if self.drivers.contains_key(pin) => Component::Output(signal),
                _ => Component::Output(stored),
            },
            other => other,
        }
    }

    /// The circuit after a tick that succeeds: every component refreshed.
    pub open spec fn ticked(self) -> Circuit {
        Circuit {
            components: Seq::new(self.components.len(), |i: int| self.refreshed(i)),
            drivers: self.drivers,
            consumers: self.consumers,
            wires: self.wires,
        }
    }

    /// Whether `later` is this circuit with some of its components refreshed, the others as
    /// they were.
    #[verifier::opaque]
    pub open spec fn refreshes_to(self, later: Circuit) -> bool {
        &&& later.drivers == self.drivers
        &&& later.consumers == self.consumers
        &&& later.wires == self.wires
        &&& later.components.len() == self.components.len()
        &&& forall|i: int|
            0 <= i < self.components.len() ==> #[trigger] later.components[i]
                == self.components[i] || later.components[i] == self.refreshed(i)
    }

    /// Whether `cache` holds nothing but settled signals of this circuit, each for a pin whose
    /// component is refreshed already.
    #[verifier::opaque]
    pub open spec fn caches(self, cache: Map<RegisteredPin, State>) -> bool {
        forall|pin: RegisteredPin| #[trigger]
            cache.contains_key(pin) ==> self.settle(pin) == Ok::<State, SimError>(cache[pin])
                && self.components[pin.0 as int] == self.refreshed(pin.0 as int)
    }

    /// Circuits that drive alike settle alike, and refresh to the same components.
    pub proof fn lemma_drives_like_settle(self, other: Circuit)
        requires
            self.drives_like(other),
        ensures
            forall|pin: RegisteredPin| #[trigger] self.settle(pin) == other.settle(pin),
            forall|drivers: Seq<RegisteredPin>| #[trigger]
                self.settle_all(drivers) == other.settle_all(drivers),
            forall|pins: Seq<RegisteredPin>| #[trigger]
                self.settle_inputs(pins) == other.settle_inputs(pins),
            self.roots() == other.roots(),
            self.tick_result() == other.tick_result(),
    {
        assert forall|pin: RegisteredPin| #[trigger] self.settle(pin) == other.settle(pin) by {
            self.lemma_drives_like_pull(other, pin, self.depth());
        }
        assert forall|drivers: Seq<RegisteredPin>| #[trigger]
            self.settle_all(drivers) == other.settle_all(drivers) by {
            self.lemma_drives_like_pull_all(other, drivers, self.depth() + 1);
        }
        assert forall|pins: Seq<RegisteredPin>| #[trigger]
            self.settle_inputs(pins) == other.settle_inputs(pins) by {
            self.lemma_drives_like_pull_inputs(other, pins, self.depth() + 1);
        }
        lemma_indices_by_kind(self.components, other.components);
    }

    /// A circuit with some components refreshed drives like the circuit it came from, and
    /// refreshing it further leads where refreshing the first one leads.
    pub proof fn lemma_refreshes_to(self, later: Circuit)
        requires
            self.refreshes_to(later),
        ensures
            self.drives_like(later),
            forall|i: int|
                0 <= i < self.components.len() ==> #[trigger] later.refreshed(i) == self.refreshed(
                    i,
                ),
            later.ticked() == self.ticked(),
    {
        reveal(Circuit::refreshes_to);
        assert forall|i: int| 0 <= i < self.components.len() implies (
        #[trigger] self.components[i]).drives_like(&later.components[i]) by {}
        self.lemma_drives_like_settle(later);
        assert forall|i: int| 0 <= i < self.components.len() implies #[trigger] later.refreshed(i)
            == self.refreshed(i) by {
            assert(self.settle(RegisteredPin(i as usize, 0)) == later.settle(
                RegisteredPin(i as usize, 0),
            ));
        }
        assert(later.ticked().components =~= self.ticked().components);
    }

    /// Refreshing in two steps is refreshing.
    pub proof fn lemma_refreshes_to_twice(self, between: Circuit, later: Circuit)
        requires
            self.refreshes_to(between),
            between.refreshes_to(later),
        ensures
            self.refreshes_to(later),
    {
        reveal(Circuit::refreshes_to);
        self.lemma_refreshes_to(between);
    }

    /// A circuit refreshes to itself, and the empty cache is a cache of it.
    pub proof fn lemma_nothing_evaluated(self, cache: Map<RegisteredPin, State>)
        ensures
            self.refreshes_to(self),
            self.caches(Map::<RegisteredPin, State>::empty()),
            self.caches(cache) ==> self.evaluates_to(cache, self, cache),
    {
        reveal(Circuit::refreshes_to);
        reveal(Circuit::caches);
    }

    /// What a cache holds for a pin is what settles on it, and the component of the pin is
    /// refreshed.
    pub proof fn lemma_cached(self, cache: Map<RegisteredPin, State>, pin: RegisteredPin)
        requires
            self.caches(cache),
            cache.contains_key(pin),
        ensures
            self.settle(pin) == Ok::<State, SimError>(cache[pin]),
            pin.0 < self.components.len(),
            self.components[pin.0 as int] == self.refreshed(pin.0 as int),
    {
        reveal(Circuit::caches);
    }

    /// A component of a circuit that was refreshed in part is as it was, or refreshed.
    pub proof fn lemma_refreshed_or_kept(self, later: Circuit, index: int)
        requires
            self.refreshes_to(later),
            0 <= index < self.components.len(),
        ensures
            later.components[index] == self.components[index] || later.components[index]
                == self.refreshed(index),
    {
        reveal(Circuit::refreshes_to);
    }

    /// A second tick finds nothing to do: what the first one stored is what settles again, and
    /// the answer is the same.
    pub proof fn lemma_tick_idempotent(self)
        ensures
            self.ticked().tick_result() == self.tick_result(),
            self.ticked().ticked() == self.ticked(),
            self.refreshes_to(self.ticked()),
    {
        reveal(Circuit::refreshes_to);
        self.lemma_refreshes_to(self.ticked());
        self.lemma_drives_like_settle(self.ticked());
    }

    /// Whether an evaluation may lead from this circuit with the cache `cache` to the circuit
    /// `later` with the cache `later_cache`: some components were refreshed, the cache kept
    /// what it had, and what it has now are settled signals.
    pub open spec fn evaluates_to(
        self,
        cache: Map<RegisteredPin, State>,
        later: Circuit,
        later_cache: Map<RegisteredPin, State>,
    ) -> bool {
        &&& self.refreshes_to(later)
        &&& later.caches(later_cache)
        &&& cache.submap_of(later_cache)
    }

    /// One evaluation after another is an evaluation, and both were of circuits that drive
    /// alike.
    pub proof fn lemma_evaluates_twice(
        self,
        cache: Map<RegisteredPin, State>,
        between: Circuit,
        between_cache: Map<RegisteredPin, State>,
        later: Circuit,
        later_cache: Map<RegisteredPin, State>,
    )
        requires
            self.evaluates_to(cache, between, between_cache),
            between.evaluates_to(between_cache, later, later_cache),
        ensures
            self.evaluates_to(cache, later, later_cache),
            self.drives_like(between),
            self.drives_like(later),
    {
        self.lemma_refreshes_to(between);
        self.lemma_refreshes_to_twice(between, later);
        self.lemma_refreshes_to(later);
        assert forall|pin: RegisteredPin| #[trigger] cache.contains_key(pin) implies later_cache.contains_key(
            pin,
        ) && later_cache[pin] == cache[pin] by {
            assert(between_cache.contains_key(pin));
        }
    }

    /// Storing in an `Output` the signal that settles on its driven input is an evaluation
    /// step, and leaves the component refreshed.
    pub proof fn lemma_store_refreshes(
        self,
        cache: Map<RegisteredPin, State>,
        between: Circuit,
        between_cache: Map<RegisteredPin, State>,
        index: usize,
        signal: State,
    )
        requires
            self.evaluates_to(cache, between, between_cache),
            index < self.components.len(),
            self.components[index as int] is Output,
            self.drivers.contains_key(RegisteredPin(index, 0)),
            self.settle(RegisteredPin(index, 0)) == Ok::<State, SimError>(signal),
        ensures
            self.refreshed(index as int) == Component::Output(signal),
            self.evaluates_to(
                cache,
                between.with_component_at(index as int, Component::Output(signal)),
                between_cache,
            ),
    {
        let later = between.with_component_at(index as int, Component::Output(signal));
        reveal(Circuit::refreshes_to);
        reveal(Circuit::caches);
        self.lemma_refreshes_to(between);
        self.lemma_refreshes_to(later);
        self.lemma_drives_like_settle(between);
        self.lemma_drives_like_settle(later);
    }

    /// Binding a pin to the signal settled on it, once its component is refreshed, keeps a
    /// cache valid.
    pub proof fn lemma_cache_insert(
        self,
        cache: Map<RegisteredPin, State>,
        pin: RegisteredPin,
        signal: State,
    )
        requires
            self.caches(cache),
            self.settle(pin) == Ok::<State, SimError>(signal),
            self.components[pin.0 as int] == self.refreshed(pin.0 as int),
        ensures
            self.caches(cache.insert(pin, signal)),
            cache.submap_of(cache.insert(pin, signal)),
    {
        reveal(Circuit::caches);
    }

    /// The input pins of the component at `index`, kind by kind.
    pub proof fn lemma_inputs_of(self, index: usize)
        requires
            index < self.components.len(),
        ensures
            match self.components[index as int] {
                Component::Input(_) | Component::Custom(_) => self.components[index as int].input_pins(
                    index,
                ) == Seq::<RegisteredPin>::empty(),
                Component::Output(_) | Component::NotGate => self.components[index as int].input_pins(
                    index,
                ) == seq![RegisteredPin(index, 0)],
                _ => self.components[index as int].input_pins(index) == seq![
                    RegisteredPin(index, 0),
                    RegisteredPin(index, 1),
                ],
            },
    {
    }

    /// Once the cache of an evaluation holds every root, the circuit is the ticked one.
    pub proof fn lemma_all_roots_refreshed(self, later: Circuit, cache: Map<RegisteredPin, State>)
        requires
            self.components.len() <= usize::MAX,
            self.refreshes_to(later),
            later.caches(cache),
            forall|j: int| 0 <= j < self.roots().len() ==> cache.contains_key(#[trigger] self.roots()[j]),
        ensures
            later == self.ticked(),
    {
        reveal(Circuit::refreshes_to);
        reveal(Circuit::caches);
        self.lemma_refreshes_to(later);
        assert forall|i: int| 0 <= i < self.components.len() implies later.components[i]
            == self.refreshed(i) by {
            if self.components[i] is Output {
                let j = lemma_output_listed(self.components, i);
                assert(cache.contains_key(self.roots()[j]));
            }
        }
        assert(later.components =~= self.ticked().components);
    }

    /// A circuit that lists each of its wires once still does so with one more connection.
    pub proof fn lemma_connection_wired_once(self, driver: RegisteredPin, consumer: RegisteredPin)
        requires
            self.wired_once(),
        ensures
            self.with_connection(driver, consumer).wired_once(),
    {
        if !self.consumers.contains_key(driver) {
            lemma_push_fresh(self.wires, driver);
        }
    }
}

} // verus!
