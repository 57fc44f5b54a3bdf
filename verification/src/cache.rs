//! The cache of one evaluation pass: the signals settled so far, with the record of the
//! evaluations that settled them.

use vstd::prelude::*;
use crate::circuit::Circuit;
use crate::error::SimError;
use crate::lists::lemma_push_fresh;
use crate::pin::RegisteredPin;
use crate::pin_map::PinMap;
use crate::signal::State;

verus! {

/// The signals that an evaluation pass has settled, by driving pin.
///
/// Beside the signals the cache keeps, for the proofs only, the list of the evaluations that
/// were completed, in order. Nothing but a completed evaluation adds to either.
pub struct PinCache {
    signals: PinMap<State>,
    evaluated: Ghost<Seq<RegisteredPin>>,
}

impl View for PinCache {
    type V = Map<RegisteredPin, State>;

    closed spec fn view(&self) -> Map<RegisteredPin, State> {
        self.signals@
    }
}

impl PinCache {
    /// The pins whose evaluation was completed with this cache, one entry per evaluation, in
    /// the order of completion.
    pub closed spec fn evaluations(&self) -> Seq<RegisteredPin> {
        self.evaluated@
    }

    /// Whether every pin of the cache was evaluated exactly once: the evaluations are those of
    /// the pins held, and none occurs twice.
    pub open spec fn wf(&self) -> bool {
        &&& self.evaluations().no_duplicates()
        &&& forall|pin: RegisteredPin|
            self.evaluations().contains(pin) <==> #[trigger] self@.contains_key(pin)
    }

    /// The cache at the start of a pass: no signal, no evaluation.
    pub fn new() -> (cache: PinCache)
        ensures
            cache.wf(),
            cache@ == Map::<RegisteredPin, State>::empty(),
            cache.evaluations() == Seq::<RegisteredPin>::empty(),
    {
        PinCache { signals: PinMap::new(), evaluated: Ghost(Seq::empty()) }
    }

    /// The signal settled for `pin`, if its evaluation was completed in this pass.
    pub fn get(&self, pin: &RegisteredPin) -> (out: Option<State>)
        ensures
            out == if self@.contains_key(*pin) {
                Some(self@[*pin])
            } else {
                None::<State>
            },
    {
        self.signals.get(pin)
    }

    /// Takes down that the evaluation of `pin` was completed and gave `signal`.
    pub(crate) fn record(&mut self, pin: RegisteredPin, signal: State)
        ensures
            final(self)@ == old(self)@.insert(pin, signal),
            final(self).evaluations() == old(self).evaluations().push(pin),
            old(self).wf() && !old(self)@.contains_key(pin) ==> final(self).wf(),
    {
        self.signals.insert(pin, signal);
        self.evaluated = Ghost(self.evaluated@.push(pin));
        proof {
            if old(self).wf() && !old(self)@.contains_key(pin) {
                lemma_push_fresh(old(self).evaluations(), pin);
            }
        }
    }
}

impl Circuit {
    /// Whether `pin` settles at every depth at which `other` settles.
    #[verifier::opaque]
    pub open spec fn no_later(self, pin: RegisteredPin, other: RegisteredPin) -> bool {
        forall|depth: nat| (#[trigger] self.pull(other, depth)) is Ok ==> self.pull(pin, depth) is Ok
    }

    /// Whether `pin` settles one level below every depth at which `other` settles: it stands
    /// behind `other`, at least one wire away.
    #[verifier::opaque]
    pub open spec fn earlier(self, pin: RegisteredPin, other: RegisteredPin) -> bool {
        forall|depth: nat| (#[trigger] self.pull(other, depth)) is Ok ==> depth > 0 && self.pull(
            pin,
            (depth - 1) as nat,
        ) is Ok
    }

    /// Whether `pin` settles one level below every depth at which the input pins `pins`, all
    /// driven, give their signals: it stands behind one of them.
    #[verifier::opaque]
    pub open spec fn behind_inputs(self, pin: RegisteredPin, pins: Seq<RegisteredPin>) -> bool {
        forall|depth: nat|
            (#[trigger] self.pull_inputs(pins, depth)) matches Ok(Some(_)) ==> depth > 0
                && self.pull(pin, (depth - 1) as nat) is Ok
    }

    /// Whether the pins that `later` holds and `cache` does not all satisfy `bound`.
    pub open spec fn added(
        cache: Map<RegisteredPin, State>,
        later: Map<RegisteredPin, State>,
        bound: spec_fn(RegisteredPin) -> bool,
    ) -> bool {
        forall|pin: RegisteredPin| #[trigger]
            later.contains_key(pin) && !cache.contains_key(pin) ==> bound(pin)
    }

    /// No pin that settles stands behind itself.
    pub proof fn lemma_not_behind_itself(self, pin: RegisteredPin, depth: nat)
        requires
            self.earlier(pin, pin),
        ensures
            !(self.pull(pin, depth) is Ok),
        decreases depth,
    {
        reveal(Circuit::earlier);
        if self.pull(pin, depth) is Ok {
            self.lemma_not_behind_itself(pin, (depth - 1) as nat);
        }
    }

    /// Where driving pins give their signals together, each gives its own.
    pub proof fn lemma_pull_all_each(self, drivers: Seq<RegisteredPin>, depth: nat, k: int)
        requires
            self.pull_all(drivers, depth) is Ok,
            0 <= k < drivers.len(),
        ensures
            self.follow(drivers[k], depth) is Ok,
        decreases drivers.len(),
    {
        if k < drivers.len() - 1 {
            self.lemma_pull_all_each(drivers.drop_last(), depth, k);
        }
    }

    /// A pin that stands behind another settles no later than it.
    pub proof fn lemma_earlier_no_later(self, pin: RegisteredPin, other: RegisteredPin)
        requires
            pin == other || self.earlier(pin, other),
        ensures
            self.no_later(pin, other),
    {
        reveal(Circuit::earlier);
        reveal(Circuit::no_later);
        if pin != other {
            assert forall|depth: nat| (#[trigger] self.pull(other, depth)) is Ok implies self.pull(
                pin,
                depth,
            ) is Ok by {
                self.lemma_pull_deeper(pin, (depth - 1) as nat, depth);
            }
        }
    }

    /// A pin that stands behind the inputs of a component, all driven, stands behind every pin
    /// that the component answers for.
    pub proof fn lemma_behind_inputs_earlier(self, pin: RegisteredPin, target: RegisteredPin)
        requires
            target.0 < self.components.len(),
            self.behind_inputs(pin, self.components[target.0 as int].input_pins(target.0)),
            self.sources(self.components[target.0 as int].input_pins(target.0)) is Some,
        ensures
            self.earlier(pin, target),
    {
        reveal(Circuit::earlier);
        reveal(Circuit::behind_inputs);
        let pins = self.components[target.0 as int].input_pins(target.0);
        assert forall|depth: nat| (#[trigger] self.pull(target, depth)) is Ok implies depth > 0
            && self.pull(pin, (depth - 1) as nat) is Ok by {
            assert(self.pull_inputs(pins, depth) matches Ok(Some(_)));
        }
    }

    /// A pin that settles no later than a driver of the input pins `pins`, in a circuit that
    /// drives like this one, stands behind those inputs.
    pub proof fn lemma_behind_inputs_through(
        self,
        between: Circuit,
        pin: RegisteredPin,
        pins: Seq<RegisteredPin>,
        k: int,
    )
        requires
            self.drives_like(between),
            self.sources(pins) is Some,
            0 <= k < pins.len(),
            between.no_later(pin, self.drivers[pins[k]]),
        ensures
            self.behind_inputs(pin, pins),
    {
        reveal(Circuit::no_later);
        reveal(Circuit::behind_inputs);
        let drivers = self.sources(pins).unwrap();
        assert forall|depth: nat|
            (#[trigger] self.pull_inputs(pins, depth)) matches Ok(Some(_)) implies depth > 0
            && self.pull(pin, (depth - 1) as nat) is Ok by {
            self.lemma_pull_all_each(drivers, depth, k);
            let below = (depth - 1) as nat;
            self.lemma_drives_like_pull(between, drivers[k], below);
            self.lemma_drives_like_pull(between, pin, below);
        }
    }

    /// A pin that its component answers for and that settles does not stand behind the
    /// inputs of its own component.
    pub proof fn lemma_not_behind_own_inputs(self, target: RegisteredPin, depth: nat)
        requires
            target.0 < self.components.len(),
            self.behind_inputs(target, self.components[target.0 as int].input_pins(target.0)),
            self.sources(self.components[target.0 as int].input_pins(target.0)) is Some,
        ensures
            !(self.pull(target, depth) is Ok),
    {
        self.lemma_behind_inputs_earlier(target, target);
        self.lemma_not_behind_itself(target, depth);
    }

    /// Whether an evaluation of `target`, given `depth`, may have led from this circuit with
    /// the cache `cache` to the circuit `later` with the cache `later_cache` and to `answer`,
    /// up to the point where the answer is taken down: the inputs of the component were
    /// evaluated, if they are all driven, and an `Output` has stored what it received.
    pub open spec fn answered(
        self,
        cache: Map<RegisteredPin, State>,
        later: Circuit,
        later_cache: Map<RegisteredPin, State>,
        target: RegisteredPin,
        depth: nat,
        answer: Result<State, SimError>,
    ) -> bool {
        let pins = self.components[target.0 as int].input_pins(target.0);
        &&& target.0 < self.components.len()
        &&& self.evaluates_to(cache, later, later_cache)
        &&& self.pulled(target, depth, answer)
        &&& answer is Ok && self.components[target.0 as int] is Output
            ==> later.components[target.0 as int] == self.refreshed(target.0 as int)
        &&& self.sources(pins) is None ==> later_cache == cache
        &&& Circuit::added(
            cache,
            later_cache,
            |added: RegisteredPin| self.behind_inputs(added, pins),
        )
    }

    /// What the evaluation of `target` may take down once its inputs are dealt with: where it
    /// gave a signal, the pin is not in the cache yet, unless it was there from the start, and
    /// may be added to it; and every pin added so far stands behind `target`.
    pub proof fn lemma_evaluated(
        self,
        cache: Map<RegisteredPin, State>,
        later: Circuit,
        later_cache: Map<RegisteredPin, State>,
        target: RegisteredPin,
        depth: nat,
        answer: Result<State, SimError>,
    )
        requires
            self.answered(cache, later, later_cache, target, depth, answer),
        ensures
            Circuit::added(
                cache,
                later_cache,
                |added: RegisteredPin| added == target || self.earlier(added, target),
            ),
            answer matches Ok(signal) ==> {
                &&& !cache.contains_key(target) ==> !later_cache.contains_key(target)
                &&& target.0 < later.components.len()
                &&& later.components[target.0 as int] == self.refreshed(target.0 as int)
                &&& self.evaluates_to(cache, later, later_cache.insert(target, signal))
                &&& Circuit::added(
                    cache,
                    later_cache.insert(target, signal),
                    |added: RegisteredPin| added == target || self.earlier(added, target),
                )
            },
    {
        let pins = self.components[target.0 as int].input_pins(target.0);
        assert forall|added: RegisteredPin| #[trigger]
            later_cache.contains_key(added) && !cache.contains_key(added) implies self.earlier(
            added,
            target,
        ) by {
            self.lemma_behind_inputs_earlier(added, target);
        }
        match answer {
            Ok(signal) => {
                self.lemma_refreshed_or_kept(later, target.0 as int);
                if !cache.contains_key(target) && later_cache.contains_key(target) {
                    self.lemma_not_behind_own_inputs(target, self.depth());
                }
                self.lemma_refreshes_to(later);
                self.lemma_drives_like_settle(later);
                later.lemma_cache_insert(later_cache, target, signal);
                assert forall|pin: RegisteredPin| #[trigger] cache.contains_key(pin) implies later_cache.insert(
                    target,
                    signal,
                ).contains_key(pin) && later_cache.insert(target, signal)[pin] == cache[pin] by {
                    assert(later_cache.contains_key(pin));
                }
            },
            Err(_) => {},
        }
    }

    /// A component without inputs answers at once: nothing is evaluated on the way.
    pub proof fn lemma_source_answered(
        self,
        cache: Map<RegisteredPin, State>,
        target: RegisteredPin,
        depth: nat,
    )
        requires
            self.caches(cache),
            target.0 < self.components.len(),
            self.components[target.0 as int].input_len_spec() == 0,
            self.components[target.0 as int].answers(target.1),
        ensures
            self.answered(
                cache,
                self,
                cache,
                target,
                depth,
                Ok(self.components[target.0 as int].output_spec(Seq::<State>::empty())),
            ),
    {
        let pins = self.components[target.0 as int].input_pins(target.0);
        self.lemma_nothing_evaluated(cache);
        self.lemma_no_inputs(pins, depth);
        self.lemma_pulled_from_inputs(
            target,
            depth,
            Ok::<Option<Seq<State>>, SimError>(Some(Seq::<State>::empty())),
        );
    }
}

} // verus!
