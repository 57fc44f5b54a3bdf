use node_fiddler::State;
use node_fiddler::State::{High, Invalid, Low};
use node_fiddler::{Component, ComponentHandle, PinCache, RegisteredPin, SimError, Simulator};

/// Two inputs wired to a gate of the kind asked for, whose output pin feeds an output.
/// Gives the simulator and the indices of the two inputs, of that gate and of the output.
fn gate_circuit(gate: Component) -> (Simulator, usize, usize, usize, usize) {
    let mut sim = Simulator::new();
    let a = sim.insert_component(Component::Input(Low));
    let b = sim.insert_component(Component::Input(Low));
    let g = sim.insert_component(gate);
    let out = sim.insert_component(Component::Output(Low));
    sim.connect(RegisteredPin(a, 0), RegisteredPin(g, 0));
    sim.connect(RegisteredPin(b, 0), RegisteredPin(g, 1));
    sim.connect(RegisteredPin(g, 2), RegisteredPin(out, 0));
    (sim, a, b, g, out)
}

fn settle_gate(gate: Component, left: State, right: State) -> State {
    let (mut sim, a, b, _, out) = gate_circuit(gate);
    sim.set_input(RegisteredPin(a, 0), left).unwrap();
    sim.set_input(RegisteredPin(b, 0), right).unwrap();
    sim.tick().unwrap();
    sim.inspect_pin(RegisteredPin(out, 0)).unwrap()
}

#[test]
fn new_simulator_is_empty() {
    let mut sim = Simulator::new();
    assert_eq!(sim.len(), 0);
    assert!(sim.input_components().is_empty());
    assert!(sim.output_components().is_empty());
    assert!(sim.connections().is_empty());
    assert_eq!(sim.tick(), Ok(()));
}

#[test]
fn insert_component_hands_out_consecutive_indices() {
    let mut sim = Simulator::new();
    assert_eq!(sim.insert_component(Component::Input(Low)), 0);
    assert_eq!(sim.insert_component(Component::OrGate), 1);
    assert_eq!(sim.insert_component(Component::Output(High)), 2);
    assert_eq!(sim.insert_component(Component::Input(High)), 3);
    assert_eq!(sim.insert_component(Component::Custom(2)), 4);
    assert_eq!(sim.insert_component(Component::Output(Low)), 5);
    assert_eq!(sim.len(), 6);
    assert_eq!(sim.input_components(), &vec![0, 3]);
    assert_eq!(sim.output_components(), &vec![2, 5]);
}

#[test]
fn get_component_answers_for_known_handles() {
    let mut sim = Simulator::new();
    let g = sim.insert_component(Component::XorGate);
    let c = sim.insert_component(Component::Custom(7));
    assert_eq!(sim.get_component(&ComponentHandle(g)), Ok(&Component::XorGate));
    assert_eq!(sim.get_component(&ComponentHandle(c)).unwrap().output_len(), 7);
    assert_eq!(
        sim.get_component(&ComponentHandle(2)),
        Err(SimError::UnknownComponent)
    );
}

#[test]
fn connections_list_each_driver_once() {
    let mut sim = Simulator::new();
    sim.connect(RegisteredPin(0, 0), RegisteredPin(2, 0));
    sim.connect(RegisteredPin(1, 0), RegisteredPin(2, 1));
    assert_eq!(
        sim.connections(),
        vec![
            (RegisteredPin(0, 0), RegisteredPin(2, 0)),
            (RegisteredPin(1, 0), RegisteredPin(2, 1)),
        ]
    );
    assert_eq!(sim.consumer_of(&RegisteredPin(0, 0)), Some(RegisteredPin(2, 0)));
    assert_eq!(sim.driver_of(&RegisteredPin(2, 1)), Some(RegisteredPin(1, 0)));
    assert_eq!(sim.consumer_of(&RegisteredPin(2, 0)), None);
    assert_eq!(sim.driver_of(&RegisteredPin(0, 0)), None);
}

#[test]
fn connecting_a_driver_again_replaces_its_consumer() {
    let mut sim = Simulator::new();
    sim.connect(RegisteredPin(0, 0), RegisteredPin(2, 0));
    sim.connect(RegisteredPin(1, 0), RegisteredPin(3, 0));
    sim.connect(RegisteredPin(0, 0), RegisteredPin(2, 1));
    assert_eq!(
        sim.connections(),
        vec![
            (RegisteredPin(0, 0), RegisteredPin(2, 1)),
            (RegisteredPin(1, 0), RegisteredPin(3, 0)),
        ]
    );
    // The consuming side keeps both wires: each input pin still knows its driver.
    assert_eq!(sim.driver_of(&RegisteredPin(2, 0)), Some(RegisteredPin(0, 0)));
    assert_eq!(sim.driver_of(&RegisteredPin(2, 1)), Some(RegisteredPin(0, 0)));
}

#[test]
fn connecting_a_consumer_again_replaces_its_driver() {
    let mut sim = Simulator::new();
    let a = sim.insert_component(Component::Input(Low));
    let b = sim.insert_component(Component::Input(High));
    let out = sim.insert_component(Component::Output(Low));
    sim.connect(RegisteredPin(a, 0), RegisteredPin(out, 0));
    sim.connect(RegisteredPin(b, 0), RegisteredPin(out, 0));
    assert_eq!(sim.driver_of(&RegisteredPin(out, 0)), Some(RegisteredPin(b, 0)));
    sim.tick().unwrap();
    assert_eq!(sim.inspect_pin(RegisteredPin(out, 0)), Ok(High));
}

#[test]
fn set_input_reports_what_it_cannot_do() {
    let (mut sim, a, _, g, out) = gate_circuit(Component::OrGate);
    assert_eq!(sim.set_input(RegisteredPin(a, 0), High), Ok(()));
    assert_eq!(sim.get_pin(RegisteredPin(a, 0)), Ok(High));
    assert_eq!(
        sim.set_input(RegisteredPin(g, 0), High),
        Err(SimError::KindMismatch)
    );
    assert_eq!(
        sim.set_input(RegisteredPin(out, 0), High),
        Err(SimError::KindMismatch)
    );
    assert_eq!(
        sim.set_input(RegisteredPin(a, 1), Low),
        Err(SimError::UnknownPin)
    );
    assert_eq!(
        sim.set_input(RegisteredPin(4, 0), Low),
        Err(SimError::UnknownComponent)
    );
    assert_eq!(sim.get_pin(RegisteredPin(a, 0)), Ok(High));
}

#[test]
fn set_input_shows_only_after_the_next_tick() {
    let (mut sim, a, _, _, out) = gate_circuit(Component::OrGate);
    sim.tick().unwrap();
    sim.set_input(RegisteredPin(a, 0), High).unwrap();
    assert_eq!(sim.inspect_pin(RegisteredPin(out, 0)), Ok(Low));
    sim.tick().unwrap();
    assert_eq!(sim.inspect_pin(RegisteredPin(out, 0)), Ok(High));
}

#[test]
fn set_pin_and_get_pin_report_what_they_cannot_do() {
    let (mut sim, a, _, g, out) = gate_circuit(Component::AndGate);
    assert_eq!(sim.set_pin(RegisteredPin(out, 0), Invalid), Ok(()));
    assert_eq!(sim.inspect_pin(RegisteredPin(out, 0)), Ok(Invalid));
    assert_eq!(sim.set_pin(RegisteredPin(a, 0), High), Err(SimError::KindMismatch));
    assert_eq!(sim.set_pin(RegisteredPin(out, 1), High), Err(SimError::UnknownPin));
    assert_eq!(
        sim.set_pin(RegisteredPin(9, 0), High),
        Err(SimError::UnknownComponent)
    );
    assert_eq!(sim.get_pin(RegisteredPin(a, 0)), Ok(Low));
    assert_eq!(sim.get_pin(RegisteredPin(g, 0)), Err(SimError::KindMismatch));
    assert_eq!(sim.get_pin(RegisteredPin(out, 0)), Err(SimError::KindMismatch));
    assert_eq!(sim.get_pin(RegisteredPin(a, 2)), Err(SimError::UnknownPin));
    assert_eq!(sim.get_pin(RegisteredPin(9, 0)), Err(SimError::UnknownComponent));
}

#[test]
fn inspect_pin_reports_what_it_cannot_do() {
    let (sim, a, _, g, out) = gate_circuit(Component::XorGate);
    assert_eq!(sim.inspect_pin(RegisteredPin(a, 0)), Ok(Low));
    assert_eq!(sim.inspect_pin(RegisteredPin(out, 0)), Ok(Low));
    assert_eq!(sim.inspect_pin(RegisteredPin(g, 2)), Err(SimError::KindMismatch));
    assert_eq!(sim.inspect_pin(RegisteredPin(out, 1)), Err(SimError::UnknownPin));
    assert_eq!(
        sim.inspect_pin(RegisteredPin(4, 0)),
        Err(SimError::UnknownComponent)
    );
}

#[test]
fn gates_follow_their_truth_tables_end_to_end() {
    for left in [Low, High, Invalid] {
        for right in [Low, High, Invalid] {
            assert_eq!(settle_gate(Component::OrGate, left, right), left.or(right));
            assert_eq!(settle_gate(Component::AndGate, left, right), left.and(right));
            assert_eq!(settle_gate(Component::XorGate, left, right), left.xor(right));
        }
    }
    assert_eq!(settle_gate(Component::OrGate, High, Invalid), High);
    assert_eq!(settle_gate(Component::AndGate, Invalid, Low), Low);
    assert_eq!(settle_gate(Component::AndGate, High, Invalid), Invalid);
    assert_eq!(settle_gate(Component::XorGate, High, Invalid), Invalid);
}

#[test]
fn and_gate_with_one_input_unconnected_settles_invalid() {
    for value in [Low, High, Invalid] {
        let mut sim = Simulator::new();
        let a = sim.insert_component(Component::Input(value));
        let g = sim.insert_component(Component::AndGate);
        let out = sim.insert_component(Component::Output(Low));
        sim.connect(RegisteredPin(a, 0), RegisteredPin(g, 0));
        sim.connect(RegisteredPin(g, 2), RegisteredPin(out, 0));
        assert_eq!(sim.tick(), Ok(()));
        assert_eq!(sim.inspect_pin(RegisteredPin(out, 0)), Ok(Invalid));
    }
}

#[test]
fn gates_without_any_driver_settle_invalid() {
    for gate in [
        Component::OrGate,
        Component::AndGate,
        Component::XorGate,
        Component::NotGate,
    ] {
        let mut sim = Simulator::new();
        let g = sim.insert_component(gate);
        let out = sim.insert_component(Component::Output(High));
        sim.connect(RegisteredPin(g, 2), RegisteredPin(out, 0));
        assert_eq!(sim.tick(), Ok(()));
        assert_eq!(sim.inspect_pin(RegisteredPin(out, 0)), Ok(Invalid));
    }
}

#[test]
fn output_without_driver_keeps_its_signal_and_gives_invalid() {
    let mut sim = Simulator::new();
    let out = sim.insert_component(Component::Output(High));
    assert_eq!(sim.tick(), Ok(()));
    assert_eq!(sim.inspect_pin(RegisteredPin(out, 0)), Ok(High));

    let mut cache = PinCache::new();
    assert_eq!(sim.rev_sim(RegisteredPin(out, 0), &mut cache, 1), Ok(Invalid));
    assert_eq!(sim.inspect_pin(RegisteredPin(out, 0)), Ok(High));
}

#[test]
fn output_passes_its_signal_on_to_another_output() {
    let mut sim = Simulator::new();
    let a = sim.insert_component(Component::Input(High));
    let first = sim.insert_component(Component::Output(Low));
    let second = sim.insert_component(Component::Output(Low));
    sim.connect(RegisteredPin(first, 0), RegisteredPin(second, 0));
    sim.connect(RegisteredPin(a, 0), RegisteredPin(first, 0));
    assert_eq!(sim.tick(), Ok(()));
    assert_eq!(sim.inspect_pin(RegisteredPin(first, 0)), Ok(High));
    assert_eq!(sim.inspect_pin(RegisteredPin(second, 0)), Ok(High));
}

#[test]
fn custom_drives_low_on_every_output() {
    let mut sim = Simulator::new();
    let custom = sim.insert_component(Component::Custom(16));
    let mut outputs = Vec::new();
    for pin in 0..16 {
        let out = sim.insert_component(Component::Output(High));
        sim.connect(RegisteredPin(custom, pin), RegisteredPin(out, 0));
        outputs.push(out);
    }
    assert_eq!(sim.tick(), Ok(()));
    for out in outputs {
        assert_eq!(sim.inspect_pin(RegisteredPin(out, 0)), Ok(Low));
    }
}

#[test]
fn one_driver_may_feed_several_inputs() {
    for value in [Low, High] {
        let mut sim = Simulator::new();
        let a = sim.insert_component(Component::Input(value));
        let x = sim.insert_component(Component::XorGate);
        let n = sim.insert_component(Component::NotGate);
        let out_x = sim.insert_component(Component::Output(High));
        let out_n = sim.insert_component(Component::Output(High));
        sim.connect(RegisteredPin(a, 0), RegisteredPin(x, 0));
        sim.connect(RegisteredPin(a, 0), RegisteredPin(x, 1));
        sim.connect(RegisteredPin(a, 0), RegisteredPin(n, 0));
        sim.connect(RegisteredPin(x, 2), RegisteredPin(out_x, 0));
        sim.connect(RegisteredPin(n, 1), RegisteredPin(out_n, 0));
        assert_eq!(sim.tick(), Ok(()));
        assert_eq!(sim.inspect_pin(RegisteredPin(out_x, 0)), Ok(Low));
        assert_eq!(sim.inspect_pin(RegisteredPin(out_n, 0)), Ok(value.not()));
    }
}

#[test]
fn tick_twice_settles_the_same_signals() {
    let (mut sim, a, b, _, out) = gate_circuit(Component::XorGate);
    sim.set_input(RegisteredPin(a, 0), High).unwrap();
    sim.set_input(RegisteredPin(b, 0), Low).unwrap();
    assert_eq!(sim.tick(), Ok(()));
    let first = sim.inspect_pin(RegisteredPin(out, 0));
    assert_eq!(first, Ok(High));
    assert_eq!(sim.tick(), Ok(()));
    assert_eq!(sim.inspect_pin(RegisteredPin(out, 0)), first);
    assert_eq!(sim.tick(), Ok(()));
    assert_eq!(sim.inspect_pin(RegisteredPin(out, 0)), first);
}

#[test]
fn order_of_outputs_does_not_change_what_settles() {
    // The same three wires, with the outputs inserted in the two possible orders.
    let mut settled = Vec::new();
    for swap in [false, true] {
        let mut sim = Simulator::new();
        let a = sim.insert_component(Component::Input(High));
        let n = sim.insert_component(Component::NotGate);
        let first = sim.insert_component(Component::Output(Invalid));
        let second = sim.insert_component(Component::Output(Invalid));
        let (plain, inverted) = if swap { (second, first) } else { (first, second) };
        sim.connect(RegisteredPin(a, 0), RegisteredPin(n, 0));
        sim.connect(RegisteredPin(a, 0), RegisteredPin(plain, 0));
        sim.connect(RegisteredPin(n, 1), RegisteredPin(inverted, 0));
        assert_eq!(sim.tick(), Ok(()));
        settled.push((
            sim.inspect_pin(RegisteredPin(plain, 0)),
            sim.inspect_pin(RegisteredPin(inverted, 0)),
        ));
    }
    assert_eq!(settled[0], (Ok(High), Ok(Low)));
    assert_eq!(settled[0], settled[1]);
}

#[test]
fn a_long_chain_settles_within_the_depth_of_a_tick() {
    let mut sim = Simulator::new();
    let a = sim.insert_component(Component::Input(Low));
    let mut last = RegisteredPin(a, 0);
    for _ in 0..201 {
        let n = sim.insert_component(Component::NotGate);
        sim.connect(last, RegisteredPin(n, 0));
        last = RegisteredPin(n, 1);
    }
    let out = sim.insert_component(Component::Output(Low));
    sim.connect(last, RegisteredPin(out, 0));
    assert_eq!(sim.tick(), Ok(()));
    assert_eq!(sim.inspect_pin(RegisteredPin(out, 0)), Ok(High));
}

#[test]
fn a_loop_is_reported_as_a_cycle() {
    let mut sim = Simulator::new();
    let first = sim.insert_component(Component::NotGate);
    let second = sim.insert_component(Component::NotGate);
    let out = sim.insert_component(Component::Output(Low));
    sim.connect(RegisteredPin(first, 1), RegisteredPin(second, 0));
    sim.connect(RegisteredPin(second, 1), RegisteredPin(first, 0));
    sim.connect(RegisteredPin(second, 1), RegisteredPin(out, 0));
    assert_eq!(sim.tick(), Err(SimError::CombinationalCycle));
    assert_eq!(sim.inspect_pin(RegisteredPin(out, 0)), Ok(Low));
    // The report does not depend on the depth left over.
    assert_eq!(sim.tick(), Err(SimError::CombinationalCycle));
}

#[test]
fn a_gate_that_feeds_itself_is_reported_as_a_cycle() {
    let mut sim = Simulator::new();
    let a = sim.insert_component(Component::Input(High));
    let g = sim.insert_component(Component::OrGate);
    let out = sim.insert_component(Component::Output(Low));
    sim.connect(RegisteredPin(a, 0), RegisteredPin(g, 0));
    sim.connect(RegisteredPin(g, 2), RegisteredPin(g, 1));
    sim.connect(RegisteredPin(g, 2), RegisteredPin(out, 0));
    assert_eq!(sim.tick(), Err(SimError::CombinationalCycle));
}

#[test]
fn an_output_that_feeds_itself_is_reported_as_a_cycle() {
    let mut sim = Simulator::new();
    let out = sim.insert_component(Component::Output(High));
    sim.connect(RegisteredPin(out, 0), RegisteredPin(out, 0));
    assert_eq!(sim.tick(), Err(SimError::CombinationalCycle));
    assert_eq!(sim.inspect_pin(RegisteredPin(out, 0)), Ok(High));
}

#[test]
fn a_loop_behind_an_unconnected_input_is_never_reached() {
    let mut sim = Simulator::new();
    let looped = sim.insert_component(Component::NotGate);
    let g = sim.insert_component(Component::AndGate);
    let out = sim.insert_component(Component::Output(Low));
    sim.connect(RegisteredPin(looped, 1), RegisteredPin(looped, 0));
    sim.connect(RegisteredPin(looped, 1), RegisteredPin(g, 1));
    sim.connect(RegisteredPin(g, 2), RegisteredPin(out, 0));
    assert_eq!(sim.tick(), Ok(()));
    assert_eq!(sim.inspect_pin(RegisteredPin(out, 0)), Ok(Invalid));
}

#[test]
fn a_wire_from_nowhere_is_reported_as_unknown_component() {
    let mut sim = Simulator::new();
    let out = sim.insert_component(Component::Output(Low));
    sim.connect(RegisteredPin(7, 0), RegisteredPin(out, 0));
    assert_eq!(sim.tick(), Err(SimError::UnknownComponent));
    assert_eq!(sim.inspect_pin(RegisteredPin(out, 0)), Ok(Low));
}

#[test]
fn a_wire_from_a_missing_pin_is_reported_as_unknown_pin() {
    let mut sim = Simulator::new();
    let a = sim.insert_component(Component::Input(High));
    let out = sim.insert_component(Component::Output(Low));
    sim.connect(RegisteredPin(a, 1), RegisteredPin(out, 0));
    assert_eq!(sim.tick(), Err(SimError::UnknownPin));

    let mut sim = Simulator::new();
    let first = sim.insert_component(Component::Output(Low));
    let second = sim.insert_component(Component::Output(Low));
    sim.connect(RegisteredPin(first, 3), RegisteredPin(second, 0));
    assert_eq!(sim.tick(), Err(SimError::UnknownPin));
}

#[test]
fn the_first_failing_output_decides_the_report() {
    let mut sim = Simulator::new();
    let good = sim.insert_component(Component::Output(Low));
    let a = sim.insert_component(Component::Input(High));
    let lost = sim.insert_component(Component::Output(Low));
    let looped = sim.insert_component(Component::Output(Low));
    sim.connect(RegisteredPin(a, 0), RegisteredPin(good, 0));
    sim.connect(RegisteredPin(40, 0), RegisteredPin(lost, 0));
    sim.connect(RegisteredPin(looped, 0), RegisteredPin(looped, 0));
    assert_eq!(sim.tick(), Err(SimError::UnknownComponent));
    // A tick that fails changes nothing, not even the output that could have settled.
    assert_eq!(sim.inspect_pin(RegisteredPin(good, 0)), Ok(Low));

    // With the lost wire mended the loop is what is left to report.
    sim.connect(RegisteredPin(a, 0), RegisteredPin(lost, 0));
    assert_eq!(sim.tick(), Err(SimError::CombinationalCycle));
    assert_eq!(sim.inspect_pin(RegisteredPin(good, 0)), Ok(Low));
    assert_eq!(sim.inspect_pin(RegisteredPin(lost, 0)), Ok(Low));
}

#[test]
fn a_failing_tick_keeps_what_the_last_good_one_settled() {
    let (mut sim, a, _, g, out) = gate_circuit(Component::OrGate);
    sim.set_input(RegisteredPin(a, 0), High).unwrap();
    assert_eq!(sim.tick(), Ok(()));
    assert_eq!(sim.inspect_pin(RegisteredPin(out, 0)), Ok(High));

    let second = sim.insert_component(Component::Output(Low));
    sim.connect(RegisteredPin(g, 2), RegisteredPin(second, 0));
    sim.set_input(RegisteredPin(a, 0), Low).unwrap();
    let broken = sim.insert_component(Component::Output(Invalid));
    sim.connect(RegisteredPin(99, 0), RegisteredPin(broken, 0));
    assert_eq!(sim.tick(), Err(SimError::UnknownComponent));
    assert_eq!(sim.inspect_pin(RegisteredPin(out, 0)), Ok(High));
    assert_eq!(sim.inspect_pin(RegisteredPin(second, 0)), Ok(Low));
    assert_eq!(sim.inspect_pin(RegisteredPin(broken, 0)), Ok(Invalid));
}

#[test]
fn a_gate_fails_with_its_first_failing_driver() {
    let mut sim = Simulator::new();
    let g = sim.insert_component(Component::OrGate);
    let out = sim.insert_component(Component::Output(Low));
    let a = sim.insert_component(Component::Input(High));
    sim.connect(RegisteredPin(a, 4), RegisteredPin(g, 0));
    sim.connect(RegisteredPin(11, 0), RegisteredPin(g, 1));
    sim.connect(RegisteredPin(g, 2), RegisteredPin(out, 0));
    assert_eq!(sim.tick(), Err(SimError::UnknownPin));
}

#[test]
fn sim_pin_answers_from_the_cache_once_a_pin_is_settled() {
    let (mut sim, a, b, g, _) = gate_circuit(Component::OrGate);
    let depth = sim.len();
    let mut cache = PinCache::new();
    let gate_out = RegisteredPin(g, 2);
    assert_eq!(cache.get(&gate_out), None);
    assert_eq!(sim.sim_pin(&gate_out, &mut cache, depth), Ok(Low));
    assert_eq!(cache.get(&gate_out), Some(Low));
    assert_eq!(cache.get(&RegisteredPin(a, 0)), Some(Low));
    assert_eq!(cache.get(&RegisteredPin(b, 0)), Some(Low));

    // Within one pass nothing is evaluated again: the cache answers, even where no depth
    // is left to evaluate with.
    assert_eq!(sim.sim_pin(&gate_out, &mut cache, depth), Ok(Low));
    assert_eq!(sim.sim_pin(&gate_out, &mut cache, 0), Ok(Low));
    assert_eq!(sim.sim_pin(&RegisteredPin(a, 0), &mut cache, 0), Ok(Low));

    // A new pass starts from an empty cache, and sees what the inputs have become.
    sim.set_input(RegisteredPin(a, 0), High).unwrap();
    let mut cache = PinCache::new();
    assert_eq!(
        sim.sim_pin(&gate_out, &mut cache, 0),
        Err(SimError::CombinationalCycle)
    );
    assert_eq!(sim.sim_pin(&gate_out, &mut cache, depth), Ok(High));
}

#[test]
fn rev_sim_stores_in_the_output_what_it_pulled() {
    let (mut sim, a, _, _, out) = gate_circuit(Component::OrGate);
    sim.set_input(RegisteredPin(a, 0), High).unwrap();
    let depth = sim.len();
    let mut cache = PinCache::new();
    assert_eq!(sim.rev_sim(RegisteredPin(out, 0), &mut cache, depth), Ok(High));
    assert_eq!(sim.inspect_pin(RegisteredPin(out, 0)), Ok(High));
    assert_eq!(cache.get(&RegisteredPin(out, 0)), Some(High));
}

#[test]
fn rev_sim_reports_a_cycle_where_the_depth_does_not_reach() {
    let (mut sim, _, _, g, out) = gate_circuit(Component::AndGate);
    let mut cache = PinCache::new();
    assert_eq!(
        sim.rev_sim(RegisteredPin(out, 0), &mut cache, 0),
        Err(SimError::CombinationalCycle)
    );
    assert_eq!(
        sim.rev_sim(RegisteredPin(out, 0), &mut cache, 1),
        Err(SimError::CombinationalCycle)
    );
    assert_eq!(cache.get(&RegisteredPin(g, 2)), None);
    assert_eq!(sim.rev_sim(RegisteredPin(out, 0), &mut cache, 2), Ok(Low));
    assert_eq!(cache.get(&RegisteredPin(g, 2)), Some(Low));
}

#[test]
fn rev_sim_on_sources_needs_no_depth() {
    let mut sim = Simulator::new();
    let a = sim.insert_component(Component::Input(High));
    let c = sim.insert_component(Component::Custom(3));
    let mut cache = PinCache::new();
    assert_eq!(sim.rev_sim(RegisteredPin(a, 0), &mut cache, 0), Ok(High));
    assert_eq!(sim.rev_sim(RegisteredPin(c, 2), &mut cache, 0), Ok(Low));
    assert_eq!(
        sim.rev_sim(RegisteredPin(a, 1), &mut cache, 0),
        Err(SimError::UnknownPin)
    );
    assert_eq!(
        sim.rev_sim(RegisteredPin(5, 0), &mut cache, 0),
        Err(SimError::UnknownComponent)
    );
}

#[test]
fn nsim_gives_the_signals_of_the_drivers_in_order() {
    let (mut sim, a, _, g, _) = gate_circuit(Component::XorGate);
    sim.set_input(RegisteredPin(a, 0), High).unwrap();
    let mut cache = PinCache::new();
    assert_eq!(
        sim.nsim([RegisteredPin(g, 0), RegisteredPin(g, 1)], &mut cache, 1),
        Ok(Some([High, Low]))
    );
    assert_eq!(
        sim.nsim([RegisteredPin(g, 1), RegisteredPin(g, 0)], &mut cache, 1),
        Ok(Some([Low, High]))
    );
    assert_eq!(sim.nsim([], &mut cache, 0), Ok(Some([])));
    assert_eq!(
        sim.nsim([RegisteredPin(g, 0)], &mut cache, 0),
        Err(SimError::CombinationalCycle)
    );
    assert_eq!(
        sim.nsim([RegisteredPin(g, 0), RegisteredPin(g, 5)], &mut cache, 1),
        Ok(None)
    );
}

#[test]
fn binary_sim_gives_none_where_a_pin_has_no_driver() {
    let mut sim = Simulator::new();
    let a = sim.insert_component(Component::Input(High));
    let g = sim.insert_component(Component::AndGate);
    sim.connect(RegisteredPin(a, 0), RegisteredPin(g, 0));
    let mut cache = PinCache::new();
    assert_eq!(
        sim.binary_sim(&RegisteredPin(g, 0), &RegisteredPin(g, 1), &mut cache, 1),
        Ok(None)
    );
    // Nothing was evaluated on the way.
    assert_eq!(cache.get(&RegisteredPin(a, 0)), None);

    sim.connect(RegisteredPin(a, 0), RegisteredPin(g, 1));
    assert_eq!(
        sim.binary_sim(&RegisteredPin(g, 0), &RegisteredPin(g, 1), &mut cache, 1),
        Ok(Some((High, High)))
    );
    assert_eq!(cache.get(&RegisteredPin(a, 0)), Some(High));
}

#[test]
fn undriven_inputs_lists_the_open_pins_in_table_order() {
    let mut sim = Simulator::new();
    assert!(sim.undriven_inputs().is_empty());

    let a = sim.insert_component(Component::Input(Low));
    let and = sim.insert_component(Component::AndGate);
    let not = sim.insert_component(Component::NotGate);
    let custom = sim.insert_component(Component::Custom(3));
    let out = sim.insert_component(Component::Output(Low));
    let xor = sim.insert_component(Component::XorGate);
    assert_eq!(
        sim.undriven_inputs(),
        vec![
            RegisteredPin(and, 0),
            RegisteredPin(and, 1),
            RegisteredPin(not, 0),
            RegisteredPin(out, 0),
            RegisteredPin(xor, 0),
            RegisteredPin(xor, 1),
        ]
    );

    sim.connect(RegisteredPin(a, 0), RegisteredPin(and, 1));
    sim.connect(RegisteredPin(custom, 2), RegisteredPin(xor, 0));
    sim.connect(RegisteredPin(and, 2), RegisteredPin(out, 0));
    // A wire to a pin that the component does not have drives none of its inputs.
    sim.connect(RegisteredPin(a, 0), RegisteredPin(not, 1));
    assert_eq!(
        sim.undriven_inputs(),
        vec![
            RegisteredPin(and, 0),
            RegisteredPin(not, 0),
            RegisteredPin(xor, 1),
        ]
    );

    // Each of the components listed settles invalid.
    assert_eq!(sim.tick(), Ok(()));
    assert_eq!(sim.inspect_pin(RegisteredPin(out, 0)), Ok(Invalid));
    let mut cache = PinCache::new();
    let depth = sim.len();
    assert_eq!(sim.sim_pin(&RegisteredPin(not, 1), &mut cache, depth), Ok(Invalid));
    assert_eq!(sim.sim_pin(&RegisteredPin(xor, 2), &mut cache, depth), Ok(Invalid));
}
