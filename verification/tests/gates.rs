use node_fiddler::State::{High, Low};
use node_fiddler::{Component, RegisteredPin, Simulator};

#[test]
fn test_or() {
    let mut sim = Simulator::new();

    let in1 = sim.insert_component(Component::Input(Low));
    let in2 = sim.insert_component(Component::Input(Low));

    let or_index = sim.insert_component(Component::OrGate);
    let output_index = sim.insert_component(Component::Output(Low));

    sim.connect(RegisteredPin(in1, 0), RegisteredPin(or_index, 0));
    sim.connect(RegisteredPin(in2, 0), RegisteredPin(or_index, 1));
    sim.connect(RegisteredPin(or_index, 2), RegisteredPin(output_index, 0));

    sim.tick().unwrap();
    assert_eq!(
        sim.inspect_pin(RegisteredPin(sim.output_components()[0], 0)),
        Ok(Low)
    );

    sim.set_input(RegisteredPin(in1, 0), Low).unwrap();
    sim.set_input(RegisteredPin(in2, 0), High).unwrap();
    sim.tick().unwrap();
    assert_eq!(
        sim.inspect_pin(RegisteredPin(sim.output_components()[0], 0)),
        Ok(High)
    );

    sim.set_input(RegisteredPin(in1, 0), High).unwrap();
    sim.set_input(RegisteredPin(in2, 0), Low).unwrap();
    sim.tick().unwrap();
    assert_eq!(
        sim.inspect_pin(RegisteredPin(sim.output_components()[0], 0)),
        Ok(High)
    );

    sim.set_input(RegisteredPin(in1, 0), High).unwrap();
    sim.set_input(RegisteredPin(in2, 0), High).unwrap();
    sim.tick().unwrap();
    assert_eq!(
        sim.inspect_pin(RegisteredPin(sim.output_components()[0], 0)),
        Ok(High)
    );
}

#[test]
fn test_and() {
    let mut sim = Simulator::new();

    let in1 = sim.insert_component(Component::Input(Low));
    let in2 = sim.insert_component(Component::Input(Low));

    let gate_index = sim.insert_component(Component::AndGate);
    let output_index = sim.insert_component(Component::Output(Low));

    sim.connect(RegisteredPin(in1, 0), RegisteredPin(gate_index, 0));
    sim.connect(RegisteredPin(in2, 0), RegisteredPin(gate_index, 1));
    sim.connect(RegisteredPin(gate_index, 2), RegisteredPin(output_index, 0));

    sim.tick().unwrap();
    assert_eq!(
        sim.inspect_pin(RegisteredPin(sim.output_components()[0], 0)),
        Ok(Low)
    );

    sim.set_input(RegisteredPin(in1, 0), Low).unwrap();
    sim.set_input(RegisteredPin(in2, 0), High).unwrap();
    sim.tick().unwrap();
    assert_eq!(
        sim.inspect_pin(RegisteredPin(sim.output_components()[0], 0)),
        Ok(Low)
    );

    sim.set_input(RegisteredPin(in1, 0), High).unwrap();
    sim.set_input(RegisteredPin(in2, 0), Low).unwrap();
    sim.tick().unwrap();
    assert_eq!(
        sim.inspect_pin(RegisteredPin(sim.output_components()[0], 0)),
        Ok(Low)
    );

    sim.set_input(RegisteredPin(in1, 0), High).unwrap();
    sim.set_input(RegisteredPin(in2, 0), High).unwrap();
    sim.tick().unwrap();
    assert_eq!(
        sim.inspect_pin(RegisteredPin(sim.output_components()[0], 0)),
        Ok(High)
    );
}

#[test]
fn test_xor() {
    let mut sim = Simulator::new();

    let in1 = sim.insert_component(Component::Input(Low));
    let in2 = sim.insert_component(Component::Input(Low));

    let gate_index = sim.insert_component(Component::XorGate);
    let output_index = sim.insert_component(Component::Output(Low));

    sim.connect(RegisteredPin(in1, 0), RegisteredPin(gate_index, 0));
    sim.connect(RegisteredPin(in2, 0), RegisteredPin(gate_index, 1));
    sim.connect(RegisteredPin(gate_index, 2), RegisteredPin(output_index, 0));

    sim.tick().unwrap();
    assert_eq!(
        sim.inspect_pin(RegisteredPin(sim.output_components()[0], 0)),
        Ok(Low)
    );

    sim.set_input(RegisteredPin(in1, 0), Low).unwrap();
    sim.set_input(RegisteredPin(in2, 0), High).unwrap();
    sim.tick().unwrap();
    assert_eq!(
        sim.inspect_pin(RegisteredPin(sim.output_components()[0], 0)),
        Ok(High)
    );

    sim.set_input(RegisteredPin(in1, 0), High).unwrap();
    sim.set_input(RegisteredPin(in2, 0), Low).unwrap();
    sim.tick().unwrap();
    assert_eq!(
        sim.inspect_pin(RegisteredPin(sim.output_components()[0], 0)),
        Ok(High)
    );

    sim.set_input(RegisteredPin(in1, 0), High).unwrap();
    sim.set_input(RegisteredPin(in2, 0), High).unwrap();
    sim.tick().unwrap();
    assert_eq!(
        sim.inspect_pin(RegisteredPin(sim.output_components()[0], 0)),
        Ok(Low)
    );
}

#[test]
fn test_not() {
    let mut sim = Simulator::new();

    let in1 = sim.insert_component(Component::Input(Low));
    let gate_index = sim.insert_component(Component::NotGate);
    let output_index = sim.insert_component(Component::Output(Low));

    sim.connect(RegisteredPin(in1, 0), RegisteredPin(gate_index, 0));
    sim.connect(RegisteredPin(gate_index, 2), RegisteredPin(output_index, 0));

    sim.tick().unwrap();
    assert_eq!(
        sim.inspect_pin(RegisteredPin(sim.output_components()[0], 0)),
        Ok(High)
    );

    sim.set_input(RegisteredPin(in1, 0), High).unwrap();
    sim.tick().unwrap();
    assert_eq!(
        sim.inspect_pin(RegisteredPin(sim.output_components()[0], 0)),
        Ok(Low),
    );
}
