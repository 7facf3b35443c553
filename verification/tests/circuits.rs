use cq::circuit::{get_number_of_inputs, Circuit, GateInfo, PartyInput};
use cq::garbled_circuit::{GarbledCircuit, GarbledGate};

fn a(x: u32) -> Box<Circuit> {
    Box::new(Circuit::Input(PartyInput::A(x)))
}

fn b(x: u32) -> Box<Circuit> {
    Box::new(Circuit::Input(PartyInput::B(x)))
}

#[test]
fn highest_input_of_each_party() {
    assert_eq!(get_number_of_inputs(&Circuit::Input(PartyInput::A(3))), (3, 0));
    assert_eq!(get_number_of_inputs(&Circuit::Input(PartyInput::B(2))), (0, 2));
    let and = Circuit::Gate(GateInfo(0b1000), a(0), b(0));
    assert_eq!(get_number_of_inputs(&and), (0, 0));
    let nested = Circuit::Gate(
        GateInfo(0b1000),
        Box::new(Circuit::Gate(GateInfo(0b0010), a(1), b(5))),
        Box::new(Circuit::Gate(GateInfo(0b0001), a(4), b(2))),
    );
    assert_eq!(get_number_of_inputs(&nested), (4, 5));
}

#[test]
fn gate_values_follow_the_truth_table() {
    let and = GateInfo(0b1000);
    assert_eq!(GarbledGate::get_value(&and, 0, 0), 0);
    assert_eq!(GarbledGate::get_value(&and, 0, 1), 0);
    assert_eq!(GarbledGate::get_value(&and, 1, 0), 0);
    assert_eq!(GarbledGate::get_value(&and, 1, 1), 1);
    let or = GateInfo(0b1110);
    assert_eq!(GarbledGate::get_value(&or, 0, 0), 0);
    assert_eq!(GarbledGate::get_value(&or, 0, 1), 1);
    assert_eq!(GarbledGate::get_value(&or, 1, 0), 1);
    assert_eq!(GarbledGate::get_value(&or, 1, 1), 1);
    assert_eq!(GarbledGate::get_bit(0b0100, 2), 1);
    assert_eq!(GarbledGate::get_bit(0b0100, 1), 0);
    assert_eq!(GarbledGate::get_bit(0x80, 7), 1);
}

#[test]
fn new_garbled_circuit_is_empty() {
    let circuit = GarbledCircuit::new();
    assert_eq!(circuit.tables.len(), 0);
    assert_eq!(circuit.index, 0);
}
