//! Boolean circuits over the inputs of two parties.
use vstd::prelude::*;

verus! {

/// A wire that carries one input bit of a party, named by its position.
pub enum PartyInput {
    A(u32),
    B(u32),
}

/// The truth table of a binary gate in its four low bits: bit `2 * l + r`
/// is the output for the inputs `l` and `r`.
pub struct GateInfo(pub u8);

/// A circuit: an input wire, or a gate over two circuits.
pub enum Circuit {
    Input(PartyInput),
    Gate(GateInfo, Box<Circuit>, Box<Circuit>),
}

/// The larger of two numbers.
pub open spec fn max_u32(a: u32, b: u32) -> u32 {
    if a >= b {
        a
    } else {
        b
    }
}

/// The highest input position that a circuit reads from each party, zero
/// for a party from which it reads nothing.
pub open spec fn highest_inputs(circuit: Circuit) -> (u32, u32)
    decreases circuit,
{
    match circuit {
        Circuit::Input(PartyInput::A(x)) => (x, 0),
        Circuit::Input(PartyInput::B(x)) => (0, x),
        Circuit::Gate(_, left, right) => (
            max_u32(highest_inputs(*left).0, highest_inputs(*right).0),
            max_u32(highest_inputs(*left).1, highest_inputs(*right).1),
        ),
    }
}

/// Whether a circuit reads position `x` of party A.
pub open spec fn reads_a(circuit: Circuit, x: u32) -> bool
    decreases circuit,
{
    match circuit {
        Circuit::Input(PartyInput::A(y)) => x == y,
        Circuit::Input(PartyInput::B(_)) => false,
        Circuit::Gate(_, left, right) => reads_a(*left, x) || reads_a(*right, x),
    }
}

/// Whether a circuit reads position `x` of party B.
pub open spec fn reads_b(circuit: Circuit, x: u32) -> bool
    decreases circuit,
{
    match circuit {
        Circuit::Input(PartyInput::A(_)) => false,
        Circuit::Input(PartyInput::B(y)) => x == y,
        Circuit::Gate(_, left, right) => reads_b(*left, x) || reads_b(*right, x),
    }
}

/// Every position that a circuit reads is at most the highest one.
pub proof fn lemma_highest_inputs_bound(circuit: Circuit, x: u32)
    ensures
        reads_a(circuit, x) ==> x <= highest_inputs(circuit).0,
        reads_b(circuit, x) ==> x <= highest_inputs(circuit).1,
    decreases circuit,
{
    match circuit {
        Circuit::Input(_) => {},
        Circuit::Gate(_, left, right) => {
            lemma_highest_inputs_bound(*left, x);
            lemma_highest_inputs_bound(*right, x);
        },
    }
}

/// The highest input position of each party in the circuit.
pub fn get_number_of_inputs(circuit: &Circuit) -> (r: (u32, u32))
    ensures
        r == highest_inputs(*circuit),
    decreases circuit,
{
    match circuit {
        Circuit::Input(PartyInput::A(x)) => (*x, 0),
        Circuit::Input(PartyInput::B(x)) => (0, *x),
        Circuit::Gate(_, left, right) => {
            let (a0, b0) = get_number_of_inputs(left);
            let (a1, b1) = get_number_of_inputs(right);
            let num_a = if a0 >= a1 {
                a0
            } else {
                a1
            };
            let num_b = if b0 >= b1 {
                b0
            } else {
                b1
            };
            (num_a, num_b)
        },
    }
}

} // verus!
