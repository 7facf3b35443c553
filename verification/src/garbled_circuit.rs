//! Garbled gates: the truth table of a gate, one encrypted row for each pair
//! of input bits.
use vstd::prelude::*;
use crate::circuit::GateInfo;

verus! {

/// The encrypted output of one row of a garbled gate.
#[derive(Default, Clone, Debug)]
pub struct EncryptedValue(pub Vec<u8>);

/// One row of the lookup table of a garbled gate.
#[derive(Default, Clone)]
pub struct Rows {
    pub value: EncryptedValue,
}

/// A gate turned into a table of four rows, row `2 * l + r` for the input
/// bits `l` and `r`.
pub struct GarbledGate {
    pub table: [Rows; 4],
}

/// Bit `bit` of `x`.
pub open spec fn bit_of(x: u8, bit: u8) -> u8 {
    (x >> bit) & 1
}

impl GarbledGate {
    /// Bit `bit` of `x`, as zero or one.
    pub fn get_bit(x: u8, bit: u8) -> (r: u8)
        requires
            bit < 8,
        ensures
            r == bit_of(x, bit),
            r <= 1,
    {
        assert(((x >> bit) & 1) <= 1) by (bit_vector);
        (x >> bit) & 1
    }

    /// The output bit of a gate for the input bits `bit_left` and
    /// `bit_right`.
    pub fn get_value(gate_info: &GateInfo, bit_left: u8, bit_right: u8) -> (r: u8)
        requires
            bit_left <= 1,
            bit_right <= 1,
        ensures
            r == bit_of(gate_info.0, (2 * bit_left + bit_right) as u8),
            r <= 1,
    {
        let bit = bit_left * 2 + bit_right;
        Self::get_bit(gate_info.0, bit)
    }
}

/// The garbled gates of a circuit, in the order in which evaluation meets
/// them, and the position of the next one to evaluate.
pub struct GarbledCircuit {
    pub tables: Vec<GarbledGate>,
    pub index: u32,
}

impl GarbledCircuit {
    /// A garbled circuit without gates.
    pub fn new() -> (r: Self)
        ensures
            r.tables@.len() == 0,
            r.index == 0,
    {
        Self { tables: Vec::new(), index: 0 }
    }
}

} // verus!
