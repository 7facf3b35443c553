//! What the lookup argument reports when it cannot go on.
use vstd::prelude::*;

verus! {

/// Reasons for which preprocessing, proving or verifying stops.
#[derive(Clone, Copy, Debug, PartialEq, Eq, Structural)]
pub enum GeneralError {
    /// The quotient by the vanishing polynomial left a remainder.
    CannotDivideByVanishingPolynomial,
    /// The witness length is not a power of two.
    WitnessSizeNotPowerOf2,
    /// The table length is not a power of two.
    TableSizeNotPowerOf2,
    /// A witness value does not occur in the table.
    WitnessNotInTable,
    /// The table holds a value twice.
    ElementsNotUnique,
    /// A challenge was asked for with nothing absorbed since the last one.
    TranscriptMisuse,
    /// A challenge made a denominator of the protocol zero.
    DivisionByZero,
}

/// The words in which each error is reported.
pub open spec fn message_of(e: GeneralError) -> Seq<char> {
    match e {
        GeneralError::CannotDivideByVanishingPolynomial => "Cannot divide by vanishing polynomial."@,
        GeneralError::WitnessSizeNotPowerOf2 => "The size of witness f must be power of 2"@,
        GeneralError::TableSizeNotPowerOf2 => "The size of table t must be power of 2"@,
        GeneralError::WitnessNotInTable => "Witness must be in the table"@,
        GeneralError::ElementsNotUnique => "Elements in t_i must be unique"@,
        GeneralError::TranscriptMisuse => "A challenge needs an absorption before it"@,
        GeneralError::DivisionByZero => "A challenge made a denominator zero"@,
    }
}

impl GeneralError {
    /// The words in which the error is reported.
    pub fn message(&self) -> (r: &'static str)
        ensures
            r@ == message_of(*self),
    {
        match self {
            GeneralError::CannotDivideByVanishingPolynomial => "Cannot divide by vanishing polynomial.",
            GeneralError::WitnessSizeNotPowerOf2 => "The size of witness f must be power of 2",
            GeneralError::TableSizeNotPowerOf2 => "The size of table t must be power of 2",
            GeneralError::WitnessNotInTable => "Witness must be in the table",
            GeneralError::ElementsNotUnique => "Elements in t_i must be unique",
            GeneralError::TranscriptMisuse => "A challenge needs an absorption before it",
            GeneralError::DivisionByZero => "A challenge made a denominator zero",
        }
    }
}

} // verus!
