//! A cached-quotients lookup argument over BLS12-381: a proof that every
//! value of a short witness stands in a long table, made from commitments
//! that are computed once for the table. With it come the KZG commitments
//! and the Fiat-Shamir transcript that it rests on, the laws of the algebra
//! by which an honest proof is shown to be accepted, and the description of
//! the boolean circuits of a two-party computation.
use vstd::prelude::*;

pub mod algebra;
pub mod bytes;
pub mod circuit;
pub mod commit_laws;
pub mod completeness;
pub mod convolution;
pub mod cq;
pub mod domain;
pub mod errors;
pub mod feist_khovratovich_alg;
pub mod fiat_shamir;
pub mod field;
pub mod field_laws;
pub mod garbled_circuit;
pub mod group;
pub mod kzg;
pub mod lagrange_laws;
pub mod poly;
pub mod pre_compute;
pub mod protocol;
pub mod proof_format;
pub mod prover;
pub mod residues;
pub mod scalar_map;
pub mod sums;
pub mod toeplitz_laws;
pub mod lookup_verifier;

verus! {

/// Sum of two counters; the caller rules out overflow.
pub fn add(left: u64, right: u64) -> (sum: u64)
    requires
        left + right <= u64::MAX,
    ensures
        sum == left + right,
{
    left + right
}

} // verus!
