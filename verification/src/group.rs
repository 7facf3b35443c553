//! The pairing groups of BLS12-381.
//!
//! G1, G2 and the target group GT are cyclic of the prime order `modulus()`.
//! An element is held as the bytes of its canonical uncompressed encoding.
//! Its view is its index: the number `k < modulus()` for which the element is
//! `k` times the group's fixed generator (for GT: the pairing of the two
//! generators, raised to `k`). Curve arithmetic is done by `ark_ec`; on
//! indices it is arithmetic modulo `modulus()`, and that is what the
//! contracts of this module state.
//!
//! One name carries this for each group. `g1_encoding(k)` is what `ark_ec`
//! and `ark_serialize` give for `k` times the generator. `g1_index(bytes)`
//! is the way back: for the encoding of an element, the `k` below the
//! group's order whose encoding it is. Nothing computes an index (it is a
//! discrete logarithm); it stands for the element in contracts. What is
//! taken on trust of the outside code is that it implements the group: that
//! on valid encodings its addition, multiplication by scalars and pairing
//! act on indices as the contracts of the functions at the end of this
//! module say.
use vstd::prelude::*;
use crate::algebra::inner_product;
use crate::field::{fadd, fmul, fsub, modulus, Scalar};
use ark_bls12_381::{Bls12_381, Fr, G1Affine, G2Affine};
use ark_ec::pairing::Pairing;
use ark_ec::{AffineRepr, CurveGroup};
use ark_ff::{BigInt, PrimeField};
use ark_serialize::{CanonicalDeserialize, CanonicalSerialize, Valid};

verus! {

/// The encoding of `index` times the generator of G1.
pub uninterp spec fn g1_encoding(index: nat) -> Seq<u8>;

/// The encoding of `index` times the generator of G2.
pub uninterp spec fn g2_encoding(index: nat) -> Seq<u8>;

/// The encoding of the pairing of the generators, raised to `index`.
pub uninterp spec fn gt_encoding(index: nat) -> Seq<u8>;

/// The index of the G1 element that `bytes` encodes: the multiple of the
/// generator with that encoding.
pub open spec fn g1_index(bytes: Seq<u8>) -> nat {
    choose|k: nat| k < modulus() && g1_encoding(k) == bytes
}

/// The index of the G2 element that `bytes` encodes.
pub open spec fn g2_index(bytes: Seq<u8>) -> nat {
    choose|k: nat| k < modulus() && g2_encoding(k) == bytes
}

/// The index of the GT element that `bytes` encodes.
pub open spec fn gt_index(bytes: Seq<u8>) -> nat {
    choose|k: nat| k < modulus() && gt_encoding(k) == bytes
}

/// `bytes` is the encoding of an element of G1.
pub open spec fn g1_valid(bytes: Seq<u8>) -> bool {
    g1_index(bytes) < modulus() && g1_encoding(g1_index(bytes)) == bytes
}

/// `bytes` is the encoding of an element of G2.
pub open spec fn g2_valid(bytes: Seq<u8>) -> bool {
    g2_index(bytes) < modulus() && g2_encoding(g2_index(bytes)) == bytes
}

/// `bytes` is the encoding of an element of GT.
pub open spec fn gt_valid(bytes: Seq<u8>) -> bool {
    gt_index(bytes) < modulus() && gt_encoding(gt_index(bytes)) == bytes
}

/// The views of a sequence of G1 elements.
pub open spec fn g1s_view(s: Seq<G1>) -> Seq<nat> {
    Seq::new(s.len(), |i: int| s[i]@)
}

/// The views of a sequence of G2 elements.
pub open spec fn g2s_view(s: Seq<G2>) -> Seq<nat> {
    Seq::new(s.len(), |i: int| s[i]@)
}

/// An element of G1.
#[derive(Clone, Copy, Debug)]
pub struct G1 {
    pub(crate) bytes: [u8; 96],
}

/// An element of G2.
#[derive(Clone, Copy, Debug)]
pub struct G2 {
    pub(crate) bytes: [u8; 192],
}

/// An element of the target group.
#[derive(Clone, Copy, Debug)]
pub struct Gt {
    pub(crate) bytes: [u8; 576],
}

impl View for G1 {
    type V = nat;

    closed spec fn view(&self) -> nat {
        g1_index(self.bytes@)
    }
}

impl View for G2 {
    type V = nat;

    closed spec fn view(&self) -> nat {
        g2_index(self.bytes@)
    }
}

impl View for Gt {
    type V = nat;

    closed spec fn view(&self) -> nat {
        gt_index(self.bytes@)
    }
}

impl G1 {
    /// Every `G1` holds the encoding of a group element.
    #[verifier::type_invariant]
    pub closed spec fn wf(self) -> bool {
        g1_valid(self.bytes@)
    }

    /// The encoding, as a specification value.
    pub closed spec fn spec_bytes(self) -> Seq<u8> {
        self.bytes@
    }

    /// What validity says of the view and the encoding.
    pub proof fn lemma_view(self)
        ensures
            self@ == g1_index(self.spec_bytes()),
            self.spec_bytes().len() == 96,
            self.wf() <==> g1_valid(self.spec_bytes()),
            self.wf() ==> self.spec_bytes() == g1_encoding(self@) && self@ < modulus(),
    {
    }

    /// Valid elements with the same index are the same element.
    pub proof fn lemma_view_injective(self, other: G1)
        requires
            self.wf(),
            other.wf(),
            self@ == other@,
        ensures
            self == other,
    {
        assert(self.bytes@ == other.bytes@);
        assert(self.bytes =~= other.bytes);
    }

    /// Elements with the same encoding are the same element.
    pub proof fn lemma_same_bytes(self, other: G1)
        requires
            self.spec_bytes() == other.spec_bytes(),
        ensures
            self == other,
    {
        assert(self.bytes =~= other.bytes);
    }

    /// The fixed generator.
    pub fn generator() -> (r: G1)
        ensures
            r@ == 1,
            r.wf(),
    {
        g1_generator()
    }

    /// The neutral element.
    pub fn identity() -> (r: G1)
        ensures
            r@ == 0,
            r.wf(),
    {
        g1_identity()
    }

    /// Sum of two elements.
    pub fn add(&self, rhs: &G1) -> (r: G1)
        ensures
            r@ == fadd(self@, rhs@),
            r.wf(),
    {
        g1_add(self, rhs)
    }

    /// Difference of two elements.
    pub fn sub(&self, rhs: &G1) -> (r: G1)
        ensures
            r@ == fsub(self@, rhs@),
            r.wf(),
    {
        g1_sub(self, rhs)
    }

    /// The element taken `s` times.
    pub fn mul(&self, s: &Scalar) -> (r: G1)
        ensures
            r@ == fmul(self@, s@),
            r.wf(),
    {
        g1_mul(self, s)
    }

    /// Whether two elements are the same.
    pub fn eq(&self, other: &G1) -> (r: bool)
        ensures
            r == (self@ == other@),
    {
        proof {
            use_type_invariant(self);
            use_type_invariant(other);
        }
        let mut i: usize = 0;
        while i < 96
            invariant
                i <= 96,
                self.wf(),
                other.wf(),
                forall|j: int| 0 <= j < i ==> self.bytes@[j] == other.bytes@[j],
            decreases 96 - i,
        {
            if self.bytes[i] != other.bytes[i] {
                return false;
            }
            i += 1;
        }
        assert(self.bytes@ =~= other.bytes@);
        true
    }

    /// The index of an element in exec code is a reduced residue.
    pub fn reduced_index(&self)
        ensures
            self@ < modulus(),
            self.wf(),
    {
        proof {
            use_type_invariant(self);
        }
    }

    /// The canonical uncompressed encoding.
    pub fn to_bytes(&self) -> (r: [u8; 96])
        ensures
            r@ == g1_encoding(self@),
            r@ == self.spec_bytes(),
    {
        proof {
            use_type_invariant(self);
        }
        self.bytes
    }

    /// The element that `bytes` encodes, if they encode one.
    pub fn from_bytes(bytes: [u8; 96]) -> (r: Option<G1>)
        ensures
            r is Some <==> g1_valid(bytes@),
            r is Some ==> r->0.spec_bytes() == bytes@ && r->0@ == g1_index(bytes@),
    {
        if g1_check(&bytes) {
            Some(G1 { bytes })
        } else {
            None
        }
    }

}

impl G2 {
    /// Every `G2` holds the encoding of a group element.
    #[verifier::type_invariant]
    pub closed spec fn wf(self) -> bool {
        g2_valid(self.bytes@)
    }

    /// The encoding, as a specification value.
    pub closed spec fn spec_bytes(self) -> Seq<u8> {
        self.bytes@
    }

    /// The fixed generator.
    pub fn generator() -> (r: G2)
        ensures
            r@ == 1,
            r.wf(),
    {
        g2_generator()
    }

    /// Difference of two elements.
    pub fn sub(&self, rhs: &G2) -> (r: G2)
        ensures
            r@ == fsub(self@, rhs@),
            r.wf(),
    {
        g2_sub(self, rhs)
    }

    /// Sum of two elements.
    pub fn add(&self, rhs: &G2) -> (r: G2)
        ensures
            r@ == fadd(self@, rhs@),
            r.wf(),
    {
        g2_add(self, rhs)
    }

    /// The neutral element.
    pub fn identity() -> (r: G2)
        ensures
            r@ == 0,
            r.wf(),
    {
        g2_identity()
    }

    /// The element taken `s` times.
    pub fn mul(&self, s: &Scalar) -> (r: G2)
        ensures
            r@ == fmul(self@, s@),
            r.wf(),
    {
        g2_mul(self, s)
    }

    /// Whether two elements are the same.
    pub fn eq(&self, other: &G2) -> (r: bool)
        ensures
            r == (self@ == other@),
    {
        proof {
            use_type_invariant(self);
            use_type_invariant(other);
        }
        let mut i: usize = 0;
        while i < 192
            invariant
                i <= 192,
                self.wf(),
                other.wf(),
                forall|j: int| 0 <= j < i ==> self.bytes@[j] == other.bytes@[j],
            decreases 192 - i,
        {
            if self.bytes[i] != other.bytes[i] {
                return false;
            }
            i += 1;
        }
        assert(self.bytes@ =~= other.bytes@);
        true
    }

    /// The index of an element in exec code is a reduced residue.
    pub fn reduced_index(&self)
        ensures
            self@ < modulus(),
            self.wf(),
    {
        proof {
            use_type_invariant(self);
        }
    }

    /// The canonical uncompressed encoding.
    pub fn to_bytes(&self) -> (r: [u8; 192])
        ensures
            r@ == g2_encoding(self@),
            r@ == self.spec_bytes(),
    {
        proof {
            use_type_invariant(self);
        }
        self.bytes
    }

    /// The element that `bytes` encodes, if they encode one.
    pub fn from_bytes(bytes: [u8; 192]) -> (r: Option<G2>)
        ensures
            r is Some <==> g2_valid(bytes@),
            r is Some ==> r->0.spec_bytes() == bytes@ && r->0@ == g2_index(bytes@),
    {
        if g2_check(&bytes) {
            Some(G2 { bytes })
        } else {
            None
        }
    }

}

impl Gt {
    /// Every `Gt` holds the encoding of a group element.
    #[verifier::type_invariant]
    pub closed spec fn wf(self) -> bool {
        gt_valid(self.bytes@)
    }

    /// The encoding, as a specification value.
    pub closed spec fn spec_bytes(self) -> Seq<u8> {
        self.bytes@
    }

    /// Whether two elements are the same.
    pub fn eq(&self, other: &Gt) -> (r: bool)
        ensures
            r == (self@ == other@),
    {
        proof {
            use_type_invariant(self);
            use_type_invariant(other);
        }
        let mut i: usize = 0;
        while i < 576
            invariant
                i <= 576,
                self.wf(),
                other.wf(),
                forall|j: int| 0 <= j < i ==> self.bytes@[j] == other.bytes@[j],
            decreases 576 - i,
        {
            if self.bytes[i] != other.bytes[i] {
                return false;
            }
            i += 1;
        }
        assert(self.bytes@ =~= other.bytes@);
        true
    }
}

/// The pairing of a G1 with a G2 element.
pub fn pairing(p: &G1, q: &G2) -> (r: Gt)
    ensures
        r@ == fmul(p@, q@),
{
    ark_pairing(p, q)
}

/// The product of the pairings of `ps[i]` with `qs[i]`.
pub fn multi_pairing(ps: &Vec<G1>, qs: &Vec<G2>) -> (r: Gt)
    requires
        ps.len() == qs.len(),
    ensures
        r@ == inner_product(g1s_view(ps@), g2s_view(qs@)),
{
    ark_multi_pairing(ps, qs)
}

/// `AffineRepr::generator` of `ark_ec` for G1: the element of index one.
#[verifier::external_body]
fn g1_generator() -> (r: G1)
    ensures
        r@ == 1,
        r.wf(),
        r.spec_bytes() == g1_encoding(1),
{
    let mut bytes = [0u8; 96];
    G1Affine::generator().serialize_uncompressed(&mut bytes[..]).unwrap();
    G1 { bytes }
}

/// `AffineRepr::zero` of `ark_ec` for G1: the neutral element, of index zero.
#[verifier::external_body]
fn g1_identity() -> (r: G1)
    ensures
        r@ == 0,
        r.wf(),
{
    let mut bytes = [0u8; 96];
    G1Affine::zero().serialize_uncompressed(&mut bytes[..]).unwrap();
    G1 { bytes }
}

/// `Add` of `ark_ec` on G1: the indices add up modulo the group order.
#[verifier::external_body]
fn g1_add(a: &G1, b: &G1) -> (r: G1)
    ensures
        r@ == fadd(a@, b@),
        r.wf(),
{
    let x = G1Affine::deserialize_uncompressed_unchecked(&a.bytes[..]).unwrap();
    let y = G1Affine::deserialize_uncompressed_unchecked(&b.bytes[..]).unwrap();
    let mut bytes = [0u8; 96];
    (x + y).into_affine().serialize_uncompressed(&mut bytes[..]).unwrap();
    G1 { bytes }
}

/// `Sub` of `ark_ec` on G1: the indices are subtracted modulo the group
/// order.
#[verifier::external_body]
fn g1_sub(a: &G1, b: &G1) -> (r: G1)
    ensures
        r@ == fsub(a@, b@),
        r.wf(),
{
    let x = G1Affine::deserialize_uncompressed_unchecked(&a.bytes[..]).unwrap();
    let y = G1Affine::deserialize_uncompressed_unchecked(&b.bytes[..]).unwrap();
    let mut bytes = [0u8; 96];
    (x - y).into_affine().serialize_uncompressed(&mut bytes[..]).unwrap();
    G1 { bytes }
}

/// `Mul` of a G1 element by a scalar in `ark_ec`: the index is multiplied
/// modulo the group order.
#[verifier::external_body]
fn g1_mul(a: &G1, s: &Scalar) -> (r: G1)
    ensures
        r@ == fmul(a@, s@),
        r.wf(),
{
    let x = G1Affine::deserialize_uncompressed_unchecked(&a.bytes[..]).unwrap();
    let k = Fr::from_bigint(BigInt::new(s.limbs)).unwrap();
    let mut bytes = [0u8; 96];
    (x * k).into_affine().serialize_uncompressed(&mut bytes[..]).unwrap();
    G1 { bytes }
}

/// Decoding without checks, then `Valid::check` of `ark_ec` for G1: whether
/// the bytes are the canonical encoding of a point on the curve and in the
/// subgroup of prime order.
#[verifier::external_body]
fn g1_check(bytes: &[u8; 96]) -> (r: bool)
    ensures
        r == (g1_index(bytes@) < modulus() && g1_encoding(g1_index(bytes@)) == bytes@),
{
    match G1Affine::deserialize_uncompressed_unchecked(&bytes[..]) {
        Ok(p) => p.check().is_ok(),
        Err(_) => false,
    }
}

/// `AffineRepr::generator` of `ark_ec` for G2: the element of index one.
#[verifier::external_body]
fn g2_generator() -> (r: G2)
    ensures
        r@ == 1,
        r.wf(),
        r.spec_bytes() == g2_encoding(1),
{
    let mut bytes = [0u8; 192];
    G2Affine::generator().serialize_uncompressed(&mut bytes[..]).unwrap();
    G2 { bytes }
}

/// `AffineRepr::zero` of `ark_ec` for G2: the neutral element, of index zero.
#[verifier::external_body]
fn g2_identity() -> (r: G2)
    ensures
        r@ == 0,
        r.wf(),
{
    let mut bytes = [0u8; 192];
    G2Affine::zero().serialize_uncompressed(&mut bytes[..]).unwrap();
    G2 { bytes }
}

/// `Add` of `ark_ec` on G2: the indices add up modulo the group order.
#[verifier::external_body]
fn g2_add(a: &G2, b: &G2) -> (r: G2)
    ensures
        r@ == fadd(a@, b@),
        r.wf(),
{
    let x = G2Affine::deserialize_uncompressed_unchecked(&a.bytes[..]).unwrap();
    let y = G2Affine::deserialize_uncompressed_unchecked(&b.bytes[..]).unwrap();
    let mut bytes = [0u8; 192];
    (x + y).into_affine().serialize_uncompressed(&mut bytes[..]).unwrap();
    G2 { bytes }
}

/// `Sub` of `ark_ec` on G2: the indices are subtracted modulo the group
/// order.
#[verifier::external_body]
fn g2_sub(a: &G2, b: &G2) -> (r: G2)
    ensures
        r@ == fsub(a@, b@),
        r.wf(),
{
    let x = G2Affine::deserialize_uncompressed_unchecked(&a.bytes[..]).unwrap();
    let y = G2Affine::deserialize_uncompressed_unchecked(&b.bytes[..]).unwrap();
    let mut bytes = [0u8; 192];
    (x - y).into_affine().serialize_uncompressed(&mut bytes[..]).unwrap();
    G2 { bytes }
}

/// `Mul` of a G2 element by a scalar in `ark_ec`: the index is multiplied
/// modulo the group order.
#[verifier::external_body]
fn g2_mul(a: &G2, s: &Scalar) -> (r: G2)
    ensures
        r@ == fmul(a@, s@),
        r.wf(),
{
    let x = G2Affine::deserialize_uncompressed_unchecked(&a.bytes[..]).unwrap();
    let k = Fr::from_bigint(BigInt::new(s.limbs)).unwrap();
    let mut bytes = [0u8; 192];
    (x * k).into_affine().serialize_uncompressed(&mut bytes[..]).unwrap();
    G2 { bytes }
}

/// Decoding without checks, then `Valid::check` of `ark_ec` for G2: whether
/// the bytes are the canonical encoding of a point on the curve and in the
/// subgroup of prime order.
#[verifier::external_body]
fn g2_check(bytes: &[u8; 192]) -> (r: bool)
    ensures
        r == (g2_index(bytes@) < modulus() && g2_encoding(g2_index(bytes@)) == bytes@),
{
    match G2Affine::deserialize_uncompressed_unchecked(&bytes[..]) {
        Ok(p) => p.check().is_ok(),
        Err(_) => false,
    }
}

/// `Pairing::pairing` of `ark_ec`: bilinear, so the index of the result is
/// the product of the indices.
#[verifier::external_body]
fn ark_pairing(p: &G1, q: &G2) -> (r: Gt)
    ensures
        gt_index(r.spec_bytes()) == fmul(p@, q@),
        gt_encoding(fmul(p@, q@)) == r.spec_bytes(),
{
    let x = G1Affine::deserialize_uncompressed_unchecked(&p.bytes[..]).unwrap();
    let y = G2Affine::deserialize_uncompressed_unchecked(&q.bytes[..]).unwrap();
    let mut bytes = [0u8; 576];
    Bls12_381::pairing(x, y).serialize_uncompressed(&mut bytes[..]).unwrap();
    Gt { bytes }
}

/// `Pairing::multi_pairing` of `ark_ec`: the product of the pairings, whose
/// index is the sum of the products of the indices.
#[verifier::external_body]
fn ark_multi_pairing(ps: &Vec<G1>, qs: &Vec<G2>) -> (r: Gt)
    requires
        ps.len() == qs.len(),
    ensures
        gt_index(r.spec_bytes()) == inner_product(g1s_view(ps@), g2s_view(qs@)),
        gt_encoding(inner_product(g1s_view(ps@), g2s_view(qs@))) == r.spec_bytes(),
{
    let xs = ps.iter().map(|p| G1Affine::deserialize_uncompressed_unchecked(&p.bytes[..]).unwrap());
    let ys = qs.iter().map(|q| G2Affine::deserialize_uncompressed_unchecked(&q.bytes[..]).unwrap());
    let mut bytes = [0u8; 576];
    Bls12_381::multi_pairing(xs, ys).serialize_uncompressed(&mut bytes[..]).unwrap();
    Gt { bytes }
}

} // verus!
