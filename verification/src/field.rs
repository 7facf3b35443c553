//! The scalar field of BLS12-381: integers modulo the prime order of the
//! pairing groups.
//!
//! A `Scalar` holds the canonical representative of a residue as four
//! little-endian 64-bit limbs; its view is that representative as a natural
//! number. The arithmetic itself is done by `ark_ff`; the contracts state it
//! as arithmetic modulo `modulus()`.
use vstd::prelude::*;
use ark_bls12_381::Fr;
use ark_ff::{BigInt, Field, PrimeField, UniformRand};

verus! {

/// The prime order of the scalar field (and of the groups G1, G2 and GT).
pub open spec fn modulus() -> nat {
    0x73eda753299d7d483339d80809a1d80553bda402fffe5bfeffffffff00000001nat
}

/// 2^64, the radix of the limbs.
pub open spec fn limb_radix() -> nat {
    0x1_0000_0000_0000_0000nat
}

/// The number that four little-endian limbs stand for.
pub open spec fn limbs_value(l: Seq<u64>) -> nat {
    (l[0] as nat) + (l[1] as nat) * limb_radix() + (l[2] as nat) * limb_radix() * limb_radix() + (
    l[3] as nat) * limb_radix() * limb_radix() * limb_radix()
}

/// Limb `m` of a number below 2^256.
pub open spec fn limb_of(v: nat, m: int) -> u64 {
    if m == 0 {
        (v % limb_radix()) as u64
    } else if m == 1 {
        ((v / limb_radix()) % limb_radix()) as u64
    } else if m == 2 {
        ((v / (limb_radix() * limb_radix())) % limb_radix()) as u64
    } else {
        ((v / (limb_radix() * limb_radix() * limb_radix())) % limb_radix()) as u64
    }
}

/// Sum in the field.
pub open spec fn fadd(a: nat, b: nat) -> nat {
    (a + b) % modulus()
}

/// Difference in the field.
pub open spec fn fsub(a: nat, b: nat) -> nat {
    ((a as int - b as int) % (modulus() as int)) as nat
}

/// Product in the field.
pub open spec fn fmul(a: nat, b: nat) -> nat {
    (a * b) % modulus()
}

/// Additive inverse in the field.
pub open spec fn fneg(a: nat) -> nat {
    fsub(0, a)
}

/// `base` raised to `exp` in the field.
pub open spec fn fpow(base: nat, exp: nat) -> nat
    decreases exp,
{
    if exp == 0 {
        1
    } else {
        fmul(fpow(base, (exp - 1) as nat), base)
    }
}

/// The multiplicative inverse that `ark_ff` computes for a non-zero residue.
pub uninterp spec fn finv(a: nat) -> nat;

/// The views of a sequence of scalars.
pub open spec fn scalars_view(s: Seq<Scalar>) -> Seq<nat> {
    Seq::new(s.len(), |i: int| s[i]@)
}

/// A residue modulo `modulus()`, in canonical form.
#[derive(Clone, Copy, Debug)]
pub struct Scalar {
    pub(crate) limbs: [u64; 4],
}

impl View for Scalar {
    type V = nat;

    closed spec fn view(&self) -> nat {
        limbs_value(self.limbs@)
    }
}

/// Limbs of the modulus, least significant first.
pub const MODULUS_LIMBS: [u64; 4] = [
    0xffffffff00000001u64,
    0x53bda402fffe5bfeu64,
    0x3339d80809a1d805u64,
    0x73eda753299d7d48u64,
];

/// Two limb quadruples with the same value are the same quadruple.
pub proof fn lemma_limbs_value_injective(a: Seq<u64>, b: Seq<u64>)
    requires
        a.len() == 4,
        b.len() == 4,
        limbs_value(a) == limbs_value(b),
    ensures
        a =~= b,
{
    let r = limb_radix() as int;
    let (a0, a1, a2, a3) = (a[0] as int, a[1] as int, a[2] as int, a[3] as int);
    let (b0, b1, b2, b3) = (b[0] as int, b[1] as int, b[2] as int, b[3] as int);
    assert(a0 + r * (a1 + r * (a2 + r * a3)) == b0 + r * (b1 + r * (b2 + r * b3))) by {
        assert(a0 + r * (a1 + r * (a2 + r * a3)) == limbs_value(a)) by (nonlinear_arith)
            requires
                limbs_value(a) == a0 + a1 * r + a2 * r * r + a3 * r * r * r,
        ;
        assert(b0 + r * (b1 + r * (b2 + r * b3)) == limbs_value(b)) by (nonlinear_arith)
            requires
                limbs_value(b) == b0 + b1 * r + b2 * r * r + b3 * r * r * r,
        ;
    }
    lemma_digit_split(a0, a1 + r * (a2 + r * a3), b0, b1 + r * (b2 + r * b3));
    lemma_digit_split(a1, a2 + r * a3, b1, b2 + r * b3);
    lemma_digit_split(a2, a3, b2, b3);
}

/// Two numbers written as digit plus radix times rest agree in both parts.
proof fn lemma_digit_split(d1: int, h1: int, d2: int, h2: int)
    requires
        0 <= d1 < limb_radix(),
        0 <= d2 < limb_radix(),
        d1 + limb_radix() * h1 == d2 + limb_radix() * h2,
    ensures
        d1 == d2,
        h1 == h2,
{
    let r = limb_radix() as int;
    assert(h1 == h2) by (nonlinear_arith)
        requires
            0 <= d1 < r,
            0 <= d2 < r,
            r > 0,
            d1 + r * h1 == d2 + r * h2,
    ;
}

/// The limbs of a value are recovered by division and remainder.
pub proof fn lemma_limb_of_value(l: Seq<u64>)
    requires
        l.len() == 4,
    ensures
        forall|m: int| 0 <= m < 4 ==> limb_of(limbs_value(l), m) == l[m],
        limbs_value(l) < limb_radix() * limb_radix() * limb_radix() * limb_radix(),
{
    let r = limb_radix() as int;
    let (a0, a1, a2, a3) = (l[0] as int, l[1] as int, l[2] as int, l[3] as int);
    let v = limbs_value(l) as int;
    let h1 = a1 + r * (a2 + r * a3);
    let h2 = a2 + r * a3;
    assert(v == a0 + r * h1 && v == a0 + a1 * r + (r * r) * h2 && v == a0 + a1 * r + a2 * (r * r)
        + (r * r * r) * a3) by (nonlinear_arith)
        requires
            v == a0 + a1 * r + a2 * r * r + a3 * r * r * r,
            h1 == a1 + r * (a2 + r * a3),
            h2 == a2 + r * a3,
    ;
    vstd::arithmetic::div_mod::lemma_fundamental_div_mod_converse(v, r, h1, a0);
    assert(a0 + a1 * r < r * r) by (nonlinear_arith)
        requires
            0 <= a0 < r,
            0 <= a1 < r,
    ;
    vstd::arithmetic::div_mod::lemma_fundamental_div_mod_converse(v, r * r, h2, a0 + a1 * r);
    vstd::arithmetic::div_mod::lemma_fundamental_div_mod_converse(h2, r, a3, a2);
    assert(a0 + a1 * r + a2 * (r * r) < r * r * r) by (nonlinear_arith)
        requires
            0 <= a0 < r,
            0 <= a1 < r,
            0 <= a2 < r,
    ;
    vstd::arithmetic::div_mod::lemma_fundamental_div_mod_converse(
        v,
        r * r * r,
        a3,
        a0 + a1 * r + a2 * (r * r),
    );
    vstd::arithmetic::div_mod::lemma_fundamental_div_mod_converse(h1, r, h2, a1);
    assert(a3 % r == a3);
    assert(v < r * r * r * r) by (nonlinear_arith)
        requires
            v == a0 + a1 * r + a2 * (r * r) + (r * r * r) * a3,
            a0 + a1 * r + a2 * (r * r) < r * r * r,
            0 <= a3 < r,
    ;
}

/// A number below 2^256 is the value of its limbs.
pub proof fn lemma_value_of_limbs(v: nat)
    requires
        v < limb_radix() * limb_radix() * limb_radix() * limb_radix(),
    ensures
        limbs_value(seq![limb_of(v, 0), limb_of(v, 1), limb_of(v, 2), limb_of(v, 3)]) == v,
{
    let r = limb_radix() as int;
    let vi = v as int;
    let q1 = vi / r;
    let q2 = vi / (r * r);
    let q3 = vi / (r * r * r);
    vstd::arithmetic::div_mod::lemma_fundamental_div_mod(vi, r);
    vstd::arithmetic::div_mod::lemma_div_denominator(vi, r, r);
    vstd::arithmetic::div_mod::lemma_div_denominator(vi, r * r, r);
    assert(q2 == q1 / r);
    assert(q3 == q2 / r);
    vstd::arithmetic::div_mod::lemma_fundamental_div_mod(q1, r);
    vstd::arithmetic::div_mod::lemma_fundamental_div_mod(q2, r);
    assert(q3 < r) by (nonlinear_arith)
        requires
            q3 == vi / (r * r * r),
            0 <= vi < (r * r * r) * r,
            r > 0,
    ;
    assert(q3 % r == q3);
    let l = seq![limb_of(v, 0), limb_of(v, 1), limb_of(v, 2), limb_of(v, 3)];
    assert(l[0] == vi % r && l[1] == q1 % r && l[2] == q2 % r && l[3] == q3);
    assert(vi == (vi % r) + (q1 % r) * r + (q2 % r) * r * r + q3 * r * r * r) by (nonlinear_arith)
        requires
            vi == r * q1 + vi % r,
            q1 == r * q2 + q1 % r,
            q2 == r * q3 + q2 % r,
    ;
}

impl Scalar {
    /// Every scalar is reduced: its value lies below the modulus.
    #[verifier::type_invariant]
    pub closed spec fn wf(self) -> bool {
        limbs_value(self.limbs@) < modulus()
    }

    /// The limbs of a scalar, as a specification value.
    pub closed spec fn spec_limbs(self) -> Seq<u64> {
        self.limbs@
    }

    /// The view is the value of the limbs, and determines them.
    pub proof fn lemma_view(self)
        ensures
            self@ == limbs_value(self.spec_limbs()),
            self.spec_limbs().len() == 4,
            forall|m: int| 0 <= m < 4 ==> limb_of(self@, m) == self.spec_limbs()[m],
            self.wf() <==> self@ < modulus(),
    {
        lemma_limb_of_value(self.limbs@);
    }

    /// Scalars with the same view are the same scalar.
    pub proof fn lemma_view_injective(self, other: Scalar)
        requires
            self@ == other@,
        ensures
            self == other,
    {
        lemma_limbs_value_injective(self.limbs@, other.limbs@);
        assert(self.limbs =~= other.limbs);
    }

    /// A scalar in exec code is always reduced.
    pub fn reduced(&self)
        ensures
            self@ < modulus(),
    {
        proof {
            use_type_invariant(self);
        }
    }

    /// The residue of a machine integer.
    pub fn from_u64(x: u64) -> (r: Scalar)
        ensures
            r@ == x,
    {
        let limbs: [u64; 4] = [x, 0, 0, 0];
        assert(limbs_value(limbs@) == x);
        Scalar { limbs }
    }

    /// Zero.
    pub fn zero() -> (r: Scalar)
        ensures
            r@ == 0,
    {
        Scalar::from_u64(0)
    }

    /// One.
    pub fn one() -> (r: Scalar)
        ensures
            r@ == 1,
    {
        Scalar::from_u64(1)
    }

    /// The scalar with the given limbs, if they are below the modulus.
    pub fn from_limbs(limbs: [u64; 4]) -> (r: Option<Scalar>)
        ensures
            r is Some <==> limbs_value(limbs@) < modulus(),
            r is Some ==> r->0@ == limbs_value(limbs@),
    {
        let below = limbs[3] < MODULUS_LIMBS[3] || (limbs[3] == MODULUS_LIMBS[3] && (limbs[2]
            < MODULUS_LIMBS[2] || (limbs[2] == MODULUS_LIMBS[2] && (limbs[1] < MODULUS_LIMBS[1] || (
        limbs[1] == MODULUS_LIMBS[1] && limbs[0] < MODULUS_LIMBS[0])))));
        proof {
            let r = limb_radix() as int;
            let (a0, a1, a2, a3) = (
                limbs[0] as int,
                limbs[1] as int,
                limbs[2] as int,
                limbs[3] as int,
            );
            let (m0, m1, m2, m3) = (
                MODULUS_LIMBS[0] as int,
                MODULUS_LIMBS[1] as int,
                MODULUS_LIMBS[2] as int,
                MODULUS_LIMBS[3] as int,
            );
            assert(modulus() == m0 + r * (m1 + r * (m2 + r * m3)));
            assert(limbs_value(limbs@) == a0 + r * (a1 + r * (a2 + r * a3))) by (nonlinear_arith)
                requires
                    limbs_value(limbs@) == a0 + a1 * r + a2 * r * r + a3 * r * r * r,
            ;
            lemma_digit_order(a2, a3, m2, m3);
            lemma_digit_order(a1, a2 + r * a3, m1, m2 + r * m3);
            lemma_digit_order(a0, a1 + r * (a2 + r * a3), m0, m1 + r * (m2 + r * m3));
        }
        if below {
            Some(Scalar { limbs })
        } else {
            None
        }
    }

    /// The limbs, least significant first.
    pub fn to_limbs(&self) -> (r: [u64; 4])
        ensures
            limbs_value(r@) == self@,
            r@ == self.spec_limbs(),
    {
        self.limbs
    }

    /// Whether two scalars are the same residue.
    pub fn eq(&self, other: &Scalar) -> (r: bool)
        ensures
            r == (self@ == other@),
    {
        let r = self.limbs[0] == other.limbs[0] && self.limbs[1] == other.limbs[1]
            && self.limbs[2] == other.limbs[2] && self.limbs[3] == other.limbs[3];
        proof {
            if self@ == other@ {
                lemma_limbs_value_injective(self.limbs@, other.limbs@);
            }
            if r {
                assert(self.limbs@ =~= other.limbs@);
            }
        }
        r
    }

    /// Whether the scalar is zero.
    pub fn is_zero(&self) -> (r: bool)
        ensures
            r == (self@ == 0),
    {
        self.eq(&Scalar::zero())
    }

    /// Sum.
    pub fn add(&self, rhs: &Scalar) -> (r: Scalar)
        ensures
            r@ == fadd(self@, rhs@),
    {
        fr_add(self, rhs)
    }

    /// Difference.
    pub fn sub(&self, rhs: &Scalar) -> (r: Scalar)
        ensures
            r@ == fsub(self@, rhs@),
    {
        fr_sub(self, rhs)
    }

    /// Product.
    pub fn mul(&self, rhs: &Scalar) -> (r: Scalar)
        ensures
            r@ == fmul(self@, rhs@),
    {
        fr_mul(self, rhs)
    }

    /// Additive inverse.
    pub fn neg(&self) -> (r: Scalar)
        ensures
            r@ == fneg(self@),
    {
        fr_sub(&Scalar::zero(), self)
    }

    /// Multiplicative inverse; zero has none.
    pub fn inverse(&self) -> (r: Option<Scalar>)
        ensures
            r is Some <==> self@ != 0,
            r is Some ==> r->0@ == finv(self@) && fmul(self@, r->0@) == 1,
    {
        fr_inverse(self)
    }

    /// Power with a machine-integer exponent.
    pub fn pow(&self, exp: u64) -> (r: Scalar)
        ensures
            r@ == fpow(self@, exp as nat),
    {
        fr_pow(self, exp)
    }

    /// A scalar drawn from the operating system's randomness. Which one is
    /// left to chance; whichever it is, it is a residue in canonical form.
    pub fn random() -> (r: Scalar)
        ensures
            r.wf(),
            r@ < modulus(),
    {
        fr_random()
    }
}

/// In mixed-radix comparison the higher part decides, then the digit.
proof fn lemma_digit_order(d1: int, h1: int, d2: int, h2: int)
    requires
        0 <= d1 < limb_radix(),
        0 <= d2 < limb_radix(),
    ensures
        d1 + limb_radix() * h1 < d2 + limb_radix() * h2 <==> (h1 < h2 || (h1 == h2 && d1 < d2)),
{
    let r = limb_radix() as int;
    assert(d1 + r * h1 < d2 + r * h2 <==> (h1 < h2 || (h1 == h2 && d1 < d2))) by (nonlinear_arith)
        requires
            0 <= d1 < r,
            0 <= d2 < r,
            r > 0,
    ;
}

/// `Add` of `ark_ff::Fp`: the sum of two residues, reduced.
#[verifier::external_body]
fn fr_add(a: &Scalar, b: &Scalar) -> (r: Scalar)
    ensures
        r.wf(),
        r@ == fadd(a@, b@),
{
    let x = Fr::from_bigint(BigInt::new(a.limbs)).unwrap();
    let y = Fr::from_bigint(BigInt::new(b.limbs)).unwrap();
    Scalar { limbs: (x + y).into_bigint().0 }
}

/// `Sub` of `ark_ff::Fp`: the difference of two residues, reduced.
#[verifier::external_body]
fn fr_sub(a: &Scalar, b: &Scalar) -> (r: Scalar)
    ensures
        r.wf(),
        r@ == fsub(a@, b@),
{
    let x = Fr::from_bigint(BigInt::new(a.limbs)).unwrap();
    let y = Fr::from_bigint(BigInt::new(b.limbs)).unwrap();
    Scalar { limbs: (x - y).into_bigint().0 }
}

/// `Mul` of `ark_ff::Fp`: the product of two residues, reduced.
#[verifier::external_body]
fn fr_mul(a: &Scalar, b: &Scalar) -> (r: Scalar)
    ensures
        r.wf(),
        r@ == fmul(a@, b@),
{
    let x = Fr::from_bigint(BigInt::new(a.limbs)).unwrap();
    let y = Fr::from_bigint(BigInt::new(b.limbs)).unwrap();
    Scalar { limbs: (x * y).into_bigint().0 }
}

/// `Field::inverse` of `ark_ff`: `None` for zero, otherwise the residue whose
/// product with the argument is one.
#[verifier::external_body]
fn fr_inverse(a: &Scalar) -> (r: Option<Scalar>)
    ensures
        r is Some <==> a@ != 0,
        r is Some ==> r->0.wf() && r->0@ == finv(a@) && fmul(a@, r->0@) == 1,
{
    let x = Fr::from_bigint(BigInt::new(a.limbs)).unwrap();
    x.inverse().map(|y| Scalar { limbs: y.into_bigint().0 })
}

/// `Field::pow` of `ark_ff` with a one-limb exponent: repeated
/// multiplication, reduced.
#[verifier::external_body]
fn fr_pow(a: &Scalar, exp: u64) -> (r: Scalar)
    ensures
        r.wf(),
        r@ == fpow(a@, exp as nat),
{
    let x = Fr::from_bigint(BigInt::new(a.limbs)).unwrap();
    Scalar { limbs: x.pow([exp]).into_bigint().0 }
}

/// `UniformRand::rand` of `ark_ff` on `rand::thread_rng`: some residue.
#[verifier::external_body]
fn fr_random() -> (r: Scalar)
    ensures
        r.wf(),
{
    let x = Fr::rand(&mut rand::thread_rng());
    Scalar { limbs: x.into_bigint().0 }
}

} // verus!
