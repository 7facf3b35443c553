//! Polynomials over the scalar field in coefficient form.
//!
//! The view of a polynomial is the sequence of its coefficients, lowest
//! degree first. Trailing zero coefficients are allowed; they change neither
//! the values of the polynomial nor its commitments.
use vstd::prelude::*;
use crate::algebra::poly_eval;
use crate::field::{fadd, fmul, fneg, fpow, fsub, scalars_view, Scalar};
use ark_bls12_381::Fr;
use ark_ff::{BigInt, PrimeField};
use ark_poly::univariate::DensePolynomial as ArkPolynomial;
use ark_poly::{DenseUVPolynomial, GeneralEvaluationDomain, EvaluationDomain};

verus! {

/// A sequence of coefficients without its trailing zeros.
pub open spec fn trim(s: Seq<nat>) -> Seq<nat>
    decreases s.len(),
{
    if s.len() > 0 && s.last() == 0 {
        trim(s.drop_last())
    } else {
        s
    }
}

/// Every coefficient of the polynomial is a reduced residue.
pub open spec fn coefficients_valid(p: DensePolynomial) -> bool {
    forall|i: int| 0 <= i < p.coeffs.len() ==> (#[trigger] p.coeffs[i]).wf()
}

/// Coefficient `i` of a polynomial, zero beyond its length.
pub open spec fn coeff_at(s: Seq<nat>, i: int) -> nat {
    if 0 <= i < s.len() {
        s[i]
    } else {
        0
    }
}

/// The longer of two lengths.
pub open spec fn max_len(a: nat, b: nat) -> nat {
    if a >= b {
        a
    } else {
        b
    }
}

/// The coefficients of the sum of two polynomials.
pub open spec fn poly_add(a: Seq<nat>, b: Seq<nat>) -> Seq<nat> {
    Seq::new(max_len(a.len(), b.len()), |i: int| fadd(coeff_at(a, i), coeff_at(b, i)))
}

/// The coefficients of the difference of two polynomials.
pub open spec fn poly_sub(a: Seq<nat>, b: Seq<nat>) -> Seq<nat> {
    Seq::new(max_len(a.len(), b.len()), |i: int| fsub(coeff_at(a, i), coeff_at(b, i)))
}

/// The coefficients of a polynomial times a scalar.
pub open spec fn poly_scale(a: Seq<nat>, c: nat) -> Seq<nat> {
    Seq::new(a.len(), |i: int| fmul(a[i], c))
}

/// The coefficients of the product of two polynomials, without trailing
/// zeros, as `ark_poly` computes them.
pub uninterp spec fn poly_product(a: Seq<nat>, b: Seq<nat>) -> Seq<nat>;

/// The coefficients of the quotient and of the remainder of a polynomial
/// by `X^n - 1`, as `ark_poly` computes them.
pub uninterp spec fn vanishing_division(p: Seq<nat>, n: nat) -> (Seq<nat>, Seq<nat>);

/// The quotient of a polynomial by `X^n - 1`.
pub open spec fn vanishing_quotient(p: Seq<nat>, n: nat) -> Seq<nat> {
    vanishing_division(p, n).0
}

/// The remainder of a polynomial by `X^n - 1`.
pub open spec fn vanishing_remainder(p: Seq<nat>, n: nat) -> Seq<nat> {
    vanishing_division(p, n).1
}

/// The coefficients of the quotient of a polynomial by `X - z`, as
/// `ark_poly` computes them.
pub uninterp spec fn linear_quotient(p: Seq<nat>, z: nat) -> Seq<nat>;

/// A polynomial over the scalar field.
#[derive(Clone, Debug)]
pub struct DensePolynomial {
    /// The coefficient of `X^i` is `coeffs[i]`.
    pub coeffs: Vec<Scalar>,
}

impl View for DensePolynomial {
    type V = Seq<nat>;

    open spec fn view(&self) -> Seq<nat> {
        scalars_view(self.coeffs@)
    }
}

/// Trimming keeps a prefix.
pub proof fn lemma_trim_prefix(s: Seq<nat>)
    ensures
        trim(s).len() <= s.len(),
        trim(s) == s.take(trim(s).len() as int),
        forall|i: int| trim(s).len() <= i < s.len() ==> s[i] == 0,
        trim(s).len() > 0 ==> trim(s).last() != 0,
    decreases s.len(),
{
    if s.len() > 0 && s.last() == 0 {
        lemma_trim_prefix(s.drop_last());
        let t = trim(s.drop_last());
        assert(s.drop_last().take(t.len() as int) =~= s.take(t.len() as int));
        assert forall|i: int| t.len() <= i < s.len() implies s[i] == 0 by {
            if i < s.len() - 1 {
                assert(s.drop_last()[i] == 0);
            }
        }
    } else {
        assert(s.take(s.len() as int) =~= s);
    }
}

/// The view of a polynomial with valid coefficients holds reduced residues.
pub proof fn lemma_coefficients_reduced(p: DensePolynomial)
    requires
        coefficients_valid(p),
    ensures
        crate::algebra::all_reduced(p@),
{
    assert forall|i: int| 0 <= i < p@.len() implies p@[i] < crate::field::modulus() by {
        p.coeffs[i].lemma_view();
    }
}

/// A sequence that is zero from position `k` on is no longer than `k`
/// without its trailing zeros.
pub proof fn lemma_trim_bound(s: Seq<nat>, k: nat)
    requires
        forall|i: int| k <= i < s.len() ==> s[i] == 0,
    ensures
        trim(s).len() <= k,
    decreases s.len(),
{
    if s.len() > 0 && s.last() == 0 {
        assert forall|i: int| k <= i < s.drop_last().len() implies s.drop_last()[i] == 0 by {
            assert(s[i] == 0);
        }
        lemma_trim_bound(s.drop_last(), k);
    } else if s.len() > k {
        assert(s[s.len() - 1] == 0);
    }
}

/// Taking a constant away from a polynomial does not raise its degree:
/// without trailing zeros, the difference is no longer than the polynomial
/// without trailing zeros, or has one coefficient.
pub proof fn lemma_trim_less_constant(p: Seq<nat>, v: nat)
    ensures
        trim(poly_sub(p, seq![v])).len() <= max_len(trim(p).len(), 1),
{
    let d = poly_sub(p, seq![v]);
    let k = if trim(p).len() >= 1 {
        trim(p).len()
    } else {
        1
    };
    lemma_trim_prefix(p);
    assert forall|i: int| k <= i < d.len() implies d[i] == 0 by {
        assert(p[i] == 0);
        crate::field_laws::lemma_fsub_reduce(0, 0);
    }
    lemma_trim_bound(d, k);
}

/// Trailing zeros do not change the value of a polynomial.
pub proof fn lemma_eval_trim(s: Seq<nat>, x: nat)
    ensures
        poly_eval(trim(s), x) == poly_eval(s, x),
    decreases s.len(),
{
    if s.len() > 0 && s.last() == 0 {
        lemma_eval_trim(s.drop_last(), x);
        let rest = poly_eval(s.drop_last(), x);
        crate::algebra::lemma_fpow_reduced(x, (s.len() - 1) as nat);
        crate::algebra::lemma_poly_eval_reduced(s.drop_last(), x);
        assert(fmul(0, fpow(x, (s.len() - 1) as nat)) == 0) by {
            vstd::arithmetic::mul::lemma_mul_basics(fpow(x, (s.len() - 1) as nat) as int);
        }
        assert(fadd(rest, 0) == rest) by {
            vstd::arithmetic::div_mod::lemma_small_mod(rest, crate::field::modulus());
        }
    }
}

impl DensePolynomial {
    /// The polynomial with the given coefficients, trailing zeros removed.
    pub fn from_coefficients_vec(coeffs: Vec<Scalar>) -> (r: DensePolynomial)
        ensures
            r@ == trim(scalars_view(coeffs@)),
    {
        let mut coeffs = coeffs;
        let ghost full = scalars_view(coeffs@);
        while coeffs.len() > 0 && coeffs[coeffs.len() - 1].is_zero()
            invariant
                trim(scalars_view(coeffs@)) == trim(full),
            decreases coeffs.len(),
        {
            proof {
                assert(scalars_view(coeffs@).drop_last() =~= scalars_view(coeffs@.drop_last()));
            }
            coeffs.pop();
        }
        DensePolynomial { coeffs }
    }

    /// The polynomial with the given coefficients, trailing zeros removed.
    pub fn from_coefficients_slice(coeffs: &[Scalar]) -> (r: DensePolynomial)
        ensures
            r@ == trim(scalars_view(coeffs@)),
    {
        let mut v: Vec<Scalar> = Vec::new();
        let mut i: usize = 0;
        while i < coeffs.len()
            invariant
                i <= coeffs.len(),
                v@ == coeffs@.take(i as int),
            decreases coeffs.len() - i,
        {
            v.push(coeffs[i]);
            proof {
                assert(coeffs@.take(i as int).push(coeffs@[i as int]) =~= coeffs@.take(i + 1));
            }
            i += 1;
        }
        proof {
            assert(coeffs@.take(coeffs.len() as int) =~= coeffs@);
        }
        DensePolynomial::from_coefficients_vec(v)
    }

    /// The zero polynomial.
    pub fn zero() -> (r: DensePolynomial)
        ensures
            r@.len() == 0,
    {
        DensePolynomial { coeffs: Vec::new() }
    }

    /// Whether every coefficient is zero.
    pub fn is_zero(&self) -> (r: bool)
        ensures
            r == (trim(self@).len() == 0),
            r == (forall|i: int| 0 <= i < self@.len() ==> self@[i] == 0),
    {
        let mut i: usize = 0;
        while i < self.coeffs.len()
            invariant
                i <= self.coeffs.len(),
                forall|j: int| 0 <= j < i ==> self@[j] == 0,
            decreases self.coeffs.len() - i,
        {
            if !self.coeffs[i].is_zero() {
                proof {
                    lemma_trim_prefix(self@);
                    if trim(self@).len() <= i {
                        assert(self@[i as int] == 0);
                    }
                }
                return false;
            }
            i += 1;
        }
        proof {
            lemma_trim_prefix(self@);
            if trim(self@).len() > 0 {
                let t = trim(self@);
                assert(t.last() == self@[t.len() - 1]);
            }
        }
        true
    }

    /// The degree: the position of the last non-zero coefficient, zero for
    /// the zero polynomial.
    pub fn degree(&self) -> (r: usize)
        ensures
            r == if trim(self@).len() == 0 {
                0
            } else {
                trim(self@).len() - 1
            },
    {
        let mut n: usize = self.coeffs.len();
        proof {
            assert(self@.take(n as int) =~= self@);
        }
        while n > 0 && self.coeffs[n - 1].is_zero()
            invariant
                n <= self.coeffs.len(),
                trim(self@.take(n as int)) == trim(self@),
            decreases n,
        {
            proof {
                assert(self@.take(n as int).drop_last() =~= self@.take(n - 1));
            }
            n -= 1;
        }
        if n == 0 {
            0
        } else {
            n - 1
        }
    }

    /// The value of the polynomial at `point`.
    pub fn evaluate(&self, point: &Scalar) -> (r: Scalar)
        ensures
            r@ == poly_eval(self@, point@),
    {
        let mut acc = Scalar::zero();
        let mut pw = Scalar::one();
        let mut i: usize = 0;
        while i < self.coeffs.len()
            invariant
                i <= self.coeffs.len(),
                acc@ == poly_eval(self@.take(i as int), point@),
                pw@ == fpow(point@, i as nat),
            decreases self.coeffs.len() - i,
        {
            proof {
                assert(self@.take(i + 1).drop_last() =~= self@.take(i as int));
            }
            acc = acc.add(&self.coeffs[i].mul(&pw));
            pw = pw.mul(point);
            i += 1;
        }
        proof {
            assert(self@.take(self.coeffs.len() as int) =~= self@);
        }
        acc
    }

    /// The sum of two polynomials, coefficient by coefficient.
    pub fn add(&self, other: &DensePolynomial) -> (r: DensePolynomial)
        ensures
            r@ == poly_add(self@, other@),
    {
        let n = if self.coeffs.len() >= other.coeffs.len() {
            self.coeffs.len()
        } else {
            other.coeffs.len()
        };
        let mut out: Vec<Scalar> = Vec::new();
        let mut i: usize = 0;
        while i < n
            invariant
                i <= n,
                n == max_len(self@.len(), other@.len()),
                self@.len() == self.coeffs.len(),
                other@.len() == other.coeffs.len(),
                out.len() == i,
                forall|j: int|
                    0 <= j < i ==> out[j]@ == fadd(coeff_at(self@, j), coeff_at(other@, j)),
            decreases n - i,
        {
            let a = if i < self.coeffs.len() {
                self.coeffs[i]
            } else {
                Scalar::zero()
            };
            let b = if i < other.coeffs.len() {
                other.coeffs[i]
            } else {
                Scalar::zero()
            };
            out.push(a.add(&b));
            i += 1;
        }
        let r = DensePolynomial { coeffs: out };
        proof {
            assert(r@ =~= poly_add(self@, other@));
        }
        r
    }

    /// The difference of two polynomials, coefficient by coefficient.
    pub fn sub(&self, other: &DensePolynomial) -> (r: DensePolynomial)
        ensures
            r@ == poly_sub(self@, other@),
    {
        let n = if self.coeffs.len() >= other.coeffs.len() {
            self.coeffs.len()
        } else {
            other.coeffs.len()
        };
        let mut out: Vec<Scalar> = Vec::new();
        let mut i: usize = 0;
        while i < n
            invariant
                i <= n,
                n == max_len(self@.len(), other@.len()),
                self@.len() == self.coeffs.len(),
                other@.len() == other.coeffs.len(),
                out.len() == i,
                forall|j: int|
                    0 <= j < i ==> out[j]@ == fsub(coeff_at(self@, j), coeff_at(other@, j)),
            decreases n - i,
        {
            let a = if i < self.coeffs.len() {
                self.coeffs[i]
            } else {
                Scalar::zero()
            };
            let b = if i < other.coeffs.len() {
                other.coeffs[i]
            } else {
                Scalar::zero()
            };
            out.push(a.sub(&b));
            i += 1;
        }
        let r = DensePolynomial { coeffs: out };
        proof {
            assert(r@ =~= poly_sub(self@, other@));
        }
        r
    }

    /// The polynomial times a scalar.
    pub fn scale(&self, c: &Scalar) -> (r: DensePolynomial)
        ensures
            r@ == poly_scale(self@, c@),
    {
        let mut out: Vec<Scalar> = Vec::new();
        let mut i: usize = 0;
        while i < self.coeffs.len()
            invariant
                i <= self.coeffs.len(),
                out.len() == i,
                forall|j: int| 0 <= j < i ==> out[j]@ == fmul(self@[j], c@),
            decreases self.coeffs.len() - i,
        {
            out.push(self.coeffs[i].mul(c));
            i += 1;
        }
        let r = DensePolynomial { coeffs: out };
        proof {
            assert(r@ =~= poly_scale(self@, c@));
        }
        r
    }

    /// The product of two polynomials.
    pub fn mul(&self, other: &DensePolynomial) -> (r: DensePolynomial)
        requires
            self@.len() + other@.len() <= 0x1_0000_0000,
        ensures
            r@ == poly_product(self@, other@),
            r@.len() <= self@.len() + other@.len(),
            forall|x: nat| #[trigger]
                poly_eval(r@, x) == fmul(poly_eval(self@, x), poly_eval(other@, x)),
    {
        ark_poly_mul(self, other)
    }

    /// Quotient and remainder of the division by `X^n - 1`, the polynomial
    /// that vanishes on the domain of size `n`.
    pub fn divide_by_vanishing_poly(&self, n: usize) -> (r: (DensePolynomial, DensePolynomial))
        requires
            crate::domain::domain_size_ok(n as nat),
        ensures
            coefficients_valid(r.0),
            coefficients_valid(r.1),
            r.0@ == vanishing_quotient(self@, n as nat),
            r.1@ == vanishing_remainder(self@, n as nat),
            r.0@.len() + n <= self@.len() || r.0@.len() == 0,
            r.1@.len() <= n,
            r.1@.len() > 0 ==> r.1@.last() != 0,
            forall|x: nat| #[trigger]
                poly_eval(self@, x) == fadd(
                    fmul(poly_eval(r.0@, x), fsub(fpow(x, n as nat), 1)),
                    poly_eval(r.1@, x),
                ),
    {
        ark_divide_by_vanishing_poly(self, n)
    }

    /// The quotient of the division by `X - z`. The divisor is built here,
    /// with the constant coefficient `-z` and the leading coefficient one.
    pub fn divide_by_linear(&self, z: &Scalar) -> (r: DensePolynomial)
        ensures
            r@ == linear_quotient(self@, z@),
            r@.len() < trim(self@).len() || r@.len() == 0,
            r@.len() < self@.len() || r@.len() == 0,
            forall|x: nat| #[trigger]
                fmul(poly_eval(r@, x), fsub(x, z@)) == fsub(
                    poly_eval(self@, x),
                    poly_eval(self@, z@),
                ),
    {
        let mut coeffs: Vec<Scalar> = Vec::new();
        coeffs.push(z.neg());
        coeffs.push(Scalar::one());
        let divisor = DensePolynomial { coeffs };
        z.reduced();
        proof {
            assert(divisor@.len() == 2);
            assert(divisor@[0] == fneg(z@));
            assert(divisor@[1] == 1);
            crate::field_laws::lemma_fneg_twice(z@);
            lemma_trim_prefix(self@);
        }
        ark_poly_div(self, &divisor)
    }
}

/// `Mul` of two `DensePolynomial`s of `ark_poly`: the product polynomial,
/// whose value at every point is the product of the two values.
#[verifier::external_body]
fn ark_poly_mul(a: &DensePolynomial, b: &DensePolynomial) -> (r: DensePolynomial)
    requires
        a@.len() + b@.len() <= 0x1_0000_0000,
    ensures
        coefficients_valid(r),
        r@ == poly_product(a@, b@),
        r@.len() <= a@.len() + b@.len(),
        forall|x: nat| #[trigger] poly_eval(r@, x) == fmul(poly_eval(a@, x), poly_eval(b@, x)),
{
    let x = ArkPolynomial::from_coefficients_vec(
        a.coeffs.iter().map(|s| Fr::from_bigint(BigInt::new(s.limbs)).unwrap()).collect(),
    );
    let y = ArkPolynomial::from_coefficients_vec(
        b.coeffs.iter().map(|s| Fr::from_bigint(BigInt::new(s.limbs)).unwrap()).collect(),
    );
    let coeffs = (&x * &y).coeffs.iter().map(|c| Scalar { limbs: c.into_bigint().0 }).collect();
    DensePolynomial { coeffs }
}

/// `DensePolynomial::divide_by_vanishing_poly` of `ark_poly`: quotient and
/// remainder by `X^n - 1`, both without trailing zeros; the remainder has
/// degree below `n`.
#[verifier::external_body]
fn ark_divide_by_vanishing_poly(p: &DensePolynomial, n: usize) -> (r: (
    DensePolynomial,
    DensePolynomial,
))
    requires
        crate::domain::domain_size_ok(n as nat),
    ensures
        coefficients_valid(r.0),
        coefficients_valid(r.1),
        (r.0@, r.1@) == vanishing_division(p@, n as nat),
        r.0@.len() + n <= p@.len() || r.0@.len() == 0,
        r.1@.len() <= n,
        r.1@.len() > 0 ==> r.1@.last() != 0,
        forall|x: nat| #[trigger]
            poly_eval(p@, x) == fadd(
                fmul(poly_eval(r.0@, x), fsub(fpow(x, n as nat), 1)),
                poly_eval(r.1@, x),
            ),
{
    let x = ArkPolynomial::from_coefficients_vec(
        p.coeffs.iter().map(|s| Fr::from_bigint(BigInt::new(s.limbs)).unwrap()).collect(),
    );
    let domain = GeneralEvaluationDomain::<Fr>::new(n).unwrap();
    let (q, rem) = x.divide_by_vanishing_poly(domain);
    let q = q.coeffs.iter().map(|c| Scalar { limbs: c.into_bigint().0 }).collect();
    let rem = rem.coeffs.iter().map(|c| Scalar { limbs: c.into_bigint().0 }).collect();
    (DensePolynomial { coeffs: q }, DensePolynomial { coeffs: rem })
}

/// `Div` of two `DensePolynomial`s of `ark_poly`, for a divisor `X + d0`
/// with the leading coefficient one: the quotient `q` of the division by
/// `X - z`, where `z` is `-d0`, so that `p(X) - p(z) = q(X) (X - z)`. The
/// quotient has no trailing zeros and one coefficient less than the
/// polynomial without its trailing zeros.
#[verifier::external_body]
fn ark_poly_div(p: &DensePolynomial, d: &DensePolynomial) -> (r: DensePolynomial)
    requires
        d@.len() == 2,
        d@[1] == 1,
    ensures
        coefficients_valid(r),
        r@ == linear_quotient(p@, fneg(d@[0])),
        r@.len() < trim(p@).len() || r@.len() == 0,
        forall|x: nat| #[trigger]
            fmul(poly_eval(r@, x), fsub(x, fneg(d@[0]))) == fsub(
                poly_eval(p@, x),
                poly_eval(p@, fneg(d@[0])),
            ),
{
    let x = ArkPolynomial::from_coefficients_vec(
        p.coeffs.iter().map(|s| Fr::from_bigint(BigInt::new(s.limbs)).unwrap()).collect(),
    );
    let y = ArkPolynomial::from_coefficients_vec(
        d.coeffs.iter().map(|s| Fr::from_bigint(BigInt::new(s.limbs)).unwrap()).collect(),
    );
    let coeffs = (&x / &y).coeffs.iter().map(|c| Scalar { limbs: c.into_bigint().0 }).collect();
    DensePolynomial { coeffs }
}

} // verus!
