//! Evaluation domains: the subgroups of the scalar field whose order is a
//! power of two, and the Fourier transforms over them, which `ark_poly`
//! computes.
use vstd::prelude::*;
use crate::algebra::{dft, domain_element, idft, is_pow2};
use crate::field::{fpow, modulus, Scalar};
use crate::group::{g1s_view, G1};
use ark_bls12_381::{Fr, G1Affine, G1Projective};
use ark_ec::{AffineRepr, CurveGroup};
use ark_ff::{BigInt, PrimeField};
use ark_poly::{EvaluationDomain, GeneralEvaluationDomain};
use ark_serialize::{CanonicalDeserialize, CanonicalSerialize};

verus! {

/// The generator of the evaluation domain of size `n` that `ark_poly` uses.
pub uninterp spec fn root_of_unity(n: nat) -> nat;

/// The scalar field has domains of every power-of-two size up to 2^32.
pub open spec fn domain_size_ok(n: nat) -> bool {
    is_pow2(n) && n <= 0x1_0000_0000
}

/// The coefficients of `X^n - 1`.
pub open spec fn vanishing_coefficients(n: nat) -> Seq<nat> {
    Seq::new(
        n + 1,
        |j: int|
            if j == 0 {
                crate::field::fneg(1)
            } else if j == n {
                1nat
            } else {
                0nat
            },
    )
}

/// Whether `n` is a power of two.
pub fn is_power_of_two(n: usize) -> (r: bool)
    ensures
        r == is_pow2(n as nat),
{
    if n == 0 {
        return false;
    }
    let mut m: usize = n;
    while m % 2 == 0
        invariant
            m > 0,
            is_pow2(m as nat) == is_pow2(n as nat),
        decreases m,
    {
        m = m / 2;
    }
    m == 1
}

/// The evaluation domain of a given size.
#[derive(Clone, Copy, Debug)]
pub struct Domain {
    size: usize,
    group_gen: Scalar,
    size_inv: Scalar,
}

impl Domain {
    /// The size of a domain is a power of two that the field supports.
    #[verifier::type_invariant]
    pub closed spec fn wf(self) -> bool {
        &&& domain_size_ok(self.size as nat)
        &&& self.group_gen@ == fpow(root_of_unity(self.size as nat), 1)
        &&& fpow(self.group_gen@, self.size as nat) == 1
        &&& self.size_inv@ == crate::field::finv(self.size as nat)
        &&& crate::field::fmul(self.size as nat, self.size_inv@) == 1
    }

    /// The number of elements, as a specification value.
    pub closed spec fn spec_size(self) -> nat {
        self.size as nat
    }

    /// The domain of size `n`, if `n` is a power of two within the field's
    /// reach.
    pub fn new(n: usize) -> (r: Option<Domain>)
        ensures
            r is Some <==> domain_size_ok(n as nat),
            r is Some ==> r->0.spec_size() == n && r->0.wf(),
    {
        if is_power_of_two(n) && n as u64 <= 0x1_0000_0000u64 {
            let size_inv = Scalar::from_u64(n as u64).inverse().unwrap();
            Some(Domain { size: n, group_gen: ark_domain_element(n, 1), size_inv })
        } else {
            None
        }
    }

    /// The generator of a valid domain has the order of the domain.
    pub proof fn lemma_order(self)
        requires
            self.wf(),
        ensures
            domain_size_ok(self.spec_size()),
            self.spec_size() >= 1,
            self.spec_size() % modulus() == self.spec_size(),
            domain_element(self.spec_size(), self.spec_size()) == 1,
            crate::field::fmul(self.spec_size(), crate::field::finv(self.spec_size())) == 1,
    {
        crate::algebra::lemma_fpow_of_first_power(root_of_unity(self.size as nat), self.size as nat);
        vstd::arithmetic::div_mod::lemma_small_mod(self.size as nat, modulus());
    }

    /// The inverse of the number of elements.
    pub fn size_inv(&self) -> (r: Scalar)
        ensures
            r@ == crate::field::finv(self.spec_size() % modulus()),
            crate::field::fmul(self.spec_size(), r@) == 1,
    {
        proof {
            use_type_invariant(self);
            vstd::arithmetic::div_mod::lemma_small_mod(self.size as nat, modulus());
        }
        self.size_inv
    }

    /// The generator of the domain.
    pub fn group_gen(&self) -> (r: Scalar)
        ensures
            r@ == domain_element(self.spec_size(), 1),
    {
        proof {
            use_type_invariant(self);
        }
        self.group_gen
    }

    /// The number of elements.
    pub fn size(&self) -> (r: usize)
        ensures
            r == self.spec_size(),
            domain_size_ok(r as nat),
            r >= 1,
    {
        proof {
            use_type_invariant(self);
        }
        self.size
    }

    /// The polynomial `X^n - 1`, which vanishes exactly on the domain of
    /// size `n`.
    pub fn vanishing_polynomial(&self) -> (r: crate::poly::DensePolynomial)
        ensures
            r@ == vanishing_coefficients(self.spec_size()),
    {
        proof {
            use_type_invariant(self);
        }
        let mut coeffs: Vec<Scalar> = Vec::new();
        coeffs.push(Scalar::one().neg());
        let mut i: usize = 1;
        while i < self.size
            invariant
                1 <= i <= self.size,
                coeffs.len() == i,
                coeffs[0]@ == crate::field::fneg(1),
                forall|j: int| 1 <= j < i ==> coeffs[j]@ == 0,
            decreases self.size - i,
        {
            coeffs.push(Scalar::zero());
            i += 1;
        }
        coeffs.push(Scalar::one());
        let r = crate::poly::DensePolynomial { coeffs };
        proof {
            assert(r@ =~= vanishing_coefficients(self.spec_size()));
        }
        r
    }

    /// The number of elements, as a scalar.
    pub fn size_as_field_element(&self) -> (r: Scalar)
        ensures
            r@ == self.spec_size(),
            r@ == self.spec_size() % modulus(),
            r@ != 0,
    {
        proof {
            use_type_invariant(self);
        }
        Scalar::from_u64(self.size as u64)
    }

    /// Element `i` of the domain: the generator raised to `i`.
    pub fn element(&self, i: usize) -> (r: Scalar)
        ensures
            r@ == domain_element(self.spec_size(), i as nat),
    {
        proof {
            use_type_invariant(self);
        }
        ark_domain_element(self.size, i)
    }

    /// The values on the domain of the polynomial with the given
    /// coefficients.
    pub fn fft(&self, coeffs: &Vec<Scalar>) -> (r: Vec<Scalar>)
        requires
            coeffs.len() <= self.spec_size(),
        ensures
            r.len() == self.spec_size(),
            crate::field::scalars_view(r@) == dft(
                crate::field::scalars_view(coeffs@),
                self.spec_size(),
            ),
    {
        proof {
            use_type_invariant(self);
        }
        ark_fft(coeffs, self.size)
    }

    /// The coefficients of the polynomial of degree below the size with the
    /// given values on the domain: transformed again, they give the values
    /// back, and no other sequence of that length does.
    pub fn ifft(&self, evals: &Vec<Scalar>) -> (r: Vec<Scalar>)
        requires
            evals.len() <= self.spec_size(),
        ensures
            r.len() == self.spec_size(),
            crate::field::scalars_view(r@) == idft(
                crate::field::scalars_view(evals@),
                self.spec_size(),
            ),
            evals.len() == self.spec_size() ==> dft(
                crate::field::scalars_view(r@),
                self.spec_size(),
            ) == crate::field::scalars_view(evals@),
            forall|c: Seq<nat>|
                c.len() == self.spec_size() && crate::algebra::all_reduced(c) && #[trigger] dft(
                    c,
                    self.spec_size(),
                ) == crate::field::scalars_view(evals@) ==> crate::field::scalars_view(r@) == c,
    {
        proof {
            use_type_invariant(self);
        }
        ark_ifft(evals, self.size)
    }

    /// The transform of a sequence of group elements.
    pub fn fft_g1(&self, points: &Vec<G1>) -> (r: Vec<G1>)
        requires
            points.len() <= self.spec_size(),
        ensures
            r.len() == self.spec_size(),
            g1s_view(r@) == dft(g1s_view(points@), self.spec_size()),
    {
        proof {
            use_type_invariant(self);
        }
        ark_fft_g1(points, self.size)
    }

    /// The inverse transform of a sequence of group elements. It undoes
    /// the transform: if the points are the transform of a sequence, that
    /// sequence comes back.
    pub fn ifft_g1(&self, points: &Vec<G1>) -> (r: Vec<G1>)
        requires
            points.len() <= self.spec_size(),
        ensures
            r.len() == self.spec_size(),
            g1s_view(r@) == idft(g1s_view(points@), self.spec_size()),
            forall|c: Seq<nat>|
                c.len() == self.spec_size() && crate::algebra::all_reduced(c) && #[trigger] dft(
                    c,
                    self.spec_size(),
                ) == g1s_view(points@) ==> g1s_view(r@) == c,
    {
        proof {
            use_type_invariant(self);
        }
        ark_ifft_g1(points, self.size)
    }
}

/// `EvaluationDomain::element` of `ark_poly`: the domain's generator raised
/// to `i`. The domain is a group of order `n`, so the power `n` of any of
/// its elements is one.
#[verifier::external_body]
fn ark_domain_element(n: usize, i: usize) -> (r: Scalar)
    requires
        domain_size_ok(n as nat),
    ensures
        r.wf(),
        r@ == fpow(root_of_unity(n as nat), i as nat),
        fpow(r@, n as nat) == 1,
{
    let domain = GeneralEvaluationDomain::<Fr>::new(n).unwrap();
    Scalar { limbs: domain.element(i).into_bigint().0 }
}

/// `EvaluationDomain::fft` of `ark_poly` on scalars: entry `i` of the result
/// is the value of the polynomial with coefficients `coeffs` at element `i`
/// of the domain.
#[verifier::external_body]
fn ark_fft(coeffs: &Vec<Scalar>, n: usize) -> (r: Vec<Scalar>)
    requires
        domain_size_ok(n as nat),
        coeffs.len() <= n,
    ensures
        r.len() == n,
        forall|i: int| 0 <= i < r.len() ==> (#[trigger] r[i]).wf(),
        crate::field::scalars_view(r@) == dft(crate::field::scalars_view(coeffs@), n as nat),
{
    let domain = GeneralEvaluationDomain::<Fr>::new(n).unwrap();
    let v: Vec<Fr> = coeffs.iter().map(|s| Fr::from_bigint(BigInt::new(s.limbs)).unwrap()).collect();
    domain.fft(&v).into_iter().map(|x| Scalar { limbs: x.into_bigint().0 }).collect()
}

/// `EvaluationDomain::ifft` of `ark_poly` on scalars: entry `j` of the
/// result is the value of the polynomial with coefficients `evals` at the
/// inverse of element `j` of the domain, divided by `n`. The result
/// interpolates: `fft` of it gives `n` values back. And the inverse
/// transform undoes `fft`: of the transform of a sequence of reduced
/// residues it gives that sequence back.
#[verifier::external_body]
fn ark_ifft(evals: &Vec<Scalar>, n: usize) -> (r: Vec<Scalar>)
    requires
        domain_size_ok(n as nat),
        evals.len() <= n,
    ensures
        r.len() == n,
        forall|i: int| 0 <= i < r.len() ==> (#[trigger] r[i]).wf(),
        crate::field::scalars_view(r@) == idft(crate::field::scalars_view(evals@), n as nat),
        evals.len() == n ==> dft(crate::field::scalars_view(r@), n as nat)
            == crate::field::scalars_view(evals@),
        forall|c: Seq<nat>|
            c.len() == n && crate::algebra::all_reduced(c) && #[trigger] dft(c, n as nat)
                == crate::field::scalars_view(evals@) ==> crate::field::scalars_view(r@) == c,
{
    let domain = GeneralEvaluationDomain::<Fr>::new(n).unwrap();
    let v: Vec<Fr> = evals.iter().map(|s| Fr::from_bigint(BigInt::new(s.limbs)).unwrap()).collect();
    domain.ifft(&v).into_iter().map(|x| Scalar { limbs: x.into_bigint().0 }).collect()
}

/// `EvaluationDomain::fft` of `ark_poly` on elements of G1: the same sums as
/// on scalars, taken on the indices of the elements.
#[verifier::external_body]
fn ark_fft_g1(points: &Vec<G1>, n: usize) -> (r: Vec<G1>)
    requires
        domain_size_ok(n as nat),
        points.len() <= n,
    ensures
        r.len() == n,
        forall|i: int| 0 <= i < r.len() ==> (#[trigger] r[i]).wf(),
        g1s_view(r@) == dft(g1s_view(points@), n as nat),
{
    let domain = GeneralEvaluationDomain::<Fr>::new(n).unwrap();
    let v: Vec<G1Projective> = points.iter().map(
        |p| G1Affine::deserialize_uncompressed_unchecked(&p.bytes[..]).unwrap().into_group(),
    ).collect();
    domain.fft(&v).into_iter().map(
        |x|
            {
                let mut bytes = [0u8; 96];
                x.into_affine().serialize_uncompressed(&mut bytes[..]).unwrap();
                G1 { bytes }
            },
    ).collect()
}

/// `EvaluationDomain::ifft` of `ark_poly` on elements of G1: the same sums
/// as on scalars, taken on the indices of the elements. The inverse
/// transform undoes `fft`: of the transform of a sequence of reduced
/// indices it gives that sequence back.
#[verifier::external_body]
fn ark_ifft_g1(points: &Vec<G1>, n: usize) -> (r: Vec<G1>)
    requires
        domain_size_ok(n as nat),
        points.len() <= n,
    ensures
        r.len() == n,
        forall|i: int| 0 <= i < r.len() ==> (#[trigger] r[i]).wf(),
        g1s_view(r@) == idft(g1s_view(points@), n as nat),
        forall|c: Seq<nat>|
            c.len() == n && crate::algebra::all_reduced(c) && #[trigger] dft(c, n as nat)
                == g1s_view(points@) ==> g1s_view(r@) == c,
{
    let domain = GeneralEvaluationDomain::<Fr>::new(n).unwrap();
    let v: Vec<G1Projective> = points.iter().map(
        |p| G1Affine::deserialize_uncompressed_unchecked(&p.bytes[..]).unwrap().into_group(),
    ).collect();
    domain.ifft(&v).into_iter().map(
        |x|
            {
                let mut bytes = [0u8; 96];
                x.into_affine().serialize_uncompressed(&mut bytes[..]).unwrap();
                G1 { bytes }
            },
    ).collect()
}

} // verus!
