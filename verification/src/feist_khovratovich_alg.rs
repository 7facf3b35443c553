//! The Feist-Khovratovich computation: the commitments to all quotients of
//! a polynomial by the linear factors of a domain, from one product with a
//! Toeplitz matrix of its coefficients, done by Fourier transforms.
use vstd::prelude::*;
use crate::algebra::{dft, idft, is_pow2};
use crate::domain::Domain;
use crate::field::{fmul, scalars_view, Scalar};
use crate::group::{g1s_view, G1};
use crate::poly::{coeff_at, DensePolynomial};

verus! {

/// The least power of two that is at least `n`.
pub open spec fn next_pow2(n: nat) -> nat
    decreases n,
{
    if n <= 1 {
        1
    } else {
        2 * next_pow2((n + 1) / 2)
    }
}

/// The length of the first column of the Toeplitz matrix of a polynomial
/// with `n` coefficients.
pub open spec fn column_len(n: nat) -> nat {
    if n == 0 {
        1
    } else {
        next_pow2((n - 1) as nat)
    }
}

/// The first column of the Toeplitz matrix of a polynomial: its
/// coefficients from the second on, filled with zeros up to length `p`.
pub open spec fn toeplitz_column(coeffs: Seq<nat>, p: nat) -> Seq<nat> {
    Seq::new(p, |i: int| coeff_at(coeffs, i + 1))
}

/// The first `p` entries of the reference string in reverse, then `p`
/// neutral elements.
pub open spec fn reversed_padded(srs: Seq<nat>, p: nat) -> Seq<nat> {
    Seq::new(
        2 * p,
        |i: int|
            if i < p {
                srs[p - 1 - i]
            } else {
                0
            },
    )
}

/// `p + 1` zeros, then the column without its last entry.
pub open spec fn shifted_column(column: Seq<nat>) -> Seq<nat> {
    Seq::new(
        2 * column.len(),
        |i: int|
            if i <= column.len() {
                0
            } else {
                column[i - column.len() - 1]
            },
    )
}

/// The products of two sequences, entry by entry.
pub open spec fn hadamard(a: Seq<nat>, b: Seq<nat>) -> Seq<nat> {
    Seq::new(a.len(), |i: int| fmul(a[i], b[i]))
}

/// The h-vector of a column under a reference string: the inverse transform
/// of the product of the transforms of the reversed string and of the
/// shifted column.
pub open spec fn h_coefficients(column: Seq<nat>, srs: Seq<nat>) -> Seq<nat> {
    let p = column.len();
    idft(hadamard(dft(reversed_padded(srs, p), 2 * p), dft(shifted_column(column), 2 * p)), 2 * p)
}

/// A power of two that is at least `n`, and whose half is not, is the least
/// one.
pub proof fn lemma_next_pow2_unique(p: nat, n: nat)
    requires
        is_pow2(p),
        p >= n,
        p == 1 || p / 2 < n,
    ensures
        next_pow2(n) == p,
    decreases p,
{
    if n > 1 {
        lemma_next_pow2_unique(p / 2, (n + 1) / 2);
    }
}

/// The least power of two that is at least `n`.
pub fn next_power_of_two(n: usize) -> (r: usize)
    requires
        n <= 0x4000_0000,
    ensures
        r == next_pow2(n as nat),
        is_pow2(r as nat),
        n <= r <= 0x4000_0000,
{
    let mut p: usize = 1;
    while p < n
        invariant
            is_pow2(p as nat),
            p == 1 || p / 2 < n,
            p <= 0x4000_0000,
            n <= 0x4000_0000,
        decreases 0x4000_0000 - p,
    {
        proof {
            vstd::arithmetic::power2::lemma2_to64();
            lemma_pow2_is_pow2(30);
            lemma_pow2_below(p as nat, 0x4000_0000);
        }
        p = 2 * p;
    }
    proof {
        lemma_next_pow2_unique(p as nat, n as nat);
    }
    p
}

/// Two to the `k` is a power of two.
pub proof fn lemma_pow2_is_pow2(k: nat)
    ensures
        is_pow2(vstd::arithmetic::power2::pow2(k)),
    decreases k,
{
    vstd::arithmetic::power2::lemma_pow2_pos(k);
    if k > 0 {
        lemma_pow2_is_pow2((k - 1) as nat);
        vstd::arithmetic::power2::lemma_pow2_unfold(k);
    } else {
        vstd::arithmetic::power2::lemma2_to64();
    }
}

/// A power of two below another is at most its half.
pub proof fn lemma_pow2_below(p: nat, q: nat)
    requires
        is_pow2(p),
        is_pow2(q),
        p < q,
    ensures
        2 * p <= q,
    decreases q,
{
    if p > 1 {
        lemma_pow2_below(p / 2, q / 2);
    }
}

/// The Toeplitz matrix of a polynomial, held by its first column.
pub struct ToeplitzMatrix {
    vec_f: Vec<Scalar>,
}

impl ToeplitzMatrix {
    /// The length of the column is a power of two, within the field's reach.
    #[verifier::type_invariant]
    pub closed spec fn wf(self) -> bool {
        is_pow2(self.vec_f@.len()) && self.vec_f@.len() <= 0x4000_0000
    }

    /// The first column.
    pub closed spec fn column(self) -> Seq<nat> {
        scalars_view(self.vec_f@)
    }

    /// The matrix of a polynomial: the column is the coefficients from the
    /// second on, filled with zeros up to the next power of two.
    pub fn new(dense_polynomial: &DensePolynomial) -> (r: ToeplitzMatrix)
        requires
            dense_polynomial@.len() <= 0x4000_0001,
        ensures
            r.column() == toeplitz_column(dense_polynomial@, column_len(dense_polynomial@.len())),
    {
        let total = dense_polynomial.coeffs.len();
        let len = if total == 0 {
            0
        } else {
            total - 1
        };
        let pow2_len = next_power_of_two(len);
        let mut res: Vec<Scalar> = Vec::new();
        let mut i: usize = 0;
        while i < pow2_len
            invariant
                i <= pow2_len,
                total == dense_polynomial.coeffs.len(),
                total == dense_polynomial@.len(),
                res.len() == i,
                forall|j: int| 0 <= j < i ==> res[j]@ == coeff_at(dense_polynomial@, j + 1),
            decreases pow2_len - i,
        {
            if i + 1 < total {
                res.push(dense_polynomial.coeffs[i + 1]);
            } else {
                res.push(Scalar::zero());
            }
            i += 1;
        }
        let r = ToeplitzMatrix { vec_f: res };
        proof {
            assert(r.column() =~= toeplitz_column(dense_polynomial@, pow2_len as nat));
        }
        r
    }

    /// The h-vector under the reference string `g1_points`, of twice the
    /// length of the column; its first half commits to the coefficients of
    /// the quotients.
    pub fn compute_h_coefficients(&self, g1_points: &[G1]) -> (r: Vec<G1>)
        requires
            self.column().len() <= g1_points.len(),
        ensures
            r.len() == 2 * self.column().len(),
            g1s_view(r@) == h_coefficients(self.column(), g1s_view(g1_points@)),
            forall|k: int|
                0 <= k < self.column().len() ==> (#[trigger] r[k])@ == crate::toeplitz_laws::h_entry(
                    self.column(),
                    g1s_view(g1_points@),
                    k,
                ),
    {
        proof {
            use_type_invariant(self);
        }
        let f_degree = self.vec_f.len();
        let domain = Domain::new(2 * f_degree).unwrap();
        proof {
            use_type_invariant(&domain);
            domain.lemma_order();
        }
        let ghost srs = g1s_view(g1_points@);
        let ghost column = self.column();
        let mut hat_s: Vec<G1> = Vec::new();
        let mut i: usize = 0;
        while i < 2 * f_degree
            invariant
                i <= 2 * f_degree,
                f_degree <= g1_points.len(),
                f_degree <= 0x4000_0000,
                srs == g1s_view(g1_points@),
                hat_s.len() == i,
                forall|j: int| 0 <= j < i ==> hat_s[j]@ == reversed_padded(srs, f_degree as nat)[j],
            decreases 2 * f_degree - i,
        {
            if i < f_degree {
                hat_s.push(g1_points[f_degree - 1 - i]);
            } else {
                hat_s.push(G1::identity());
            }
            i += 1;
        }
        proof {
            assert(g1s_view(hat_s@) =~= reversed_padded(srs, f_degree as nat));
        }
        let mut y = domain.fft_g1(&hat_s);
        let mut hat_c: Vec<Scalar> = Vec::new();
        let mut i: usize = 0;
        while i < 2 * f_degree
            invariant
                i <= 2 * f_degree,
                f_degree == self.vec_f.len(),
                f_degree <= 0x4000_0000,
                column == scalars_view(self.vec_f@),
                hat_c.len() == i,
                forall|j: int| 0 <= j < i ==> hat_c[j]@ == shifted_column(column)[j],
            decreases 2 * f_degree - i,
        {
            if i <= f_degree {
                hat_c.push(Scalar::zero());
            } else {
                hat_c.push(self.vec_f[i - f_degree - 1]);
            }
            i += 1;
        }
        proof {
            assert(scalars_view(hat_c@) =~= shifted_column(column));
        }
        let v = domain.fft(&hat_c);
        let ghost y0 = g1s_view(y@);
        let mut i: usize = 0;
        while i < 2 * f_degree
            invariant
                i <= 2 * f_degree,
                y.len() == 2 * f_degree,
                v.len() == 2 * f_degree,
                y0.len() == 2 * f_degree,
                forall|j: int| 0 <= j < i ==> y[j]@ == fmul(y0[j], v[j]@),
                forall|j: int| i <= j < 2 * f_degree ==> y[j]@ == y0[j],
            decreases 2 * f_degree - i,
        {
            let product = y[i].mul(&v[i]);
            y[i] = product;
            i += 1;
        }
        proof {
            assert(g1s_view(y@) =~= hadamard(y0, scalars_view(v@)));
            crate::toeplitz_laws::lemma_convolution_transform(
                reversed_padded(srs, f_degree as nat),
                shifted_column(column),
                (2 * f_degree) as nat,
            );
        }
        let h = domain.ifft_g1(&y);
        proof {
            let c = crate::convolution::cyclic_convolution(
                reversed_padded(srs, f_degree as nat),
                shifted_column(column),
                (2 * f_degree) as nat,
            );
            assert(dft(c, (2 * f_degree) as nat) == g1s_view(y@));
            assert(g1s_view(h@) == c);
            assert forall|k: int| 0 <= k < f_degree implies (#[trigger] h[k])@
                == crate::toeplitz_laws::h_entry(column, srs, k) by {
                crate::toeplitz_laws::lemma_convolution_entry(column, srs, k);
                assert(g1s_view(h@)[k] == h[k]@);
            }
        }
        h
    }
}

} // verus!
