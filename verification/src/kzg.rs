//! KZG polynomial commitments: a polynomial is committed to by its value at
//! a secret point, carried in the exponent of a structured reference string.
use vstd::prelude::*;
use crate::algebra::{commit_index, inner_product, poly_eval, powers};
use crate::field::{fmul, fpow, fsub, modulus, scalars_view, Scalar};
use crate::group::{g1s_view, g2s_view, pairing, G1, G2};
use crate::poly::{
    lemma_trim_less_constant,
    lemma_trim_prefix,
    linear_quotient,
    poly_sub,
    trim,
    DensePolynomial,
};

verus! {

/// A structured reference string: the powers of a secret in G1 and in G2.
pub struct Kzg {
    pub g1_srs: Vec<G1>,
    pub g2_srs: Vec<G2>,
}

/// The encoded entries are those of a reference string: at least two in
/// each half, each the encoding of a group element, and the indices of
/// both halves the powers of one secret, in order.
pub open spec fn loadable(g1: Seq<[u8; 96]>, g2: Seq<[u8; 192]>) -> bool {
    &&& g1.len() == g2.len()
    &&& g1.len() >= 2
    &&& forall|i: int| 0 <= i < g1.len() ==> crate::group::g1_valid(#[trigger] g1[i]@)
    &&& forall|i: int| 0 <= i < g2.len() ==> crate::group::g2_valid(#[trigger] g2[i]@)
    &&& forall|i: int|
        0 <= i < g1.len() ==> crate::group::g1_index(#[trigger] g1[i]@) == fpow(
            crate::group::g2_index(g2[1]@),
            i as nat,
        ) && crate::group::g2_index(g2[i]@) == fpow(crate::group::g2_index(g2[1]@), i as nat)
}

/// The sum of `points[i]` taken `scalars[i]` times.
pub fn msm_g1(points: &Vec<G1>, scalars: &Vec<Scalar>) -> (r: G1)
    requires
        scalars.len() <= points.len(),
    ensures
        r@ == commit_index(g1s_view(points@), scalars_view(scalars@)),
{
    let ghost c = scalars_view(scalars@);
    let ghost s = g1s_view(points@);
    let mut acc = G1::identity();
    let mut i: usize = 0;
    while i < scalars.len()
        invariant
            i <= scalars.len(),
            scalars.len() <= points.len(),
            c == scalars_view(scalars@),
            s == g1s_view(points@),
            acc@ == inner_product(c.take(i as int), s.take(i as int)),
        decreases scalars.len() - i,
    {
        proof {
            assert(c.take(i + 1).drop_last() =~= c.take(i as int));
            assert(s.take(i + 1).drop_last() =~= s.take(i as int));
            assert(fmul(s[i as int], c[i as int]) == fmul(c[i as int], s[i as int])) by {
                vstd::arithmetic::mul::lemma_mul_is_commutative(
                    s[i as int] as int,
                    c[i as int] as int,
                );
            }
        }
        acc = acc.add(&points[i].mul(&scalars[i]));
        i += 1;
    }
    proof {
        assert(c.take(scalars.len() as int) =~= c);
        assert(s.take(c.len() as int).take(c.len() as int) =~= s.take(c.len() as int));
    }
    acc
}

/// The sum of `points[i]` taken `scalars[i]` times, in G2.
pub fn msm_g2(points: &Vec<G2>, scalars: &Vec<Scalar>) -> (r: G2)
    requires
        scalars.len() <= points.len(),
    ensures
        r@ == commit_index(g2s_view(points@), scalars_view(scalars@)),
{
    let ghost c = scalars_view(scalars@);
    let ghost s = g2s_view(points@);
    let mut acc = G2::identity();
    let mut i: usize = 0;
    while i < scalars.len()
        invariant
            i <= scalars.len(),
            scalars.len() <= points.len(),
            c == scalars_view(scalars@),
            s == g2s_view(points@),
            acc@ == inner_product(c.take(i as int), s.take(i as int)),
        decreases scalars.len() - i,
    {
        proof {
            assert(c.take(i + 1).drop_last() =~= c.take(i as int));
            assert(s.take(i + 1).drop_last() =~= s.take(i as int));
            assert(fmul(s[i as int], c[i as int]) == fmul(c[i as int], s[i as int])) by {
                vstd::arithmetic::mul::lemma_mul_is_commutative(
                    s[i as int] as int,
                    c[i as int] as int,
                );
            }
        }
        acc = acc.add(&points[i].mul(&scalars[i]));
        i += 1;
    }
    proof {
        assert(c.take(scalars.len() as int) =~= c);
        assert(s.take(c.len() as int).take(c.len() as int) =~= s.take(c.len() as int));
    }
    acc
}

impl Kzg {
    /// The indices of the G1 half of the string.
    pub open spec fn g1_view(self) -> Seq<nat> {
        g1s_view(self.g1_srs@)
    }

    /// The indices of the G2 half of the string.
    pub open spec fn g2_view(self) -> Seq<nat> {
        g2s_view(self.g2_srs@)
    }

    /// Both halves hold the powers of `s`, in order.
    pub open spec fn is_powers_of(self, s: nat) -> bool {
        &&& self.g1_srs.len() == self.g2_srs.len()
        &&& self.g1_view() == powers(s, self.g1_srs.len() as nat)
        &&& self.g2_view() == powers(s, self.g2_srs.len() as nat)
    }

    /// The secret of a string that holds the powers of one: the index of its
    /// second entry.
    pub open spec fn secret(self) -> nat {
        if self.g1_srs.len() > 1 {
            self.g1_srs[1]@
        } else {
            0
        }
    }

    /// Both halves hold the powers of the same secret.
    pub open spec fn consistent(self) -> bool {
        self.is_powers_of(self.secret())
    }

    /// A string that holds the powers of a reduced residue is consistent.
    pub proof fn lemma_powers_consistent(self, s: nat)
        requires
            self.is_powers_of(s),
            s < modulus(),
        ensures
            self.consistent(),
    {
        let len = self.g1_srs.len() as nat;
        if len > 1 {
            assert(self.g1_view()[1] == fpow(s, 1));
            crate::algebra::lemma_fpow_one(s);
        } else {
            assert(powers(s, len) =~= powers(0, len));
        }
    }

    /// A development string of `len` powers of a secret drawn at random.
    pub fn new(len: usize) -> (r: Kzg)
        ensures
            r.g1_srs.len() == len,
            r.consistent(),
    {
        let s = Scalar::random();
        s.reduced();
        let r = Kzg::new_from_secret(s, len);
        proof {
            r.lemma_powers_consistent(s@);
        }
        r
    }

    /// The string of the first `len` powers of `s`.
    pub fn new_from_secret(s: Scalar, len: usize) -> (r: Kzg)
        ensures
            r.g1_srs.len() == len,
            r.is_powers_of(s@),
    {
        let g1_gen = G1::generator();
        let g2_gen = G2::generator();
        let mut g1_srs: Vec<G1> = Vec::new();
        let mut g2_srs: Vec<G2> = Vec::new();
        let mut s_pow = Scalar::one();
        let mut i: usize = 0;
        while i < len
            invariant
                i <= len,
                g1_gen@ == 1,
                g2_gen@ == 1,
                g1_srs.len() == i,
                g2_srs.len() == i,
                s_pow@ == fpow(s@, i as nat),
                forall|j: int| 0 <= j < i ==> g1_srs[j]@ == fpow(s@, j as nat),
                forall|j: int| 0 <= j < i ==> g2_srs[j]@ == fpow(s@, j as nat),
            decreases len - i,
        {
            proof {
                crate::algebra::lemma_fpow_reduced(s@, i as nat);
                assert(fmul(1, s_pow@) == s_pow@) by {
                    vstd::arithmetic::div_mod::lemma_small_mod(s_pow@, modulus());
                }
            }
            g1_srs.push(g1_gen.mul(&s_pow));
            g2_srs.push(g2_gen.mul(&s_pow));
            s_pow = s_pow.mul(&s);
            i += 1;
        }
        let r = Kzg { g1_srs, g2_srs };
        proof {
            assert(r.g1_view() =~= powers(s@, len as nat));
            assert(r.g2_view() =~= powers(s@, len as nat));
        }
        r
    }

    /// Whether both halves hold the powers of one secret, found out by
    /// pairings: the strings start with the generators, every entry of the
    /// G1 half is the entry before it taken `s` times, and the G2 half holds
    /// the same indices as the G1 half.
    pub fn is_consistent(&self) -> (r: bool)
        ensures
            r == (self.consistent() && self.g1_srs.len() >= 2),
    {
        let len = self.g1_srs.len();
        if len != self.g2_srs.len() || len < 2 {
            proof {
                if self.consistent() && len >= 2 {
                    assert(self.g1_view().len() == self.g2_view().len());
                }
            }
            return false;
        }
        let g1_gen = G1::generator();
        let g2_gen = G2::generator();
        let one_1 = self.g1_srs[0];
        let one_2 = self.g2_srs[0];
        let s_2 = self.g2_srs[1];
        one_1.reduced_index();
        s_2.reduced_index();
        let ghost s = s_2@;
        if !one_1.eq(&g1_gen) || !one_2.eq(&g2_gen) {
            proof {
                assert(fpow(self.secret(), 0) == 1);
                if self.consistent() {
                    assert(self.g1_view()[0] == fpow(self.secret(), 0));
                    assert(self.g2_view()[0] == fpow(self.secret(), 0));
                }
            }
            return false;
        }
        let mut i: usize = 1;
        while i < len
            invariant
                1 <= i <= len,
                len == self.g1_srs.len(),
                len == self.g2_srs.len(),
                len >= 2,
                one_2 == self.g2_srs[0],
                s_2 == self.g2_srs[1],
                one_1 == self.g1_srs[0],
                s == s_2@,
                s < modulus(),
                one_2@ == 1,
                one_1@ == 1,
                forall|j: int| 0 <= j < i ==> (#[trigger] self.g1_srs[j])@ == fpow(s, j as nat),
                forall|j: int| 0 <= j < i ==> (#[trigger] self.g2_srs[j])@ == fpow(s, j as nat),
            decreases len - i,
        {
            let point = self.g1_srs[i];
            let twin = self.g2_srs[i];
            point.reduced_index();
            twin.reduced_index();
            let step = pairing(&point, &one_2).eq(&pairing(&self.g1_srs[i - 1], &s_2));
            let same = pairing(&point, &one_2).eq(&pairing(&one_1, &twin));
            proof {
                crate::field_laws::lemma_neutral(point@);
                crate::field_laws::lemma_neutral(twin@);
                assert(fpow(s, i as nat) == fmul(fpow(s, (i - 1) as nat), s));
                assert(step == (point@ == fpow(s, i as nat)));
                assert(same == (point@ == twin@));
            }
            if !step || !same {
                proof {
                    if self.consistent() {
                        crate::algebra::lemma_fpow_one(s);
                        assert(self.g1_view()[1] == self.g1_srs[1]@);
                        assert(self.g2_view()[1] == fpow(self.secret(), 1));
                        assert(self.g1_view()[1] == fpow(self.secret(), 1));
                        assert(self.secret() == s);
                        assert(self.g1_view()[i as int] == fpow(s, i as nat));
                        assert(self.g2_view()[i as int] == fpow(s, i as nat));
                    }
                }
                return false;
            }
            i += 1;
        }
        proof {
            crate::algebra::lemma_fpow_one(s);
            assert(self.g1_srs[1]@ == fpow(s, 1));
            assert(self.secret() == s);
            assert(self.g1_view() =~= powers(s, len as nat));
            assert(self.g2_view() =~= powers(s, len as nat));
        }
        true
    }

    /// The reference string with the given encoded entries, if every entry
    /// encodes a group element and the two halves hold the powers of one
    /// secret.
    pub fn from_bytes(g1: &[[u8; 96]], g2: &[[u8; 192]]) -> (r: Option<Kzg>)
        ensures
            r is Some <==> loadable(g1@, g2@),
            r is Some ==> r->0.consistent() && r->0.g1_srs.len() == g1.len() && g1.len() >= 2,
            r is Some ==> forall|i: int|
                0 <= i < g1.len() ==> (#[trigger] r->0.g1_srs[i]).spec_bytes() == g1[i]@,
            r is Some ==> forall|i: int|
                0 <= i < g2.len() ==> (#[trigger] r->0.g2_srs[i]).spec_bytes() == g2[i]@,
    {
        let mut g1_srs: Vec<G1> = Vec::new();
        let mut i: usize = 0;
        while i < g1.len()
            invariant
                i <= g1.len(),
                g1_srs.len() == i,
                forall|j: int| 0 <= j < i ==> (#[trigger] g1_srs[j]).spec_bytes() == g1[j]@,
                forall|j: int| 0 <= j < i ==> crate::group::g1_valid(#[trigger] g1[j]@),
                forall|j: int|
                    0 <= j < i ==> (#[trigger] g1_srs[j])@ == crate::group::g1_index(g1[j]@),
            decreases g1.len() - i,
        {
            match G1::from_bytes(g1[i]) {
                Some(point) => {
                    g1_srs.push(point);
                },
                None => {
                    return None;
                },
            }
            i += 1;
        }
        let mut g2_srs: Vec<G2> = Vec::new();
        let mut i: usize = 0;
        while i < g2.len()
            invariant
                i <= g2.len(),
                g2_srs.len() == i,
                forall|j: int| 0 <= j < i ==> (#[trigger] g2_srs[j]).spec_bytes() == g2[j]@,
                forall|j: int| 0 <= j < i ==> crate::group::g2_valid(#[trigger] g2[j]@),
                forall|j: int|
                    0 <= j < i ==> (#[trigger] g2_srs[j])@ == crate::group::g2_index(g2[j]@),
            decreases g2.len() - i,
        {
            match G2::from_bytes(g2[i]) {
                Some(point) => {
                    g2_srs.push(point);
                },
                None => {
                    return None;
                },
            }
            i += 1;
        }
        let kzg = Kzg { g1_srs, g2_srs };
        proof {
            if kzg.g1_srs.len() >= 2 && kzg.g1_srs.len() == kzg.g2_srs.len() {
                let s = crate::group::g2_index(g2[1]@);
                assert(kzg.g2_srs[1]@ == s);
                if kzg.consistent() {
                    assert(kzg.g2_view()[1] == fpow(kzg.secret(), 1));
                    assert(kzg.g1_view()[1] == fpow(kzg.secret(), 1));
                    assert forall|j: int| 0 <= j < g1.len() implies crate::group::g1_index(
                        #[trigger] g1[j]@,
                    ) == fpow(s, j as nat) && crate::group::g2_index(g2[j]@) == fpow(
                        s,
                        j as nat,
                    ) by {
                        assert(kzg.g1_view()[j] == kzg.g1_srs[j]@);
                        assert(kzg.g2_view()[j] == kzg.g2_srs[j]@);
                    }
                }
                if loadable(g1@, g2@) {
                    assert(kzg.g1_view() =~= powers(s, g1.len() as nat));
                    assert(kzg.g2_view() =~= powers(s, g1.len() as nat));
                    assert(kzg.g1_srs[1]@ == fpow(s, 1));
                    assert(kzg.secret() == fpow(s, 1));
                    crate::algebra::lemma_fpow_of_first_power(s, 1);
                    assert forall|j: int| 0 <= j < g1.len() implies #[trigger] powers(
                        s,
                        g1.len() as nat,
                    )[j] == powers(fpow(s, 1), g1.len() as nat)[j] by {
                        crate::algebra::lemma_fpow_of_first_power(s, j as nat);
                    }
                    assert(powers(s, g1.len() as nat) =~= powers(fpow(s, 1), g1.len() as nat));
                }
            }
        }
        if kzg.is_consistent() {
            Some(kzg)
        } else {
            None
        }
    }

    /// The commitment in G1: each coefficient times the string's entry of
    /// the same position, summed. The string has to reach the degree of the
    /// polynomial; trailing zero coefficients do not count.
    pub fn commit_g1(&self, dense_polynomial: &DensePolynomial) -> (r: G1)
        requires
            trim(dense_polynomial@).len() <= self.g1_srs.len(),
            self.g1_srs.len() >= 1,
        ensures
            r@ == commit_index(self.g1_view(), trim(dense_polynomial@)),
            dense_polynomial@.len() <= self.g1_srs.len() ==> r@ == commit_index(
                self.g1_view(),
                dense_polynomial@,
            ),
    {
        if dense_polynomial.coeffs.len() <= self.g1_srs.len() {
            proof {
                crate::commit_laws::lemma_commit_trim(self.g1_view(), dense_polynomial@);
            }
            msm_g1(&self.g1_srs, &dense_polynomial.coeffs)
        } else {
            let trimmed = DensePolynomial::from_coefficients_slice(
                dense_polynomial.coeffs.as_slice(),
            );
            msm_g1(&self.g1_srs, &trimmed.coeffs)
        }
    }

    /// The commitment in G2.
    pub fn commit_g2(&self, dense_polynomial: &DensePolynomial) -> (r: G2)
        requires
            trim(dense_polynomial@).len() <= self.g2_srs.len(),
            self.g2_srs.len() >= 1,
        ensures
            r@ == commit_index(self.g2_view(), trim(dense_polynomial@)),
            dense_polynomial@.len() <= self.g2_srs.len() ==> r@ == commit_index(
                self.g2_view(),
                dense_polynomial@,
            ),
    {
        if dense_polynomial.coeffs.len() <= self.g2_srs.len() {
            proof {
                crate::commit_laws::lemma_commit_trim(self.g2_view(), dense_polynomial@);
            }
            msm_g2(&self.g2_srs, &dense_polynomial.coeffs)
        } else {
            let trimmed = DensePolynomial::from_coefficients_slice(
                dense_polynomial.coeffs.as_slice(),
            );
            msm_g2(&self.g2_srs, &trimmed.coeffs)
        }
    }

    /// The opening of a polynomial at `z`: its value there, and the
    /// commitment of the quotient of the polynomial less that value by
    /// `X - z`. The string has to reach the degree of the quotient. Under a
    /// string of the powers of a secret that reaches the polynomial, the
    /// opening meets the opening equation, and, where the secret less `z`
    /// has an inverse, it is the commitment of the quotient whose
    /// coefficient `m` is the value at `z` of the polynomial without its
    /// first `m + 1` coefficients.
    pub fn open_g1(&self, f_x: &DensePolynomial, z: Scalar) -> (r: (G1, Scalar))
        requires
            trim(f_x@).len() <= self.g1_srs.len() + 1,
            self.g1_srs.len() >= 1,
        ensures
            r.1@ == poly_eval(f_x@, z@),
            r.0@ == commit_index(
                self.g1_view(),
                linear_quotient(poly_sub(f_x@, seq![poly_eval(f_x@, z@)]), z@),
            ),
            self.consistent() && self.g1_srs.len() >= 2 && trim(f_x@).len() <= self.g1_srs.len()
                ==> self.opening_equation(
                commit_index(self.g1_view(), trim(f_x@)),
                r.0@,
                z@,
                r.1@,
            ),
            forall|d_inv: nat|
                self.consistent() && self.g1_srs.len() >= 2 && f_x@.len() <= self.g1_srs.len()
                    && #[trigger] fmul(fsub(self.secret(), z@), d_inv) == 1 ==> r.0@
                    == commit_index(
                    self.g1_view(),
                    crate::toeplitz_laws::opening_quotient(f_x@, z@),
                ),
    {
        let f_z = f_x.evaluate(&z);
        z.reduced();
        let mut constant: Vec<Scalar> = Vec::new();
        constant.push(f_z);
        let f_z_poly = DensePolynomial { coeffs: constant };
        proof {
            assert(f_z_poly@ =~= seq![f_z@]);
        }
        let shifted = f_x.sub(&f_z_poly);
        let f_q = shifted.divide_by_linear(&z);
        proof {
            lemma_trim_less_constant(f_x@, f_z@);
            lemma_trim_prefix(f_q@);
        }
        let opening = self.commit_g1(&f_q);
        opening.reduced_index();
        proof {
            lemma_trim_prefix(f_x@);
            if self.consistent() && self.g1_srs.len() >= 2 && trim(f_x@).len()
                <= self.g1_srs.len() {
                let s = self.secret();
                let v = f_z@;
                let p = trim(f_x@);
                let len = self.g1_srs.len() as nat;
                crate::poly::lemma_eval_trim(f_x@, s);
                crate::poly::lemma_eval_trim(f_x@, z@);
                // the value of the shifted polynomial is the value less v
                crate::commit_laws::lemma_eval_sub(f_x@, seq![v], s);
                crate::commit_laws::lemma_eval_sub(f_x@, seq![v], z@);
                crate::commit_laws::lemma_eval_constant(v, s);
                crate::commit_laws::lemma_eval_constant(v, z@);
                crate::field_laws::lemma_neutral(v);
                crate::field_laws::lemma_fsub_reduce(v, v);
                crate::field_laws::lemma_fsub_reduce(fsub(poly_eval(f_x@, s), v), 0);
                crate::field_laws::lemma_neutral(fsub(poly_eval(f_x@, s), v));
                assert(fmul(poly_eval(f_q@, s), fsub(s, z@)) == fsub(
                    poly_eval(shifted@, s),
                    poly_eval(shifted@, z@),
                ));
                self.lemma_quotient_opens(s, p, f_q@, z@);
                // the quotient named by its coefficients opens as well
                if f_x@.len() <= self.g1_srs.len() {
                    let quotient = crate::toeplitz_laws::opening_quotient(f_x@, z@);
                    crate::toeplitz_laws::lemma_quotient_identity(f_x@, z@, s);
                    crate::commit_laws::lemma_commit_is_eval(s, len, f_q@);
                    crate::commit_laws::lemma_commit_is_eval(s, len, quotient);
                    crate::algebra::lemma_poly_eval_reduced(quotient, s);
                    assert forall|d_inv: nat| #[trigger]
                        fmul(fsub(s, z@), d_inv) == 1 implies opening@ == commit_index(
                        self.g1_view(),
                        quotient,
                    ) by {
                        crate::toeplitz_laws::lemma_openings_agree(
                            opening@,
                            poly_eval(quotient, s),
                            fsub(s, z@),
                            d_inv,
                        );
                    }
                }
            }
        }
        (opening, f_z)
    }

    /// The equation that an opening has to meet: the opening times
    /// `s - z` is the commitment less the value.
    pub open spec fn opening_equation(self, commitment: nat, opening: nat, z: nat, f_z: nat) -> bool {
        fmul(opening, fsub(self.g2_view()[1], fmul(self.g2_view()[0], z))) == fmul(
            fsub(commitment, fmul(self.g1_view()[0], f_z)),
            self.g2_view()[0],
        )
    }

    /// Under a string of the powers of `s`, the commitment of a quotient
    /// `q` with `q(s) (s - z) = p(s) - p(z)` meets the opening equation for
    /// the commitment of `p`, the point `z` and the value `p(z)`.
    pub proof fn lemma_quotient_opens(self, s: nat, p: Seq<nat>, q: Seq<nat>, z: nat)
        requires
            self.is_powers_of(s),
            self.g1_srs.len() >= 2,
            p.len() <= self.g1_srs.len(),
            q.len() <= self.g1_srs.len(),
            z < modulus(),
            fmul(poly_eval(q, s), fsub(s, z)) == fsub(poly_eval(p, s), poly_eval(p, z)),
        ensures
            self.opening_equation(
                commit_index(self.g1_view(), p),
                commit_index(self.g1_view(), q),
                z,
                poly_eval(p, z),
            ),
    {
        let len = self.g1_srs.len() as nat;
        let v = poly_eval(p, z);
        let cm = poly_eval(p, s);
        let w = poly_eval(q, s);
        crate::commit_laws::lemma_commit_is_eval(s, len, p);
        crate::commit_laws::lemma_commit_is_eval(s, len, q);
        assert(self.g2_view()[1] == fpow(s, 1));
        assert(self.g2_view()[0] == fpow(s, 0));
        assert(self.g1_view()[0] == fpow(s, 0));
        assert(fpow(s, 0) == 1);
        assert(fpow(s, 1) == fmul(1, s));
        crate::field_laws::lemma_neutral(s);
        crate::field_laws::lemma_neutral(z);
        crate::field_laws::lemma_neutral(v);
        crate::field_laws::lemma_fsub_reduce(s, z);
        crate::field_laws::lemma_fsub_reduce(cm, v);
        crate::field_laws::lemma_neutral(fsub(cm, v));
    }

    /// Whether `opening` shows that the polynomial committed to by
    /// `commitment` takes the value `f_z` at `z`: on indices, whether the
    /// opening times `s - z` is the commitment less `f_z`.
    pub fn verify(&self, commitment: G1, opening: G1, z: Scalar, f_z: Scalar) -> (r: bool)
        requires
            self.g1_srs.len() >= 1,
            self.g2_srs.len() >= 2,
        ensures
            r == self.opening_equation(commitment@, opening@, z@, f_z@),
    {
        let x_minus_z_g2 = self.g2_srs[1].sub(&self.g2_srs[0].mul(&z));
        let f_z_g1 = self.g1_srs[0].mul(&f_z);
        let left_side = pairing(&opening, &x_minus_z_g2);
        let right_side = pairing(&commitment.sub(&f_z_g1), &self.g2_srs[0]);
        left_side.eq(&right_side)
    }
}

} // verus!
