//! Commitments to the Lagrange basis of an evaluation domain, and to the
//! quotients of its polynomials by `X`, computed from the reference string
//! with one Fourier transform in the group.
use vstd::prelude::*;
use crate::algebra::{commit_index, dft, domain_element, idft, unit_vector};
use crate::domain::{domain_size_ok, Domain};
use crate::field::{fadd, finv, fmul, fneg, modulus};
use crate::group::{g1s_view, G1};
use crate::lagrange_laws::{lemma_lagrange_basis_commitment, lemma_quotient_lagrange_commitment};
use crate::protocol::drop_constant;

verus! {

/// The commitments to the Lagrange basis of the domain of size `n` under
/// the reference string `srs`: entry `i` is the transform of the string's
/// first `n` entries at position `-i`, divided by `n`.
pub open spec fn lagrange_commitments(srs: Seq<nat>, n: nat) -> Seq<nat> {
    Seq::new(
        n,
        |i: int| fmul(dft(srs.take(n as int), n)[(n - i) % (n as int)], finv(n % modulus())),
    )
}

/// The commitments to `(L_i(X) - L_i(0)) / X` from the commitments `l` to
/// the Lagrange basis `L_i`: entry `i` is `l[i]` times the inverse of domain
/// element `i`, less the string's entry `n - 1` divided by `n`.
pub open spec fn quotient_lagrange_commitments(l: Seq<nat>, srs: Seq<nat>) -> Seq<nat> {
    Seq::new(
        l.len(),
        |i: int|
            fadd(
                fmul(l[i], domain_element(l.len(), (l.len() - i) as nat)),
                fmul(srs[l.len() - 1], fneg(finv(l.len() % modulus()))),
            ),
    )
}

/// The commitments to the Lagrange basis polynomials of the domain of size
/// `n`, from the first `n` entries of the reference string.
pub fn fast_lagrange_basis_commitments_computation(srs: &[G1], n: usize) -> (r: Vec<G1>)
    requires
        domain_size_ok(n as nat),
        n <= srs.len(),
    ensures
        r.len() == n,
        g1s_view(r@) == lagrange_commitments(g1s_view(srs@), n as nat),
        forall|i: int|
            0 <= i < n ==> (#[trigger] r[i])@ == commit_index(
                g1s_view(srs@),
                idft(unit_vector(i as nat, n as nat), n as nat),
            ),
{
    let domain = Domain::new(n).unwrap();
    proof {
        use_type_invariant(&domain);
        domain.lemma_order();
    }
    let n_inv = domain.size_inv();
    let mut coefficients: Vec<G1> = Vec::new();
    let mut k: usize = 0;
    while k < n
        invariant
            k <= n,
            n <= srs.len(),
            coefficients@ == srs@.take(k as int),
        decreases n - k,
    {
        coefficients.push(srs[k]);
        proof {
            assert(srs@.take(k as int).push(srs@[k as int]) =~= srs@.take(k + 1));
        }
        k += 1;
    }
    proof {
        assert(g1s_view(coefficients@) =~= g1s_view(srs@).take(n as int));
    }
    let evals = domain.fft_g1(&coefficients);
    let mut out: Vec<G1> = Vec::new();
    let mut i: usize = 0;
    while i < n
        invariant
            i <= n,
            n >= 1,
            evals.len() == n,
            n_inv@ == finv((n as nat) % modulus()),
            g1s_view(evals@) == dft(g1s_view(srs@).take(n as int), n as nat),
            out.len() == i,
            forall|j: int|
                0 <= j < i ==> out[j]@ == lagrange_commitments(g1s_view(srs@), n as nat)[j],
        decreases n - i,
    {
        let at = if i == 0 {
            0
        } else {
            n - i
        };
        proof {
            assert(at == (n - i) % (n as int)) by {
                if i == 0 {
                    vstd::arithmetic::div_mod::lemma_mod_self_0(n as int);
                } else {
                    vstd::arithmetic::div_mod::lemma_small_mod((n - i) as nat, n as nat);
                }
            }
            assert(g1s_view(evals@)[at as int] == evals[at as int]@);
        }
        out.push(evals[at].mul(&n_inv));
        i += 1;
    }
    proof {
        assert(g1s_view(out@) =~= lagrange_commitments(g1s_view(srs@), n as nat));
        assert forall|i: int| 0 <= i < n implies (#[trigger] out[i])@ == commit_index(
            g1s_view(srs@),
            idft(unit_vector(i as nat, n as nat), n as nat),
        ) by {
            lemma_lagrange_basis_commitment(g1s_view(srs@), n as nat, i as nat);
            assert(g1s_view(out@)[i] == out[i]@);
        }
    }
    out
}

/// The commitments to the quotients `(L_i(X) - L_i(0)) / X` of the Lagrange
/// basis, from the commitments to the basis.
pub fn compute_quotient_lagrange_basic_commitments(l_i_commitments: &[G1], srs: &[G1]) -> (r: Vec<
    G1,
>)
    requires
        domain_size_ok(l_i_commitments.len() as nat),
        l_i_commitments.len() <= srs.len(),
    ensures
        r.len() == l_i_commitments.len(),
        g1s_view(r@) == quotient_lagrange_commitments(
            g1s_view(l_i_commitments@),
            g1s_view(srs@),
        ),
        g1s_view(l_i_commitments@) == lagrange_commitments(
            g1s_view(srs@),
            l_i_commitments.len() as nat,
        ) ==> forall|i: int|
            0 <= i < r.len() ==> (#[trigger] r[i])@ == commit_index(
                g1s_view(srs@),
                drop_constant(
                    idft(
                        unit_vector(i as nat, l_i_commitments.len() as nat),
                        l_i_commitments.len() as nat,
                    ),
                ),
            ),
{
    let n = l_i_commitments.len();
    let domain = Domain::new(n).unwrap();
    proof {
        use_type_invariant(&domain);
        domain.lemma_order();
    }
    let n_inv = domain.size_inv();
    let sub = srs[n - 1].mul(&n_inv.neg());
    let mut res: Vec<G1> = Vec::new();
    let mut i: usize = 0;
    while i < n
        invariant
            i <= n,
            n == l_i_commitments.len(),
            n <= srs.len(),
            domain.spec_size() == n,
            sub@ == fmul(g1s_view(srs@)[n - 1], fneg(finv((n as nat) % modulus()))),
            res.len() == i,
            forall|j: int|
                0 <= j < i ==> res[j]@ == quotient_lagrange_commitments(
                    g1s_view(l_i_commitments@),
                    g1s_view(srs@),
                )[j],
        decreases n - i,
    {
        let quotient_com = l_i_commitments[i].mul(&domain.element(n - i));
        res.push(quotient_com.add(&sub));
        i += 1;
    }
    proof {
        assert(g1s_view(res@) =~= quotient_lagrange_commitments(
            g1s_view(l_i_commitments@),
            g1s_view(srs@),
        ));
        if g1s_view(l_i_commitments@) == lagrange_commitments(g1s_view(srs@), n as nat) {
            assert forall|i: int| 0 <= i < n implies (#[trigger] res[i])@ == commit_index(
                g1s_view(srs@),
                drop_constant(idft(unit_vector(i as nat, n as nat), n as nat)),
            ) by {
                lemma_quotient_lagrange_commitment(g1s_view(srs@), n as nat, i as nat);
                assert(g1s_view(res@)[i] == res[i]@);
            }
        }
    }
    res
}

} // verus!
