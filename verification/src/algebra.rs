//! The arithmetic that the contracts of this crate speak of: sums of
//! products, polynomial values and discrete Fourier transforms, all in the
//! scalar field and on plain sequences of residues.
use vstd::prelude::*;
use crate::domain::root_of_unity;
use crate::field::{fadd, finv, fmul, fpow, modulus};

verus! {

/// `n` is a power of two.
pub open spec fn is_pow2(n: nat) -> bool
    decreases n,
{
    n == 1 || (n > 1 && n % 2 == 0 && is_pow2(n / 2))
}

/// The sum of the products of two sequences of the same length, entry by
/// entry.
pub open spec fn inner_product(a: Seq<nat>, b: Seq<nat>) -> nat
    decreases a.len(),
{
    if a.len() == 0 || b.len() == 0 {
        0
    } else {
        fadd(inner_product(a.drop_last(), b.drop_last()), fmul(a.last(), b.last()))
    }
}

/// The first `n` powers of `x`, starting with one.
pub open spec fn powers(x: nat, n: nat) -> Seq<nat> {
    Seq::new(n, |i: int| fpow(x, i as nat))
}

/// The value at `x` of the polynomial whose coefficient of `X^i` is
/// `coeffs[i]`.
pub open spec fn poly_eval(coeffs: Seq<nat>, x: nat) -> nat
    decreases coeffs.len(),
{
    if coeffs.len() == 0 {
        0
    } else {
        fadd(
            poly_eval(coeffs.drop_last(), x),
            fmul(coeffs.last(), fpow(x, (coeffs.len() - 1) as nat)),
        )
    }
}

/// The commitment of a polynomial under a reference string, on indices:
/// each coefficient times the string's entry of the same position, summed.
pub open spec fn commit_index(srs: Seq<nat>, coeffs: Seq<nat>) -> nat {
    inner_product(coeffs, srs.take(coeffs.len() as int))
}

/// Element `i` of the evaluation domain of size `n`.
pub open spec fn domain_element(n: nat, i: nat) -> nat {
    fpow(root_of_unity(n), i)
}

/// The values of a polynomial on the evaluation domain of size `n`.
pub open spec fn dft(coeffs: Seq<nat>, n: nat) -> Seq<nat> {
    Seq::new(n, |i: int| poly_eval(coeffs, domain_element(n, i as nat)))
}

/// The inverse transform: entry `j` is the value at the inverse of domain
/// element `j`, divided by `n`. It gives the coefficients of the polynomial
/// of degree below `n` with the values `evals` on the domain.
pub open spec fn idft(evals: Seq<nat>, n: nat) -> Seq<nat> {
    Seq::new(
        n,
        |j: int| fmul(finv(n % modulus()), poly_eval(evals, domain_element(n, ((n - j) % (n as int)) as nat))),
    )
}

/// The sequence of length `n` that is one at `i` and zero elsewhere.
pub open spec fn unit_vector(i: nat, n: nat) -> Seq<nat> {
    Seq::new(
        n,
        |k: int|
            if k == i {
                1nat
            } else {
                0nat
            },
    )
}

/// A power in the field is a reduced residue.
pub proof fn lemma_fpow_reduced(x: nat, k: nat)
    ensures
        fpow(x, k) < modulus(),
{
    if k > 0 {
        assert(fpow(x, k) == fmul(fpow(x, (k - 1) as nat), x));
    }
}

/// The first power of a reduced residue is the residue.
pub proof fn lemma_fpow_one(x: nat)
    requires
        x < modulus(),
    ensures
        fpow(x, 1) == x,
        fpow(x, 0) == 1,
{
    assert(fpow(x, 0) == 1);
    assert(fpow(x, 1) == fmul(fpow(x, 0), x));
    assert(1 * x == x);
    vstd::arithmetic::div_mod::lemma_small_mod(x, modulus());
}

/// A power of the first power of `x` is that power of `x`.
pub proof fn lemma_fpow_of_first_power(x: nat, k: nat)
    ensures
        fpow(fpow(x, 1), k) == fpow(x, k),
    decreases k,
{
    let y = fpow(x, 1);
    assert(fpow(x, 0) == 1);
    assert(y == fmul(1, x));
    assert(y == x % modulus()) by {
        assert(1 * x == x);
    }
    if k > 0 {
        lemma_fpow_of_first_power(x, (k - 1) as nat);
        let p = fpow(x, (k - 1) as nat);
        assert(fpow(y, k) == fmul(p, y));
        assert(fpow(x, k) == fmul(p, x));
        vstd::arithmetic::div_mod::lemma_mul_mod_noop_right(p as int, x as int, modulus() as int);
    }
}

/// The value of a polynomial is a reduced residue.
pub proof fn lemma_poly_eval_reduced(coeffs: Seq<nat>, x: nat)
    ensures
        poly_eval(coeffs, x) < modulus(),
{
}

/// The sum of products of two pairs.
pub proof fn lemma_inner_product_pair(a: Seq<nat>, b: Seq<nat>)
    requires
        a.len() == 2,
        b.len() == 2,
    ensures
        inner_product(a, b) == fadd(fmul(a[0], b[0]), fmul(a[1], b[1])),
{
    let a1 = a.drop_last();
    let b1 = b.drop_last();
    assert(a1.len() == 1 && b1.len() == 1);
    assert(a1.drop_last().len() == 0);
    assert(inner_product(a1.drop_last(), b1.drop_last()) == 0);
    assert(inner_product(a1, b1) == fadd(0, fmul(a1.last(), b1.last())));
    assert(a1.last() == a[0] && b1.last() == b[0]);
    vstd::arithmetic::div_mod::lemma_small_mod(fmul(a[0], b[0]), modulus());
    assert(inner_product(a, b) == fadd(inner_product(a1, b1), fmul(a.last(), b.last())));
}

/// Every entry is a reduced residue.
pub open spec fn all_reduced(s: Seq<nat>) -> bool {
    forall|i: int| 0 <= i < s.len() ==> s[i] < modulus()
}

} // verus!
