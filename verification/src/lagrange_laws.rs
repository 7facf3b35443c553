//! Why the commitments that the preprocessing computes with one transform
//! are the commitments to the Lagrange basis and to its quotients by `X`.
use vstd::prelude::*;
use crate::algebra::{
    commit_index,
    dft,
    domain_element,
    idft,
    inner_product,
    lemma_fpow_reduced,
    poly_eval,
    powers,
    unit_vector,
};
use crate::domain::root_of_unity;
use crate::field::{fadd, finv, fmul, fneg, fpow, modulus};
use crate::field_laws::{
    lemma_distributive,
    lemma_fadd_assoc,
    lemma_fmul_assoc,
    lemma_fmul_comm,
    lemma_fpow_mul,
    lemma_fpow_period,
    lemma_fsub_fadd,
    lemma_neutral,
    lemma_reduce_first,
};
use crate::pre_compute::{lagrange_commitments, quotient_lagrange_commitments};
use crate::protocol::drop_constant;

verus! {

/// A sequence with every entry multiplied by `k`.
pub open spec fn scaled(c: Seq<nat>, k: nat) -> Seq<nat> {
    Seq::new(c.len(), |j: int| fmul(k, c[j]))
}

/// The value of a polynomial whose first `m` coefficients are those of a
/// unit vector.
proof fn lemma_poly_eval_unit_prefix(i: nat, n: nat, y: nat, m: nat)
    requires
        i < n,
        m <= n,
    ensures
        poly_eval(unit_vector(i, n).take(m as int), y) == if m > i {
            fpow(y, i)
        } else {
            0
        },
    decreases m,
{
    let e = unit_vector(i, n);
    if m > 0 {
        lemma_poly_eval_unit_prefix(i, n, y, (m - 1) as nat);
        assert(e.take(m as int).drop_last() =~= e.take(m - 1));
        let last_power = fpow(y, (m - 1) as nat);
        lemma_fpow_reduced(y, (m - 1) as nat);
        lemma_neutral(last_power);
        lemma_fpow_reduced(y, i);
        lemma_neutral(fpow(y, i));
        lemma_neutral(0);
    }
}

/// The polynomial with the coefficients of the unit vector `i` is `X^i`.
pub proof fn lemma_poly_eval_unit(i: nat, n: nat, y: nat)
    requires
        i < n,
    ensures
        poly_eval(unit_vector(i, n), y) == fpow(y, i),
{
    lemma_poly_eval_unit_prefix(i, n, y, n);
    assert(unit_vector(i, n).take(n as int) =~= unit_vector(i, n));
}

/// The sum of the products of the powers of `x` with a sequence is the
/// value at `x` of the polynomial with the sequence as coefficients.
pub proof fn lemma_inner_product_powers(s: Seq<nat>, x: nat)
    ensures
        inner_product(powers(x, s.len()), s) == poly_eval(s, x),
    decreases s.len(),
{
    if s.len() > 0 {
        lemma_inner_product_powers(s.drop_last(), x);
        assert(powers(x, s.len()).drop_last() =~= powers(x, (s.len() - 1) as nat));
        lemma_fmul_comm(s.last(), fpow(x, (s.len() - 1) as nat));
    }
}

/// A factor common to all first entries can be drawn out of the sum of
/// products.
pub proof fn lemma_inner_product_scaled(c: Seq<nat>, s: Seq<nat>, k: nat)
    requires
        c.len() == s.len(),
    ensures
        inner_product(scaled(c, k), s) == fmul(k, inner_product(c, s)),
    decreases c.len(),
{
    if c.len() > 0 {
        lemma_inner_product_scaled(c.drop_last(), s.drop_last(), k);
        assert(scaled(c, k).drop_last() =~= scaled(c.drop_last(), k));
        lemma_distributive(k, inner_product(c.drop_last(), s.drop_last()), fmul(c.last(), s.last()));
        lemma_fmul_assoc(k, c.last(), s.last());
    } else {
        lemma_neutral(k);
    }
}

/// For a root `w` of order `n`: the inverse of `w^j`, raised to `i`, is the
/// inverse of `w^i`, raised to `j`.
pub proof fn lemma_root_power_symmetry(w: nat, n: nat, i: nat, j: nat)
    requires
        fpow(w, n) == 1,
        i < n,
        j < n,
    ensures
        fpow(fpow(w, ((n - j) % (n as int)) as nat), i) == fpow(
            fpow(w, ((n - i) % (n as int)) as nat),
            j,
        ),
{
    let a = ((n - j) % (n as int)) as nat;
    let b = ((n - i) % (n as int)) as nat;
    lemma_fpow_mul(w, a, i);
    lemma_fpow_mul(w, b, j);
    if j == 0 {
        vstd::arithmetic::div_mod::lemma_mod_self_0(n as int);
        assert(a == 0);
        vstd::arithmetic::mul::lemma_mul_basics(i as int);
        vstd::arithmetic::mul::lemma_mul_basics(b as int);
        assert(a * i == 0 && b * j == 0);
    } else if i == 0 {
        vstd::arithmetic::div_mod::lemma_mod_self_0(n as int);
        assert(b == 0);
        vstd::arithmetic::mul::lemma_mul_basics(j as int);
        vstd::arithmetic::mul::lemma_mul_basics(a as int);
        assert(a * i == 0 && b * j == 0);
    } else {
        vstd::arithmetic::div_mod::lemma_small_mod((n - j) as nat, n);
        vstd::arithmetic::div_mod::lemma_small_mod((n - i) as nat, n);
        assert(a * i + j * n == b * j + i * n) by (nonlinear_arith)
            requires
                a == n - j,
                b == n - i,
        ;
        lemma_fpow_period(w, n, a * i, j);
        lemma_fpow_period(w, n, b * j, i);
    }
}

/// The coefficients of the Lagrange polynomial `i`: the powers of the
/// inverse of domain element `i`, each divided by `n`.
pub proof fn lemma_lagrange_coefficients(n: nat, i: nat)
    requires
        i < n,
        domain_element(n, n) == 1,
    ensures
        idft(unit_vector(i, n), n) == scaled(
            powers(domain_element(n, ((n - i) % (n as int)) as nat), n),
            finv(n % modulus()),
        ),
{
    let w = root_of_unity(n);
    let x = domain_element(n, ((n - i) % (n as int)) as nat);
    let ninv = finv(n % modulus());
    let c = idft(unit_vector(i, n), n);
    assert forall|j: int| 0 <= j < n implies c[j] == scaled(powers(x, n), ninv)[j] by {
        let y = domain_element(n, ((n - j) % (n as int)) as nat);
        lemma_poly_eval_unit(i, n, y);
        lemma_root_power_symmetry(w, n, i, j as nat);
    }
    assert(c =~= scaled(powers(x, n), ninv));
}

/// Entry `i` of the commitments that the preprocessing computes from the
/// reference string is the commitment to the Lagrange polynomial `i` of the
/// domain: the polynomial of degree below `n` that is one at domain element
/// `i` and zero at the others.
pub proof fn lemma_lagrange_basis_commitment(srs: Seq<nat>, n: nat, i: nat)
    requires
        i < n <= srs.len(),
        domain_element(n, n) == 1,
    ensures
        lagrange_commitments(srs, n)[i as int] == commit_index(srs, idft(unit_vector(i, n), n)),
{
    let x = domain_element(n, ((n - i) % (n as int)) as nat);
    let ninv = finv(n % modulus());
    let s = srs.take(n as int);
    lemma_lagrange_coefficients(n, i);
    lemma_inner_product_scaled(powers(x, n), s, ninv);
    lemma_inner_product_powers(s, x);
    lemma_fmul_comm(ninv, poly_eval(s, x));
    assert(dft(s, n)[(n - i) % (n as int)] == poly_eval(s, x));
}

/// The powers of `x` from the first on: `x`, `x^2`, up to `x^m`.
pub open spec fn shifted_powers(x: nat, m: nat) -> Seq<nat> {
    Seq::new(m, |j: int| fpow(x, (j + 1) as nat))
}

/// The sum of the products of the shifted powers of `x` with a sequence is
/// `x` times the value at `x` of the polynomial with the sequence as
/// coefficients.
pub proof fn lemma_inner_product_shifted_powers(s: Seq<nat>, x: nat)
    ensures
        inner_product(shifted_powers(x, s.len()), s) == fmul(x, poly_eval(s, x)),
    decreases s.len(),
{
    if s.len() > 0 {
        let m = s.len();
        let rest = s.drop_last();
        lemma_inner_product_shifted_powers(rest, x);
        assert(shifted_powers(x, m).drop_last() =~= shifted_powers(x, (m - 1) as nat));
        let xp = fpow(x, (m - 1) as nat);
        let sl = s.last();
        lemma_distributive(x, poly_eval(rest, x), fmul(sl, xp));
        // x (sl xp) == (x^m) sl
        lemma_fmul_assoc(x, sl, xp);
        lemma_fmul_comm(x, sl);
        lemma_fmul_assoc(sl, x, xp);
        lemma_fmul_comm(x, xp);
        assert(fpow(x, m) == fmul(xp, x));
        lemma_fmul_comm(sl, fpow(x, m));
    } else {
        lemma_neutral(x);
    }
}

/// Entry `i` of the commitments to the quotients that the preprocessing
/// computes is the commitment to `(L_i(X) - L_i(0)) / X`, the Lagrange
/// polynomial `i` without its constant coefficient, divided by `X`.
pub proof fn lemma_quotient_lagrange_commitment(srs: Seq<nat>, n: nat, i: nat)
    requires
        i < n <= srs.len(),
        domain_element(n, n) == 1,
    ensures
        quotient_lagrange_commitments(lagrange_commitments(srs, n), srs)[i as int] == commit_index(
            srs,
            drop_constant(idft(unit_vector(i, n), n)),
        ),
{
    let w = root_of_unity(n);
    let b = ((n - i) % (n as int)) as nat;
    let x = domain_element(n, b);
    let ninv = finv(n % modulus());
    let s = srs.take(n as int);
    let s1 = srs.take(n - 1);
    let last = srs[n - 1];
    let xp = fpow(x, (n - 1) as nat);
    let inner_value = poly_eval(s1, x);
    let p = poly_eval(s, x);
    let target = fmul(ninv, fmul(x, inner_value));
    // the right-hand side is the target
    lemma_lagrange_coefficients(n, i);
    let d = drop_constant(idft(unit_vector(i, n), n));
    assert(d =~= scaled(shifted_powers(x, (n - 1) as nat), ninv));
    assert(srs.take(d.len() as int) =~= s1);
    lemma_inner_product_scaled(shifted_powers(x, (n - 1) as nat), s1, ninv);
    lemma_inner_product_shifted_powers(s1, x);
    assert(commit_index(srs, d) == target);
    // the left-hand side
    let l_i = lagrange_commitments(srs, n)[i as int];
    assert(dft(s, n)[(n - i) % (n as int)] == p);
    assert(l_i == fmul(p, ninv));
    assert(domain_element(n, (n - i) as nat) == x) by {
        if i == 0 {
            vstd::arithmetic::div_mod::lemma_mod_self_0(n as int);
            assert(fpow(w, 0) == 1);
        } else {
            vstd::arithmetic::div_mod::lemma_small_mod((n - i) as nat, n);
        }
    }
    let lhs = fadd(fmul(l_i, x), fmul(last, fneg(ninv)));
    assert(quotient_lagrange_commitments(lagrange_commitments(srs, n), srs)[i as int] == lhs);
    // x to the n is one
    assert(fpow(x, n) == 1) by {
        lemma_fpow_mul(w, b, n);
        assert(b * n == 0 + b * n);
        lemma_fpow_period(w, n, 0, b);
        assert(fpow(w, 0) == 1);
    }
    assert(fpow(x, n) == fmul(xp, x));
    // p = inner_value + last xp
    assert(s.drop_last() =~= s1);
    let t = fmul(last, xp);
    assert(p == fadd(inner_value, t));
    let k = fmul(ninv, x);
    lemma_fmul_assoc(p, ninv, x);
    lemma_distributive(k, inner_value, t);
    assert(fmul(l_i, x) == fadd(fmul(inner_value, k), fmul(t, k)));
    // inner_value k is the target
    lemma_fmul_comm(inner_value, k);
    lemma_fmul_assoc(ninv, x, inner_value);
    assert(fmul(inner_value, k) == target);
    // t k is last ninv
    lemma_fmul_assoc(last, xp, k);
    lemma_fmul_assoc(xp, ninv, x);
    lemma_fmul_comm(xp, ninv);
    lemma_fmul_assoc(ninv, xp, x);
    lemma_neutral(ninv);
    lemma_reduce_first(last, ninv);
    assert(fmul(t, k) == fmul(last, ninv));
    // last ninv + last (-ninv) is zero
    lemma_distributive(last, ninv, fneg(ninv));
    lemma_fsub_fadd(ninv, ninv);
    lemma_neutral(last);
    assert(fadd(fmul(last, ninv), fmul(last, fneg(ninv))) == 0);
    lemma_fadd_assoc(target, fmul(last, ninv), fmul(last, fneg(ninv)));
    lemma_neutral(target);
}

} // verus!
