//! Why the Feist-Khovratovich computation gives the commitments to the
//! quotients of a polynomial by the linear factors of a domain.
use vstd::prelude::*;
use crate::algebra::{
    all_reduced,
    commit_index,
    dft,
    domain_element,
    poly_eval,
};
use crate::convolution::{cyclic_convolution, lemma_convolution_value};
use crate::domain::root_of_unity;
use crate::feist_khovratovich_alg::{hadamard, reversed_padded, shifted_column};
use crate::field::{fadd, fmul, fpow, fsub, modulus};
use crate::field_laws::{
    lemma_fmul_assoc,
    lemma_fmul_comm,
    lemma_fpow_mul,
    lemma_fpow_period,
    lemma_neutral,
};
use crate::sums::{
    fsum,
    lemma_fsum_ext,
    lemma_fsum_reduced,
    lemma_fsum_reverse,
    lemma_fsum_scale,
    lemma_fsum_split,
    lemma_fsum_swap,
    lemma_fsum_zero,
    lemma_inner_product_fsum,
    lemma_poly_eval_fsum,
};

verus! {

/// One term of an entry of the h-vector: the string's entry `m` times the
/// coefficient that stands `k + 1` places higher, while there is one.
pub open spec fn h_term(column: Seq<nat>, srs: Seq<nat>, k: int, m: int) -> nat {
    if m + k + 1 < column.len() {
        fmul(srs[m], column[k + m])
    } else {
        0
    }
}

/// Entry `k` of the h-vector of a polynomial `T` with the Toeplitz column
/// `column`: the commitment to `T_{k+1} + T_{k+2} X + ...`.
pub open spec fn h_entry(column: Seq<nat>, srs: Seq<nat>, k: int) -> nat {
    fsum(|m: int| h_term(column, srs, k, m), column.len())
}

/// Every power of an element of a domain of size `n` has order dividing
/// `n`.
pub proof fn lemma_domain_element_order(n: nat, i: nat)
    requires
        domain_element(n, n) == 1,
    ensures
        fpow(domain_element(n, i), n) == 1,
{
    let w = root_of_unity(n);
    lemma_fpow_mul(w, i, n);
    assert(i * n == 0 + i * n);
    lemma_fpow_period(w, n, 0, i);
    assert(fpow(w, 0) == 1);
}

/// Entry `k` of the cyclic convolution of the reversed string with the
/// shifted column is entry `k` of the h-vector.
pub proof fn lemma_convolution_entry(column: Seq<nat>, srs: Seq<nat>, k: int)
    requires
        0 <= k < column.len() <= srs.len(),
    ensures
        cyclic_convolution(
            reversed_padded(srs, column.len()),
            shifted_column(column),
            2 * column.len(),
        )[k] == h_entry(column, srs, k),
{
    let p = column.len();
    let n = 2 * p;
    let a = reversed_padded(srs, p);
    let b = shifted_column(column);
    let f = |u: int| fmul(a[u], b[(k - u) % (n as int)]);
    let t = |m: int| h_term(column, srs, k, m);
    let rev = |u: int| t(p - 1 - u);
    let upper = |i: int| f(p + i);
    lemma_fsum_split(f, p, p);
    assert forall|i: int| 0 <= i < p implies #[trigger] upper(i) == 0 by {
        lemma_neutral(b[(k - (p + i)) % (n as int)]);
    }
    lemma_fsum_zero(upper, p);
    lemma_fsum_ext(|i: int| f(p + i), upper, p);
    assert forall|u: int| 0 <= u < p implies #[trigger] f(u) == rev(u) by {
        let m = p - 1 - u;
        assert(a[u] == srs[m]);
        if u <= k {
            vstd::arithmetic::div_mod::lemma_small_mod((k - u) as nat, n);
            assert(b[(k - u) % (n as int)] == 0);
            lemma_neutral(srs[m]);
        } else {
            let w = k - u + n;
            vstd::arithmetic::div_mod::lemma_mod_add_multiples_vanish(k - u, n as int);
            vstd::arithmetic::div_mod::lemma_small_mod(w as nat, n);
            assert((k - u) % (n as int) == w);
            assert(b[w] == column[k + m]);
        }
    }
    lemma_fsum_ext(f, rev, p);
    lemma_fsum_reverse(t, p);
    lemma_fsum_ext(|u: int| t(p - 1 - u), rev, p);
    lemma_fsum_reduced(t, p);
    lemma_neutral(fsum(t, p));
    lemma_fsum_ext(|m: int| h_term(column, srs, k, m), t, p);
    lemma_fsum_ext(|u: int| fmul(a[u], b[(k - u) % (n as int)]), f, n);
    assert(p + p == n);
}

/// The transform of the cyclic convolution of two sequences is the product
/// of their transforms, entry by entry.
pub proof fn lemma_convolution_transform(a: Seq<nat>, b: Seq<nat>, n: nat)
    requires
        a.len() == n,
        b.len() == n,
        domain_element(n, n) == 1,
    ensures
        dft(cyclic_convolution(a, b, n), n) == hadamard(dft(a, n), dft(b, n)),
        all_reduced(cyclic_convolution(a, b, n)),
        cyclic_convolution(a, b, n).len() == n,
{
    let c = cyclic_convolution(a, b, n);
    assert forall|i: int| 0 <= i < n implies dft(c, n)[i] == hadamard(dft(a, n), dft(b, n))[i] by {
        let x = domain_element(n, i as nat);
        lemma_domain_element_order(n, i as nat);
        lemma_convolution_value(a, b, n, x);
    }
    assert(dft(c, n) =~= hadamard(dft(a, n), dft(b, n)));
    assert forall|k: int| 0 <= k < c.len() implies c[k] < modulus() by {
        lemma_fsum_reduced(|u: int| fmul(a[u], b[(k - u) % (n as int)]), n);
    }
}

/// The coefficients of the quotient of the polynomial `t` by `X - y`:
/// entry `m` is the value at `y` of `t` without its first `m + 1`
/// coefficients. The last entry is zero.
pub open spec fn opening_quotient(t: Seq<nat>, y: nat) -> Seq<nat> {
    Seq::new(t.len(), |m: int| poly_eval(t.skip(m + 1), y))
}

/// The value of a polynomial from its constant coefficient and the value of
/// the rest: `c0 + z rest(z)`.
pub proof fn lemma_poly_eval_front(c: Seq<nat>, z: nat)
    requires
        c.len() > 0,
    ensures
        poly_eval(c, z) == fadd(c[0], fmul(z, poly_eval(c.skip(1), z))),
    decreases c.len(),
{
    let rest = c.skip(1);
    if c.len() == 1 {
        assert(c.drop_last().len() == 0);
        assert(poly_eval(c.drop_last(), z) == 0);
        assert(fpow(z, 0) == 1);
        assert(poly_eval(rest, z) == 0);
        lemma_neutral(c[0]);
        lemma_neutral(fmul(c[0], 1));
        lemma_neutral(z);
    } else {
        let n = c.len();
        lemma_poly_eval_front(c.drop_last(), z);
        assert(c.drop_last().skip(1) =~= rest.drop_last());
        let inner = poly_eval(rest.drop_last(), z);
        let zp = fpow(z, (n - 2) as nat);
        // poly_eval(c) = (c0 + z inner) + c_last z^(n-1)
        // poly_eval(rest) = inner + c_last z^(n-2)
        assert(rest.last() == c.last());
        assert(fpow(z, (n - 1) as nat) == fmul(zp, z));
        crate::field_laws::lemma_distributive(z, inner, fmul(c.last(), zp));
        lemma_fmul_assoc(z, c.last(), zp);
        lemma_fmul_comm(z, c.last());
        lemma_fmul_assoc(c.last(), z, zp);
        lemma_fmul_comm(z, zp);
        crate::field_laws::lemma_fadd_assoc(c[0], fmul(z, inner), fmul(c.last(), fmul(zp, z)));
    }
}

/// One step of the division by `X - y`: if `q (x - y) = tx - qm`, then
/// `(qm + x q) (x - y) = (tm + x tx) - (tm + y qm)`.
proof fn lemma_division_step(qm: nat, q: nat, tx: nat, tm: nat, x: nat, y: nat)
    requires
        fmul(q, fsub(x, y)) == fsub(tx, qm),
    ensures
        fmul(fadd(qm, fmul(x, q)), fsub(x, y)) == fsub(
            fadd(tm, fmul(x, tx)),
            fadd(tm, fmul(y, qm)),
        ),
{
    let r = modulus() as int;
    let d = fsub(x, y);
    let (qmi, qi, txi, tmi, xi, yi) = (qm as int, q as int, tx as int, tm as int, x as int, y as int);
    // everything modulo r, on integers
    let lhs = (qmi + xi * qi) * (xi - yi);
    let rhs = (tmi + xi * txi) - (tmi + yi * qmi);
    // the left-hand side of the claim is lhs mod r
    assert(fmul(fadd(qm, fmul(x, q)), d) == lhs % r) by {
        vstd::arithmetic::div_mod::lemma_mul_mod_noop_general(qmi + xi * qi, xi - yi, r);
        vstd::arithmetic::div_mod::lemma_add_mod_noop(qmi, xi * qi, r);
        vstd::arithmetic::div_mod::lemma_mod_twice(xi * qi, r);
        vstd::arithmetic::div_mod::lemma_add_mod_noop(qmi, (xi * qi) % r, r);
        vstd::arithmetic::div_mod::lemma_mul_mod_noop_general(
            (qmi + (xi * qi) % r) % r,
            (xi - yi) % r,
            r,
        );
        vstd::arithmetic::div_mod::lemma_mod_twice(xi - yi, r);
        vstd::arithmetic::div_mod::lemma_mod_twice(qmi + xi * qi, r);
    }
    // the right-hand side of the claim is rhs mod r
    assert(fsub(fadd(tm, fmul(x, tx)), fadd(tm, fmul(y, qm))) == rhs % r) by {
        vstd::arithmetic::div_mod::lemma_sub_mod_noop(tmi + xi * txi, tmi + yi * qmi, r);
        vstd::arithmetic::div_mod::lemma_add_mod_noop(tmi, xi * txi, r);
        vstd::arithmetic::div_mod::lemma_add_mod_noop(tmi, (xi * txi) % r, r);
        vstd::arithmetic::div_mod::lemma_add_mod_noop(tmi, yi * qmi, r);
        vstd::arithmetic::div_mod::lemma_add_mod_noop(tmi, (yi * qmi) % r, r);
        vstd::arithmetic::div_mod::lemma_mod_twice(xi * txi, r);
        vstd::arithmetic::div_mod::lemma_mod_twice(yi * qmi, r);
        vstd::arithmetic::div_mod::lemma_sub_mod_noop(
            (tmi + (xi * txi) % r) % r,
            (tmi + (yi * qmi) % r) % r,
            r,
        );
        vstd::arithmetic::div_mod::lemma_mod_twice(tmi + xi * txi, r);
        vstd::arithmetic::div_mod::lemma_mod_twice(tmi + yi * qmi, r);
    }
    // the hypothesis: q (x - y) and tx - qm agree modulo r
    let hl = qi * (xi - yi);
    let hr = txi - qmi;
    assert(hl % r == hr % r) by {
        vstd::arithmetic::div_mod::lemma_mul_mod_noop_general(qi, xi - yi, r);
        vstd::arithmetic::div_mod::lemma_mod_twice(xi - yi, r);
    }
    // lhs - rhs = x (hl - hr)
    assert(lhs - rhs == xi * (hl - hr)) by (nonlinear_arith)
        requires
            lhs == (qmi + xi * qi) * (xi - yi),
            rhs == (tmi + xi * txi) - (tmi + yi * qmi),
            hl == qi * (xi - yi),
            hr == txi - qmi,
    ;
    assert((hl - hr) % r == 0) by {
        vstd::arithmetic::div_mod::lemma_sub_mod_noop(hl, hr, r);
    }
    assert((xi * (hl - hr)) % r == 0) by {
        vstd::arithmetic::div_mod::lemma_mul_mod_noop_general(xi, hl - hr, r);
        vstd::arithmetic::mul::lemma_mul_basics(xi % r);
    }
    assert(lhs % r == rhs % r) by {
        vstd::arithmetic::div_mod::lemma_sub_mod_noop(lhs, rhs, r);
        vstd::arithmetic::div_mod::lemma_fundamental_div_mod(lhs, r);
        vstd::arithmetic::div_mod::lemma_fundamental_div_mod(rhs, r);
        vstd::arithmetic::div_mod::lemma_mod_bound(lhs, r);
        vstd::arithmetic::div_mod::lemma_mod_bound(rhs, r);
        let diff = lhs % r - rhs % r;
        assert(diff % r == 0);
        assert(-r < diff < r);
        if diff != 0 {
            if diff > 0 {
                vstd::arithmetic::div_mod::lemma_small_mod(diff as nat, r as nat);
            } else {
                vstd::arithmetic::div_mod::lemma_mod_add_multiples_vanish(diff, r);
                vstd::arithmetic::div_mod::lemma_small_mod((diff + r) as nat, r as nat);
            }
        }
    }
}

/// The quotient times `X - y` is the polynomial less its value at `y`, from
/// coefficient `m` on.
proof fn lemma_quotient_identity_from(t: Seq<nat>, y: nat, x: nat, m: int)
    requires
        0 <= m <= t.len(),
    ensures
        fmul(poly_eval(opening_quotient(t, y).skip(m), x), fsub(x, y)) == fsub(
            poly_eval(t.skip(m), x),
            poly_eval(t.skip(m), y),
        ),
    decreases t.len() - m,
{
    let q = opening_quotient(t, y);
    if m == t.len() {
        assert(q.skip(m).len() == 0);
        assert(t.skip(m).len() == 0);
        lemma_neutral(fsub(x, y));
        crate::field_laws::lemma_fsub_reduce(0, 0);
    } else {
        lemma_quotient_identity_from(t, y, x, m + 1);
        let (qs, ts) = (q.skip(m), t.skip(m));
        assert(qs.skip(1) =~= q.skip(m + 1));
        assert(ts.skip(1) =~= t.skip(m + 1));
        lemma_poly_eval_front(qs, x);
        lemma_poly_eval_front(ts, x);
        lemma_poly_eval_front(ts, y);
        assert(qs[0] == poly_eval(t.skip(m + 1), y));
        lemma_division_step(
            qs[0],
            poly_eval(q.skip(m + 1), x),
            poly_eval(t.skip(m + 1), x),
            ts[0],
            x,
            y,
        );
    }
}

/// The opening quotient is the quotient: times `X - y` it is the
/// polynomial less its value at `y`, at every point.
pub proof fn lemma_quotient_identity(t: Seq<nat>, y: nat, x: nat)
    ensures
        fmul(poly_eval(opening_quotient(t, y), x), fsub(x, y)) == fsub(
            poly_eval(t, x),
            poly_eval(t, y),
        ),
{
    lemma_quotient_identity_from(t, y, x, 0);
    assert(t.skip(0) =~= t);
    assert(opening_quotient(t, y).skip(0) =~= opening_quotient(t, y));
}

/// The h-vector of the polynomial `t` under the string `srs`: entry `k`
/// is the commitment to `t` without its first `k + 1` coefficients.
pub open spec fn h_vector(t: Seq<nat>, srs: Seq<nat>) -> Seq<nat> {
    Seq::new(
        t.len(),
        |k: int| h_entry(crate::feist_khovratovich_alg::toeplitz_column(t, t.len()), srs, k),
    )
}

/// The terms of the value of the h-vector at `y` that belong to the
/// string's entry `m` sum to that entry times the quotient's coefficient
/// `m`.
proof fn lemma_h_column(t: Seq<nat>, srs: Seq<nat>, y: nat, m: int)
    requires
        0 <= m < t.len() <= srs.len(),
    ensures
        fsum(
            |k: int|
                fmul(
                    fpow(y, k as nat),
                    h_term(crate::feist_khovratovich_alg::toeplitz_column(t, t.len()), srs, k, m),
                ),
            t.len(),
        ) == fmul(srs[m], opening_quotient(t, y)[m]),
{
    let p = t.len();
    let column = crate::feist_khovratovich_alg::toeplitz_column(t, p);
    let g = |k: int| fmul(fpow(y, k as nat), h_term(column, srs, k, m));
    let rest = t.skip(m + 1);
    let e = |k: int| fmul(rest[k], fpow(y, k as nat));
    let scaled = |k: int| fmul(srs[m], e(k));
    let low = (p - 1 - m) as nat;
    let high = (m + 1) as nat;
    lemma_fsum_split(g, low, high);
    let upper = |i: int| g(low + i);
    assert forall|i: int| 0 <= i < high implies #[trigger] upper(i) == 0 by {
        lemma_neutral(fpow(y, (low + i) as nat));
    }
    lemma_fsum_zero(upper, high);
    lemma_fsum_ext(|i: int| g(low + i), upper, high);
    assert forall|k: int| 0 <= k < low implies #[trigger] g(k) == scaled(k) by {
        assert(column[k + m] == t[k + m + 1]);
        assert(rest[k] == t[k + m + 1]);
        let yk = fpow(y, k as nat);
        lemma_fmul_comm(yk, fmul(srs[m], rest[k]));
        lemma_fmul_assoc(srs[m], rest[k], yk);
    }
    lemma_fsum_ext(g, scaled, low);
    lemma_fsum_scale(e, srs[m], low);
    lemma_fsum_ext(|i: int| fmul(srs[m], e(i)), scaled, low);
    lemma_poly_eval_fsum(rest, y);
    lemma_fsum_ext(|i: int| fmul(rest[i], fpow(y, i as nat)), e, low);
    lemma_fsum_reduced(scaled, low);
    lemma_neutral(fsum(scaled, low));
    assert(low + high == p);
}

/// The value of the h-vector at a point `y` is the commitment to the
/// quotient of the polynomial by `X - y`. At the elements of the domain,
/// these values are what the transform of the h-vector gives: the openings
/// of the polynomial at all elements of the domain.
pub proof fn lemma_h_vector_opens(t: Seq<nat>, srs: Seq<nat>, y: nat)
    requires
        t.len() <= srs.len(),
    ensures
        poly_eval(h_vector(t, srs), y) == commit_index(srs, opening_quotient(t, y)),
{
    let p = t.len();
    let column = crate::feist_khovratovich_alg::toeplitz_column(t, p);
    let h = h_vector(t, srs);
    let q = opening_quotient(t, y);
    let term = |k: int, m: int| fmul(fpow(y, k as nat), h_term(column, srs, k, m));
    let by_k = |k: int| fsum(|m: int| term(k, m), p);
    let by_m = |m: int| fsum(|k: int| term(k, m), p);
    // the value of the h-vector, term by term
    lemma_poly_eval_fsum(h, y);
    let hy = |k: int| fmul(h[k], fpow(y, k as nat));
    assert forall|k: int| 0 <= k < p implies #[trigger] hy(k) == by_k(k) by {
        let inner = |m: int| h_term(column, srs, k, m);
        let yk = fpow(y, k as nat);
        lemma_fsum_scale(inner, yk, p);
        lemma_fmul_comm(yk, fsum(inner, p));
        lemma_fsum_ext(|m: int| term(k, m), |i: int| fmul(yk, inner(i)), p);
        lemma_fsum_ext(|m: int| h_term(column, srs, k, m), inner, p);
        assert(h[k] == h_entry(column, srs, k));
    }
    lemma_fsum_ext(|i: int| fmul(h[i], fpow(y, i as nat)), hy, p);
    lemma_fsum_ext(hy, by_k, p);
    // summed the other way round
    lemma_fsum_swap(term, p, p);
    lemma_fsum_ext(|k: int| fsum(|m: int| term(k, m), p), by_k, p);
    lemma_fsum_ext(|m: int| fsum(|k: int| term(k, m), p), by_m, p);
    // the commitment to the quotient, term by term
    let s = srs.take(p as int);
    lemma_inner_product_fsum(q, s);
    let qs = |m: int| fmul(q[m], s[m]);
    assert forall|m: int| 0 <= m < p implies #[trigger] by_m(m) == qs(m) by {
        lemma_h_column(t, srs, y, m);
        lemma_fsum_ext(
            |k: int| term(k, m),
            |k: int| fmul(fpow(y, k as nat), h_term(column, srs, k, m)),
            p,
        );
        lemma_fmul_comm(srs[m], q[m]);
    }
    lemma_fsum_ext(by_m, qs, p);
    lemma_fsum_ext(|i: int| fmul(q[i], s[i]), qs, p);
}

/// An opening is determined by its equation: two commitments that, taken
/// `d` times, give the same, are the same, where `d` has an inverse.
pub proof fn lemma_openings_agree(w1: nat, w2: nat, d: nat, d_inv: nat)
    requires
        w1 < modulus(),
        w2 < modulus(),
        fmul(w1, d) == fmul(w2, d),
        fmul(d, d_inv) == 1,
    ensures
        w1 == w2,
{
    lemma_fmul_assoc(w1, d, d_inv);
    lemma_fmul_assoc(w2, d, d_inv);
    lemma_neutral(w1);
    lemma_neutral(w2);
}

/// Under a reference string of the powers of `s`, the value of the
/// h-vector of a polynomial `t` at a point `w` is the opening of `t` at
/// `w`: the commitment of the quotient of `t` less its value at `w` by
/// `X - w`, whichever way the coefficients of that quotient were computed,
/// where `s - w` has an inverse. At the elements of a domain these values
/// are what the transform of the h-vector gives.
pub proof fn lemma_h_vector_is_opening(s: nat, len: nat, t: Seq<nat>, q: Seq<nat>, w: nat, d_inv: nat)
    requires
        t.len() <= len,
        q.len() <= len,
        fmul(poly_eval(q, s), fsub(s, w)) == fsub(poly_eval(t, s), poly_eval(t, w)),
        fmul(fsub(s, w), d_inv) == 1,
    ensures
        poly_eval(h_vector(t, crate::algebra::powers(s, len)), w) == commit_index(
            crate::algebra::powers(s, len),
            q,
        ),
{
    let srs = crate::algebra::powers(s, len);
    let own = opening_quotient(t, w);
    lemma_h_vector_opens(t, srs, w);
    lemma_quotient_identity(t, w, s);
    crate::commit_laws::lemma_commit_is_eval(s, len, q);
    crate::commit_laws::lemma_commit_is_eval(s, len, own);
    crate::algebra::lemma_poly_eval_reduced(q, s);
    crate::algebra::lemma_poly_eval_reduced(own, s);
    lemma_openings_agree(poly_eval(q, s), poly_eval(own, s), fsub(s, w), d_inv);
}

} // verus!
