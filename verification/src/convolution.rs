//! The convolution theorem: on a domain of roots of unity, the values of
//! the cyclic convolution of two sequences are the products of the values of
//! the sequences.
use vstd::prelude::*;
use crate::algebra::poly_eval;
use crate::field::{fmul, fpow};
use crate::field_laws::{
    lemma_fmul_assoc,
    lemma_fmul_comm,
    lemma_fpow_add,
    lemma_fpow_congruent,
};
use crate::sums::{
    fsum,
    lemma_fsum_ext,
    lemma_fsum_rotate,
    lemma_fsum_scale,
    lemma_fsum_swap,
    lemma_poly_eval_fsum,
};

verus! {

/// The cyclic convolution of two sequences of length `n`: entry `k` is the
/// sum of the products `a[u] b[v]` with `u + v = k` modulo `n`.
pub open spec fn cyclic_convolution(a: Seq<nat>, b: Seq<nat>, n: nat) -> Seq<nat> {
    Seq::new(n, |k: int| fsum(|u: int| fmul(a[u], b[(k - u) % (n as int)]), n))
}

/// One term of the value of a convolution: `a[u] b[(k - u) mod n] x^k`.
pub open spec fn convolution_term(a: Seq<nat>, b: Seq<nat>, n: nat, x: nat, k: int, u: int) -> nat {
    fmul(fmul(a[u], b[(k - u) % (n as int)]), fpow(x, k as nat))
}

/// For `x` with `x^n = 1`, the terms of one `u` sum to `a[u] x^u` times the
/// value of `b` at `x`.
proof fn lemma_convolution_row(a: Seq<nat>, b: Seq<nat>, n: nat, x: nat, u: nat)
    requires
        a.len() == n,
        b.len() == n,
        u < n,
        fpow(x, n) == 1,
    ensures
        fsum(|k: int| convolution_term(a, b, n, x, k, u as int), n) == fmul(
            fmul(a[u as int], fpow(x, u)),
            poly_eval(b, x),
        ),
{
    let g = |k: int| convolution_term(a, b, n, x, k, u as int);
    let rotated = |v: int| g((u + v) % (n as int));
    let bx = |v: int| fmul(b[v], fpow(x, v as nat));
    let au = fmul(a[u as int], fpow(x, u));
    let scaled = |v: int| fmul(au, bx(v));
    lemma_fsum_rotate(g, n, u);
    assert forall|v: int| 0 <= v < n implies #[trigger] rotated(v) == scaled(v) by {
        let k = (u + v) % (n as int);
        assert(0 <= k < n) by {
            vstd::arithmetic::div_mod::lemma_mod_bound(u + v, n as int);
        }
        assert((k - u) % (n as int) == v) by {
            vstd::arithmetic::div_mod::lemma_fundamental_div_mod(u + v, n as int);
            let q = (u + v) / (n as int);
            assert(k - u == v + (-q) * n) by (nonlinear_arith)
                requires
                    u + v == n * q + k,
            ;
            vstd::arithmetic::div_mod::lemma_mod_multiples_vanish(-q, v, n as int);
            vstd::arithmetic::div_mod::lemma_small_mod(v as nat, n);
        }
        assert(fpow(x, k as nat) == fpow(x, (u + v) as nat)) by {
            vstd::arithmetic::div_mod::lemma_mod_twice(u + v, n as int);
            lemma_fpow_congruent(x, n, k as nat, (u + v) as nat);
        }
        lemma_fpow_add(x, u, v as nat);
        let (p, q, r, s) = (a[u as int], b[v], fpow(x, u), fpow(x, v as nat));
        // (p q) (r s) == (p r) (q s)
        lemma_fmul_assoc(p, q, fmul(r, s));
        lemma_fmul_assoc(q, r, s);
        lemma_fmul_comm(q, r);
        lemma_fmul_assoc(r, q, s);
        lemma_fmul_assoc(p, r, fmul(q, s));
        assert(g(k) == fmul(fmul(p, q), fmul(r, s)));
    }
    lemma_fsum_ext(rotated, scaled, n);
    lemma_fsum_ext(|v: int| g((u + v) % (n as int)), rotated, n);
    lemma_fsum_scale(bx, au, n);
    lemma_fsum_ext(|i: int| fmul(au, bx(i)), scaled, n);
    lemma_poly_eval_fsum(b, x);
    lemma_fsum_ext(|i: int| fmul(b[i], fpow(x, i as nat)), bx, n);
}

/// For `x` with `x^n = 1`, the value at `x` of the cyclic convolution of
/// two sequences is the product of their values at `x`.
pub proof fn lemma_convolution_value(a: Seq<nat>, b: Seq<nat>, n: nat, x: nat)
    requires
        a.len() == n,
        b.len() == n,
        fpow(x, n) == 1,
    ensures
        poly_eval(cyclic_convolution(a, b, n), x) == fmul(poly_eval(a, x), poly_eval(b, x)),
{
    let c = cyclic_convolution(a, b, n);
    let bv = poly_eval(b, x);
    let term = |k: int, u: int| convolution_term(a, b, n, x, k, u);
    let by_k = |k: int| fsum(|u: int| term(k, u), n);
    let by_u = |u: int| fsum(|k: int| term(k, u), n);
    // the value of the convolution is the sum of all terms, entry by entry
    lemma_poly_eval_fsum(c, x);
    let cx = |k: int| fmul(c[k], fpow(x, k as nat));
    assert forall|k: int| 0 <= k < n implies #[trigger] cx(k) == by_k(k) by {
        let inner = |u: int| fmul(a[u], b[(k - u) % (n as int)]);
        let xk = fpow(x, k as nat);
        lemma_fsum_scale(inner, xk, n);
        lemma_fmul_comm(xk, fsum(inner, n));
        assert forall|u: int| 0 <= u < n implies #[trigger] term(k, u) == fmul(xk, inner(u)) by {
            lemma_fmul_comm(xk, inner(u));
        }
        lemma_fsum_ext(|u: int| term(k, u), |i: int| fmul(xk, inner(i)), n);
        assert(c[k] == fsum(inner, n));
    }
    lemma_fsum_ext(|i: int| fmul(c[i], fpow(x, i as nat)), cx, n);
    lemma_fsum_ext(cx, by_k, n);
    // summed the other way round
    lemma_fsum_swap(term, n, n);
    lemma_fsum_ext(|k: int| fsum(|u: int| term(k, u), n), by_k, n);
    lemma_fsum_ext(|u: int| fsum(|k: int| term(k, u), n), by_u, n);
    // each row is a[u] x^u times the value of b
    let ax = |u: int| fmul(a[u], fpow(x, u as nat));
    let rows = |u: int| fmul(bv, ax(u));
    assert forall|u: int| 0 <= u < n implies #[trigger] by_u(u) == rows(u) by {
        lemma_convolution_row(a, b, n, x, u as nat);
        lemma_fsum_ext(
            |k: int| term(k, u),
            |k: int| convolution_term(a, b, n, x, k, u as int),
            n,
        );
        lemma_fmul_comm(bv, ax(u));
    }
    lemma_fsum_ext(by_u, rows, n);
    lemma_fsum_scale(ax, bv, n);
    lemma_fsum_ext(|i: int| fmul(bv, ax(i)), rows, n);
    lemma_poly_eval_fsum(a, x);
    lemma_fsum_ext(|i: int| fmul(a[i], fpow(x, i as nat)), ax, n);
    lemma_fmul_comm(bv, poly_eval(a, x));
}

} // verus!
