//! Commitments are linear: the commitment of a sum is the sum of the
//! commitments, and the commitment of a multiple is the multiple of the
//! commitment.
use vstd::prelude::*;
use crate::algebra::{commit_index, inner_product, poly_eval, powers};
use crate::field::{fadd, fmul, fpow, fsub, modulus};
use crate::field_laws::{
    lemma_distributive,
    lemma_distributive_sub,
    lemma_fsub_reduce,
    lemma_fadd_assoc,
    lemma_fadd_comm,
    lemma_fmul_assoc,
    lemma_fmul_comm,
    lemma_neutral,
};
use crate::poly::{coeff_at, poly_add, poly_scale, poly_sub, trim};

verus! {

/// The sum of the first `n` coefficients of `p`, zero beyond its length,
/// each times the entry of `s` at its position.
pub open spec fn padded_product(p: Seq<nat>, s: Seq<nat>, n: nat) -> nat
    decreases n,
{
    if n == 0 {
        0
    } else {
        fadd(padded_product(p, s, (n - 1) as nat), fmul(coeff_at(p, n - 1), s[n - 1]))
    }
}

/// The padded sum looks only at the first `n` coefficients and entries.
pub proof fn lemma_padded_product_ext(p: Seq<nat>, other: Seq<nat>, s: Seq<nat>, other_srs: Seq<nat>, n: nat)
    requires
        forall|i: int| 0 <= i < n ==> coeff_at(p, i) == coeff_at(other, i),
        forall|i: int| 0 <= i < n ==> s[i] == other_srs[i],
    ensures
        padded_product(p, s, n) == padded_product(other, other_srs, n),
    decreases n,
{
    if n > 0 {
        lemma_padded_product_ext(p, other, s, other_srs, (n - 1) as nat);
    }
}

/// The padded sum is a reduced residue.
pub proof fn lemma_padded_product_reduced(p: Seq<nat>, s: Seq<nat>, n: nat)
    ensures
        padded_product(p, s, n) < modulus(),
{
}

/// A sum of products of two sequences of one length is the padded sum.
pub proof fn lemma_inner_product_padded(p: Seq<nat>, s: Seq<nat>)
    requires
        p.len() == s.len(),
    ensures
        inner_product(p, s) == padded_product(p, s, p.len()),
    decreases p.len(),
{
    if p.len() > 0 {
        lemma_inner_product_padded(p.drop_last(), s.drop_last());
        lemma_padded_product_ext(p.drop_last(), p, s.drop_last(), s, (p.len() - 1) as nat);
    }
}

/// A commitment is the padded sum up to any length that the polynomial and
/// the reference string allow.
pub proof fn lemma_commit_padded(srs: Seq<nat>, p: Seq<nat>, n: nat)
    requires
        p.len() <= n <= srs.len(),
    ensures
        commit_index(srs, p) == padded_product(p, srs, n),
    decreases n,
{
    if n == p.len() {
        let s = srs.take(p.len() as int);
        lemma_inner_product_padded(p, s);
        lemma_padded_product_ext(p, p, s, srs, n);
    } else {
        lemma_commit_padded(srs, p, (n - 1) as nat);
        lemma_padded_product_reduced(p, srs, (n - 1) as nat);
        lemma_neutral(srs[n - 1]);
        lemma_neutral(padded_product(p, srs, (n - 1) as nat));
    }
}

/// The padded sum of a sum of polynomials is the sum of the padded sums.
pub proof fn lemma_padded_product_add(p: Seq<nat>, q: Seq<nat>, s: Seq<nat>, n: nat)
    ensures
        padded_product(poly_add(p, q), s, n) == fadd(padded_product(p, s, n), padded_product(q, s, n)),
    decreases n,
{
    if n > 0 {
        let m = (n - 1) as nat;
        lemma_padded_product_add(p, q, s, m);
        let (a, b) = (padded_product(p, s, m), padded_product(q, s, m));
        let (x, y) = (fmul(coeff_at(p, n - 1), s[n - 1]), fmul(coeff_at(q, n - 1), s[n - 1]));
        assert(coeff_at(poly_add(p, q), n - 1) == fadd(coeff_at(p, n - 1), coeff_at(q, n - 1))) by {
            lemma_neutral(0);
        }
        lemma_distributive(s[n - 1], coeff_at(p, n - 1), coeff_at(q, n - 1));
        // (a + b) + (x + y) == (a + x) + (b + y)
        lemma_fadd_assoc(fadd(a, b), x, y);
        lemma_fadd_assoc(a, b, x);
        lemma_fadd_comm(b, x);
        lemma_fadd_assoc(a, x, b);
        lemma_fadd_assoc(fadd(a, x), b, y);
    } else {
        lemma_neutral(0);
    }
}

/// The padded sum of a multiple of a polynomial is the multiple of the
/// padded sum.
pub proof fn lemma_padded_product_scale(p: Seq<nat>, c: nat, s: Seq<nat>, n: nat)
    requires
        n <= p.len(),
    ensures
        padded_product(poly_scale(p, c), s, n) == fmul(c, padded_product(p, s, n)),
    decreases n,
{
    if n > 0 {
        let m = (n - 1) as nat;
        lemma_padded_product_scale(p, c, s, m);
        lemma_distributive(c, padded_product(p, s, m), fmul(p[n - 1], s[n - 1]));
        lemma_fmul_comm(p[n - 1], c);
        lemma_fmul_assoc(c, p[n - 1], s[n - 1]);
    } else {
        lemma_neutral(c);
    }
}

/// The commitment of the sum of two polynomials is the sum of their
/// commitments.
pub proof fn lemma_commit_additive(srs: Seq<nat>, p: Seq<nat>, q: Seq<nat>)
    requires
        p.len() <= srs.len(),
        q.len() <= srs.len(),
    ensures
        commit_index(srs, poly_add(p, q)) == fadd(commit_index(srs, p), commit_index(srs, q)),
{
    let n = poly_add(p, q).len();
    lemma_commit_padded(srs, poly_add(p, q), n);
    lemma_commit_padded(srs, p, n);
    lemma_commit_padded(srs, q, n);
    lemma_padded_product_add(p, q, srs, n);
}

/// The commitment of a polynomial times a scalar is the commitment taken
/// that many times.
pub proof fn lemma_commit_scales(srs: Seq<nat>, p: Seq<nat>, c: nat)
    requires
        p.len() <= srs.len(),
    ensures
        commit_index(srs, poly_scale(p, c)) == fmul(c, commit_index(srs, p)),
{
    lemma_commit_padded(srs, poly_scale(p, c), p.len());
    lemma_commit_padded(srs, p, p.len());
    lemma_padded_product_scale(p, c, srs, p.len());
}

/// The padded sum of a difference of polynomials is the difference of the
/// padded sums.
pub proof fn lemma_padded_product_sub(p: Seq<nat>, q: Seq<nat>, s: Seq<nat>, n: nat)
    ensures
        padded_product(poly_sub(p, q), s, n) == fsub(padded_product(p, s, n), padded_product(q, s, n)),
    decreases n,
{
    if n > 0 {
        let m = (n - 1) as nat;
        lemma_padded_product_sub(p, q, s, m);
        let (a, b) = (padded_product(p, s, m), padded_product(q, s, m));
        let (cp, cq) = (coeff_at(p, n - 1), coeff_at(q, n - 1));
        let (x, y) = (fmul(cp, s[n - 1]), fmul(cq, s[n - 1]));
        assert(coeff_at(poly_sub(p, q), n - 1) == fsub(cp, cq)) by {
            lemma_fsub_reduce(0, 0);
        }
        lemma_distributive_sub(cp, cq, s[n - 1]);
        // (a - b) + (x - y) == (a + x) - (b + y)
        let r = modulus() as int;
        assert(fadd(fsub(a, b), fsub(x, y)) == fsub(fadd(a, x), fadd(b, y))) by {
            let (ai, bi, xi, yi) = (a as int, b as int, x as int, y as int);
            vstd::arithmetic::div_mod::lemma_add_mod_noop(ai - bi, xi - yi, r);
            vstd::arithmetic::div_mod::lemma_sub_mod_noop(ai + xi, bi + yi, r);
            assert((ai - bi) + (xi - yi) == (ai + xi) - (bi + yi));
        }
    } else {
        lemma_fsub_reduce(0, 0);
    }
}

/// The commitment of the difference of two polynomials is the difference
/// of their commitments.
pub proof fn lemma_commit_subtractive(srs: Seq<nat>, p: Seq<nat>, q: Seq<nat>)
    requires
        p.len() <= srs.len(),
        q.len() <= srs.len(),
    ensures
        commit_index(srs, poly_sub(p, q)) == fsub(commit_index(srs, p), commit_index(srs, q)),
{
    let n = poly_sub(p, q).len();
    lemma_commit_padded(srs, poly_sub(p, q), n);
    lemma_commit_padded(srs, p, n);
    lemma_commit_padded(srs, q, n);
    lemma_padded_product_sub(p, q, srs, n);
}

/// Under a reference string of the powers of `s`, the commitment of a
/// polynomial is its value at `s`.
pub proof fn lemma_commit_is_eval(s: nat, len: nat, p: Seq<nat>)
    requires
        p.len() <= len,
    ensures
        commit_index(powers(s, len), p) == poly_eval(p, s),
    decreases p.len(),
{
    let srs = powers(s, len);
    if p.len() > 0 {
        lemma_commit_is_eval(s, len, p.drop_last());
        assert(srs.take(p.len() as int).drop_last() =~= srs.take(p.len() - 1));
    }
}

/// The value of a difference of polynomials is the difference of the
/// values.
pub proof fn lemma_eval_sub(p: Seq<nat>, q: Seq<nat>, x: nat)
    ensures
        poly_eval(poly_sub(p, q), x) == fsub(poly_eval(p, x), poly_eval(q, x)),
{
    let n = poly_sub(p, q).len();
    lemma_commit_is_eval(x, n, poly_sub(p, q));
    lemma_commit_is_eval(x, n, p);
    lemma_commit_is_eval(x, n, q);
    lemma_commit_subtractive(powers(x, n), p, q);
}

/// The value of a sum of polynomials is the sum of the values.
pub proof fn lemma_eval_add(p: Seq<nat>, q: Seq<nat>, x: nat)
    ensures
        poly_eval(poly_add(p, q), x) == fadd(poly_eval(p, x), poly_eval(q, x)),
{
    let n = poly_add(p, q).len();
    lemma_commit_is_eval(x, n, poly_add(p, q));
    lemma_commit_is_eval(x, n, p);
    lemma_commit_is_eval(x, n, q);
    lemma_commit_additive(powers(x, n), p, q);
}

/// The value of a multiple of a polynomial is the multiple of the value.
pub proof fn lemma_eval_scale(p: Seq<nat>, c: nat, x: nat)
    ensures
        poly_eval(poly_scale(p, c), x) == fmul(c, poly_eval(p, x)),
{
    let n = p.len();
    lemma_commit_is_eval(x, n, poly_scale(p, c));
    lemma_commit_is_eval(x, n, p);
    lemma_commit_scales(powers(x, n), p, c);
}

/// The value of a constant polynomial is the constant.
pub proof fn lemma_eval_constant(v: nat, x: nat)
    ensures
        poly_eval(seq![v], x) == v % modulus(),
{
    let c = seq![v];
    assert(c.drop_last().len() == 0);
    assert(poly_eval(c.drop_last(), x) == 0);
    assert(fpow(x, 0) == 1);
    lemma_neutral(v);
    lemma_neutral(fmul(v, 1));
}

/// Trailing zero coefficients do not change a commitment.
pub proof fn lemma_commit_trim(srs: Seq<nat>, p: Seq<nat>)
    requires
        p.len() <= srs.len(),
    ensures
        commit_index(srs, trim(p)) == commit_index(srs, p),
{
    crate::poly::lemma_trim_prefix(p);
    lemma_commit_padded(srs, trim(p), p.len());
    lemma_commit_padded(srs, p, p.len());
    lemma_padded_product_ext(trim(p), p, srs, srs, p.len());
}

} // verus!
