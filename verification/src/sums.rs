//! Finite sums in the scalar field, and the rules by which they are
//! regrouped.
use vstd::prelude::*;
use crate::algebra::{inner_product, poly_eval};
use crate::field::{fadd, fmul, fpow, modulus};
use crate::field_laws::{
    lemma_distributive,
    lemma_fadd_assoc,
    lemma_fadd_comm,
    lemma_neutral,
    lemma_reduce_first,
};

verus! {

/// The sum of `f(0)` up to `f(n - 1)`.
pub open spec fn fsum(f: spec_fn(int) -> nat, n: nat) -> nat
    decreases n,
{
    if n == 0 {
        0
    } else {
        fadd(fsum(f, (n - 1) as nat), f(n - 1))
    }
}

/// A sum is a reduced residue.
pub proof fn lemma_fsum_reduced(f: spec_fn(int) -> nat, n: nat)
    ensures
        fsum(f, n) < modulus(),
{
}

/// Sums of terms that agree are the same.
pub proof fn lemma_fsum_ext(f: spec_fn(int) -> nat, g: spec_fn(int) -> nat, n: nat)
    requires
        forall|i: int| 0 <= i < n ==> #[trigger] f(i) == g(i),
    ensures
        fsum(f, n) == fsum(g, n),
    decreases n,
{
    if n > 0 {
        lemma_fsum_ext(f, g, (n - 1) as nat);
    }
}

/// Sums of terms that agree after reduction are the same.
pub proof fn lemma_fsum_ext_mod(f: spec_fn(int) -> nat, g: spec_fn(int) -> nat, n: nat)
    requires
        forall|i: int| 0 <= i < n ==> (#[trigger] f(i)) % modulus() == g(i) % modulus(),
    ensures
        fsum(f, n) == fsum(g, n),
    decreases n,
{
    if n > 0 {
        lemma_fsum_ext_mod(f, g, (n - 1) as nat);
        lemma_reduce_first(fsum(f, (n - 1) as nat), f(n - 1));
        lemma_reduce_first(fsum(g, (n - 1) as nat), g(n - 1));
    }
}

/// A sum of zeros is zero.
pub proof fn lemma_fsum_zero(f: spec_fn(int) -> nat, n: nat)
    requires
        forall|i: int| 0 <= i < n ==> #[trigger] f(i) == 0,
    ensures
        fsum(f, n) == 0,
    decreases n,
{
    if n > 0 {
        lemma_fsum_zero(f, (n - 1) as nat);
        lemma_neutral(0);
    }
}

/// The sum of sums of terms is the sum of the sums.
pub proof fn lemma_fsum_add(f: spec_fn(int) -> nat, g: spec_fn(int) -> nat, n: nat)
    ensures
        fsum(|i: int| fadd(f(i), g(i)), n) == fadd(fsum(f, n), fsum(g, n)),
    decreases n,
{
    let h = |i: int| fadd(f(i), g(i));
    if n > 0 {
        let m = (n - 1) as nat;
        lemma_fsum_add(f, g, m);
        let (a, b, x, y) = (fsum(f, m), fsum(g, m), f(n - 1), g(n - 1));
        assert(fsum(h, n) == fadd(fsum(h, m), h(n - 1)));
        assert(h(n - 1) == fadd(x, y));
        // (a + b) + (x + y) == (a + x) + (b + y)
        lemma_fadd_assoc(fadd(a, b), x, y);
        lemma_fadd_assoc(a, b, x);
        lemma_fadd_comm(b, x);
        lemma_fadd_assoc(a, x, b);
        lemma_fadd_assoc(fadd(a, x), b, y);
    } else {
        lemma_neutral(0);
    }
}

/// A factor common to all terms can be drawn out of the sum.
pub proof fn lemma_fsum_scale(f: spec_fn(int) -> nat, c: nat, n: nat)
    ensures
        fsum(|i: int| fmul(c, f(i)), n) == fmul(c, fsum(f, n)),
    decreases n,
{
    let h = |i: int| fmul(c, f(i));
    if n > 0 {
        let m = (n - 1) as nat;
        lemma_fsum_scale(f, c, m);
        assert(fsum(h, n) == fadd(fsum(h, m), h(n - 1)));
        lemma_distributive(c, fsum(f, m), f(n - 1));
    } else {
        lemma_neutral(c);
    }
}

/// The sum of differences of terms is the difference of the sums.
pub proof fn lemma_fsum_sub(f: spec_fn(int) -> nat, g: spec_fn(int) -> nat, n: nat)
    ensures
        fsum(|i: int| crate::field::fsub(f(i), g(i)), n) == crate::field::fsub(
            fsum(f, n),
            fsum(g, n),
        ),
    decreases n,
{
    let h = |i: int| crate::field::fsub(f(i), g(i));
    if n > 0 {
        let m = (n - 1) as nat;
        lemma_fsum_sub(f, g, m);
        let (a, b, x, y) = (
            fsum(f, m) as int,
            fsum(g, m) as int,
            f(n - 1) as int,
            g(n - 1) as int,
        );
        assert(fsum(h, n) == fadd(fsum(h, m), h(n - 1)));
        crate::residues::lemma_absorb(a - b, x - y);
        crate::residues::lemma_absorb(a - b, crate::residues::red(x - y) as int);
        crate::residues::lemma_absorb(a + x, b + y);
        crate::residues::lemma_absorb(a + x, crate::residues::red(b + y) as int);
        assert((a - b) + (x - y) == (a + x) - (b + y));
    } else {
        crate::field_laws::lemma_fsub_reduce(0, 0);
    }
}

/// A sum in which one term is raised by `d` is raised by `d`.
pub proof fn lemma_fsum_update(
    f: spec_fn(int) -> nat,
    g: spec_fn(int) -> nat,
    n: nat,
    p: int,
    d: nat,
)
    requires
        0 <= p < n,
        forall|i: int| 0 <= i < n && i != p ==> #[trigger] g(i) == f(i),
        g(p) == fadd(f(p), d),
    ensures
        fsum(g, n) == fadd(fsum(f, n), d),
    decreases n,
{
    let m = (n - 1) as nat;
    if p == n - 1 {
        lemma_fsum_ext(g, f, m);
        lemma_fadd_assoc(fsum(f, m), f(p), d);
        lemma_reduce_first(fadd(fsum(f, m), f(p)), d);
    } else {
        lemma_fsum_update(f, g, m, p, d);
        // (s + d) + last == (s + last) + d
        lemma_fadd_assoc(fsum(f, m), d, f(n - 1));
        lemma_fadd_comm(d, f(n - 1));
        lemma_fadd_assoc(fsum(f, m), f(n - 1), d);
    }
}

/// A sum can be cut in two.
pub proof fn lemma_fsum_split(f: spec_fn(int) -> nat, n: nat, m: nat)
    ensures
        fsum(f, n + m) == fadd(fsum(f, n), fsum(|i: int| f(n + i), m)),
    decreases m,
{
    let tail = |i: int| f(n + i);
    if m > 0 {
        let k = (m - 1) as nat;
        lemma_fsum_split(f, n, k);
        assert(fsum(f, n + m) == fadd(fsum(f, (n + m - 1) as nat), f(n + m - 1)));
        assert(fsum(tail, m) == fadd(fsum(tail, k), tail(m - 1)));
        lemma_fadd_assoc(fsum(f, n), fsum(tail, k), f(n + m - 1));
    } else {
        lemma_fsum_reduced(f, n);
        lemma_neutral(fsum(f, n));
    }
}

/// A sum of sums can be taken in either order.
pub proof fn lemma_fsum_swap(g: spec_fn(int, int) -> nat, n: nat, m: nat)
    ensures
        fsum(|u: int| fsum(|v: int| g(u, v), m), n) == fsum(|v: int| fsum(|u: int| g(u, v), n), m),
    decreases n,
{
    let rows = |u: int| fsum(|v: int| g(u, v), m);
    let cols = |v: int| fsum(|u: int| g(u, v), n);
    if n > 0 {
        let k = (n - 1) as nat;
        let cols_k = |v: int| fsum(|u: int| g(u, v), k);
        let last = |v: int| g(n - 1, v);
        lemma_fsum_swap(g, k, m);
        assert(fsum(rows, n) == fadd(fsum(rows, k), rows(n - 1)));
        lemma_fsum_ext(|u: int| fsum(|v: int| g(u, v), m), rows, k);
        assert(fsum(rows, k) == fsum(cols_k, m));
        lemma_fsum_ext(|v: int| g(n - 1, v), last, m);
        assert(rows(n - 1) == fsum(last, m));
        lemma_fsum_add(cols_k, last, m);
        assert forall|v: int| 0 <= v < m implies #[trigger] cols(v) == fadd(cols_k(v), last(v)) by {
            let col = |u: int| g(u, v);
            assert(fsum(col, n) == fadd(fsum(col, k), col(n - 1)));
        }
        lemma_fsum_ext(cols, |v: int| fadd(cols_k(v), last(v)), m);
    } else {
        lemma_fsum_zero(cols, m);
    }
}

/// A sum over all residues modulo `n` can start anywhere: the terms at
/// `(u + v) mod n` for `v` below `n` are all the terms.
pub proof fn lemma_fsum_rotate(g: spec_fn(int) -> nat, n: nat, u: nat)
    requires
        u < n,
    ensures
        fsum(|v: int| g((u + v) % (n as int)), n) == fsum(g, n),
{
    let rotated = |v: int| g((u + v) % (n as int));
    let k = (n - u) as nat;
    // the rotated sum: first the terms from u up, then those below u
    lemma_fsum_split(rotated, k, u);
    let upper = |v: int| g(u + v);
    let lower = |v: int| rotated(k + v);
    assert forall|v: int| 0 <= v < k implies #[trigger] rotated(v) == upper(v) by {
        vstd::arithmetic::div_mod::lemma_small_mod((u + v) as nat, n);
    }
    lemma_fsum_ext(rotated, upper, k);
    assert forall|v: int| 0 <= v < u implies #[trigger] lower(v) == g(v) by {
        assert((u + (k + v)) == n + v);
        vstd::arithmetic::div_mod::lemma_mod_add_multiples_vanish(v, n as int);
        vstd::arithmetic::div_mod::lemma_small_mod(v as nat, n);
    }
    lemma_fsum_ext(lower, g, u);
    lemma_fsum_ext(|i: int| rotated(k + i), lower, u);
    // the plain sum: first the terms below u, then those from u up
    lemma_fsum_split(g, u, k);
    lemma_fsum_ext(|i: int| g(u + i), upper, k);
    lemma_fadd_comm(fsum(upper, k), fsum(g, u));
    assert(k + u == n);
    assert(u + k == n);
}

/// A sum can be taken from the last term to the first.
pub proof fn lemma_fsum_reverse(f: spec_fn(int) -> nat, n: nat)
    ensures
        fsum(|i: int| f(n - 1 - i), n) == fsum(f, n),
    decreases n,
{
    let rev = |i: int| f(n - 1 - i);
    if n > 0 {
        let m = (n - 1) as nat;
        let shifted = |j: int| f(1 + j);
        let rev_shifted = |i: int| shifted(m - 1 - i);
        lemma_fsum_reverse(shifted, m);
        lemma_fsum_ext(|i: int| shifted(m - 1 - i), rev_shifted, m);
        assert forall|i: int| 0 <= i < m implies #[trigger] rev(i) == rev_shifted(i) by {}
        lemma_fsum_ext(rev, rev_shifted, m);
        assert(fsum(rev, n) == fadd(fsum(rev, m), rev(n - 1)));
        assert(rev(n - 1) == f(0));
        lemma_fsum_split(f, 1, m);
        lemma_fsum_ext(|i: int| f(1 + i), shifted, m);
        let one = fsum(f, 1);
        assert(fsum(f, 0) == 0);
        assert(one == fadd(0, f(0)));
        lemma_neutral(f(0));
        lemma_reduce_first(fsum(shifted, m), f(0));
        lemma_fadd_comm(fsum(shifted, m), f(0));
        lemma_reduce_first(f(0), fsum(shifted, m));
        assert(1 + m == n);
    }
}

/// A sum of products of two sequences, as a sum of terms.
pub proof fn lemma_inner_product_fsum(a: Seq<nat>, b: Seq<nat>)
    requires
        a.len() == b.len(),
    ensures
        inner_product(a, b) == fsum(|i: int| fmul(a[i], b[i]), a.len()),
    decreases a.len(),
{
    let f = |i: int| fmul(a[i], b[i]);
    if a.len() > 0 {
        let (a1, b1) = (a.drop_last(), b.drop_last());
        lemma_inner_product_fsum(a1, b1);
        lemma_fsum_ext(|i: int| fmul(a1[i], b1[i]), f, a1.len());
        assert(fsum(f, a.len()) == fadd(fsum(f, (a.len() - 1) as nat), f(a.len() - 1)));
    }
}

/// The value of a polynomial, as a sum of terms.
pub proof fn lemma_poly_eval_fsum(c: Seq<nat>, x: nat)
    ensures
        poly_eval(c, x) == fsum(|i: int| fmul(c[i], fpow(x, i as nat)), c.len()),
    decreases c.len(),
{
    let f = |i: int| fmul(c[i], fpow(x, i as nat));
    if c.len() > 0 {
        let c1 = c.drop_last();
        lemma_poly_eval_fsum(c1, x);
        lemma_fsum_ext(|i: int| fmul(c1[i], fpow(x, i as nat)), f, c1.len());
        assert(fsum(f, c.len()) == fadd(fsum(f, (c.len() - 1) as nat), f(c.len() - 1)));
    }
}

} // verus!
