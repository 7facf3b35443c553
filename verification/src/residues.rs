//! Field expressions as integers modulo the prime: each field operation on
//! residues is the integer operation followed by reduction, so that an
//! equation between field expressions follows from a congruence between
//! integer polynomials.
use vstd::prelude::*;
use vstd::arithmetic::div_mod::{
    lemma_add_mod_noop,
    lemma_mod_bound,
    lemma_mod_twice,
    lemma_mul_mod_noop_general,
    lemma_small_mod,
    lemma_sub_mod_noop,
};
use crate::field::{fadd, fmul, fsub, modulus};

verus! {

/// The residue of an integer.
pub open spec fn red(x: int) -> nat {
    (x % (modulus() as int)) as nat
}

/// A residue is the residue of itself, and a reduced number is its own
/// residue.
pub proof fn lemma_red_basics(v: nat)
    ensures
        red(v as int) == v % modulus(),
        v < modulus() ==> red(v as int) == v,
        red(red(v as int) as int) == red(v as int),
{
    if v < modulus() {
        lemma_small_mod(v, modulus());
    }
    lemma_mod_twice(v as int, modulus() as int);
}

/// The product of residues is the residue of the product.
pub proof fn lemma_red_mul(x: int, y: int)
    ensures
        fmul(red(x), red(y)) == red(x * y),
{
    lemma_mul_mod_noop_general(x, y, modulus() as int);
}

/// The sum of residues is the residue of the sum.
pub proof fn lemma_red_add(x: int, y: int)
    ensures
        fadd(red(x), red(y)) == red(x + y),
{
    lemma_add_mod_noop(x, y, modulus() as int);
}

/// The difference of residues is the residue of the difference.
pub proof fn lemma_red_sub(x: int, y: int)
    ensures
        fsub(red(x), red(y)) == red(x - y),
{
    lemma_sub_mod_noop(x, y, modulus() as int);
}

/// A residue inside a sum, a difference or a product can be replaced by
/// the integer it is the residue of.
pub proof fn lemma_absorb(x: int, y: int)
    ensures
        red(red(x) * y) == red(x * y),
        red(x * red(y)) == red(x * y),
        red(red(x) + y) == red(x + y),
        red(x + red(y)) == red(x + y),
        red(red(x) - y) == red(x - y),
        red(x - red(y)) == red(x - y),
{
    let r = modulus() as int;
    lemma_mul_mod_noop_general(x, y, r);
    lemma_add_mod_noop(x, y, r);
    lemma_sub_mod_noop(x, y, r);
    lemma_mod_twice(x, r);
    lemma_mod_twice(y, r);
    lemma_add_mod_noop(x % r, y, r);
    lemma_add_mod_noop(x, y % r, r);
    lemma_sub_mod_noop(x % r, y, r);
    lemma_sub_mod_noop(x, y % r, r);
}

/// Integers whose difference is a multiple of the modulus have the same
/// residue.
pub proof fn lemma_red_eq(x: int, y: int)
    requires
        red(x - y) == 0,
    ensures
        red(x) == red(y),
{
    let r = modulus() as int;
    lemma_sub_mod_noop(x, y, r);
    lemma_mod_bound(x, r);
    lemma_mod_bound(y, r);
    let diff = x % r - y % r;
    assert(diff % r == 0);
    if diff > 0 {
        lemma_small_mod(diff as nat, r as nat);
    } else if diff < 0 {
        vstd::arithmetic::div_mod::lemma_mod_add_multiples_vanish(diff, r);
        lemma_small_mod((diff + r) as nat, r as nat);
    }
}

/// Integers with the same residue differ by a multiple of the modulus.
pub proof fn lemma_red_diff(x: int, y: int)
    requires
        red(x) == red(y),
    ensures
        red(x - y) == 0,
{
    lemma_sub_mod_noop(x, y, modulus() as int);
}

/// A multiple of an integer with residue zero has residue zero, and so has
/// a sum of two such.
pub proof fn lemma_red_zero(a: int, h: int, b: int, k: int)
    requires
        red(h) == 0,
        red(k) == 0,
    ensures
        red(a * h) == 0,
        red(a * h + b * k) == 0,
{
    let r = modulus() as int;
    lemma_mul_mod_noop_general(a, h, r);
    lemma_mul_mod_noop_general(b, k, r);
    vstd::arithmetic::mul::lemma_mul_basics(a % r);
    vstd::arithmetic::mul::lemma_mul_basics(b % r);
    lemma_add_mod_noop(a * h, b * k, r);
}

/// Factors with the same residue give products with the same residue.
pub proof fn lemma_cong_mul(a: int, b: int, c: int)
    requires
        red(b) == red(c),
    ensures
        red(a * b) == red(a * c),
        red(b * a) == red(c * a),
{
    lemma_red_mul(a, b);
    lemma_red_mul(a, c);
    lemma_red_mul(b, a);
    lemma_red_mul(c, a);
}

/// Terms with the same residue give sums and differences with the same
/// residue.
pub proof fn lemma_cong_add(a: int, b: int, c: int)
    requires
        red(b) == red(c),
    ensures
        red(a + b) == red(a + c),
        red(b + a) == red(c + a),
        red(a - b) == red(a - c),
        red(b - a) == red(c - a),
{
    lemma_red_add(a, b);
    lemma_red_add(a, c);
    lemma_red_add(b, a);
    lemma_red_add(c, a);
    lemma_red_sub(a, b);
    lemma_red_sub(a, c);
    lemma_red_sub(b, a);
    lemma_red_sub(c, a);
}

} // verus!
