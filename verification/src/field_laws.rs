//! The laws of the scalar field that the proofs of this crate use, each
//! derived from the definitions of the field operations as arithmetic modulo
//! the prime.
use vstd::prelude::*;
use vstd::arithmetic::div_mod::{
    lemma_add_mod_noop,
    lemma_mod_twice,
    lemma_mul_mod_noop_general,
    lemma_small_mod,
    lemma_sub_mod_noop,
};
use vstd::arithmetic::mul::{
    lemma_mul_is_associative,
    lemma_mul_is_commutative,
    lemma_mul_is_distributive_add,
};
use crate::field::{fadd, fmul, fneg, fpow, fsub, modulus};

verus! {

/// The product does not depend on the order of its factors.
pub proof fn lemma_fmul_comm(a: nat, b: nat)
    ensures
        fmul(a, b) == fmul(b, a),
{
    lemma_mul_is_commutative(a as int, b as int);
}

/// The sum does not depend on the order of its terms.
pub proof fn lemma_fadd_comm(a: nat, b: nat)
    ensures
        fadd(a, b) == fadd(b, a),
{
}

/// Products may be grouped at will.
pub proof fn lemma_fmul_assoc(a: nat, b: nat, c: nat)
    ensures
        fmul(fmul(a, b), c) == fmul(a, fmul(b, c)),
{
    let m = modulus() as int;
    let (x, y, z) = (a as int, b as int, c as int);
    lemma_mul_mod_noop_general(x * y, z, m);
    lemma_mul_mod_noop_general(x, y * z, m);
    lemma_mul_is_associative(x, y, z);
    assert(((x * y) % m * z) % m == ((x * y) * z) % m);
    assert((x * ((y * z) % m)) % m == (x * (y * z)) % m);
}

/// Sums may be grouped at will.
pub proof fn lemma_fadd_assoc(a: nat, b: nat, c: nat)
    ensures
        fadd(fadd(a, b), c) == fadd(a, fadd(b, c)),
{
    let m = modulus() as int;
    let (x, y, z) = (a as int, b as int, c as int);
    lemma_add_mod_noop(x + y, z, m);
    lemma_add_mod_noop(x, y + z, m);
    lemma_mod_twice(x + y, m);
    lemma_mod_twice(y + z, m);
    lemma_small_mod((c % modulus()) as nat, modulus());
    lemma_small_mod((a % modulus()) as nat, modulus());
    assert((((x + y) % m) + z) % m == ((x + y) + z) % m) by {
        lemma_add_mod_noop((x + y) % m, z, m);
    }
    assert((x + ((y + z) % m)) % m == (x + (y + z)) % m) by {
        lemma_add_mod_noop(x, (y + z) % m, m);
    }
}

/// A product with a sum is the sum of the products.
pub proof fn lemma_distributive(a: nat, b: nat, c: nat)
    ensures
        fmul(a, fadd(b, c)) == fadd(fmul(a, b), fmul(a, c)),
        fmul(fadd(b, c), a) == fadd(fmul(b, a), fmul(c, a)),
{
    let m = modulus() as int;
    let (x, y, z) = (a as int, b as int, c as int);
    lemma_mul_mod_noop_general(x, y + z, m);
    lemma_mul_is_distributive_add(x, y, z);
    lemma_add_mod_noop(x * y, x * z, m);
    assert((x * ((y + z) % m)) % m == (x * (y + z)) % m);
    lemma_fmul_comm(a, fadd(b, c));
    lemma_fmul_comm(a, b);
    lemma_fmul_comm(a, c);
}

/// Zero and one are neutral, and zero absorbs.
pub proof fn lemma_neutral(a: nat)
    ensures
        fadd(a, 0) == a % modulus(),
        fadd(0, a) == a % modulus(),
        fmul(a, 1) == a % modulus(),
        fmul(1, a) == a % modulus(),
        fmul(a, 0) == 0,
        fmul(0, a) == 0,
        a < modulus() ==> a % modulus() == a,
{
    assert(a * 1 == a);
    assert(1 * a == a);
    assert(a * 0 == 0);
    assert(0 * a == 0);
    if a < modulus() {
        lemma_small_mod(a, modulus());
    }
}

/// Reducing a factor or a term first changes nothing.
pub proof fn lemma_reduce_first(a: nat, b: nat)
    ensures
        fmul(a % modulus(), b) == fmul(a, b),
        fmul(a, b % modulus()) == fmul(a, b),
        fadd(a % modulus(), b) == fadd(a, b),
        fadd(a, b % modulus()) == fadd(a, b),
{
    let m = modulus() as int;
    lemma_mul_mod_noop_general(a as int, b as int, m);
    lemma_add_mod_noop(a as int, b as int, m);
    lemma_mod_twice(a as int, m);
    lemma_mod_twice(b as int, m);
    lemma_add_mod_noop((a % modulus()) as int, b as int, m);
    lemma_add_mod_noop(a as int, (b % modulus()) as int, m);
}

/// Taking away what was added gives the start back.
pub proof fn lemma_fsub_fadd(a: nat, b: nat)
    ensures
        fsub(fadd(a, b), b) == a % modulus(),
        fadd(fsub(a, b), b) == a % modulus(),
        fadd(a, fneg(b)) == fsub(a, b),
{
    let m = modulus() as int;
    let (x, y) = (a as int, b as int);
    lemma_sub_mod_noop(x + y, y, m);
    lemma_mod_twice(x + y, m);
    assert(((x + y) % m - y) % m == ((x + y) - y) % m) by {
        lemma_sub_mod_noop((x + y) % m, y, m);
        lemma_sub_mod_noop(x + y, y, m);
    }
    assert((((x - y) % m) + y) % m == ((x - y) + y) % m) by {
        lemma_add_mod_noop((x - y) % m, y, m);
        lemma_add_mod_noop(x - y, y, m);
        lemma_mod_twice(x - y, m);
    }
    assert((x + ((0 - y) % m)) % m == (x + (0 - y)) % m) by {
        lemma_add_mod_noop(x, (0 - y) % m, m);
        lemma_add_mod_noop(x, 0 - y, m);
        lemma_mod_twice(0 - y, m);
    }
}

/// A product with a difference is the difference of the products.
pub proof fn lemma_distributive_sub(a: nat, b: nat, c: nat)
    ensures
        fmul(fsub(a, b), c) == fsub(fmul(a, c), fmul(b, c)),
        fmul(c, fsub(a, b)) == fsub(fmul(c, a), fmul(c, b)),
{
    let m = modulus() as int;
    let (x, y, z) = (a as int, b as int, c as int);
    lemma_mul_mod_noop_general(x - y, z, m);
    vstd::arithmetic::mul::lemma_mul_is_distributive_sub_other_way(z, x, y);
    lemma_sub_mod_noop(x * z, y * z, m);
    assert((((x - y) % m) * z) % m == ((x - y) * z) % m);
    assert((x - y) * z == x * z - y * z);
    lemma_mul_is_commutative(((x - y) % m), z);
    lemma_mul_is_commutative(x, z);
    lemma_mul_is_commutative(y, z);
}

/// Reducing either side of a difference first changes nothing, and a
/// residue less itself is zero.
pub proof fn lemma_fsub_reduce(a: nat, b: nat)
    ensures
        fsub(a % modulus(), b) == fsub(a, b),
        fsub(a, b % modulus()) == fsub(a, b),
        fsub(a, a) == 0,
        fsub(a, 0) == a % modulus(),
{
    let m = modulus() as int;
    lemma_sub_mod_noop(a as int, b as int, m);
    lemma_mod_twice(a as int, m);
    lemma_mod_twice(b as int, m);
    lemma_sub_mod_noop((a % modulus()) as int, b as int, m);
    lemma_sub_mod_noop(a as int, (b % modulus()) as int, m);
}

/// The negative of the negative of a reduced residue is the residue.
pub proof fn lemma_fneg_twice(a: nat)
    requires
        a < modulus(),
    ensures
        fneg(fneg(a)) == a,
{
    let m = modulus() as int;
    let x = a as int;
    lemma_sub_mod_noop(0, 0 - x, m);
    lemma_mod_twice(0 - x, m);
    assert((0 - ((0 - x) % m)) % m == (0 - (0 - x)) % m) by {
        lemma_sub_mod_noop(0, (0 - x) % m, m);
    }
    lemma_small_mod(a, modulus());
}

/// A power with a sum as exponent is the product of the powers.
pub proof fn lemma_fpow_add(x: nat, a: nat, b: nat)
    ensures
        fpow(x, a + b) == fmul(fpow(x, a), fpow(x, b)),
    decreases b,
{
    if b == 0 {
        crate::algebra::lemma_fpow_reduced(x, a);
        lemma_neutral(fpow(x, a));
    } else {
        lemma_fpow_add(x, a, (b - 1) as nat);
        assert(fpow(x, a + b) == fmul(fpow(x, (a + b - 1) as nat), x));
        lemma_fmul_assoc(fpow(x, a), fpow(x, (b - 1) as nat), x);
    }
}

/// A power of a power is the power with the product of the exponents.
pub proof fn lemma_fpow_mul(x: nat, a: nat, b: nat)
    ensures
        fpow(fpow(x, a), b) == fpow(x, a * b),
    decreases b,
{
    if b == 0 {
        assert(a * 0 == 0);
    } else {
        lemma_fpow_mul(x, a, (b - 1) as nat);
        assert(a * b == a * (b - 1) + a) by (nonlinear_arith)
            requires
                b >= 1,
        ;
        assert(a * (b - 1) >= 0) by (nonlinear_arith)
            requires
                b >= 1,
                a >= 0,
        ;
        lemma_fpow_add(x, (a * (b - 1)) as nat, a);
    }
}

/// A power of one is one.
pub proof fn lemma_fpow_of_one(k: nat)
    ensures
        fpow(1, k) == 1,
    decreases k,
{
    if k > 0 {
        lemma_fpow_of_one((k - 1) as nat);
        lemma_neutral(1);
    }
}

/// If `x` to the `n` is one, multiples of `n` in the exponent do not count.
pub proof fn lemma_fpow_period(x: nat, n: nat, a: nat, k: nat)
    requires
        fpow(x, n) == 1,
    ensures
        fpow(x, a + k * n) == fpow(x, a),
{
    assert(k * n == n * k) by (nonlinear_arith);
    lemma_fpow_add(x, a, k * n);
    lemma_fpow_mul(x, n, k);
    lemma_fpow_of_one(k);
    crate::algebra::lemma_fpow_reduced(x, a);
    lemma_neutral(fpow(x, a));
}

/// If `x` to the `n` is one, exponents that agree modulo `n` give the same
/// power.
pub proof fn lemma_fpow_congruent(x: nat, n: nat, a: nat, b: nat)
    requires
        n > 0,
        fpow(x, n) == 1,
        a % n == b % n,
    ensures
        fpow(x, a) == fpow(x, b),
{
    vstd::arithmetic::div_mod::lemma_fundamental_div_mod(a as int, n as int);
    vstd::arithmetic::div_mod::lemma_fundamental_div_mod(b as int, n as int);
    let r = a % n;
    let (qa, qb) = (a / n, b / n);
    assert(a == r + qa * n) by (nonlinear_arith)
        requires
            a == n * qa + r,
    ;
    assert(b == r + qb * n) by (nonlinear_arith)
        requires
            b == n * qb + r,
    ;
    lemma_fpow_period(x, n, r, qa);
    lemma_fpow_period(x, n, r, qb);
}

} // verus!
