//! Why a verifier accepts the proof of an honest prover: the identities
//! between the indices of what the prover sends, under a reference string
//! of the powers of one secret.
use vstd::prelude::*;
use crate::algebra::{
    commit_index,
    dft,
    domain_element,
    lemma_fpow_reduced,
    lemma_poly_eval_reduced,
    poly_eval,
    powers,
};
use crate::domain::root_of_unity;
use crate::field::{fadd, finv, fmul, fneg, fpow, fsub, modulus};
use crate::field_laws::{lemma_fpow_add};
use crate::pre_compute::{lagrange_commitments, quotient_lagrange_commitments};
use crate::residues::{
    lemma_absorb,
    lemma_cong_add,
    lemma_cong_mul,
    lemma_red_basics,
    lemma_red_diff,
    lemma_red_eq,
    lemma_red_zero,
    red,
};

verus! {

/// The power of a product is the product of the powers.
pub proof fn lemma_fpow_product(x: nat, y: nat, k: nat)
    ensures
        fpow(fmul(x, y), k) == fmul(fpow(x, k), fpow(y, k)),
    decreases k,
{
    if k == 0 {
        assert(fmul(1, 1) == 1) by {
            crate::field_laws::lemma_neutral(1);
        }
    } else {
        let j = (k - 1) as nat;
        lemma_fpow_product(x, y, j);
        let (px, py) = (fpow(x, j) as int, fpow(y, j) as int);
        let (xi, yi) = (x as int, y as int);
        // (px py) (x y) == (px x) (py y)
        lemma_absorb(px * py, xi * yi);
        lemma_absorb(xi * yi, px * py);
        lemma_absorb(px * xi, py * yi);
        lemma_absorb(py * yi, px * xi);
        assert((px * py) * (xi * yi) == (px * xi) * (py * yi)) by (nonlinear_arith);
        lemma_absorb(px * py, red(xi * yi) as int);
        lemma_absorb(px * xi, red(py * yi) as int);
        assert(fpow(fmul(x, y), k) == red(red(px * py) as int * red(xi * yi) as int));
        assert(fmul(fpow(x, k), fpow(y, k)) == red(red(px * xi) as int * red(py * yi) as int));
    }
}

/// One step of the geometric sum, on integers modulo the prime: if
/// `g1 e = q p - 1` for `e = x s - 1`, then `(g1 + p q) e = (q x) (p s) - 1`.
proof fn lemma_geometric_step(g1: int, p: int, q: int, x: int, s: int)
    requires
        red(g1 * (x * s - 1)) == red(q * p - 1),
    ensures
        red((g1 + p * q) * (x * s - 1)) == red((q * x) * (p * s) - 1),
{
    let e = x * s - 1;
    let u = p * q;
    assert((g1 + u) * e == u * e + g1 * e) by (nonlinear_arith);
    assert(q * p - 1 == u - 1) by (nonlinear_arith)
        requires
            u == p * q,
    ;
    lemma_cong_add(u * e, g1 * e, u - 1);
    assert(u * e + (u - 1) == u * (x * s) - 1) by (nonlinear_arith)
        requires
            e == x * s - 1,
    ;
    assert(u * (x * s) == (q * x) * (p * s)) by (nonlinear_arith)
        requires
            u == p * q,
    ;
}

/// The geometric sum: the value at `x` of the polynomial whose
/// coefficients are the first `n` powers of `s`, times `x s - 1`, is
/// `x^n s^n - 1`.
#[verifier::rlimit(40)]
pub proof fn lemma_geometric(s: nat, x: nat, n: nat)
    ensures
        fmul(poly_eval(powers(s, n), x), fsub(fmul(x, s), 1)) == fsub(
            fmul(fpow(x, n), fpow(s, n)),
            1,
        ),
    decreases n,
{
    let g = poly_eval(powers(s, n), x) as int;
    let (xi, si) = (x as int, s as int);
    let e = xi * si - 1;
    if n == 0 {
        assert(fpow(x, 0) == 1 && fpow(s, 0) == 1);
        crate::field_laws::lemma_neutral(fsub(fmul(x, s), 1));
        crate::field_laws::lemma_neutral(1);
        crate::field_laws::lemma_fsub_reduce(1, 1);
    } else {
        let m = (n - 1) as nat;
        lemma_geometric(s, x, m);
        assert(powers(s, n).drop_last() =~= powers(s, m));
        let g1 = poly_eval(powers(s, m), x) as int;
        let (p, q) = (fpow(s, m) as int, fpow(x, m) as int);
        assert(red(g1 * e) == red(q * p - 1)) by {
            lemma_absorb(xi * si, 1);
            lemma_absorb(g1, e);
            lemma_absorb(q * p, 1);
        }
        lemma_geometric_step(g1, p, q, xi, si);
        assert(fmul(g as nat, fsub(fmul(x, s), 1)) == red((g1 + p * q) * e)) by {
            lemma_absorb(xi * si, 1);
            lemma_absorb(g1, p * q);
            lemma_absorb(g1 + p * q, e);
            lemma_absorb(g, e);
        }
        assert(fsub(fmul(fpow(x, n), fpow(s, n)), 1) == red((q * xi) * (p * si) - 1)) by {
            lemma_absorb(q * xi, p * si);
            lemma_absorb(q * xi, red(p * si) as int);
            lemma_absorb((q * xi) * (p * si), 1);
        }
    }
}

/// Domain element `i` times domain element `-i` is one.
pub proof fn lemma_domain_inverse(n: nat, i: nat)
    requires
        i < n,
        domain_element(n, n) == 1,
    ensures
        fmul(domain_element(n, i), domain_element(n, ((n - i) % (n as int)) as nat)) == 1,
        domain_element(n, (n - i) as nat) == domain_element(n, ((n - i) % (n as int)) as nat),
        fpow(domain_element(n, ((n - i) % (n as int)) as nat), n) == 1,
{
    let w = root_of_unity(n);
    let j = ((n - i) % (n as int)) as nat;
    lemma_fpow_add(w, i, j);
    crate::toeplitz_laws::lemma_domain_element_order(n, j);
    if i == 0 {
        vstd::arithmetic::div_mod::lemma_mod_self_0(n as int);
        assert(fpow(w, 0) == 1);
    } else {
        vstd::arithmetic::div_mod::lemma_small_mod((n - i) as nat, n);
    }
}

/// The core of the relation between a Lagrange commitment and a quotient
/// commitment, on integers modulo the prime.
proof fn lemma_star_core(ninv: int, g: int, k: int, w: int, x: int, s: int, ts: int, ti: int, sn: int)
    requires
        red(g * (x * s - 1)) == red(sn - 1),
        red(w * x) == 1,
        red(k * (s - w)) == red(ts - ti),
    ensures
        red((g * ninv) * (ts - ti)) == red((k * (w * ninv)) * (sn - 1)),
{
    let e = x * s - 1;
    // w e = s - w
    assert(red(w * e) == red(s - w)) by {
        lemma_red_basics(1);
        lemma_red_diff(w * x, 1);
        assert(w * e - (s - w) == s * (w * x - 1)) by (nonlinear_arith)
            requires
                e == x * s - 1,
        ;
        lemma_red_zero(s, w * x - 1, 0, 0);
        lemma_red_eq(w * e, s - w);
    }
    lemma_cong_mul(k, s - w, w * e);
    lemma_cong_mul(g * ninv, ts - ti, k * (w * e));
    assert((g * ninv) * (k * (w * e)) == (k * (w * ninv)) * (g * e)) by (nonlinear_arith);
    lemma_cong_mul(k * (w * ninv), g * e, sn - 1);
}

/// For a polynomial `t` and the domain element `w` of position `i`: the
/// Lagrange commitment of `i`, times the commitment of `t` less the value
/// of `t` at `w`, is the scaled opening of `t` at `w`, times the commitment
/// of the vanishing polynomial. All under the powers of `s`.
#[verifier::rlimit(40)]
pub proof fn lemma_lagrange_times_table(s: nat, n: nat, t: Seq<nat>, i: nat, ninv: nat)
    requires
        i < n,
        domain_element(n, n) == 1,
    ensures
        fmul(
            fmul(poly_eval(powers(s, n), domain_element(n, ((n - i) % (n as int)) as nat)), ninv),
            fsub(poly_eval(t, s), poly_eval(t, domain_element(n, i))),
        ) == fmul(
            fmul(
                poly_eval(crate::toeplitz_laws::opening_quotient(t, domain_element(n, i)), s),
                fmul(domain_element(n, i), ninv),
            ),
            fsub(fpow(s, n), 1),
        ),
{
    let w = domain_element(n, i);
    let x = domain_element(n, ((n - i) % (n as int)) as nat);
    let g = poly_eval(powers(s, n), x);
    let k = poly_eval(crate::toeplitz_laws::opening_quotient(t, w), s);
    let ts = poly_eval(t, s);
    let ti = poly_eval(t, w);
    let sn = fpow(s, n);
    let (gi, ki, wi, xi, si, tsi, tii, sni, ninvi) = (
        g as int,
        k as int,
        w as int,
        x as int,
        s as int,
        ts as int,
        ti as int,
        sn as int,
        ninv as int,
    );
    lemma_domain_inverse(n, i);
    lemma_geometric(s, x, n);
    crate::toeplitz_laws::lemma_quotient_identity(t, w, s);
    // the three hypotheses, on integers
    assert(red(gi * (xi * si - 1)) == red(sni - 1)) by {
        lemma_absorb(xi * si, 1);
        lemma_absorb(gi, xi * si - 1);
        lemma_fpow_reduced(s, n);
        crate::field_laws::lemma_neutral(sn);
        assert(fmul(fpow(x, n), sn) == sn);
    }
    assert(red(wi * xi) == 1);
    assert(red(ki * (si - wi)) == red(tsi - tii)) by {
        lemma_absorb(ki, si - wi);
    }
    lemma_star_core(ninvi, gi, ki, wi, xi, si, tsi, tii, sni);
    // the two sides of the claim, on integers
    assert(fmul(fmul(g, ninv), fsub(ts, ti)) == red((gi * ninvi) * (tsi - tii))) by {
        lemma_absorb(gi * ninvi, tsi - tii);
        lemma_absorb(gi * ninvi, red(tsi - tii) as int);
    }
    assert(fmul(fmul(k, fmul(w, ninv)), fsub(sn, 1)) == red((ki * (wi * ninvi)) * (sni - 1))) by {
        lemma_absorb(ki, wi * ninvi);
        lemma_absorb(ki * (wi * ninvi), sni - 1);
        lemma_absorb(ki * (wi * ninvi), red(sni - 1) as int);
        lemma_absorb(ki * red(wi * ninvi) as int, red(sni - 1) as int);
    }
}

/// A weighted sum of points, as a sum of terms.
pub proof fn lemma_weighted_sum_fsum(points: Seq<nat>, positions: Seq<usize>, weights: Seq<nat>)
    requires
        positions.len() == weights.len(),
    ensures
        crate::protocol::weighted_sum(points, positions, weights) == crate::sums::fsum(
            |k: int| fmul(points[positions[k] as int], weights[k]),
            positions.len(),
        ),
    decreases positions.len(),
{
    let f = |k: int| fmul(points[positions[k] as int], weights[k]);
    if positions.len() > 0 {
        let (front, front_weights) = (positions.drop_last(), weights.drop_last());
        lemma_weighted_sum_fsum(points, front, front_weights);
        crate::sums::lemma_fsum_ext(|k: int| fmul(points[front[k] as int], front_weights[k]), f, front.len());
        assert(crate::sums::fsum(f, positions.len()) == fadd(
            crate::sums::fsum(f, (positions.len() - 1) as nat),
            f(positions.len() - 1),
        ));
    }
}

/// The values in order of first occurrence are distinct.
pub proof fn lemma_first_occurrences_distinct(f: Seq<nat>)
    ensures
        crate::scalar_map::distinct(crate::cq::first_occurrences(f)),
    decreases f.len(),
{
    if f.len() > 0 {
        lemma_first_occurrences_distinct(f.drop_last());
        crate::cq::lemma_first_occurrences(f.drop_last(), f.last());
        let rest = crate::cq::first_occurrences(f.drop_last());
        if !f.drop_last().contains(f.last()) {
            let keys = rest.push(f.last());
            assert forall|i: int, j: int| 0 <= i < j < keys.len() implies keys[i] != keys[j] by {
                if j == rest.len() {
                    assert(rest.contains(rest[i]));
                }
            }
        }
    }
}

/// A sum over the values of a witness is the sum over its distinct values,
/// each taken as often as it occurs.
pub proof fn lemma_regroup(f: Seq<nat>, g: spec_fn(nat) -> nat)
    requires
        f.len() <= usize::MAX,
    ensures
        crate::sums::fsum(|j: int| g(f[j]), f.len()) == crate::sums::fsum(
            |k: int|
                fmul(
                    g(crate::cq::first_occurrences(f)[k]),
                    crate::protocol::count_map(f)[crate::cq::first_occurrences(f)[k]] as nat,
                ),
            crate::cq::first_occurrences(f).len(),
        ),
    decreases f.len(),
{
    let keys = crate::cq::first_occurrences(f);
    let counts = crate::protocol::count_map(f);
    let lhs = |j: int| g(f[j]);
    let rhs = |k: int| fmul(g(keys[k]), counts[keys[k]] as nat);
    if f.len() > 0 {
        let f1 = f.drop_last();
        let v = f.last();
        let keys1 = crate::cq::first_occurrences(f1);
        let counts1 = crate::protocol::count_map(f1);
        let lhs1 = |j: int| g(f1[j]);
        let rhs1 = |k: int| fmul(g(keys1[k]), counts1[keys1[k]] as nat);
        lemma_regroup(f1, g);
        crate::sums::lemma_fsum_ext(lhs, lhs1, f1.len());
        assert(crate::sums::fsum(lhs, f.len()) == fadd(crate::sums::fsum(lhs1, f1.len()), g(v)));
        crate::cq::lemma_first_occurrences(f1, v);
        crate::prover::lemma_count_map(f1, v);
        lemma_first_occurrences_distinct(f1);
        if f1.contains(v) {
            // the count of a known value goes up by one
            let p = choose|p: int| 0 <= p < keys1.len() && keys1[p] == v;
            assert forall|k: int| 0 <= k < keys1.len() && k != p implies #[trigger] rhs(k) == rhs1(
                k,
            ) by {
                assert(keys1[k] != v);
            }
            let c = counts1[v] as int;
            let gv = g(v) as int;
            assert(counts[v] as int == c + 1);
            assert(rhs(p) == fadd(rhs1(p), g(v))) by {
                lemma_absorb(gv * c, gv);
                assert(gv * (c + 1) == gv * c + gv) by (nonlinear_arith);
            }
            crate::sums::lemma_fsum_update(rhs1, rhs, keys1.len(), p, g(v));
        } else {
            // a new value comes last, with the count one
            assert(keys == keys1.push(v));
            assert forall|k: int| 0 <= k < keys1.len() implies #[trigger] rhs(k) == rhs1(k) by {
                assert(keys1.contains(keys1[k]));
                assert(keys1[k] != v);
            }
            crate::sums::lemma_fsum_ext(rhs, rhs1, keys1.len());
            assert(crate::sums::fsum(rhs, keys.len()) == fadd(
                crate::sums::fsum(rhs, keys1.len()),
                rhs(keys1.len() as int),
            ));
            assert(rhs(keys1.len() as int) == fmul(g(v), 1));
            crate::field_laws::lemma_neutral(g(v));
            crate::field_laws::lemma_reduce_first(crate::sums::fsum(rhs1, keys1.len()), g(v));
        }
    }
}

/// The value of a polynomial times `X^k` is `x^k` times the value of the
/// polynomial.
pub proof fn lemma_eval_shift_up(p: Seq<nat>, k: nat, x: nat)
    ensures
        poly_eval(crate::protocol::shift_up(p, k), x) == fmul(fpow(x, k), poly_eval(p, x)),
    decreases k,
{
    let shifted = crate::protocol::shift_up(p, k);
    if k == 0 {
        assert(shifted =~= p);
        lemma_poly_eval_reduced(p, x);
        crate::field_laws::lemma_neutral(poly_eval(p, x));
    } else {
        let j = (k - 1) as nat;
        lemma_eval_shift_up(p, j, x);
        assert(shifted.skip(1) =~= crate::protocol::shift_up(p, j));
        crate::toeplitz_laws::lemma_poly_eval_front(shifted, x);
        let inner = poly_eval(crate::protocol::shift_up(p, j), x);
        crate::field_laws::lemma_neutral(fmul(x, inner));
        crate::field_laws::lemma_fmul_assoc(x, fpow(x, j), poly_eval(p, x));
        crate::field_laws::lemma_fmul_comm(x, fpow(x, j));
    }
}

/// The degree check of an honest prover: under the powers of `s`, the
/// commitment to `b0` paired with `s^k` is the commitment to `X^k b0`.
pub proof fn lemma_degree_check(s: nat, len: nat, b0: Seq<nat>, k: nat)
    requires
        b0.len() + k <= len,
    ensures
        fmul(commit_index(powers(s, len), b0), fpow(s, k)) == fmul(
            commit_index(
                powers(s, len),
                crate::poly::trim(crate::protocol::shift_up(b0, k)),
            ),
            1,
        ),
{
    let srs = powers(s, len);
    let shifted = crate::protocol::shift_up(b0, k);
    crate::commit_laws::lemma_commit_trim(srs, shifted);
    crate::commit_laws::lemma_commit_is_eval(s, len, shifted);
    crate::commit_laws::lemma_commit_is_eval(s, len, b0);
    lemma_eval_shift_up(b0, k, s);
    crate::field_laws::lemma_fmul_comm(fpow(s, k), poly_eval(b0, s));
    crate::field_laws::lemma_neutral(fmul(poly_eval(b0, s), fpow(s, k)));
}

/// The preprocessed table is that of `t` under the powers of `s`, and the
/// domain of the table is a group of the order of the table.
pub open spec fn honest_setup(cq: crate::protocol::CqView, s: nat, t: Seq<nat>) -> bool {
    let n = t.len();
    let tx = crate::algebra::idft(t, n);
    &&& cq.big_n == n
    &&& n >= 1
    &&& n < modulus()
    &&& cq.g1.len() > n
    &&& cq.g1 == powers(s, cq.g1.len())
    &&& cq.g2 == powers(s, cq.g1.len())
    &&& cq.z_v_2 == fsub(cq.g2[n as int], cq.g2[0])
    &&& cq.t_x_2 == commit_index(cq.g2, crate::poly::trim(tx))
    &&& cq.li == lagrange_commitments(cq.g1, n)
    &&& cq.lqi == quotient_lagrange_commitments(cq.li, cq.g1)
    &&& cq.qi.len() == n
    &&& forall|i: int| 0 <= i < n ==> #[trigger] cq.qi[i] == crate::cq::scaled_opening(cq.g1, tx, i)
    &&& dft(tx, n) == t
    &&& domain_element(n, n) == 1
    &&& fmul(n, finv(n)) == 1
    &&& cq.table == crate::cq::table_map(t)
}

/// What an honest setup says of the parts that belong to position `i` of
/// the table: the Lagrange commitment is the geometric sum divided by `n`,
/// and times the table commitment less the table value it is the quotient
/// commitment times the commitment of the vanishing polynomial.
pub proof fn lemma_setup_at(cq: crate::protocol::CqView, s: nat, t: Seq<nat>, i: int)
    requires
        honest_setup(cq, s, t),
        0 <= i < t.len(),
    ensures
        cq.t_x_2 == poly_eval(crate::algebra::idft(t, t.len()), s),
        cq.z_v_2 == fsub(fpow(s, t.len()), 1),
        cq.g1[0] == 1,
        cq.g2[0] == 1,
        cq.g2[1] == s % modulus(),
        cq.li[i] == fmul(
            poly_eval(
                powers(s, t.len()),
                domain_element(t.len(), ((t.len() - i) % (t.len() as int)) as nat),
            ),
            finv(t.len()),
        ),
        fmul(cq.li[i], fsub(cq.t_x_2, t[i])) == fmul(cq.qi[i], cq.z_v_2),
{
    let n = t.len();
    let len = cq.g1.len();
    let tx = crate::algebra::idft(t, n);
    let w = domain_element(n, i as nat);
    let x = domain_element(n, ((n - i) % (n as int)) as nat);
    vstd::arithmetic::div_mod::lemma_small_mod(n, modulus());
    crate::commit_laws::lemma_commit_trim(cq.g2, tx);
    crate::commit_laws::lemma_commit_is_eval(s, len, tx);
    assert(cq.g2[n as int] == fpow(s, n));
    assert(cq.g2[0] == fpow(s, 0));
    assert(fpow(s, 0) == 1);
    assert(cq.g2[1] == fpow(s, 1));
    assert(fpow(s, 1) == fmul(1, s));
    crate::field_laws::lemma_neutral(s);
    assert(cq.g1.take(n as int) =~= powers(s, n));
    assert(dft(cq.g1.take(n as int), n)[(n - i) % (n as int)] == poly_eval(powers(s, n), x)) by {
        vstd::arithmetic::div_mod::lemma_mod_bound(n - i, n as int);
    }
    let oq = crate::toeplitz_laws::opening_quotient(tx, w);
    crate::commit_laws::lemma_commit_is_eval(s, len, oq);
    assert(dft(tx, n)[i] == poly_eval(tx, w));
    lemma_lagrange_times_table(s, n, tx, i as nat, finv(n));
}

/// The core of the first check for one position, on integers modulo the
/// prime: from `l (ts - ti) = q z` and `a (ti + beta) = c` follows
/// `(l a) ts = (q a) z + (l c - (l a) beta)`.
proof fn lemma_check_a_core(l: int, q: int, a: int, c: int, ts: int, ti: int, z: int, beta: int)
    requires
        red(l * (ts - ti)) == red(q * z),
        red(a * (ti + beta)) == red(c),
    ensures
        red((l * a) * ts) == red((q * a) * z + (l * c - (l * a) * beta)),
{
    let u = l * (ts - ti);
    let v = q * z;
    let la = l * a;
    assert(la * ts == a * u + la * ti) by (nonlinear_arith)
        requires
            u == l * (ts - ti),
            la == l * a,
    ;
    lemma_cong_mul(a, u, v);
    lemma_cong_add(la * ti, a * u, a * v);
    // l c - (l a) beta = (l a) ti
    let c1 = a * (ti + beta);
    lemma_cong_mul(l, c, c1);
    lemma_cong_add(la * beta, l * c, l * c1);
    assert(l * c1 - la * beta == la * ti) by (nonlinear_arith)
        requires
            c1 == a * (ti + beta),
            la == l * a,
    ;
    lemma_cong_add(a * v, l * c - la * beta, la * ti);
    assert((q * a) * z == a * v) by (nonlinear_arith)
        requires
            v == q * z,
    ;
}

/// The first check of an honest prover: with weights `a` that are the
/// counts divided by the table values plus `beta`, the commitment to A
/// times the table commitment is the quotient commitment times the
/// commitment of the vanishing polynomial, plus the commitment to the
/// multiplicities less `beta` times the commitment to A.
#[verifier::rlimit(40)]
pub proof fn lemma_check_a(
    cq: crate::protocol::CqView,
    s: nat,
    t: Seq<nat>,
    m: Seq<(usize, usize)>,
    a: Seq<nat>,
    beta: nat,
)
    requires
        honest_setup(cq, s, t),
        a.len() == m.len(),
        forall|k: int| 0 <= k < m.len() ==> (#[trigger] m[k]).0 < t.len(),
        forall|k: int|
            0 <= k < m.len() ==> fmul(#[trigger] a[k], fadd(t[m[k].0 as int], beta)) == (
            m[k].1 as nat) % modulus(),
    ensures
        fmul(
            crate::protocol::weighted_sum(cq.li, crate::protocol::positions_of(m), a),
            cq.t_x_2,
        ) == fadd(
            fmul(
                crate::protocol::weighted_sum(cq.qi, crate::protocol::positions_of(m), a),
                cq.z_v_2,
            ),
            fmul(
                fsub(
                    crate::protocol::weighted_sum(
                        cq.li,
                        crate::protocol::positions_of(m),
                        crate::protocol::counts_of(m),
                    ),
                    fmul(
                        crate::protocol::weighted_sum(cq.li, crate::protocol::positions_of(m), a),
                        beta,
                    ),
                ),
                cq.g2[0],
            ),
        ),
{
    let pos = crate::protocol::positions_of(m);
    let counts = crate::protocol::counts_of(m);
    let len = m.len();
    let cm_a = crate::protocol::weighted_sum(cq.li, pos, a);
    let cm_q = crate::protocol::weighted_sum(cq.qi, pos, a);
    let cm_m = crate::protocol::weighted_sum(cq.li, pos, counts);
    let (ts, z) = (cq.t_x_2, cq.z_v_2);
    let wa = |k: int| fmul(cq.li[pos[k] as int], a[k]);
    let wq = |k: int| fmul(cq.qi[pos[k] as int], a[k]);
    let wm = |k: int| fmul(cq.li[pos[k] as int], counts[k]);
    lemma_weighted_sum_fsum(cq.li, pos, a);
    lemma_weighted_sum_fsum(cq.qi, pos, a);
    lemma_weighted_sum_fsum(cq.li, pos, counts);
    crate::sums::lemma_fsum_ext(|k: int| fmul(cq.li[pos[k] as int], a[k]), wa, len);
    crate::sums::lemma_fsum_ext(|k: int| fmul(cq.qi[pos[k] as int], a[k]), wq, len);
    crate::sums::lemma_fsum_ext(|k: int| fmul(cq.li[pos[k] as int], counts[k]), wm, len);
    // the left-hand side, term by term
    let left = |k: int| fmul(ts, wa(k));
    crate::sums::lemma_fsum_scale(wa, ts, len);
    crate::sums::lemma_fsum_ext(|k: int| fmul(ts, wa(k)), left, len);
    crate::field_laws::lemma_fmul_comm(ts, cm_a);
    // the right-hand side, term by term
    let rq = |k: int| fmul(z, wq(k));
    let rb = |k: int| fmul(beta, wa(k));
    let rd = |k: int| fsub(wm(k), rb(k));
    let right = |k: int| fadd(rq(k), rd(k));
    crate::sums::lemma_fsum_scale(wq, z, len);
    crate::sums::lemma_fsum_ext(|k: int| fmul(z, wq(k)), rq, len);
    crate::sums::lemma_fsum_scale(wa, beta, len);
    crate::sums::lemma_fsum_ext(|k: int| fmul(beta, wa(k)), rb, len);
    crate::sums::lemma_fsum_sub(wm, rb, len);
    crate::sums::lemma_fsum_ext(|k: int| fsub(wm(k), rb(k)), rd, len);
    crate::sums::lemma_fsum_add(rq, rd, len);
    crate::sums::lemma_fsum_ext(|k: int| fadd(rq(k), rd(k)), right, len);
    crate::field_laws::lemma_fmul_comm(z, cm_q);
    crate::field_laws::lemma_fmul_comm(beta, cm_a);
    // term by term, both sides agree
    assert forall|k: int| 0 <= k < len implies #[trigger] left(k) == right(k) by {
        let i = m[k].0 as int;
        assert(pos[k] == m[k].0);
        lemma_setup_at(cq, s, t, i);
        let (l, q, ak, c, ti) = (
            cq.li[i] as int,
            cq.qi[i] as int,
            a[k] as int,
            counts[k] as int,
            t[i] as int,
        );
        let (tsi, zi, bi) = (ts as int, z as int, beta as int);
        assert(red(l * (tsi - ti)) == red(q * zi)) by {
            lemma_absorb(l, tsi - ti);
        }
        assert(red(ak * (ti + bi)) == red(c)) by {
            lemma_absorb(ak, ti + bi);
        }
        lemma_check_a_core(l, q, ak, c, tsi, ti, zi, bi);
        assert(left(k) == red((l * ak) * tsi)) by {
            lemma_absorb(tsi, l * ak);
            assert(tsi * (l * ak) == (l * ak) * tsi) by (nonlinear_arith);
        }
        assert(right(k) == red((q * ak) * zi + (l * c - (l * ak) * bi))) by {
            lemma_absorb(zi, q * ak);
            lemma_absorb(bi, l * ak);
            lemma_absorb(l * c, bi * (l * ak));
            lemma_absorb(l * c, red(bi * (l * ak)) as int);
            lemma_absorb(red(l * c) as int, red(bi * (l * ak)) as int);
            lemma_absorb(zi * (q * ak), l * c - bi * (l * ak));
            lemma_absorb(zi * (q * ak), red(l * c - bi * (l * ak)) as int);
            lemma_absorb(red(zi * (q * ak)) as int, red(l * c - bi * (l * ak)) as int);
            assert(zi * (q * ak) == (q * ak) * zi) by (nonlinear_arith);
            assert(bi * (l * ak) == (l * ak) * bi) by (nonlinear_arith);
        }
    }
    crate::sums::lemma_fsum_ext(left, right, len);
    // the factor one
    lemma_setup_at(cq, s, t, 0);
    crate::field_laws::lemma_neutral(fsub(cm_m, fmul(cm_a, beta)));
}

/// The core of the relation between a Lagrange commitment and its
/// quotient by `X`, on integers modulo the prime.
proof fn lemma_lagrange_quotient_core(g: int, ninv: int, x: int, s: int, p: int, sn: int)
    requires
        red(g * (x * s - 1)) == red(sn - 1),
        red(p * s) == red(sn),
    ensures
        red(g * ninv - ((g * ninv) * x + p * (0 - ninv)) * s) == red(ninv),
{
    let e1 = g * (x * s - 1);
    let e2 = p * s;
    let a = g * ninv;
    let b = p * ninv;
    let y = x * s;
    assert(p * (0 - ninv) == -b) by (nonlinear_arith)
        requires
            b == p * ninv,
    ;
    assert((a * x + (-b)) * s == a * y - b * s) by (nonlinear_arith)
        requires
            y == x * s,
    ;
    assert(ninv * e2 == b * s) by (nonlinear_arith)
        requires
            e2 == p * s,
            b == p * ninv,
    ;
    assert(ninv * e1 == a * y - a) by (nonlinear_arith)
        requires
            e1 == g * (y - 1),
            a == g * ninv,
    ;
    assert(ninv * (e2 - e1) == ninv * e2 - ninv * e1) by (nonlinear_arith);
    assert(a - (a * x + p * (0 - ninv)) * s == ninv * (e2 - e1));
    lemma_cong_add(e2, e1, sn - 1);
    lemma_cong_add(-(sn - 1), e2, sn);
    assert(e2 - (sn - 1) == -(sn - 1) + e2);
    assert(sn - (sn - 1) == 1);
    assert(-(sn - 1) + sn == 1);
    lemma_cong_mul(ninv, e2 - e1, 1);
    assert(ninv * 1 == ninv);
}

/// Under an honest setup, the Lagrange commitment of position `i` less `s`
/// times its quotient commitment is the value of the Lagrange polynomial
/// at zero: one over `n`.
pub proof fn lemma_lagrange_at_zero(cq: crate::protocol::CqView, s: nat, t: Seq<nat>, i: int)
    requires
        honest_setup(cq, s, t),
        0 <= i < t.len(),
    ensures
        fsub(cq.li[i], fmul(cq.lqi[i], s)) == finv(t.len()) % modulus(),
{
    let n = t.len();
    let x = domain_element(n, ((n - i) % (n as int)) as nat);
    let g = poly_eval(powers(s, n), x);
    let ninv = finv(n);
    let p = fpow(s, (n - 1) as nat);
    let sn = fpow(s, n);
    let (gi, ninvi, xi, si, pi, sni) = (
        g as int,
        ninv as int,
        x as int,
        s as int,
        p as int,
        sn as int,
    );
    lemma_setup_at(cq, s, t, i);
    lemma_domain_inverse(n, i as nat);
    lemma_geometric(s, x, n);
    vstd::arithmetic::div_mod::lemma_small_mod(n, modulus());
    assert(red(gi * (xi * si - 1)) == red(sni - 1)) by {
        lemma_absorb(xi * si, 1);
        lemma_absorb(gi, xi * si - 1);
        lemma_fpow_reduced(s, n);
        crate::field_laws::lemma_neutral(sn);
        assert(fmul(fpow(x, n), sn) == sn);
    }
    assert(red(pi * si) == red(sni)) by {
        assert(sn == fmul(p, s));
        lemma_red_basics(sn);
    }
    lemma_lagrange_quotient_core(gi, ninvi, xi, si, pi, sni);
    let li = cq.li[i] as int;
    let lq = cq.lqi[i] as int;
    assert(cq.g1[n - 1] == p);
    assert(cq.lqi[i] == fadd(fmul(cq.li[i], x), fmul(p, fneg(ninv))));
    assert(lq == red((gi * ninvi) * xi + pi * (0 - ninvi))) by {
        lemma_absorb(gi * ninvi, xi);
        lemma_absorb(pi, 0 - ninvi);
        lemma_absorb((gi * ninvi) * xi, pi * (0 - ninvi));
        lemma_absorb((gi * ninvi) * xi, red(pi * (0 - ninvi)) as int);
        lemma_absorb(red((gi * ninvi) * xi) as int, red(pi * (0 - ninvi)) as int);
        lemma_absorb(red(gi * ninvi) as int, xi);
        lemma_absorb(pi, red(0 - ninvi) as int);
    }
    assert(fsub(cq.li[i], fmul(cq.lqi[i], s)) == red(gi * ninvi - ((gi * ninvi) * xi + pi * (0
        - ninvi)) * si)) by {
        let lqint = (gi * ninvi) * xi + pi * (0 - ninvi);
        lemma_absorb(lqint, si);
        lemma_absorb(gi * ninvi, lqint * si);
        lemma_absorb(gi * ninvi, red(lqint * si) as int);
        lemma_absorb(red(gi * ninvi) as int, red(lqint * si) as int);
        lemma_absorb(gi * ninvi, red(red(lqint) as int * si) as int);
        lemma_absorb(red(lqint) as int, si);
    }
    lemma_red_basics(ninv);
}

/// The check that A opens to `a_0` at zero, for an honest prover: with any
/// weights `a`, the commitment to A less the sum of the weights divided by
/// `n` is `s` times the commitment to A without its constant, divided by
/// `X`.
#[verifier::rlimit(40)]
pub proof fn lemma_check_a_at_zero(
    cq: crate::protocol::CqView,
    s: nat,
    t: Seq<nat>,
    m: Seq<(usize, usize)>,
    a: Seq<nat>,
    a_0: nat,
)
    requires
        honest_setup(cq, s, t),
        a.len() == m.len(),
        forall|k: int| 0 <= k < m.len() ==> (#[trigger] m[k]).0 < t.len(),
        a_0 == fmul(finv(t.len()), crate::sums::fsum(|k: int| a[k], a.len())),
    ensures
        fmul(
            fsub(
                crate::protocol::weighted_sum(cq.li, crate::protocol::positions_of(m), a),
                fmul(cq.g1[0], a_0),
            ),
            cq.g2[0],
        ) == fmul(
            crate::protocol::weighted_sum(cq.lqi, crate::protocol::positions_of(m), a),
            cq.g2[1],
        ),
{
    let pos = crate::protocol::positions_of(m);
    let len = m.len();
    let ninv = finv(t.len());
    let cm_a = crate::protocol::weighted_sum(cq.li, pos, a);
    let cm_x = crate::protocol::weighted_sum(cq.lqi, pos, a);
    let wa = |k: int| fmul(cq.li[pos[k] as int], a[k]);
    let wx = |k: int| fmul(cq.lqi[pos[k] as int], a[k]);
    let plain = |k: int| a[k];
    lemma_weighted_sum_fsum(cq.li, pos, a);
    lemma_weighted_sum_fsum(cq.lqi, pos, a);
    crate::sums::lemma_fsum_ext(|k: int| fmul(cq.li[pos[k] as int], a[k]), wa, len);
    crate::sums::lemma_fsum_ext(|k: int| fmul(cq.lqi[pos[k] as int], a[k]), wx, len);
    crate::sums::lemma_fsum_ext(|k: int| a[k], plain, len);
    // cm_a - s cm_x, term by term
    let sx = |k: int| fmul(s, wx(k));
    let diff = |k: int| fsub(wa(k), sx(k));
    let scaled = |k: int| fmul(ninv, plain(k));
    crate::sums::lemma_fsum_scale(wx, s, len);
    crate::sums::lemma_fsum_ext(|k: int| fmul(s, wx(k)), sx, len);
    crate::sums::lemma_fsum_sub(wa, sx, len);
    crate::sums::lemma_fsum_ext(|k: int| fsub(wa(k), sx(k)), diff, len);
    crate::sums::lemma_fsum_scale(plain, ninv, len);
    crate::sums::lemma_fsum_ext(|k: int| fmul(ninv, plain(k)), scaled, len);
    assert forall|k: int| 0 <= k < len implies #[trigger] diff(k) == scaled(k) by {
        let i = m[k].0 as int;
        assert(pos[k] == m[k].0);
        lemma_lagrange_at_zero(cq, s, t, i);
        let (l, lq, ak, si, ni) = (
            cq.li[i] as int,
            cq.lqi[i] as int,
            a[k] as int,
            s as int,
            ninv as int,
        );
        assert(red(l - lq * si) == red(ni)) by {
            lemma_absorb(l, lq * si);
            lemma_red_basics(ninv);
        }
        lemma_cong_mul(ak, l - lq * si, ni);
        assert(diff(k) == red((l - lq * si) * ak)) by {
            lemma_absorb(l * ak, si * (lq * ak));
            lemma_absorb(l * ak, red(si * (lq * ak)) as int);
            lemma_absorb(red(l * ak) as int, red(si * (lq * ak)) as int);
            lemma_absorb(si, lq * ak);
            lemma_absorb(l * ak, red(si * red(lq * ak) as int) as int);
            assert((l - lq * si) * ak == l * ak - si * (lq * ak)) by (nonlinear_arith);
        }
        assert(scaled(k) == red(ni * ak));
    }
    crate::sums::lemma_fsum_ext(diff, scaled, len);
    crate::field_laws::lemma_fmul_comm(s, cm_x);
    assert(fsub(cm_a, fmul(cm_x, s)) == a_0);
    // from cm_a - s cm_x = a_0 to the check
    lemma_setup_at(cq, s, t, 0);
    let (ca, cx, a0, si) = (cm_a as int, cm_x as int, a_0 as int, s as int);
    assert(red(ca - cx * si) == red(a0)) by {
        lemma_absorb(ca, cx * si);
        lemma_red_basics(a_0);
    }
    assert(red(ca - a0) == red(cx * si)) by {
        lemma_red_diff(ca - cx * si, a0);
        assert((ca - a0) - cx * si == (ca - cx * si) - a0);
        lemma_red_eq(ca - a0, cx * si);
    }
    assert(fmul(fsub(cm_a, fmul(cq.g1[0], a_0)), cq.g2[0]) == red(ca - a0)) by {
        crate::field_laws::lemma_neutral(a_0);
        lemma_absorb(ca, a0);
        crate::field_laws::lemma_neutral(fsub(cm_a, a_0 % modulus()));
        lemma_red_basics(a_0);
    }
    assert(fmul(cm_x, cq.g2[1]) == red(cx * si)) by {
        lemma_absorb(cx, si);
    }
}

/// The value of a polynomial from its value at zero and the value of the
/// polynomial without its constant, divided by `X`.
pub proof fn lemma_eval_via_constant(p: Seq<nat>, x: nat)
    ensures
        poly_eval(p, x) == fadd(
            poly_eval(p, 0),
            fmul(x, poly_eval(crate::poly::trim(crate::protocol::drop_constant(p)), x)),
        ),
        p.len() > 0 ==> poly_eval(p, 0) == p[0] % modulus(),
{
    let rest = crate::protocol::drop_constant(p);
    crate::poly::lemma_eval_trim(rest, x);
    if p.len() == 0 {
        crate::field_laws::lemma_neutral(x);
        crate::field_laws::lemma_neutral(0);
    } else {
        crate::toeplitz_laws::lemma_poly_eval_front(p, x);
        crate::toeplitz_laws::lemma_poly_eval_front(p, 0);
        crate::field_laws::lemma_neutral(poly_eval(p.skip(1), 0));
        crate::field_laws::lemma_neutral(p[0]);
        crate::field_laws::lemma_reduce_first(p[0], fmul(x, poly_eval(rest, x)));
    }
}

/// The value of a polynomial at one is the sum of its coefficients.
pub proof fn lemma_eval_at_one(c: Seq<nat>)
    ensures
        poly_eval(c, 1) == crate::sums::fsum(|j: int| c[j], c.len()),
{
    crate::sums::lemma_poly_eval_fsum(c, 1);
    let f = |j: int| fmul(c[j], fpow(1, j as nat));
    let g = |j: int| c[j];
    assert forall|j: int| 0 <= j < c.len() implies (#[trigger] f(j)) % modulus() == g(j)
        % modulus() by {
        crate::field_laws::lemma_fpow_of_one(j as nat);
        crate::field_laws::lemma_neutral(c[j]);
        vstd::arithmetic::div_mod::lemma_mod_twice(c[j] as int, modulus() as int);
    }
    crate::sums::lemma_fsum_ext_mod(f, g, c.len());
    crate::sums::lemma_fsum_ext(|j: int| fmul(c[j], fpow(1, j as nat)), f, c.len());
}

/// Every denominator of the protocol has its inverse: for every witness
/// value, the value plus `beta` times what `finv` gives for it is one.
pub open spec fn inverses_hold(f: Seq<nat>, beta: nat) -> bool {
    forall|j: int|
        0 <= j < f.len() ==> fmul(
            #[trigger] fadd(f[j], beta),
            finv(fadd(f[j], beta)),
        ) == 1
}

/// What the sparse multiplicities of a witness in the table are: every
/// position lies in the table, and holds the value that it counts.
pub proof fn lemma_multiplicities(f: Seq<nat>, t: Seq<nat>, k: int)
    requires
        f.len() <= usize::MAX,
        t.len() <= usize::MAX,
        !crate::protocol::witness_leaves_table(f, t),
        0 <= k < crate::cq::first_occurrences(f).len(),
    ensures
        crate::protocol::multiplicities(f, crate::cq::table_map(t)).len()
            == crate::cq::first_occurrences(f).len(),
        crate::protocol::multiplicities(f, crate::cq::table_map(t))[k].0 < t.len(),
        t[crate::protocol::multiplicities(f, crate::cq::table_map(t))[k].0 as int]
            == crate::cq::first_occurrences(f)[k],
        crate::protocol::multiplicities(f, crate::cq::table_map(t))[k].1
            == crate::protocol::count_map(f)[crate::cq::first_occurrences(f)[k]],
        f.contains(crate::cq::first_occurrences(f)[k]),
{
    let keys = crate::cq::first_occurrences(f);
    let key = keys[k];
    assert(keys.contains(key));
    crate::cq::lemma_first_occurrences(f, key);
    let j = choose|j: int| 0 <= j < f.len() && f[j] == key;
    assert(t.contains(f[j]));
    crate::cq::lemma_table_map(t, key);
}

/// The weights of A times their denominators are the counts.
pub proof fn lemma_a_weights_invert(f: Seq<nat>, t: Seq<nat>, beta: nat, k: int)
    requires
        f.len() <= usize::MAX,
        t.len() <= usize::MAX,
        !crate::protocol::witness_leaves_table(f, t),
        inverses_hold(f, beta),
        0 <= k < crate::cq::first_occurrences(f).len(),
    ensures
        ({
            let m = crate::protocol::multiplicities(f, crate::cq::table_map(t));
            let a = crate::protocol::a_weights(m, t, beta);
            fmul(a[k], fadd(t[m[k].0 as int], beta)) == (m[k].1 as nat) % modulus()
        }),
{
    let m = crate::protocol::multiplicities(f, crate::cq::table_map(t));
    let a = crate::protocol::a_weights(m, t, beta);
    lemma_multiplicities(f, t, k);
    let key = crate::cq::first_occurrences(f)[k];
    let j = choose|j: int| 0 <= j < f.len() && f[j] == key;
    let d = fadd(f[j], beta);
    let (di, dinv, c) = (d as int, finv(d) as int, m[k].1 as int);
    assert(red(di * dinv) == 1);
    lemma_red_basics(1);
    lemma_cong_mul(c, di * dinv, 1);
    assert((dinv * c) * di == c * (di * dinv)) by (nonlinear_arith);
    assert(c * 1 == c);
    lemma_absorb(dinv * c, di);
}

/// The sum of the weights of A is the sum of the values of B: both are the
/// sum of the inverses of the witness values plus `beta`.
pub proof fn lemma_weights_sum(f: Seq<nat>, t: Seq<nat>, beta: nat)
    requires
        f.len() <= usize::MAX,
        t.len() <= usize::MAX,
        !crate::protocol::witness_leaves_table(f, t),
    ensures
        ({
            let m = crate::protocol::multiplicities(f, crate::cq::table_map(t));
            let a = crate::protocol::a_weights(m, t, beta);
            let b = crate::protocol::b_values(f, beta);
            crate::sums::fsum(|k: int| a[k], a.len()) == crate::sums::fsum(|j: int| b[j], b.len())
        }),
{
    let m = crate::protocol::multiplicities(f, crate::cq::table_map(t));
    let a = crate::protocol::a_weights(m, t, beta);
    let b = crate::protocol::b_values(f, beta);
    let keys = crate::cq::first_occurrences(f);
    let g = |v: nat| finv(fadd(v, beta));
    lemma_regroup(f, g);
    let by_value = |j: int| g(f[j]);
    let by_key = |k: int| fmul(g(keys[k]), crate::protocol::count_map(f)[keys[k]] as nat);
    let sum_a = |k: int| a[k];
    let sum_b = |j: int| b[j];
    assert forall|j: int| 0 <= j < f.len() implies #[trigger] sum_b(j) == by_value(j) by {}
    crate::sums::lemma_fsum_ext(sum_b, by_value, f.len());
    assert forall|k: int| 0 <= k < keys.len() implies #[trigger] sum_a(k) == by_key(k) by {
        lemma_multiplicities(f, t, k);
    }
    crate::sums::lemma_fsum_ext(sum_a, by_key, keys.len());
    crate::sums::lemma_fsum_ext(|j: int| g(f[j]), by_value, f.len());
    crate::sums::lemma_fsum_ext(
        |k: int| fmul(g(keys[k]), crate::protocol::count_map(f)[keys[k]] as nat),
        by_key,
        keys.len(),
    );
    crate::sums::lemma_fsum_ext(|k: int| a[k], sum_a, keys.len());
    crate::sums::lemma_fsum_ext(|j: int| b[j], sum_b, f.len());
}

/// The value of B at zero, times `n`, is the sum of the weights of A.
pub proof fn lemma_b_at_zero(f: Seq<nat>, t: Seq<nat>, beta: nat)
    requires
        1 <= f.len() <= usize::MAX,
        f.len() < modulus(),
        t.len() <= usize::MAX,
        fmul(f.len(), finv(f.len())) == 1,
        !crate::protocol::witness_leaves_table(f, t),
    ensures
        ({
            let n = f.len();
            let m = crate::protocol::multiplicities(f, crate::cq::table_map(t));
            let a = crate::protocol::a_weights(m, t, beta);
            let b_x = crate::poly::trim(
                crate::algebra::idft(crate::protocol::b_values(f, beta), n),
            );
            fmul(poly_eval(b_x, 0), n % modulus()) == crate::sums::fsum(|k: int| a[k], a.len())
        }),
{
    let n = f.len();
    let m = crate::protocol::multiplicities(f, crate::cq::table_map(t));
    let a = crate::protocol::a_weights(m, t, beta);
    let b = crate::protocol::b_values(f, beta);
    let c = crate::algebra::idft(b, n);
    let sum = crate::sums::fsum(|j: int| b[j], b.len());
    vstd::arithmetic::div_mod::lemma_small_mod(n, modulus());
    crate::poly::lemma_eval_trim(c, 0);
    lemma_eval_via_constant(c, 0);
    vstd::arithmetic::div_mod::lemma_mod_self_0(n as int);
    assert(domain_element(n, 0) == 1);
    lemma_eval_at_one(b);
    assert(c[0] == fmul(finv(n), sum));
    lemma_red_basics(c[0]);
    lemma_weights_sum(f, t, beta);
    crate::sums::lemma_fsum_reduced(|j: int| b[j], b.len());
    let (ninv, si, ni) = (finv(n) as int, sum as int, n as int);
    assert(red(ni * ninv) == 1);
    lemma_red_basics(1);
    lemma_cong_mul(si, ni * ninv, 1);
    assert((ninv * si) * ni == si * (ni * ninv)) by (nonlinear_arith);
    assert(si * 1 == si);
    lemma_absorb(ninv * si, ni);
    lemma_red_basics(sum);
}

/// What the run of an honest prover has shown of its polynomials and
/// challenges, beyond their names: the quotient of B is a quotient, the
/// batched opening is a quotient, and the inverses that the verifier will
/// take exist.
pub open spec fn run_facts(
    f: Seq<nat>,
    big_n: nat,
    one: crate::protocol::RoundOne,
    two: crate::protocol::RoundTwo,
    three: crate::protocol::RoundThree,
) -> bool {
    let n = f.len();
    let combined = crate::protocol::combined_of(one, two, three);
    &&& inverses_hold(f, one.beta)
    &&& forall|x: nat|
        fsub(fmul(#[trigger] poly_eval(two.b_x, x), fadd(poly_eval(one.f_x, x), one.beta)), 1)
            == fmul(poly_eval(two.q_b_x, x), crate::protocol::vanishing_at(x, n))
    &&& forall|x: nat|
        fmul(#[trigger] poly_eval(three.h_x, x), fsub(x, two.gamma)) == fsub(
            poly_eval(combined, x),
            poly_eval(combined, two.gamma),
        )
    &&& fmul(
        crate::protocol::vanishing_at(two.gamma, n),
        finv(crate::protocol::vanishing_at(two.gamma, n)),
    ) == 1
    &&& 1 <= n < modulus()
    &&& fmul(n, finv(n)) == 1
    &&& 1 <= big_n < modulus()
    &&& fmul(big_n, finv(big_n)) == 1
    &&& one.f_x.len() <= n
    &&& two.b_0_x.len() <= n
    &&& two.q_b_x.len() <= n
    &&& three.h_x.len() <= n
    &&& two.b_0_x == crate::poly::trim(crate::protocol::drop_constant(two.b_x))
    &&& three.b_0_gamma == poly_eval(two.b_0_x, two.gamma)
    &&& three.f_gamma == poly_eval(one.f_x, two.gamma)
    &&& three.a_0 == fmul(fmul(poly_eval(two.b_x, 0), n % modulus()), finv(big_n % modulus()))
    &&& three.v == crate::protocol::batched_value(
        three.b_0_gamma,
        three.f_gamma,
        poly_eval(two.q_b_x, two.gamma),
        three.eta,
    )
}

/// The value of the quotient of B that the verifier works out from what
/// was sent is the value of the quotient.
pub proof fn lemma_implied_quotient(
    b0p: nat,
    b0g: nat,
    bg: nat,
    fg: nat,
    qbg: nat,
    z: nat,
    n: nat,
    big_n: nat,
    beta: nat,
    gamma: nat,
)
    requires
        bg == fadd(b0p, fmul(gamma, b0g)),
        fsub(fmul(bg, fadd(fg, beta)), 1) == fmul(qbg, z),
        fmul(z, finv(z)) == 1,
        fmul(n, finv(n)) == 1,
        fmul(big_n, finv(big_n)) == 1,
        b0p < modulus(),
        qbg < modulus(),
    ensures
        ({
            let a_0 = fmul(fmul(b0p, n), finv(big_n));
            let b_0 = fmul(fmul(big_n, a_0), finv(n));
            let b_gamma = fadd(fmul(b0g, gamma), b_0);
            fmul(fsub(fmul(b_gamma, fadd(fg, beta)), 1), finv(z)) == qbg
        }),
{
    let a_0 = fmul(fmul(b0p, n), finv(big_n));
    let b_0 = fmul(fmul(big_n, a_0), finv(n));
    let (bi, ni, ninv, bn, bninv) = (
        b0p as int,
        n as int,
        finv(n) as int,
        big_n as int,
        finv(big_n) as int,
    );
    lemma_red_basics(1);
    lemma_red_basics(b0p);
    lemma_red_basics(qbg);
    // b_0 is the value of B at zero
    assert(b_0 == b0p) by {
        let u = ni * ninv;
        let w = bn * bninv;
        assert(red(u) == 1 && red(w) == 1);
        lemma_absorb(bi * ni, bninv);
        lemma_absorb(bn, (bi * ni) * bninv);
        lemma_absorb(bn * ((bi * ni) * bninv), ninv);
        assert((bn * ((bi * ni) * bninv)) * ninv == (bi * u) * w) by (nonlinear_arith)
            requires
                u == ni * ninv,
                w == bn * bninv,
        ;
        lemma_cong_mul(bi * u, w, 1);
        lemma_cong_mul(bi, u, 1);
        assert((bi * u) * 1 == bi * u);
        assert(bi * 1 == bi);
    }
    crate::field_laws::lemma_fmul_comm(b0g, gamma);
    let (qi, zi, zinv) = (qbg as int, z as int, finv(z) as int);
    assert(red(zi * zinv) == 1);
    lemma_absorb(qi * zi, zinv);
    assert((qi * zi) * zinv == qi * (zi * zinv)) by (nonlinear_arith);
    lemma_cong_mul(qi, zi * zinv, 1);
    assert(qi * 1 == qi);
}

/// The value of the combination `b0 + eta f + eta^2 q` of three
/// polynomials is the batched value of their values.
pub proof fn lemma_eval_batched(b0: Seq<nat>, f: Seq<nat>, q: Seq<nat>, eta: nat, x: nat)
    ensures
        poly_eval(
            crate::poly::poly_add(
                crate::poly::poly_add(b0, crate::poly::poly_scale(f, eta)),
                crate::poly::poly_scale(q, fmul(eta, eta)),
            ),
            x,
        ) == crate::protocol::batched_value(poly_eval(b0, x), poly_eval(f, x), poly_eval(q, x), eta),
{
    let front = crate::poly::poly_add(b0, crate::poly::poly_scale(f, eta));
    crate::commit_laws::lemma_eval_add(front, crate::poly::poly_scale(q, fmul(eta, eta)), x);
    crate::commit_laws::lemma_eval_add(b0, crate::poly::poly_scale(f, eta), x);
    crate::commit_laws::lemma_eval_scale(f, eta, x);
    crate::commit_laws::lemma_eval_scale(q, fmul(eta, eta), x);
}

/// From the opening equation to the check: if `w (s - gamma) = c - v`,
/// then `(c - v + gamma w) = w s`.
proof fn lemma_batched_core(c: nat, v: nat, w: nat, s: nat, gamma: nat)
    requires
        fmul(w, fsub(s, gamma)) == fsub(c, v),
    ensures
        fmul(fadd(fsub(c, fmul(1, v)), fmul(w, gamma)), 1) == fmul(w, s % modulus()),
{
    let (ci, vi, wi, si, gi) = (c as int, v as int, w as int, s as int, gamma as int);
    assert(red(wi * (si - gi)) == red(ci - vi)) by {
        lemma_absorb(wi, si - gi);
    }
    assert(red((ci - vi) + wi * gi) == red(wi * si)) by {
        lemma_red_diff(wi * (si - gi), ci - vi);
        assert(((ci - vi) + wi * gi) - wi * si == -1 * (wi * (si - gi) - (ci - vi)))
            by (nonlinear_arith);
        lemma_red_zero(-1, wi * (si - gi) - (ci - vi), 0, 0);
        lemma_red_eq((ci - vi) + wi * gi, wi * si);
    }
    assert(fsub(c, fmul(1, v)) == red(ci - vi)) by {
        crate::field_laws::lemma_neutral(v);
        lemma_absorb(ci, vi);
    }
    assert(fadd(fsub(c, fmul(1, v)), fmul(w, gamma)) == red((ci - vi) + wi * gi)) by {
        lemma_absorb(ci - vi, wi * gi);
        lemma_absorb(ci - vi, red(wi * gi) as int);
        lemma_absorb(red(ci - vi) as int, red(wi * gi) as int);
    }
    crate::field_laws::lemma_neutral(fadd(fsub(c, fmul(1, v)), fmul(w, gamma)));
    assert(fmul(w, s % modulus()) == red(wi * si)) by {
        lemma_absorb(wi, si);
    }
}

/// The opening equation of an honest prover: the commitment to the
/// quotient, times `s - gamma`, is the batched value of the commitments
/// less the batched value of the evaluations.
#[verifier::rlimit(40)]
proof fn lemma_opening_equation(
    s: nat,
    len: nat,
    b0: Seq<nat>,
    f: Seq<nat>,
    q: Seq<nat>,
    h: Seq<nat>,
    eta: nat,
    gamma: nat,
)
    requires
        b0.len() <= len,
        f.len() <= len,
        q.len() <= len,
        h.len() <= len,
        ({
            let v = crate::protocol::batched_value(
                poly_eval(b0, gamma),
                poly_eval(f, gamma),
                poly_eval(q, gamma),
                eta,
            );
            let combined = crate::poly::poly_sub(
                crate::poly::poly_add(
                    crate::poly::poly_add(b0, crate::poly::poly_scale(f, eta)),
                    crate::poly::poly_scale(q, fmul(eta, eta)),
                ),
                seq![v],
            );
            fmul(poly_eval(h, s), fsub(s, gamma)) == fsub(
                poly_eval(combined, s),
                poly_eval(combined, gamma),
            )
        }),
    ensures
        ({
            let srs = powers(s, len);
            let v = crate::protocol::batched_value(
                poly_eval(b0, gamma),
                poly_eval(f, gamma),
                poly_eval(q, gamma),
                eta,
            );
            let c = fadd(
                fadd(commit_index(srs, b0), fmul(commit_index(srs, f), eta)),
                fmul(commit_index(srs, q), fmul(eta, eta)),
            );
            fmul(commit_index(srs, h), fsub(s, gamma)) == fsub(c, v)
        }),
{
    let srs = powers(s, len);
    let v = crate::protocol::batched_value(
        poly_eval(b0, gamma),
        poly_eval(f, gamma),
        poly_eval(q, gamma),
        eta,
    );
    let blend = crate::poly::poly_add(
        crate::poly::poly_add(b0, crate::poly::poly_scale(f, eta)),
        crate::poly::poly_scale(q, fmul(eta, eta)),
    );
    let combined = crate::poly::poly_sub(blend, seq![v]);
    let bvs = crate::protocol::batched_value(
        poly_eval(b0, s),
        poly_eval(f, s),
        poly_eval(q, s),
        eta,
    );
    assert(poly_eval(combined, gamma) == 0) by {
        crate::commit_laws::lemma_eval_sub(blend, seq![v], gamma);
        crate::commit_laws::lemma_eval_constant(v, gamma);
        lemma_eval_batched(b0, f, q, eta, gamma);
        crate::field_laws::lemma_fsub_reduce(v, v);
    }
    assert(poly_eval(combined, s) == fsub(bvs, v)) by {
        crate::commit_laws::lemma_eval_sub(blend, seq![v], s);
        crate::commit_laws::lemma_eval_constant(v, s);
        lemma_eval_batched(b0, f, q, eta, s);
        crate::field_laws::lemma_fsub_reduce(bvs, v);
    }
    assert(fsub(fsub(bvs, v), 0) == fsub(bvs, v)) by {
        crate::field_laws::lemma_fsub_reduce(fsub(bvs, v), 0);
        lemma_red_basics(fsub(bvs, v));
    }
    assert(commit_index(srs, b0) == poly_eval(b0, s)) by {
        crate::commit_laws::lemma_commit_is_eval(s, len, b0);
    }
    assert(commit_index(srs, f) == poly_eval(f, s)) by {
        crate::commit_laws::lemma_commit_is_eval(s, len, f);
    }
    assert(commit_index(srs, q) == poly_eval(q, s)) by {
        crate::commit_laws::lemma_commit_is_eval(s, len, q);
    }
    assert(commit_index(srs, h) == poly_eval(h, s)) by {
        crate::commit_laws::lemma_commit_is_eval(s, len, h);
    }
    assert(fmul(poly_eval(f, s), eta) == fmul(eta, poly_eval(f, s))) by {
        crate::field_laws::lemma_fmul_comm(poly_eval(f, s), eta);
    }
    assert(fmul(poly_eval(q, s), fmul(eta, eta)) == fmul(fmul(eta, eta), poly_eval(q, s))) by {
        crate::field_laws::lemma_fmul_comm(poly_eval(q, s), fmul(eta, eta));
    }
}

/// The batched opening of an honest prover passes: what the verifier works
/// out from the sent values is what the prover opened.
pub proof fn lemma_check_batched(
    cq: crate::protocol::CqView,
    s: nat,
    t: Seq<nat>,
    f: Seq<nat>,
    one: crate::protocol::RoundOne,
    two: crate::protocol::RoundTwo,
    three: crate::protocol::RoundThree,
)
    requires
        honest_setup(cq, s, t),
        run_facts(f, cq.big_n, one, two, three),
        f.len() <= t.len(),
        one.cm1_f == commit_index(cq.g1, one.f_x),
        two.cm1_b_0 == commit_index(cq.g1, two.b_0_x),
        two.cm1_q_b == commit_index(cq.g1, two.q_b_x),
        three.cm1_pi_eta == commit_index(cq.g1, three.h_x),
    ensures
        crate::protocol::check_batched(
            cq,
            crate::protocol::assemble(f, one, two, three),
            one.beta,
            two.gamma,
            three.eta,
        ),
{
    let n = f.len();
    let len = cq.g1.len();
    let (beta, gamma, eta) = (one.beta, two.gamma, three.eta);
    let proof = crate::protocol::assemble(f, one, two, three);
    let z = crate::protocol::vanishing_at(gamma, n);
    let b0p = poly_eval(two.b_x, 0);
    let qbg = poly_eval(two.q_b_x, gamma);
    vstd::arithmetic::div_mod::lemma_small_mod(n, modulus());
    vstd::arithmetic::div_mod::lemma_small_mod(cq.big_n, modulus());
    lemma_poly_eval_reduced(two.b_x, 0);
    lemma_poly_eval_reduced(two.q_b_x, gamma);
    // what the verifier works out is the value of the quotient
    lemma_eval_via_constant(two.b_x, gamma);
    assert(fsub(fmul(poly_eval(two.b_x, gamma), fadd(poly_eval(one.f_x, gamma), beta)), 1)
        == fmul(qbg, z));
    lemma_implied_quotient(
        b0p,
        three.b_0_gamma,
        poly_eval(two.b_x, gamma),
        three.f_gamma,
        qbg,
        z,
        n,
        cq.big_n,
        beta,
        gamma,
    );
    assert(crate::protocol::implied_q_b_gamma(proof, cq.big_n, beta, gamma) == qbg);
    // the opening equation, and from it the check
    assert(fmul(poly_eval(three.h_x, s), fsub(s, gamma)) == fmul(
        poly_eval(three.h_x, s),
        fsub(s, gamma),
    ));
    lemma_opening_equation(s, len, two.b_0_x, one.f_x, two.q_b_x, three.h_x, eta, gamma);
    let c = fadd(
        fadd(two.cm1_b_0, fmul(one.cm1_f, eta)),
        fmul(two.cm1_q_b, fmul(eta, eta)),
    );
    lemma_batched_core(c, three.v, three.cm1_pi_eta, s, gamma);
    lemma_setup_at(cq, s, t, 0);
}

/// Completeness: the proof of an honest prover is accepted. Under a
/// preprocessing of the table `t` with a reference string of the powers of
/// one secret, for a witness `f` whose values all stand in the table, the
/// proof that the three rounds assemble passes every check of a verifier
/// whose transcript starts where the prover's started.
pub proof fn lemma_honest_proof_accepted(
    digest: Option<Seq<u8>>,
    cq: crate::protocol::CqView,
    s: nat,
    t: Seq<nat>,
    f: Seq<nat>,
)
    requires
        honest_setup(cq, s, t),
        f.len() <= t.len() <= usize::MAX,
        !crate::protocol::witness_leaves_table(f, t),
        run_facts(
            f,
            cq.big_n,
            crate::protocol::round_one(digest, cq, f),
            crate::protocol::round_two(cq, f, t, crate::protocol::round_one(digest, cq, f)),
            crate::protocol::round_three(
                cq,
                f,
                crate::protocol::round_one(digest, cq, f),
                crate::protocol::round_two(cq, f, t, crate::protocol::round_one(digest, cq, f)),
            ),
        ),
    ensures
        crate::protocol::accepts(
            digest,
            cq,
            crate::protocol::assemble(
                f,
                crate::protocol::round_one(digest, cq, f),
                crate::protocol::round_two(cq, f, t, crate::protocol::round_one(digest, cq, f)),
                crate::protocol::round_three(
                    cq,
                    f,
                    crate::protocol::round_one(digest, cq, f),
                    crate::protocol::round_two(cq, f, t, crate::protocol::round_one(digest, cq, f)),
                ),
            ),
        ),
{
    let one = crate::protocol::round_one(digest, cq, f);
    let two = crate::protocol::round_two(cq, f, t, one);
    let three = crate::protocol::round_three(cq, f, one, two);
    let proof = crate::protocol::assemble(f, one, two, three);
    let n = f.len();
    let m = one.m;
    let a = two.a;
    assert(crate::protocol::challenges_of(digest, proof) == (one.beta, two.gamma, three.eta));
    // the denominator of the verifier is not zero
    let z = crate::protocol::vanishing_at(two.gamma, n);
    assert(z != 0) by {
        if z == 0 {
            crate::field_laws::lemma_neutral(finv(z));
        }
    }
    // the first check
    assert forall|k: int| 0 <= k < m.len() implies (#[trigger] m[k]).0 < t.len() && fmul(
        a[k],
        fadd(t[m[k].0 as int], one.beta),
    ) == (m[k].1 as nat) % modulus() by {
        lemma_multiplicities(f, t, k);
        lemma_a_weights_invert(f, t, one.beta, k);
    }
    lemma_check_a(cq, s, t, m, a, one.beta);
    assert(crate::protocol::check_a(cq, proof, one.beta));
    // the degree check
    let k = (cq.big_n + 1 - n) as nat;
    crate::poly::lemma_trim_prefix(
        crate::algebra::idft(crate::protocol::b_values(f, one.beta), n),
    );
    crate::poly::lemma_trim_prefix(crate::protocol::drop_constant(two.b_x));
    lemma_degree_check(s, cq.g1.len(), two.b_0_x, k);
    lemma_setup_at(cq, s, t, 0);
    assert(cq.g2[cq.big_n + 1 - n] == fpow(s, k));
    assert(crate::protocol::check_degree(cq, proof));
    // the batched opening
    lemma_check_batched(cq, s, t, f, one, two, three);
    // the opening of A at zero
    lemma_b_at_zero(f, t, one.beta);
    vstd::arithmetic::div_mod::lemma_small_mod(cq.big_n, modulus());
    crate::field_laws::lemma_fmul_comm(
        crate::sums::fsum(|k: int| a[k], a.len()),
        finv(cq.big_n),
    );
    lemma_check_a_at_zero(cq, s, t, m, a, three.a_0);
    assert(crate::protocol::check_a_at_zero(cq, proof));
}

/// A reduced residue that changes nothing when added is zero.
proof fn lemma_fadd_nothing(a: nat, r: nat)
    requires
        a < modulus(),
        r < modulus(),
        fadd(a, r) == a,
    ensures
        r == 0,
{
    lemma_red_basics(a);
    lemma_red_basics(r);
    lemma_red_diff(a as int + r as int, a as int);
    assert((a as int + r as int) - a as int == r as int);
}

/// The quotient of B leaves no remainder: the polynomial
/// `B (F + beta) - 1` is zero at every element of the witness domain, so
/// its remainder by the vanishing polynomial of the domain, which has fewer
/// coefficients than the domain has elements and is zero on it, is zero.
/// That it is zero follows from what the inverse transform gave for B: the
/// coefficients of B plus those of the remainder have the values of B on
/// the domain as well, and only one sequence has.
pub proof fn lemma_remainder_empty(
    n: nat,
    f: Seq<nat>,
    beta: nat,
    b: Seq<nat>,
    c_b: Seq<nat>,
    f_x: Seq<nat>,
    q: Seq<nat>,
    rem: Seq<nat>,
)
    requires
        n >= 1,
        domain_element(n, n) == 1,
        f.len() == n,
        b.len() == n,
        c_b.len() == n,
        crate::algebra::all_reduced(c_b),
        crate::algebra::all_reduced(rem),
        forall|j: int| 0 <= j < n ==> fmul(#[trigger] fadd(f[j], beta), b[j]) == 1,
        dft(c_b, n) == b,
        forall|c: Seq<nat>|
            c.len() == n && crate::algebra::all_reduced(c) && #[trigger] dft(c, n) == b ==> c_b
                == c,
        forall|j: int| 0 <= j < n ==> poly_eval(f_x, #[trigger] domain_element(n, j as nat)) == f[j],
        forall|x: nat|
            fsub(
                fmul(
                    #[trigger] poly_eval(crate::poly::trim(c_b), x),
                    fadd(poly_eval(f_x, x), beta),
                ),
                1,
            ) == fadd(fmul(poly_eval(q, x), fsub(fpow(x, n), 1)), poly_eval(rem, x)),
        rem.len() <= n,
        rem.len() > 0 ==> rem.last() != 0,
    ensures
        rem.len() == 0,
{
    let sum = crate::poly::poly_add(c_b, rem);
    assert forall|j: int| 0 <= j < n implies dft(sum, n)[j] == b[j] by {
        let x = domain_element(n, j as nat);
        crate::toeplitz_laws::lemma_domain_element_order(n, j as nat);
        crate::poly::lemma_eval_trim(c_b, x);
        assert(dft(c_b, n)[j] == poly_eval(c_b, x));
        // the numerator is zero at x
        crate::field_laws::lemma_fmul_comm(b[j], fadd(f[j], beta));
        crate::field_laws::lemma_fsub_reduce(1, 1);
        assert(fsub(fmul(poly_eval(crate::poly::trim(c_b), x), fadd(poly_eval(f_x, x), beta)), 1)
            == 0);
        // so the remainder is zero at x
        crate::field_laws::lemma_neutral(poly_eval(q, x));
        lemma_poly_eval_reduced(rem, x);
        crate::field_laws::lemma_neutral(poly_eval(rem, x));
        assert(poly_eval(rem, x) == 0);
        crate::commit_laws::lemma_eval_add(c_b, rem, x);
        lemma_poly_eval_reduced(c_b, x);
        crate::field_laws::lemma_neutral(poly_eval(c_b, x));
    }
    assert(dft(sum, n) =~= b);
    assert(sum.len() == n);
    assert(crate::algebra::all_reduced(sum));
    assert(c_b == sum);
    if rem.len() > 0 {
        let i = rem.len() - 1;
        assert(sum[i] == fadd(c_b[i], rem[i]));
        lemma_fadd_nothing(c_b[i], rem[i]);
    }
}

} // verus!
