//! The lookup argument as mathematics: what the prover sends and what the
//! verifier checks, on indices of group elements and residues, as functions
//! of the witness, the table and the preprocessed table.
use vstd::prelude::*;
use crate::algebra::{commit_index, idft, poly_eval};

use crate::cq::first_occurrences;
use crate::fiat_shamir::{absorb, challenges, g1s_bytes, scalars_bytes};
use crate::field::{fadd, finv, fmul, fpow, fsub, modulus};
use crate::poly::{
    linear_quotient,
    poly_add,
    poly_product,
    poly_scale,
    poly_sub,
    trim,
    vanishing_quotient,
    vanishing_remainder,
};

verus! {

/// The preprocessed table, on indices.
pub struct CqView {
    pub g1: Seq<nat>,
    pub g2: Seq<nat>,
    pub big_n: nat,
    pub z_v_2: nat,
    pub t_x_2: nat,
    pub qi: Seq<nat>,
    pub li: Seq<nat>,
    pub lqi: Seq<nat>,
    pub table: Map<nat, usize>,
}

/// A proof, on indices.
pub struct ProofView {
    pub small_n: nat,
    pub cm1_f: nat,
    pub cm1_m: nat,
    pub cm1_a: nat,
    pub cm1_q_a: nat,
    pub cm1_b_0: nat,
    pub cm1_q_b: nat,
    pub cm1_p: nat,
    pub b_0_gamma: nat,
    pub f_gamma: nat,
    pub a_0: nat,
    pub cm1_pi_eta: nat,
    pub cm1_a_0_x: nat,
}

/// How often each value occurs in a witness.
pub open spec fn count_map(f: Seq<nat>) -> Map<nat, usize>
    decreases f.len(),
{
    if f.len() == 0 {
        Map::empty()
    } else {
        let m = count_map(f.drop_last());
        if m.contains_key(f.last()) {
            m.insert(f.last(), (m[f.last()] + 1) as usize)
        } else {
            m.insert(f.last(), 1)
        }
    }
}

/// The sparse multiplicities of a witness: for each of its values, in the
/// order of first occurrence, the table position of the value and the
/// number of its occurrences.
pub open spec fn multiplicities(f: Seq<nat>, table: Map<nat, usize>) -> Seq<(usize, usize)> {
    let keys = first_occurrences(f);
    Seq::new(keys.len(), |p: int| (table[keys[p]], count_map(f)[keys[p]]))
}

/// The table positions of sparse multiplicities.
pub open spec fn positions_of(m: Seq<(usize, usize)>) -> Seq<usize> {
    Seq::new(m.len(), |k: int| m[k].0)
}

/// The counts of sparse multiplicities, as residues.
pub open spec fn counts_of(m: Seq<(usize, usize)>) -> Seq<nat> {
    Seq::new(m.len(), |k: int| m[k].1 as nat)
}

/// The sum of `points[positions[k]]` taken `weights[k]` times.
pub open spec fn weighted_sum(points: Seq<nat>, positions: Seq<usize>, weights: Seq<nat>) -> nat
    decreases positions.len(),
{
    if positions.len() == 0 || weights.len() == 0 {
        0
    } else {
        fadd(
            weighted_sum(points, positions.drop_last(), weights.drop_last()),
            fmul(points[positions.last() as int], weights.last()),
        )
    }
}

/// The weights of the polynomial A: each count divided by the table value
/// plus the challenge.
pub open spec fn a_weights(m: Seq<(usize, usize)>, t: Seq<nat>, beta: nat) -> Seq<nat> {
    Seq::new(m.len(), |k: int| fmul(finv(fadd(t[m[k].0 as int], beta)), m[k].1 as nat))
}

/// The values of the polynomial B on the witness domain: the inverses of
/// the witness values plus the challenge.
pub open spec fn b_values(f: Seq<nat>, beta: nat) -> Seq<nat> {
    Seq::new(f.len(), |j: int| finv(fadd(f[j], beta)))
}

/// A polynomial divided by `X`, its constant coefficient dropped.
pub open spec fn drop_constant(p: Seq<nat>) -> Seq<nat> {
    if p.len() == 0 {
        p
    } else {
        p.skip(1)
    }
}

/// A polynomial times `X^k`.
pub open spec fn shift_up(p: Seq<nat>, k: nat) -> Seq<nat> {
    Seq::new(k, |i: int| 0nat) + p
}

/// The first round of the prover.
pub struct RoundOne {
    /// The witness polynomial F.
    pub f_x: Seq<nat>,
    pub cm1_f: nat,
    /// The sparse multiplicities.
    pub m: Seq<(usize, usize)>,
    pub cm1_m: nat,
    /// The digest after both commitments are absorbed.
    pub digest: Seq<u8>,
    pub beta: nat,
}

/// The second round of the prover.
pub struct RoundTwo {
    pub a: Seq<nat>,
    pub cm1_a: nat,
    pub cm1_q_a: nat,
    pub b_x: Seq<nat>,
    pub b_0_x: Seq<nat>,
    /// B (F + beta) - 1.
    pub numerator: Seq<nat>,
    pub q_b_x: Seq<nat>,
    pub remainder: Seq<nat>,
    pub cm1_b_0: nat,
    pub cm1_q_b: nat,
    pub cm1_p: nat,
    pub digest: Seq<u8>,
    pub gamma: nat,
}

/// The third round of the prover.
pub struct RoundThree {
    pub b_0_gamma: nat,
    pub f_gamma: nat,
    pub a_0: nat,
    pub digest: Seq<u8>,
    pub eta: nat,
    pub v: nat,
    pub h_x: Seq<nat>,
    pub cm1_pi_eta: nat,
    pub cm1_a_0_x: nat,
}

/// The first round: the commitments to the witness and to its
/// multiplicities, and the challenge that they give.
pub open spec fn round_one(digest: Option<Seq<u8>>, cq: CqView, f: Seq<nat>) -> RoundOne {
    let f_x = trim(idft(f, f.len()));
    let cm1_f = commit_index(cq.g1, f_x);
    let m = multiplicities(f, cq.table);
    let cm1_m = weighted_sum(cq.li, positions_of(m), counts_of(m));
    let d1 = absorb(digest, g1s_bytes(seq![cm1_f]));
    let d2 = absorb(Some(d1), g1s_bytes(seq![cm1_m]));
    RoundOne { f_x, cm1_f, m, cm1_m, digest: d2, beta: challenges(d2, 1)[0] }
}

/// The second round: the commitments to A, to its quotient, to B less its
/// constant, to the quotient of B, and to the shifted B.
pub open spec fn round_two(cq: CqView, f: Seq<nat>, t: Seq<nat>, one: RoundOne) -> RoundTwo {
    let n = f.len();
    let a = a_weights(one.m, t, one.beta);
    let cm1_a = weighted_sum(cq.li, positions_of(one.m), a);
    let cm1_q_a = weighted_sum(cq.qi, positions_of(one.m), a);
    let b_x = trim(idft(b_values(f, one.beta), n));
    let b_0_x = trim(drop_constant(b_x));
    let numerator = poly_sub(poly_product(b_x, poly_add(one.f_x, seq![one.beta])), seq![1nat]);
    let q_b_x = vanishing_quotient(numerator, n);
    let remainder = vanishing_remainder(numerator, n);
    let cm1_b_0 = commit_index(cq.g1, b_0_x);
    let cm1_q_b = commit_index(cq.g1, q_b_x);
    let cm1_p = commit_index(cq.g1, trim(shift_up(b_0_x, (cq.big_n + 1 - n) as nat)));
    let digest = absorb(
        Some(one.digest),
        g1s_bytes(seq![cm1_a, cm1_q_a, cm1_b_0, cm1_q_b, cm1_p]),
    );
    RoundTwo {
        a,
        cm1_a,
        cm1_q_a,
        b_x,
        b_0_x,
        numerator,
        q_b_x,
        remainder,
        cm1_b_0,
        cm1_q_b,
        cm1_p,
        digest,
        gamma: challenges(digest, 1)[0],
    }
}

/// The value that the batched opening at `gamma` shows:
/// `B0(gamma) + eta F(gamma) + eta^2 QB(gamma)`.
pub open spec fn batched_value(b_0_gamma: nat, f_gamma: nat, q_b_gamma: nat, eta: nat) -> nat {
    fadd(fadd(b_0_gamma, fmul(eta, f_gamma)), fmul(fmul(eta, eta), q_b_gamma))
}

/// The third round: the evaluations at `gamma`, the batched opening, and
/// the opening of A at zero.
pub open spec fn round_three(
    cq: CqView,
    f: Seq<nat>,
    one: RoundOne,
    two: RoundTwo,
) -> RoundThree {
    let n = f.len();
    let b_0_gamma = poly_eval(two.b_0_x, two.gamma);
    let f_gamma = poly_eval(one.f_x, two.gamma);
    let b_0 = poly_eval(two.b_x, 0);
    let a_0 = fmul(fmul(b_0, n % modulus()), finv(cq.big_n % modulus()));
    let digest = absorb(Some(two.digest), scalars_bytes(seq![b_0_gamma, f_gamma, a_0]));
    let eta = challenges(digest, 1)[0];
    let v = batched_value(b_0_gamma, f_gamma, poly_eval(two.q_b_x, two.gamma), eta);
    let combined = poly_sub(
        poly_add(
            poly_add(two.b_0_x, poly_scale(one.f_x, eta)),
            poly_scale(two.q_b_x, fmul(eta, eta)),
        ),
        seq![v],
    );
    let h_x = linear_quotient(combined, two.gamma);
    RoundThree {
        b_0_gamma,
        f_gamma,
        a_0,
        digest,
        eta,
        v,
        h_x,
        cm1_pi_eta: commit_index(cq.g1, h_x),
        cm1_a_0_x: weighted_sum(cq.lqi, positions_of(one.m), two.a),
    }
}

/// The polynomial that the batched opening opens at `gamma`:
/// `B0 + eta F + eta^2 QB - v`.
pub open spec fn combined_of(one: RoundOne, two: RoundTwo, three: RoundThree) -> Seq<nat> {
    poly_sub(
        poly_add(
            poly_add(two.b_0_x, poly_scale(one.f_x, three.eta)),
            poly_scale(two.q_b_x, fmul(three.eta, three.eta)),
        ),
        seq![three.v],
    )
}

/// Some witness value does not stand in the table.
pub open spec fn witness_leaves_table(f: Seq<nat>, t: Seq<nat>) -> bool {
    exists|j: int| 0 <= j < f.len() && !t.contains(#[trigger] f[j])
}

/// The challenge is the negative of some witness value, so that a
/// denominator of the protocol is zero.
pub open spec fn challenge_hits_witness(f: Seq<nat>, beta: nat) -> bool {
    exists|j: int| 0 <= j < f.len() && #[trigger] fadd(f[j], beta) == 0
}

/// The proof that the three rounds make.
pub open spec fn assemble(f: Seq<nat>, one: RoundOne, two: RoundTwo, three: RoundThree) -> ProofView {
    ProofView {
        small_n: f.len(),
        cm1_f: one.cm1_f,
        cm1_m: one.cm1_m,
        cm1_a: two.cm1_a,
        cm1_q_a: two.cm1_q_a,
        cm1_b_0: two.cm1_b_0,
        cm1_q_b: two.cm1_q_b,
        cm1_p: two.cm1_p,
        b_0_gamma: three.b_0_gamma,
        f_gamma: three.f_gamma,
        a_0: three.a_0,
        cm1_pi_eta: three.cm1_pi_eta,
        cm1_a_0_x: three.cm1_a_0_x,
    }
}

/// What a prover whose transcript stands at `digest` returns for the
/// witness `f` and the table `t`: the proof, or the reason for which there
/// is none. There is none if a witness value is not in the table, if a
/// challenge makes a denominator of the prover or of the verifier zero, or
/// if the quotient of B leaves a remainder.
pub open spec fn prove_spec(digest: Option<Seq<u8>>, cq: CqView, f: Seq<nat>, t: Seq<nat>) -> Result<
    ProofView,
    crate::errors::GeneralError,
> {
    let one = round_one(digest, cq, f);
    let two = round_two(cq, f, t, one);
    let three = round_three(cq, f, one, two);
    if witness_leaves_table(f, t) {
        Err(crate::errors::GeneralError::WitnessNotInTable)
    } else if challenge_hits_witness(f, one.beta) {
        Err(crate::errors::GeneralError::DivisionByZero)
    } else if two.remainder.len() != 0 {
        Err(crate::errors::GeneralError::CannotDivideByVanishingPolynomial)
    } else if vanishing_at(two.gamma, f.len()) == 0 {
        Err(crate::errors::GeneralError::DivisionByZero)
    } else {
        Ok(assemble(f, one, two, three))
    }
}

/// The value of the vanishing polynomial of the witness domain at `gamma`.
pub open spec fn vanishing_at(gamma: nat, n: nat) -> nat {
    fsub(fpow(gamma, n), 1)
}

/// Whether a prover with a fresh transcript has a proof for the witness
/// `f` and the table `t`: every witness value stands in the table, and no
/// challenge makes a denominator zero, neither `beta` one of the prover
/// nor `gamma` the one of the verifier.
pub open spec fn proof_exists(cq: CqView, f: Seq<nat>, t: Seq<nat>) -> bool {
    let one = round_one(None, cq, f);
    let two = round_two(cq, f, t, one);
    &&& !witness_leaves_table(f, t)
    &&& !challenge_hits_witness(f, one.beta)
    &&& vanishing_at(two.gamma, f.len()) != 0
}

/// The digest of a transcript after a proof was made or checked on top of
/// `digest`.
pub open spec fn digest_after(digest: Option<Seq<u8>>, proof: ProofView) -> Seq<u8> {
    let d1 = absorb(digest, g1s_bytes(seq![proof.cm1_f]));
    let d2 = absorb(Some(d1), g1s_bytes(seq![proof.cm1_m]));
    let d3 = absorb(
        Some(d2),
        g1s_bytes(seq![proof.cm1_a, proof.cm1_q_a, proof.cm1_b_0, proof.cm1_q_b, proof.cm1_p]),
    );
    absorb(Some(d3), scalars_bytes(seq![proof.b_0_gamma, proof.f_gamma, proof.a_0]))
}

/// The three challenges that a proof gives on top of `digest`.
pub open spec fn challenges_of(digest: Option<Seq<u8>>, proof: ProofView) -> (nat, nat, nat) {
    let d1 = absorb(digest, g1s_bytes(seq![proof.cm1_f]));
    let d2 = absorb(Some(d1), g1s_bytes(seq![proof.cm1_m]));
    let d3 = absorb(
        Some(d2),
        g1s_bytes(seq![proof.cm1_a, proof.cm1_q_a, proof.cm1_b_0, proof.cm1_q_b, proof.cm1_p]),
    );
    let d4 = absorb(Some(d3), scalars_bytes(seq![proof.b_0_gamma, proof.f_gamma, proof.a_0]));
    (challenges(d2, 1)[0], challenges(d3, 1)[0], challenges(d4, 1)[0])
}

/// The value of the quotient of B at `gamma` that the sent evaluations
/// imply.
pub open spec fn implied_q_b_gamma(proof: ProofView, big_n: nat, beta: nat, gamma: nat) -> nat {
    let b_0 = fmul(
        fmul(big_n % modulus(), proof.a_0),
        finv(proof.small_n % modulus()),
    );
    let b_gamma = fadd(fmul(proof.b_0_gamma, gamma), b_0);
    fmul(
        fsub(fmul(b_gamma, fadd(proof.f_gamma, beta)), 1),
        finv(vanishing_at(gamma, proof.small_n)),
    )
}

/// The first check: A times the table polynomial is the quotient times the
/// vanishing polynomial plus the multiplicities less beta times A.
pub open spec fn check_a(cq: CqView, proof: ProofView, beta: nat) -> bool {
    fmul(proof.cm1_a, cq.t_x_2) == fadd(
        fmul(proof.cm1_q_a, cq.z_v_2),
        fmul(fsub(proof.cm1_m, fmul(proof.cm1_a, beta)), cq.g2[0]),
    )
}

/// The second check: the degree of B0 is below `n - 1`.
pub open spec fn check_degree(cq: CqView, proof: ProofView) -> bool {
    fmul(proof.cm1_b_0, cq.g2[cq.big_n + 1 - proof.small_n]) == fmul(proof.cm1_p, cq.g2[0])
}

/// The third check: the batched opening of B0, F and QB at `gamma`.
pub open spec fn check_batched(
    cq: CqView,
    proof: ProofView,
    beta: nat,
    gamma: nat,
    eta: nat,
) -> bool {
    let v = batched_value(
        proof.b_0_gamma,
        proof.f_gamma,
        implied_q_b_gamma(proof, cq.big_n, beta, gamma),
        eta,
    );
    let c = fadd(
        fadd(proof.cm1_b_0, fmul(proof.cm1_f, eta)),
        fmul(proof.cm1_q_b, fmul(eta, eta)),
    );
    fmul(fadd(fsub(c, fmul(cq.g1[0], v)), fmul(proof.cm1_pi_eta, gamma)), cq.g2[0]) == fmul(
        proof.cm1_pi_eta,
        cq.g2[1],
    )
}

/// The fourth check: A takes the value `a_0` at zero.
pub open spec fn check_a_at_zero(cq: CqView, proof: ProofView) -> bool {
    fmul(fsub(proof.cm1_a, fmul(cq.g1[0], proof.a_0)), cq.g2[0]) == fmul(
        proof.cm1_a_0_x,
        cq.g2[1],
    )
}

/// Whether a verifier whose transcript stands at `digest` accepts a proof.
pub open spec fn accepts(digest: Option<Seq<u8>>, cq: CqView, proof: ProofView) -> bool {
    let (beta, gamma, eta) = challenges_of(digest, proof);
    &&& proof.small_n <= cq.big_n
    &&& vanishing_at(gamma, proof.small_n) != 0
    &&& check_a(cq, proof, beta)
    &&& check_degree(cq, proof)
    &&& check_batched(cq, proof, beta, gamma, eta)
    &&& check_a_at_zero(cq, proof)
}

} // verus!
