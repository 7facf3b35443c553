//! The verifier of the lookup argument.
use vstd::prelude::*;
use crate::algebra::is_pow2;
use crate::cq::Cq;
use crate::domain::is_power_of_two;
use crate::errors::GeneralError;
use crate::fiat_shamir::Script;
use crate::field::{fadd, fmul, modulus, scalars_view, Scalar};
use crate::group::{g1s_view, g2s_view, multi_pairing, pairing, G1, G2};
use crate::protocol::{
    accepts,
    challenges_of,
    check_a,
    check_a_at_zero,
    check_batched,
    check_degree,
    digest_after,
    implied_q_b_gamma,
    vanishing_at,
};
use crate::prover::Proof;

verus! {

/// A verifier, with its transcript.
pub struct Verifier {
    pub script: Script,
}

impl Verifier {
    /// A verifier with an empty transcript.
    pub fn new() -> (r: Verifier)
        ensures
            r.script.digest() is None,
            !r.script.generated(),
    {
        Verifier { script: Script::new() }
    }

    /// Whether `proof` shows that a witness of `proof.small_n` values lies
    /// in the table whose preprocessing is `cq`. The table itself is looked
    /// at only for its length. A proof that fails a check is rejected with
    /// `Ok(false)`; only a length that is not a power of two is an error,
    /// and then the verifier stays as it is. Every call replays the proof on
    /// a transcript of its own, so the answer depends on the table's length,
    /// the preprocessing and the proof alone; the verifier keeps the
    /// transcript of its last call.
    pub fn verify(&mut self, t_i: &[Scalar], cq: &Cq, proof: Proof) -> (r: Result<
        bool,
        GeneralError,
    >)
        requires
            cq.wf(),
        ensures
            !is_pow2(proof.small_n as nat) ==> r == Err::<bool, GeneralError>(
                GeneralError::WitnessSizeNotPowerOf2,
            ),
            is_pow2(proof.small_n as nat) && !is_pow2(t_i.len() as nat) ==> r == Err::<
                bool,
                GeneralError,
            >(GeneralError::TableSizeNotPowerOf2),
            is_pow2(proof.small_n as nat) && is_pow2(t_i.len() as nat) ==> r == Ok::<
                bool,
                GeneralError,
            >(accepts(None, cq@, proof@)),
            r is Err ==> *final(self) == *old(self),
            r is Ok ==> final(self).script.digest() == Some(digest_after(None, proof@)) && final(self).script.generated(),
    {
        let small_n = proof.small_n;
        if !is_power_of_two(small_n) {
            return Err(GeneralError::WitnessSizeNotPowerOf2);
        } else if !is_power_of_two(t_i.len()) {
            return Err(GeneralError::TableSizeNotPowerOf2);
        }
        self.script = Script::new();
        let ghost start = self.script.digest();
        let ghost (spec_beta, spec_gamma, spec_eta) = challenges_of(start, proof@);
        let first = [proof.cm1_f];
        let second = [proof.cm1_m];
        let third = [proof.cm1_a, proof.cm1_q_a, proof.cm1_b_0, proof.cm1_q_b, proof.cm1_p];
        let sent = [proof.b_0_gamma, proof.f_gamma, proof.a_0];
        proof {
            assert(g1s_view(first@) =~= seq![proof@.cm1_f]);
            assert(g1s_view(second@) =~= seq![proof@.cm1_m]);
            assert(g1s_view(third@) =~= seq![
                proof@.cm1_a,
                proof@.cm1_q_a,
                proof@.cm1_b_0,
                proof@.cm1_q_b,
                proof@.cm1_p,
            ]);
            assert(scalars_view(sent@) =~= seq![proof@.b_0_gamma, proof@.f_gamma, proof@.a_0]);
        }
        self.script.feed_with_commitments(first.as_slice());
        self.script.feed_with_commitments(second.as_slice());
        let beta = self.script.generate_challenges::<1>().unwrap()[0];
        self.script.feed_with_commitments(third.as_slice());
        let gamma = self.script.generate_challenges::<1>().unwrap()[0];
        self.script.feed_with_field_elements(sent.as_slice());
        let eta = self.script.generate_challenges::<1>().unwrap()[0];
        proof {
            assert(beta@ == spec_beta);
            assert(gamma@ == spec_gamma);
            assert(eta@ == spec_eta);
        }
        if small_n > cq.big_n {
            return Ok(false);
        }
        let cm2_1 = cq.kzg.g2_srs[0];
        let cm2_x = cq.kzg.g2_srs[1];
        let cm1_1 = cq.kzg.g1_srs[0];
        proof {
            assert(cq@.g2[0] == cm2_1@);
            assert(cq@.g2[1] == cm2_x@);
            assert(cq@.g1[0] == cm1_1@);
        }
        // e(a, [T(x)]_2) = e(q_a, [Z_V(x)]_2) e(m - beta a, [1]_2)
        let lhs = pairing(&proof.cm1_a, &cq.t_x_2);
        let tmp = proof.cm1_m.sub(&proof.cm1_a.mul(&beta));
        let mut left_points: Vec<G1> = Vec::new();
        left_points.push(proof.cm1_q_a);
        left_points.push(tmp);
        let mut right_points: Vec<G2> = Vec::new();
        right_points.push(cq.z_v_2);
        right_points.push(cm2_1);
        let rhs = multi_pairing(&left_points, &right_points);
        proof {
            let a = g1s_view(left_points@);
            let b = g2s_view(right_points@);
            crate::algebra::lemma_inner_product_pair(a, b);
            assert(rhs@ == fadd(fmul(proof.cm1_q_a@, cq.z_v_2@), fmul(tmp@, cm2_1@)));
        }
        let first_check = lhs.eq(&rhs);
        // e(b_0, [x^(N - 1 - (n - 2))]_2) = e(p, [1]_2)
        let cm2_x_pow = cq.kzg.g2_srs[cq.big_n + 1 - small_n];
        proof {
            assert(cq@.g2[cq@.big_n + 1 - proof@.small_n] == cm2_x_pow@);
        }
        let second_check = pairing(&proof.cm1_b_0, &cm2_x_pow).eq(&pairing(&proof.cm1_p, &cm2_1));
        // the values that the sent evaluations imply
        let n_inv = Scalar::from_u64(small_n as u64).inverse().unwrap();
        let b_0 = Scalar::from_u64(cq.big_n as u64).mul(&proof.a_0).mul(&n_inv);
        let z_h_gamma = gamma.pow(small_n as u64).sub(&Scalar::one());
        let z_h_gamma_inv = match z_h_gamma.inverse() {
            Some(inv) => inv,
            None => {
                return Ok(false);
            },
        };
        let b_gamma = proof.b_0_gamma.mul(&gamma).add(&b_0);
        let q_b_gamma = b_gamma.mul(&proof.f_gamma.add(&beta)).sub(&Scalar::one()).mul(
            &z_h_gamma_inv,
        );
        proof {
            vstd::arithmetic::div_mod::lemma_small_mod(small_n as nat, modulus());
            vstd::arithmetic::div_mod::lemma_small_mod(cq.big_n as nat, modulus());
            assert(z_h_gamma@ == vanishing_at(gamma@, small_n as nat));
            assert(q_b_gamma@ == implied_q_b_gamma(proof@, cq@.big_n, beta@, gamma@));
        }
        let eta_squared = eta.mul(&eta);
        let v = proof.b_0_gamma.add(&eta.mul(&proof.f_gamma)).add(&eta_squared.mul(&q_b_gamma));
        let cm1_c = proof.cm1_b_0.add(&proof.cm1_f.mul(&eta)).add(&proof.cm1_q_b.mul(&eta_squared));
        // e(c - [v]_1 + gamma [pi_eta]_1, [1]_2) = e([pi_eta]_1, [x]_2)
        let cm1_v = cm1_1.mul(&v);
        let lhs = pairing(&cm1_c.sub(&cm1_v).add(&proof.cm1_pi_eta.mul(&gamma)), &cm2_1);
        let rhs = pairing(&proof.cm1_pi_eta, &cm2_x);
        let third_check = lhs.eq(&rhs);
        // e(a - [a_0]_1, [1]_2) = e(a0x, [x]_2)
        let cm1_a_0 = cm1_1.mul(&proof.a_0);
        let lhs = pairing(&proof.cm1_a.sub(&cm1_a_0), &cm2_1);
        let rhs = pairing(&proof.cm1_a_0_x, &cm2_x);
        let fourth_check = lhs.eq(&rhs);
        proof {
            assert(first_check == check_a(cq@, proof@, beta@));
            assert(second_check == check_degree(cq@, proof@));
            assert(third_check == check_batched(cq@, proof@, beta@, gamma@, eta@));
            assert(fourth_check == check_a_at_zero(cq@, proof@));
        }
        Ok(first_check && second_check && third_check && fourth_check)
    }
}

} // verus!
