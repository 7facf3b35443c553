use cq::cq::Cq;
use cq::domain::Domain;
use cq::errors::GeneralError;
use cq::fiat_shamir::Script;
use cq::field::Scalar;
use cq::group::{multi_pairing, pairing};
use cq::kzg::Kzg;
use cq::lookup_verifier::Verifier;
use cq::poly::DensePolynomial;
use cq::proof_format::PROOF_BYTES;
use cq::prover::{Proof, Prover};

fn scalars(values: &[u64]) -> Vec<Scalar> {
    values.iter().map(|v| Scalar::from_u64(*v)).collect()
}

fn poly(values: &[u64]) -> DensePolynomial {
    DensePolynomial::from_coefficients_vec(scalars(values))
}

fn same_poly(a: &DensePolynomial, b: &DensePolynomial) -> bool {
    let a = DensePolynomial::from_coefficients_slice(&a.coeffs);
    let b = DensePolynomial::from_coefficients_slice(&b.coeffs);
    a.coeffs.len() == b.coeffs.len() && a.coeffs.iter().zip(b.coeffs.iter()).all(|(x, y)| x.eq(y))
}

fn interpolate(evals: &[Scalar]) -> DensePolynomial {
    let domain = Domain::new(evals.len()).unwrap();
    DensePolynomial::from_coefficients_vec(domain.ifft(&evals.to_vec()))
}

#[test]
fn test_cq() {
    let t_i = scalars(&[1, 2, 3, 4, 5, 6, 7, 8]);
    let cq = Cq::new(&t_i).unwrap();
    let domain = Domain::new(cq.big_n).unwrap();
    let vanish_poly = domain.vanishing_polynomial();

    let cm2_vanish = cq.kzg.commit_g2(&vanish_poly);
    assert!(cm2_vanish.eq(&cq.z_v_2));
    assert_eq!(cq.big_n, 8);
    assert_eq!(cq.t_hash_map.len(), t_i.len());
}

#[test]
fn test_prover_initialization() {
    let f_i = scalars(&[1, 3, 2, 3]);
    let prover = Prover::new(f_i).unwrap();

    assert_eq!(prover.f_i.len(), 4);
    assert_eq!(prover.f_i_map.len(), 3);
    for i in 0..prover.f_i_map.len() {
        let k = prover.f_i_map.key_at(i);
        let v = prover.f_i_map.value_at(i);
        if k.eq(&Scalar::from_u64(1)) {
            assert_eq!(v, 1);
        } else if k.eq(&Scalar::from_u64(2)) {
            assert_eq!(v, 1);
        } else if k.eq(&Scalar::from_u64(3)) {
            assert_eq!(v, 2);
        } else {
            panic!("a key that is not in the witness");
        }
    }
    assert_eq!(prover.f_i_map.get(&Scalar::from_u64(3)), Some(2));
    assert_eq!(prover.f_i_map.get(&Scalar::from_u64(4)), None);
}

#[test]
fn test_round_1() {
    let t_i = scalars(&[1, 2, 3, 4]);
    let f_i = scalars(&[1, 3, 3, 3]);
    let cq = Cq::new(&t_i).unwrap();
    let mut prover = Prover::new(f_i).unwrap();
    let proof = prover.prove(&cq, &t_i).unwrap();

    let m_i = scalars(&[1, 0, 3, 0]);
    let m_x = interpolate(&m_i);
    let cm1_mx2 = cq.kzg.commit_g1(&m_x);

    assert!(proof.cm1_m.eq(&cm1_mx2));
}

#[test]
fn test_round_2() {
    let t_i = scalars(&[1, 2, 3, 4]);
    let f_i = scalars(&[1, 3, 3, 3]);
    let cq = Cq::new(&t_i).unwrap();
    let mut prover = Prover::new(f_i).unwrap();
    let proof = prover.prove(&cq, &t_i).unwrap();

    let m_i = scalars(&[1, 0, 3, 0]);

    let mut script = Script::new();
    script.feed_with_commitments(&[proof.cm1_f]);
    script.feed_with_commitments(&[proof.cm1_m]);
    let [beta] = script.generate_challenges().unwrap();
    let mut vec_a = vec![];
    for (index, value) in m_i.iter().enumerate() {
        let v = value.mul(&t_i[index].add(&beta).inverse().unwrap());
        vec_a.push(v);
    }
    let domain = Domain::new(4).unwrap();
    let a_x = interpolate(&vec_a);
    let z_v_x = domain.vanishing_polynomial();
    let z_v_2 = cq.kzg.commit_g2(&z_v_x);
    let t_x = interpolate(&t_i);
    let t_x_2 = cq.kzg.commit_g2(&t_x);
    let m_x = interpolate(&m_i);
    let beta_poly = DensePolynomial::from_coefficients_vec(vec![beta]);
    let (q_a_x, rem) = a_x.mul(&t_x.add(&beta_poly)).sub(&m_x).divide_by_vanishing_poly(4);
    assert!(rem.is_zero());
    let cm_m = cq.kzg.commit_g1(&m_x);
    let cm = cq.kzg.commit_g1(&a_x);
    let cm2 = cq.kzg.commit_g1(&q_a_x);
    let cm2_1 = cq.kzg.commit_g2(&poly(&[1]));

    assert!(proof.cm1_a.eq(&cm));
    assert!(proof.cm1_q_a.eq(&cm2));

    let lhs = pairing(&proof.cm1_a, &t_x_2);
    let tmp = cm_m.sub(&cm.mul(&beta));
    let rhs = multi_pairing(&vec![proof.cm1_q_a, tmp], &vec![z_v_2, cm2_1]);
    assert!(lhs.eq(&rhs));
}

#[test]
fn test_verify() {
    let t_i = scalars(&[1, 2, 3, 4]);
    let f_i = scalars(&[1, 3, 3, 3]);
    let cq = Cq::new(&t_i).unwrap();
    let mut prover = Prover::new(f_i).unwrap();
    let proof = prover.prove(&cq, &t_i).unwrap();

    let mut verifier = Verifier::new();
    let result = verifier.verify(&t_i, &cq, proof);
    assert!(result.is_ok());
    assert!(result.unwrap());
}

#[test]
fn dummy_test_02() {
    let t_i = scalars(&[1, 2, 3, 4]);
    let f_i = scalars(&[1, 3, 3]);
    let m_i = scalars(&[1, 0, 2, 0]);

    let kzg = Kzg::new(5);
    let mut vec_a = vec![];
    let beta = Scalar::one();
    let mut res1 = Scalar::zero();
    let mut res2 = Scalar::zero();
    for (index, value) in m_i.iter().enumerate() {
        let tmp = t_i[index].add(&beta);
        let v = tmp.inverse().unwrap().mul(value);
        res1 = res1.add(&v);
        vec_a.push(v);
    }
    for value in f_i {
        let tmp = value.add(&beta).inverse().unwrap();
        res2 = res2.add(&tmp);
    }
    assert!(res1.eq(&res2));

    let a_x = interpolate(&vec_a);
    let minus_one = Scalar::one().neg();
    let z_v_x = DensePolynomial::from_coefficients_vec(vec![
        minus_one,
        Scalar::zero(),
        Scalar::zero(),
        Scalar::zero(),
        Scalar::one(),
    ]);
    let z_v_2 = kzg.commit_g2(&z_v_x);
    let t_x = interpolate(&t_i);
    let t_x_2 = kzg.commit_g2(&t_x);
    let m_x = interpolate(&m_i);
    let beta_poly = DensePolynomial::from_coefficients_vec(vec![beta]);
    let tmp = a_x.mul(&t_x.add(&beta_poly)).sub(&m_x);

    let (q_a_x, rem) = tmp.divide_by_vanishing_poly(4);
    assert!(rem.is_zero());

    let rhs = q_a_x.mul(&z_v_x);
    let lhs = a_x.mul(&t_x.add(&beta_poly)).sub(&m_x);
    assert!(same_poly(&rhs, &lhs));

    let cm_m = kzg.commit_g1(&m_x);
    let cm = kzg.commit_g1(&a_x);
    let cm2 = kzg.commit_g1(&q_a_x);
    let cm2_1 = kzg.commit_g2(&poly(&[1]));

    let lhs = pairing(&cm, &t_x_2);
    let tmp = cm_m.sub(&cm.mul(&beta));
    let rhs = multi_pairing(&vec![cm2, tmp], &vec![z_v_2, cm2_1]);
    assert!(lhs.eq(&rhs));
}

#[test]
fn dummy_test() {
    let a_x = poly(&[0, 0, 1]);
    let t_x = poly(&[3, 1]);
    let q_a_x = poly(&[1, 1]);
    let minus_one = Scalar::one().neg();
    let z_v_x =
        DensePolynomial::from_coefficients_vec(vec![minus_one, Scalar::zero(), Scalar::one()]);
    let m_x = poly(&[1, 1, 3]);
    let beta = Scalar::from_u64(1);

    let domain = Domain::new(2).unwrap();
    let z_v_x2 = domain.vanishing_polynomial();
    assert!(same_poly(&z_v_x2, &z_v_x));

    let beta_poly = DensePolynomial::from_coefficients_vec(vec![beta]);
    let tmp = a_x.mul(&t_x.add(&beta_poly)).sub(&m_x);

    let (q_a_x_2, rem) = tmp.divide_by_vanishing_poly(2);
    assert!(rem.is_zero());
    assert!(same_poly(&q_a_x, &q_a_x_2));

    let kzg = Kzg::new(3);
    let cm1_a = kzg.commit_g1(&a_x);
    let t_x_2 = kzg.commit_g2(&t_x);
    let cm1_q_a = kzg.commit_g1(&q_a_x);
    let cm2_z_v = kzg.commit_g2(&z_v_x);
    let cm1_m = kzg.commit_g1(&m_x);
    let cm2_1 = kzg.commit_g2(&poly(&[1]));

    let lhs = pairing(&cm1_a, &t_x_2);
    let tmp = cm1_m.sub(&cm1_a.mul(&beta));

    let rhs = multi_pairing(&vec![cm1_q_a, tmp], &vec![cm2_z_v, cm2_1]);
    assert!(lhs.eq(&rhs));
}

#[test]
fn table_of_eight_witness_of_four_is_accepted() {
    let t_i = scalars(&[1, 2, 3, 4, 5, 6, 7, 8]);
    let f_i = scalars(&[1, 3, 3, 3]);
    let cq = Cq::new(&t_i).unwrap();
    let mut prover = Prover::new(f_i).unwrap();
    let proof = prover.prove(&cq, &t_i).unwrap();
    let m_x = interpolate(&scalars(&[1, 0, 3, 0, 0, 0, 0, 0]));
    assert!(proof.cm1_m.eq(&cq.kzg.commit_g1(&m_x)));
    let mut verifier = Verifier::new();
    assert_eq!(verifier.verify(&t_i, &cq, proof).ok(), Some(true));
}

#[test]
fn table_of_four_witness_of_four_is_accepted() {
    let t_i = scalars(&[1, 2, 3, 4]);
    let f_i = scalars(&[1, 3, 3, 3]);
    let cq = Cq::new(&t_i).unwrap();
    let mut prover = Prover::new(f_i).unwrap();
    let proof = prover.prove(&cq, &t_i).unwrap();
    assert_eq!(proof.small_n, 4);
    let mut verifier = Verifier::new();
    assert_eq!(verifier.verify(&t_i, &cq, proof).ok(), Some(true));
}

#[test]
fn witness_outside_the_table_is_refused() {
    let t_i = scalars(&[1, 2, 3, 4]);
    let f_i = scalars(&[1, 3, 3, 5]);
    let cq = Cq::new(&t_i).unwrap();
    let mut prover = Prover::new(f_i).unwrap();
    assert_eq!(prover.prove(&cq, &t_i).err(), Some(GeneralError::WitnessNotInTable));
}

#[test]
fn table_of_three_is_refused() {
    let t_i = scalars(&[1, 2, 3]);
    assert_eq!(Cq::new(&t_i).err(), Some(GeneralError::TableSizeNotPowerOf2));
    let kzg = Kzg::new(4);
    assert_eq!(Cq::with_srs(kzg, &t_i).err(), Some(GeneralError::TableSizeNotPowerOf2));
}

#[test]
fn witness_of_three_is_refused() {
    let f_i = scalars(&[1, 3, 3]);
    assert_eq!(Prover::new(f_i).err(), Some(GeneralError::WitnessSizeNotPowerOf2));
    assert_eq!(Prover::new(vec![]).err(), Some(GeneralError::WitnessSizeNotPowerOf2));
}

#[test]
fn witness_of_one_value_is_accepted() {
    let t_i = scalars(&[5, 9]);
    let cq = Cq::new(&t_i).unwrap();
    let mut prover = Prover::new(scalars(&[9])).unwrap();
    let proof = prover.prove(&cq, &t_i).unwrap();
    assert_eq!(proof.small_n, 1);
    let mut verifier = Verifier::new();
    assert_eq!(verifier.verify(&t_i, &cq, proof).ok(), Some(true));
}

#[test]
fn table_with_a_value_twice_is_accepted() {
    let t_i = scalars(&[7, 2, 7, 4]);
    let cq = Cq::new(&t_i).unwrap();
    assert_eq!(cq.t_hash_map.len(), 3);
    assert_eq!(cq.t_hash_map.get(&Scalar::from_u64(7)), Some(2));
    let mut prover = Prover::new(scalars(&[7, 7, 4, 2])).unwrap();
    let proof = prover.prove(&cq, &t_i).unwrap();
    let mut verifier = Verifier::new();
    assert_eq!(verifier.verify(&t_i, &cq, proof).ok(), Some(true));
}

#[test]
fn proving_twice_from_the_same_state_gives_the_same_bytes() {
    let t_i = scalars(&[1, 2, 3, 4]);
    let cq = Cq::new(&t_i).unwrap();
    let mut first = Prover::new(scalars(&[4, 4, 1, 2])).unwrap();
    let mut second = Prover::new(scalars(&[4, 4, 1, 2])).unwrap();
    let a = first.prove(&cq, &t_i).unwrap().to_bytes();
    let b = second.prove(&cq, &t_i).unwrap().to_bytes();
    assert_eq!(a.len(), PROOF_BYTES);
    assert_eq!(a, b);
}

#[test]
fn preprocessing_is_a_function_of_table_and_string() {
    let t_i = scalars(&[1, 2, 3, 4]);
    let s = Scalar::from_u64(123456789);
    let a = Cq::with_srs(Kzg::new_from_secret(s, 5), &t_i).unwrap();
    let b = Cq::with_srs(Kzg::new_from_secret(s, 5), &t_i).unwrap();
    assert!(a.z_v_2.eq(&b.z_v_2));
    assert!(a.t_x_2.eq(&b.t_x_2));
    for i in 0..4 {
        assert!(a.cm1_qi[i].eq(&b.cm1_qi[i]));
        assert!(a.cm1_li[i].eq(&b.cm1_li[i]));
        assert!(a.cm1_l_i_quotient[i].eq(&b.cm1_l_i_quotient[i]));
    }
}

#[test]
fn verifier_is_a_function_of_its_inputs() {
    let t_i = scalars(&[1, 2, 3, 4]);
    let cq = Cq::new(&t_i).unwrap();
    let mut prover = Prover::new(scalars(&[2, 2])).unwrap();
    let proof = prover.prove(&cq, &t_i).unwrap();
    let first = Verifier::new().verify(&t_i, &cq, proof);
    let second = Verifier::new().verify(&t_i, &cq, proof);
    assert_eq!(first, Ok(true));
    assert_eq!(first, second);
}

#[test]
fn verifier_gives_the_same_answer_on_every_call() {
    let t_i = scalars(&[1, 2, 3, 4]);
    let cq = Cq::new(&t_i).unwrap();
    let mut prover = Prover::new(scalars(&[2, 2])).unwrap();
    let proof = prover.prove(&cq, &t_i).unwrap();
    let mut verifier = Verifier::new();
    assert_eq!(verifier.verify(&t_i, &cq, proof), Ok(true));
    assert_eq!(verifier.verify(&t_i, &cq, proof), Ok(true));
    let mut bad = proof;
    bad.f_gamma = proof.f_gamma.add(&Scalar::one());
    assert_eq!(verifier.verify(&t_i, &cq, bad), Ok(false));
    assert_eq!(verifier.verify(&t_i, &cq, proof), Ok(true));
}

#[test]
fn prover_gives_the_same_proof_on_every_call() {
    let t_i = scalars(&[1, 2, 3, 4]);
    let cq = Cq::new(&t_i).unwrap();
    let mut prover = Prover::new(scalars(&[4, 4, 1, 2])).unwrap();
    let first = prover.prove(&cq, &t_i).unwrap().to_bytes();
    let second = prover.prove(&cq, &t_i).unwrap().to_bytes();
    assert_eq!(first, second);
    let mut other = Prover::new(scalars(&[4, 4, 1, 2])).unwrap();
    assert_eq!(other.prove(&cq, &t_i).unwrap().to_bytes(), first);
}

#[test]
fn verifier_reports_lengths_that_are_no_powers_of_two() {
    let t_i = scalars(&[1, 2, 3, 4]);
    let cq = Cq::new(&t_i).unwrap();
    let mut prover = Prover::new(scalars(&[2, 2])).unwrap();
    let proof = prover.prove(&cq, &t_i).unwrap();
    let mut odd = proof;
    odd.small_n = 3;
    assert_eq!(
        Verifier::new().verify(&t_i, &cq, odd),
        Err(GeneralError::WitnessSizeNotPowerOf2)
    );
    assert_eq!(
        Verifier::new().verify(&t_i[..3], &cq, proof),
        Err(GeneralError::TableSizeNotPowerOf2)
    );
    let mut large = proof;
    large.small_n = 8;
    assert_eq!(Verifier::new().verify(&t_i, &cq, large), Ok(false));
}

#[test]
fn proof_encoding_round_trips() {
    let t_i = scalars(&[1, 2, 3, 4]);
    let cq = Cq::new(&t_i).unwrap();
    let mut prover = Prover::new(scalars(&[1, 3, 3, 3])).unwrap();
    let proof = prover.prove(&cq, &t_i).unwrap();
    let bytes = proof.to_bytes();
    assert_eq!(bytes.len(), 968);
    assert_eq!(&bytes[..8], &[4u8, 0, 0, 0, 0, 0, 0, 0][..]);
    assert_eq!(&bytes[8..104], &proof.cm1_f.to_bytes()[..]);
    let back = Proof::from_bytes(&bytes).unwrap();
    assert_eq!(back.to_bytes(), bytes);
    assert_eq!(Verifier::new().verify(&t_i, &cq, back), Ok(true));
    assert!(Proof::from_bytes(&bytes[..967]).is_none());
}

#[test]
fn proof_with_a_flipped_commitment_byte_is_rejected() {
    let t_i = scalars(&[1, 2, 3, 4]);
    let cq = Cq::new(&t_i).unwrap();
    let mut prover = Prover::new(scalars(&[1, 3, 3, 3])).unwrap();
    let proof = prover.prove(&cq, &t_i).unwrap();
    let bytes = proof.to_bytes();
    for at in [8usize, 103, 104, 400, 679, 776, 967] {
        let mut bad = bytes.clone();
        bad[at] ^= 1;
        match Proof::from_bytes(&bad) {
            None => {}
            Some(p) => assert_eq!(Verifier::new().verify(&t_i, &cq, p), Ok(false)),
        }
    }
}

#[test]
fn proof_with_another_commitment_is_rejected() {
    let t_i = scalars(&[1, 2, 3, 4]);
    let cq = Cq::new(&t_i).unwrap();
    let mut prover = Prover::new(scalars(&[1, 3, 3, 3])).unwrap();
    let proof = prover.prove(&cq, &t_i).unwrap();
    let mut bad = proof;
    bad.cm1_a = proof.cm1_a.add(&proof.cm1_m);
    assert_eq!(Verifier::new().verify(&t_i, &cq, bad), Ok(false));
    let mut bad = proof;
    bad.a_0 = proof.a_0.add(&Scalar::one());
    assert_eq!(Verifier::new().verify(&t_i, &cq, bad), Ok(false));
    let mut bad = proof;
    bad.cm1_p = proof.cm1_b_0;
    assert_eq!(Verifier::new().verify(&t_i, &cq, bad), Ok(false));
}

#[test]
fn random_table_and_witness_are_accepted() {
    let t_i: Vec<Scalar> = (0..16).map(|_| Scalar::random()).collect();
    let f_i = vec![t_i[3], t_i[15], t_i[3], t_i[0], t_i[7], t_i[7], t_i[7], t_i[9]];
    let cq = Cq::new(&t_i).unwrap();
    let mut prover = Prover::new(f_i).unwrap();
    let proof = prover.prove(&cq, &t_i).unwrap();
    assert_eq!(proof.small_n, 8);
    assert_eq!(Verifier::new().verify(&t_i, &cq, proof), Ok(true));
    // under a string that was loaded and found consistent
    let g1: Vec<[u8; 96]> = cq.kzg.g1_srs.iter().map(|p| p.to_bytes()).collect();
    let g2: Vec<[u8; 192]> = cq.kzg.g2_srs.iter().map(|p| p.to_bytes()).collect();
    let again = Cq::with_srs(Kzg::from_bytes(&g1, &g2).unwrap(), &t_i).unwrap();
    assert_eq!(Verifier::new().verify(&t_i, &again, proof), Ok(true));
}

#[test]
fn proof_for_another_table_is_rejected() {
    let t_i = scalars(&[1, 2, 3, 4]);
    let other = scalars(&[1, 2, 3, 5]);
    let s = Scalar::from_u64(987654321);
    let cq = Cq::with_srs(Kzg::new_from_secret(s, 5), &t_i).unwrap();
    let cq_other = Cq::with_srs(Kzg::new_from_secret(s, 5), &other).unwrap();
    let mut prover = Prover::new(scalars(&[1, 3, 3, 3])).unwrap();
    let proof = prover.prove(&cq, &t_i).unwrap();
    assert_eq!(Verifier::new().verify(&t_i, &cq, proof), Ok(true));
    assert_eq!(Verifier::new().verify(&other, &cq_other, proof), Ok(false));
}

#[test]
fn long_witness_outside_the_table_is_refused() {
    let t_i = scalars(&[1, 2, 3, 4]);
    let cq = Cq::new(&t_i).unwrap();
    let mut prover = Prover::new(scalars(&[1, 2, 3, 4, 1, 2, 3, 9])).unwrap();
    assert_eq!(prover.prove(&cq, &t_i).err(), Some(GeneralError::WitnessNotInTable));
}
