use cq::domain::Domain;
use cq::feist_khovratovich_alg::ToeplitzMatrix;
use cq::field::Scalar;
use cq::group::{G1, G2};
use cq::kzg::{msm_g1, Kzg};
use cq::poly::DensePolynomial;
use cq::pre_compute::{
    compute_quotient_lagrange_basic_commitments, fast_lagrange_basis_commitments_computation,
};

fn scalars(values: &[u64]) -> Vec<Scalar> {
    values.iter().map(|v| Scalar::from_u64(*v)).collect()
}

fn poly(values: &[u64]) -> DensePolynomial {
    DensePolynomial::from_coefficients_vec(scalars(values))
}

#[test]
fn test_kzg_commitment() {
    let kzg = Kzg::new(10);
    let poly = poly(&[1, 1, 1]);
    let commitment = kzg.commit_g1(&poly);
    let challenge = Scalar::from_u64(5);
    let (opening, f_z) = kzg.open_g1(&poly, challenge);

    assert!(kzg.verify(commitment, opening, challenge, f_z));
    assert!(f_z.eq(&Scalar::from_u64(31)));
    assert!(!kzg.verify(commitment, opening, challenge, Scalar::from_u64(32)));
    assert!(!kzg.verify(commitment, opening, Scalar::from_u64(6), f_z));
}

#[test]
fn reference_string_holds_the_powers_of_the_secret() {
    let s = Scalar::from_u64(3);
    let kzg = Kzg::new_from_secret(s, 4);
    assert_eq!(kzg.g1_srs.len(), 4);
    assert_eq!(kzg.g2_srs.len(), 4);
    let powers = [1u64, 3, 9, 27];
    for i in 0..4 {
        assert!(kzg.g1_srs[i].eq(&G1::generator().mul(&Scalar::from_u64(powers[i]))));
        assert!(kzg.g2_srs[i].eq(&G2::generator().mul(&Scalar::from_u64(powers[i]))));
    }
    // 2 + 5 X + X^3 at 3 is 2 + 15 + 27
    let c = kzg.commit_g1(&poly(&[2, 5, 0, 1]));
    assert!(c.eq(&G1::generator().mul(&Scalar::from_u64(44))));
    let c2 = kzg.commit_g2(&poly(&[2, 5, 0, 1]));
    assert!(c2.eq(&G2::generator().mul(&Scalar::from_u64(44))));
    assert!(kzg.commit_g1(&DensePolynomial::zero()).eq(&G1::identity()));
}

#[test]
fn commitment_is_linear() {
    let kzg = Kzg::new(6);
    let p = poly(&[4, 0, 7, 1]);
    let q = poly(&[9, 2]);
    let c = Scalar::from_u64(12345);
    let sum = kzg.commit_g1(&p.add(&q));
    assert!(sum.eq(&kzg.commit_g1(&p).add(&kzg.commit_g1(&q))));
    let multiple = kzg.commit_g1(&p.scale(&c));
    assert!(multiple.eq(&kzg.commit_g1(&p).mul(&c)));
}

#[test]
fn sparse_sum_picks_the_leading_points() {
    let g = G1::generator();
    let points = vec![g, g.mul(&Scalar::from_u64(10)), g.mul(&Scalar::from_u64(100))];
    let r = msm_g1(&points, &scalars(&[3, 2]));
    assert!(r.eq(&g.mul(&Scalar::from_u64(23))));
}

#[test]
fn test_compute_h_coeffs() {
    let kzg = Kzg::new(4);
    let poly = poly(&[1, 1, 1, 1]);

    let toeplitz = ToeplitzMatrix::new(&poly);
    let hs = toeplitz.compute_h_coefficients(&kzg.g1_srs);
    assert_eq!(hs.len(), 8);

    let domain = Domain::new(4).unwrap();
    let openings_1 = domain.fft_g1(&hs[..4].to_vec());

    let openings_2: Vec<G1> =
        (0..4).map(|i| kzg.open_g1(&poly, domain.element(i)).0).collect();

    assert_eq!(openings_1.len(), openings_2.len());
    for i in 0..4 {
        assert!(openings_1[i].eq(&openings_2[i]));
    }
}

#[test]
fn test_fast_lagrange_basis_commitments_computation() {
    let kzg = Kzg::new(8);
    let lagrange_basis_commitment_affines =
        fast_lagrange_basis_commitments_computation(&kzg.g1_srs, 8);

    let domain = Domain::new(8).unwrap();

    let n = 8;
    let mut lagrange_basis_evals = vec![Scalar::from_u64(0); n];
    for i in 0..8 {
        lagrange_basis_evals[i] = Scalar::from_u64(1);
        let lagrange_basis_poly =
            DensePolynomial::from_coefficients_vec(domain.ifft(&lagrange_basis_evals));
        let largrange_basis_commitment = kzg.commit_g1(&lagrange_basis_poly);
        assert!(lagrange_basis_commitment_affines[i].eq(&largrange_basis_commitment));
        lagrange_basis_evals[i] = Scalar::from_u64(0);
    }
}

#[test]
fn test_quotient_lagrange_basis() {
    let kzg = Kzg::new(8);
    let lagrange_basis_commitment_affines =
        fast_lagrange_basis_commitments_computation(&kzg.g1_srs, 8);
    let quotient_lagrange_basis_commitments = compute_quotient_lagrange_basic_commitments(
        &lagrange_basis_commitment_affines,
        &kzg.g1_srs,
    );

    let domain = Domain::new(8).unwrap();
    let n = 8;
    let mut lagrange_basis_evals = vec![Scalar::from_u64(0); n];
    for i in 0..8 {
        lagrange_basis_evals[i] = Scalar::from_u64(1);
        let lagrange_basis_poly =
            DensePolynomial::from_coefficients_vec(domain.ifft(&lagrange_basis_evals));
        let l_0 = DensePolynomial::from_coefficients_vec(vec![lagrange_basis_evals[0]]);
        let quotient_poly = lagrange_basis_poly.sub(&l_0).divide_by_linear(&Scalar::from_u64(0));
        let quotient_commitment = kzg.commit_g1(&quotient_poly);
        let quotient_lagrange_basis_commitment = quotient_lagrange_basis_commitments[i];
        assert!(quotient_lagrange_basis_commitment.eq(&quotient_commitment));
        lagrange_basis_evals[i] = Scalar::from_u64(0);
    }
}

#[test]
fn lagrange_commitments_of_the_smallest_domains() {
    let kzg = Kzg::new_from_secret(Scalar::from_u64(5), 2);
    let one = fast_lagrange_basis_commitments_computation(&kzg.g1_srs, 1);
    assert_eq!(one.len(), 1);
    assert!(one[0].eq(&G1::generator()));
    // on the domain {1, -1}: L_0 = (1 + X) / 2, L_1 = (1 - X) / 2
    let two = fast_lagrange_basis_commitments_computation(&kzg.g1_srs, 2);
    assert!(two[0].eq(&G1::generator().mul(&Scalar::from_u64(3))));
    assert!(two[1].eq(&G1::generator().mul(&Scalar::from_u64(2).neg())));
    let half = Scalar::from_u64(2).inverse().unwrap();
    let quotients = compute_quotient_lagrange_basic_commitments(&two, &kzg.g1_srs);
    assert!(quotients[0].eq(&G1::generator().mul(&half)));
    assert!(quotients[1].eq(&G1::generator().mul(&half.neg())));
}

#[test]
fn reference_string_loads_from_its_bytes() {
    let kzg = Kzg::new_from_secret(Scalar::from_u64(77), 5);
    assert!(kzg.is_consistent());
    let g1: Vec<[u8; 96]> = kzg.g1_srs.iter().map(|p| p.to_bytes()).collect();
    let g2: Vec<[u8; 192]> = kzg.g2_srs.iter().map(|p| p.to_bytes()).collect();
    let loaded = Kzg::from_bytes(&g1, &g2).unwrap();
    assert_eq!(loaded.g1_srs.len(), 5);
    for i in 0..5 {
        assert!(loaded.g1_srs[i].eq(&kzg.g1_srs[i]));
        assert!(loaded.g2_srs[i].eq(&kzg.g2_srs[i]));
    }
    let p = poly(&[1, 2, 3]);
    assert!(loaded.commit_g1(&p).eq(&kzg.commit_g1(&p)));
}

#[test]
fn reference_string_that_is_no_sequence_of_powers_is_refused() {
    let kzg = Kzg::new_from_secret(Scalar::from_u64(77), 4);
    let g1: Vec<[u8; 96]> = kzg.g1_srs.iter().map(|p| p.to_bytes()).collect();
    let g2: Vec<[u8; 192]> = kzg.g2_srs.iter().map(|p| p.to_bytes()).collect();
    // two entries exchanged
    let mut swapped = g1.clone();
    swapped.swap(2, 3);
    assert!(Kzg::from_bytes(&swapped, &g2).is_none());
    // the halves of two secrets
    let other = Kzg::new_from_secret(Scalar::from_u64(78), 4);
    let g2_other: Vec<[u8; 192]> = other.g2_srs.iter().map(|p| p.to_bytes()).collect();
    assert!(Kzg::from_bytes(&g1, &g2_other).is_none());
    // bytes that encode no point
    let mut broken = g1.clone();
    broken[1][40] ^= 0x10;
    assert!(Kzg::from_bytes(&broken, &g2).is_none());
    // too short, or of two lengths
    assert!(Kzg::from_bytes(&g1[..1], &g2[..1]).is_none());
    assert!(Kzg::from_bytes(&g1[..3], &g2).is_none());
    assert!(!Kzg { g1_srs: vec![G1::generator()], g2_srs: vec![G2::generator()] }.is_consistent());
    // the string does not start with the generator
    let shifted = Kzg {
        g1_srs: kzg.g1_srs[1..].to_vec(),
        g2_srs: kzg.g2_srs[1..].to_vec(),
    };
    assert!(!shifted.is_consistent());
}

#[test]
fn trailing_zero_coefficients_do_not_count_for_the_length() {
    let kzg = Kzg::new_from_secret(Scalar::from_u64(3), 2);
    let long = DensePolynomial { coeffs: scalars(&[2, 5, 0, 0, 0]) };
    assert!(kzg.commit_g1(&long).eq(&G1::generator().mul(&Scalar::from_u64(17))));
    assert!(kzg.commit_g2(&long).eq(&G2::generator().mul(&Scalar::from_u64(17))));
    let zeros = DensePolynomial { coeffs: scalars(&[0, 0, 0]) };
    assert!(kzg.commit_g1(&zeros).eq(&G1::identity()));
    // a polynomial of degree two opens under a string of two entries
    let (opening, value) = kzg.open_g1(&poly(&[1, 0, 1]), Scalar::from_u64(2));
    assert!(value.eq(&Scalar::from_u64(5)));
    // (X^2 + 1 - 5) / (X - 2) = X + 2, at 3
    assert!(opening.eq(&G1::generator().mul(&Scalar::from_u64(5))));
}

#[test]
fn opening_is_the_commitment_of_the_quotient_by_its_coefficients() {
    // 1 + 2X + 3X^2 at 4: the quotient is (2 + 3 * 4) + 3X
    let kzg = Kzg::new_from_secret(Scalar::from_u64(10), 3);
    let (opening, value) = kzg.open_g1(&poly(&[1, 2, 3]), Scalar::from_u64(4));
    assert!(value.eq(&Scalar::from_u64(57)));
    assert!(opening.eq(&kzg.commit_g1(&poly(&[14, 3]))));
    assert!(opening.eq(&G1::generator().mul(&Scalar::from_u64(44))));
}
