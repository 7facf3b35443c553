use cq::domain::{is_power_of_two, Domain};
use cq::feist_khovratovich_alg::next_power_of_two;
use cq::field::Scalar;
use cq::group::G1;
use cq::poly::DensePolynomial;

fn scalars(values: &[u64]) -> Vec<Scalar> {
    values.iter().map(|v| Scalar::from_u64(*v)).collect()
}

fn poly(values: &[u64]) -> DensePolynomial {
    DensePolynomial::from_coefficients_vec(scalars(values))
}

fn is(p: &DensePolynomial, values: &[u64]) -> bool {
    p.coeffs.len() == values.len()
        && p.coeffs.iter().zip(values.iter()).all(|(c, v)| c.eq(&Scalar::from_u64(*v)))
}

#[test]
fn powers_of_two_are_recognised() {
    assert!(!is_power_of_two(0));
    assert!(is_power_of_two(1));
    assert!(is_power_of_two(2));
    assert!(!is_power_of_two(3));
    assert!(is_power_of_two(1024));
    assert!(!is_power_of_two(1023));
    assert!(!is_power_of_two(12));
    assert_eq!(next_power_of_two(0), 1);
    assert_eq!(next_power_of_two(1), 1);
    assert_eq!(next_power_of_two(3), 4);
    assert_eq!(next_power_of_two(4), 4);
    assert_eq!(next_power_of_two(5), 8);
    assert!(Domain::new(3).is_none());
    assert!(Domain::new(0).is_none());
    assert_eq!(Domain::new(16).unwrap().size(), 16);
}

#[test]
fn trailing_zeros_are_trimmed() {
    let p = poly(&[1, 2, 0, 0]);
    assert!(is(&p, &[1, 2]));
    assert_eq!(p.degree(), 1);
    assert!(!p.is_zero());
    let z = poly(&[0, 0]);
    assert!(is(&z, &[]));
    assert_eq!(z.degree(), 0);
    assert!(z.is_zero());
    let untrimmed = DensePolynomial { coeffs: scalars(&[0, 3, 0]) };
    assert_eq!(untrimmed.degree(), 1);
    assert!(!untrimmed.is_zero());
    assert!(DensePolynomial { coeffs: scalars(&[0, 0, 0]) }.is_zero());
    assert!(is(&DensePolynomial::from_coefficients_slice(&scalars(&[5, 0])), &[5]));
}

#[test]
fn polynomial_arithmetic_on_small_numbers() {
    let p = poly(&[1, 2, 3]);
    let q = poly(&[4, 5]);
    assert!(p.evaluate(&Scalar::from_u64(2)).eq(&Scalar::from_u64(17)));
    assert!(p.evaluate(&Scalar::zero()).eq(&Scalar::from_u64(1)));
    assert!(DensePolynomial::zero().evaluate(&Scalar::from_u64(9)).is_zero());
    assert!(is(&p.add(&q), &[5, 7, 3]));
    assert!(is(&q.add(&p), &[5, 7, 3]));
    assert!(is(&p.sub(&poly(&[1, 1, 1])), &[0, 1, 2]));
    assert!(is(&p.scale(&Scalar::from_u64(3)), &[3, 6, 9]));
    // (1 + 2X + 3X^2)(4 + 5X) = 4 + 13X + 22X^2 + 15X^3
    assert!(is(&p.mul(&q), &[4, 13, 22, 15]));
    assert!(p.mul(&DensePolynomial::zero()).is_zero());
}

#[test]
fn division_by_a_linear_factor() {
    // X^2 - 9 = (X - 3)(X + 3)
    let nine = Scalar::from_u64(9);
    let p = DensePolynomial::from_coefficients_vec(vec![nine.neg(), Scalar::zero(), Scalar::one()]);
    assert!(is(&p.divide_by_linear(&Scalar::from_u64(3)), &[3, 1]));
    // the remainder is dropped: X^2 + 1 = (X - 1)(X + 1) + 2
    assert!(is(&poly(&[1, 0, 1]).divide_by_linear(&Scalar::from_u64(1)), &[1, 1]));
    assert!(poly(&[7]).divide_by_linear(&Scalar::from_u64(1)).is_zero());
}

#[test]
fn division_by_the_vanishing_polynomial() {
    // 1 + 2X + 3X^2 + 4X^3 + 5X^4 + 6X^5 by X^2 - 1
    let (q, r) = poly(&[1, 2, 3, 4, 5, 6]).divide_by_vanishing_poly(2);
    assert!(is(&q, &[8, 10, 5, 6]));
    assert!(is(&r, &[9, 12]));
    let (q, r) = poly(&[1, 2]).divide_by_vanishing_poly(4);
    assert!(q.is_zero());
    assert!(is(&r, &[1, 2]));
    // X^4 - 1 leaves nothing
    let domain = Domain::new(4).unwrap();
    let (q, r) = domain.vanishing_polynomial().divide_by_vanishing_poly(4);
    assert!(is(&q, &[1]));
    assert!(r.is_zero());
}

#[test]
fn transform_gives_the_values_on_the_domain() {
    let domain = Domain::new(4).unwrap();
    let one = domain.element(0);
    let w = domain.element(1);
    assert!(one.eq(&Scalar::one()));
    assert!(domain.group_gen().eq(&w));
    assert!(!w.eq(&Scalar::one()));
    assert!(w.mul(&w).eq(&Scalar::one().neg()));
    assert!(domain.element(4).eq(&Scalar::one()));
    assert!(domain.element(3).mul(&w).eq(&Scalar::one()));
    assert!(domain.size_as_field_element().eq(&Scalar::from_u64(4)));

    let p = poly(&[5, 7, 11]);
    let values = domain.fft(&p.coeffs);
    assert_eq!(values.len(), 4);
    for i in 0..4 {
        assert!(values[i].eq(&p.evaluate(&domain.element(i))));
    }
    let back = domain.ifft(&values);
    assert_eq!(back.len(), 4);
    assert!(back[0].eq(&Scalar::from_u64(5)));
    assert!(back[1].eq(&Scalar::from_u64(7)));
    assert!(back[2].eq(&Scalar::from_u64(11)));
    assert!(back[3].is_zero());
    // a constant has the same value everywhere
    let constant = domain.ifft(&scalars(&[6, 6, 6, 6]));
    assert!(constant[0].eq(&Scalar::from_u64(6)));
    assert!(constant[1].is_zero());
}

#[test]
fn transform_in_the_group_follows_the_indices() {
    let domain = Domain::new(2).unwrap();
    let g = G1::generator();
    let points = vec![g.mul(&Scalar::from_u64(3)), g.mul(&Scalar::from_u64(10))];
    // values of 3 + 10 X at 1 and at -1
    let values = domain.fft_g1(&points);
    assert!(values[0].eq(&g.mul(&Scalar::from_u64(13))));
    assert!(values[1].eq(&g.mul(&Scalar::from_u64(7).neg())));
    let back = domain.ifft_g1(&values);
    assert!(back[0].eq(&points[0]));
    assert!(back[1].eq(&points[1]));
    let padded = domain.fft_g1(&vec![g]);
    assert!(padded[0].eq(&g));
    assert!(padded[1].eq(&g));
}

#[test]
fn inverse_transform_follows_its_formula() {
    // entry j is the value at the inverse of element j, divided by n
    let domain = Domain::new(8).unwrap();
    let evals = scalars(&[3, 1, 4, 1, 5, 9, 2, 6]);
    let as_poly = DensePolynomial { coeffs: evals.clone() };
    let coeffs = domain.ifft(&evals);
    let n_inv = Scalar::from_u64(8).inverse().unwrap();
    assert!(domain.size_inv().eq(&n_inv));
    for j in 0..8 {
        let at = domain.element((8 - j) % 8);
        assert!(coeffs[j].eq(&as_poly.evaluate(&at).mul(&n_inv)));
    }
    // and transformed again, the values come back
    let again = domain.fft(&coeffs);
    for i in 0..8 {
        assert!(again[i].eq(&evals[i]));
    }
    // the same in the group
    let g = G1::generator();
    let points: Vec<G1> = evals.iter().map(|e| g.mul(e)).collect();
    let back = domain.ifft_g1(&points);
    for j in 0..8 {
        assert!(back[j].eq(&g.mul(&coeffs[j])));
    }
}
