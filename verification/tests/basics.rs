use cq::errors::GeneralError;
use cq::field::Scalar;
use cq::group::{multi_pairing, pairing, G1, G2};

#[test]
fn it_works() {
    let result = cq::add(2, 2);
    assert_eq!(result, 4);
}

#[test]
fn scalar_arithmetic_matches_small_numbers() {
    let a = Scalar::from_u64(7);
    let b = Scalar::from_u64(5);
    assert!(a.add(&b).eq(&Scalar::from_u64(12)));
    assert!(a.sub(&b).eq(&Scalar::from_u64(2)));
    assert!(a.mul(&b).eq(&Scalar::from_u64(35)));
    assert!(a.pow(3).eq(&Scalar::from_u64(343)));
    assert!(b.sub(&a).add(&Scalar::from_u64(2)).is_zero());
    assert!(a.neg().add(&a).is_zero());
}

#[test]
fn scalar_inverse_multiplies_to_one() {
    let a = Scalar::from_u64(123456789);
    let inv = a.inverse().unwrap();
    assert!(a.mul(&inv).eq(&Scalar::one()));
    assert!(Scalar::zero().inverse().is_none());
}

#[test]
fn scalar_from_limbs_rejects_the_modulus() {
    let m = [
        0xffffffff00000001u64,
        0x53bda402fffe5bfeu64,
        0x3339d80809a1d805u64,
        0x73eda753299d7d48u64,
    ];
    assert!(Scalar::from_limbs(m).is_none());
    let below = [m[0] - 1, m[1], m[2], m[3]];
    let top = Scalar::from_limbs(below).unwrap();
    assert!(top.add(&Scalar::one()).is_zero());
    assert_eq!(top.to_limbs(), below);
}

#[test]
fn group_indices_add_and_multiply() {
    let g = G1::generator();
    let two = g.add(&g);
    let five = g.mul(&Scalar::from_u64(5));
    let three = five.sub(&two);
    assert!(three.eq(&g.mul(&Scalar::from_u64(3))));
    assert!(!three.eq(&two));
    assert!(g.sub(&g).eq(&G1::identity()));
    let h = G2::generator();
    assert!(h.add(&h).eq(&h.mul(&Scalar::from_u64(2))));
    assert!(h.sub(&h).eq(&G2::identity()));
}

#[test]
fn group_encoding_round_trips() {
    let p = G1::generator().mul(&Scalar::from_u64(11));
    let bytes = p.to_bytes();
    assert!(G1::from_bytes(bytes).unwrap().eq(&p));
    let mut bad = bytes;
    bad[95] ^= 1;
    assert!(G1::from_bytes(bad).is_none());
    let q = G2::generator().mul(&Scalar::from_u64(11));
    assert!(G2::from_bytes(q.to_bytes()).unwrap().eq(&q));
    let mut bad2 = q.to_bytes();
    bad2[191] ^= 1;
    assert!(G2::from_bytes(bad2).is_none());
}

#[test]
fn pairing_is_bilinear() {
    let g = G1::generator();
    let h = G2::generator();
    let a = Scalar::from_u64(6);
    let b = Scalar::from_u64(7);
    let lhs = pairing(&g.mul(&a), &h.mul(&b));
    let rhs = pairing(&g.mul(&a.mul(&b)), &h);
    assert!(lhs.eq(&rhs));
    assert!(!lhs.eq(&pairing(&g, &h)));
    let both = multi_pairing(&vec![g.mul(&a), g], &vec![h, h.mul(&b)]);
    assert!(both.eq(&pairing(&g.mul(&Scalar::from_u64(13)), &h)));
}

#[test]
fn errors_have_their_words() {
    assert_eq!(
        GeneralError::CannotDivideByVanishingPolynomial.message(),
        "Cannot divide by vanishing polynomial."
    );
    assert_eq!(
        GeneralError::WitnessSizeNotPowerOf2.message(),
        "The size of witness f must be power of 2"
    );
    assert_eq!(
        GeneralError::TableSizeNotPowerOf2.message(),
        "The size of table t must be power of 2"
    );
    assert_eq!(GeneralError::WitnessNotInTable.message(), "Witness must be in the table");
    assert_eq!(GeneralError::ElementsNotUnique.message(), "Elements in t_i must be unique");
    assert_ne!(
        GeneralError::TranscriptMisuse.message(),
        GeneralError::DivisionByZero.message()
    );
}
