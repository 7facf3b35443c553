use ark_ff::{BigInt, PrimeField};
use ark_serialize::CanonicalSerialize;
use ark_std::UniformRand;
use cq::bytes::{scalar_from_le_bytes, scalar_to_le_bytes, u64_from_le_bytes, u64_to_le_bytes};
use cq::errors::GeneralError;
use cq::fiat_shamir::Script;
use cq::field::Scalar;
use cq::group::G1;
use rand::SeedableRng;
use sha2::Digest;

#[test]
fn aggregation_digest_test() {
    let commitment1 = G1::generator().mul(&Scalar::from_u64(1));
    let commitment2 = G1::generator().mul(&Scalar::from_u64(2));

    let commitments = [commitment1.clone(), commitment2.clone()];
    let mut script1 = Script::new();
    let mut script2 = Script::new();
    let mut script3 = Script::new();
    let mut script4 = Script::new();

    script1.feed_with_commitments(&commitments);
    let [a, aa, aaa] = script1.generate_challenges().unwrap();

    let commitments1 = [commitment1.clone()];
    let commitments2 = [commitment2.clone()];
    script2.feed_with_commitments(&commitments2);
    let [b] = script2.generate_challenges().unwrap();
    println!("b: {:?}", b);
    assert!(!a.eq(&b), "should be different");

    script3.feed_with_commitments(&commitments);
    let [c, cc, ccc] = script3.generate_challenges().unwrap();
    assert!(a.eq(&c), "should be equal");
    assert!(aa.eq(&cc), "should be equal");
    assert!(aaa.eq(&ccc), "should be equal");

    script4.feed_with_commitments(&commitments1);
    script4.feed_with_commitments(&commitments2);
    let [d, dd, ddd] = script4.generate_challenges().unwrap();
    assert!(!a.eq(&d), "should be different");
    assert!(!aa.eq(&dd), "should be different");
    assert!(!aaa.eq(&ddd), "should be different");
}

#[test]
#[should_panic]
fn safe_guard() {
    let commitment1 = G1::generator().mul(&Scalar::from_u64(1));
    let mut script1 = Script::new();
    script1.feed_with_commitments(&[commitment1]);
    let [_a, _aa, _aaa] = script1.generate_challenges().unwrap();
    let [_a, _aa, _aaa] = script1.generate_challenges().unwrap();
}

#[test]
fn second_challenge_without_absorbing_fails() {
    let mut script = Script::new();
    assert_eq!(script.generate_challenges::<1>().err(), Some(GeneralError::TranscriptMisuse));
    script.feed_with_field_elements(&[Scalar::from_u64(7)]);
    assert!(script.generate_challenges::<2>().is_ok());
    assert_eq!(script.generate_challenges::<2>().err(), Some(GeneralError::TranscriptMisuse));
    script.feed_with_commitments(&[G1::generator()]);
    assert!(script.generate_challenges::<1>().is_ok());
    assert_eq!(script.generate_challenges::<0>().err(), Some(GeneralError::TranscriptMisuse));
}

#[test]
fn first_challenge_is_drawn_from_the_digest_of_the_encoding() {
    let g = G1::generator();
    let mut script = Script::new();
    script.feed_with_commitments(&[g]);
    let [x, y] = script.generate_challenges().unwrap();

    let reference: ark_bls12_381::G1Affine = ark_ec::AffineRepr::generator();
    let mut encoded = Vec::new();
    reference.serialize_uncompressed(&mut encoded).unwrap();
    assert_eq!(&encoded[..], &g.to_bytes()[..]);
    let digest = sha2::Sha256::digest(&encoded).to_vec();
    let seed = u64::from_le_bytes(digest[..8].try_into().unwrap());
    let mut rng = rand::rngs::StdRng::seed_from_u64(seed);
    let first = ark_bls12_381::Fr::rand(&mut rng);
    let second = ark_bls12_381::Fr::rand(&mut rng);
    assert_eq!(x.to_limbs(), first.into_bigint().0);
    assert_eq!(y.to_limbs(), second.into_bigint().0);

    // the next absorption is chained on the digest
    script.feed_with_field_elements(&[x]);
    let [z] = script.generate_challenges().unwrap();
    let mut chained = digest.clone();
    first.serialize_uncompressed(&mut chained).unwrap();
    let digest2 = sha2::Sha256::digest(&chained).to_vec();
    let seed2 = u64::from_le_bytes(digest2[..8].try_into().unwrap());
    let mut rng2 = rand::rngs::StdRng::seed_from_u64(seed2);
    assert_eq!(z.to_limbs(), ark_bls12_381::Fr::rand(&mut rng2).into_bigint().0);
}

#[test]
fn scalar_encoding_is_little_endian_and_canonical() {
    let s = Scalar::from_u64(0x0102030405060708);
    let bytes = scalar_to_le_bytes(&s);
    assert_eq!(&bytes[..8], &[8u8, 7, 6, 5, 4, 3, 2, 1][..]);
    assert!(bytes[8..].iter().all(|b| *b == 0));
    assert!(scalar_from_le_bytes(&bytes).unwrap().eq(&s));

    let big = Scalar::from_u64(3).neg();
    let encoded = scalar_to_le_bytes(&big);
    let reference = ark_bls12_381::Fr::from_bigint(BigInt::new(big.to_limbs())).unwrap();
    let mut expected = Vec::new();
    reference.serialize_uncompressed(&mut expected).unwrap();
    assert_eq!(&encoded[..], &expected[..]);
    assert!(scalar_from_le_bytes(&encoded).unwrap().eq(&big));

    // the modulus itself is no canonical encoding
    let modulus = Scalar::from_u64(1).neg().to_limbs();
    let mut raw = [0u8; 32];
    for m in 0..4 {
        let limb = if m == 0 { modulus[0] + 1 } else { modulus[m] };
        raw[8 * m..8 * m + 8].copy_from_slice(&limb.to_le_bytes());
    }
    assert!(scalar_from_le_bytes(&raw).is_none());
    assert!(scalar_from_le_bytes(&[0xffu8; 32]).is_none());
}

#[test]
fn machine_integers_round_trip_through_bytes() {
    for x in [0u64, 1, 255, 256, 0x0123456789abcdef, u64::MAX] {
        let bytes = u64_to_le_bytes(x);
        assert_eq!(bytes, x.to_le_bytes());
        assert_eq!(u64_from_le_bytes(&bytes, 0), x);
    }
    let long = [9u8, 1, 0, 0, 0, 0, 0, 0, 0, 7];
    assert_eq!(u64_from_le_bytes(&long, 1), 1);
    assert_eq!(u64_from_le_bytes(&long, 2), 7 << 56);
}
