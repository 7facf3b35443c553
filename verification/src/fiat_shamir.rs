//! The Fiat-Shamir transcript: a running SHA-256 digest of what was
//! absorbed, from which challenges are drawn.
use vstd::prelude::*;
use crate::bytes::{scalar_bytes, scalar_to_le_bytes, u64_from_le, u64_from_le_bytes};
use crate::errors::GeneralError;
use crate::field::{scalars_view, Scalar};
use crate::group::{g1_encoding, g1s_view, G1};
use ark_bls12_381::Fr;
use ark_ff::{PrimeField, UniformRand};
use rand::rngs::StdRng;
use rand::SeedableRng;
use sha2::{Digest, Sha256};

verus! {

/// The SHA-256 digest of a byte string.
pub uninterp spec fn sha256_digest(data: Seq<u8>) -> Seq<u8>;

/// The scalar that comes out at draw `i` of the standard generator seeded
/// with `seed`.
pub uninterp spec fn challenge_value(seed: u64, i: nat) -> nat;

/// The encodings of a sequence of G1 elements, one after the other.
pub open spec fn g1s_bytes(points: Seq<nat>) -> Seq<u8>
    decreases points.len(),
{
    if points.len() == 0 {
        Seq::empty()
    } else {
        g1s_bytes(points.drop_last()) + g1_encoding(points.last())
    }
}

/// The encodings of a sequence of scalars, one after the other.
pub open spec fn scalars_bytes(values: Seq<nat>) -> Seq<u8>
    decreases values.len(),
{
    if values.len() == 0 {
        Seq::empty()
    } else {
        scalars_bytes(values.drop_last()) + scalar_bytes(values.last())
    }
}

/// The digest after `bytes` are absorbed on top of the digest `data`.
pub open spec fn absorb(data: Option<Seq<u8>>, bytes: Seq<u8>) -> Seq<u8> {
    match data {
        Some(d) => sha256_digest(d + bytes),
        None => sha256_digest(bytes),
    }
}

/// The seed that a digest gives: its first eight bytes, little-endian.
pub open spec fn challenge_seed(digest: Seq<u8>) -> u64 {
    u64_from_le(digest.take(8))
}

/// The first `count` challenges that a digest gives.
pub open spec fn challenges(digest: Seq<u8>, count: nat) -> Seq<nat> {
    Seq::new(count, |i: int| challenge_value(challenge_seed(digest), i as nat))
}

/// A transcript.
pub struct Script {
    data: Option<Vec<u8>>,
    generated: bool,
}

impl Script {
    /// A digest has thirty-two bytes.
    #[verifier::type_invariant]
    pub closed spec fn wf(self) -> bool {
        self.data is Some ==> self.data->0@.len() == 32
    }

    /// The running digest, none before the first absorption.
    pub closed spec fn digest(self) -> Option<Seq<u8>> {
        match self.data {
            Some(d) => Some(d@),
            None => None,
        }
    }

    /// Whether challenges were drawn since the last absorption.
    pub closed spec fn generated(self) -> bool {
        self.generated
    }

    /// Whether challenges can be drawn: something was absorbed, and nothing
    /// drawn since.
    pub open spec fn ready(self) -> bool {
        self.digest() is Some && !self.generated()
    }

    /// An empty transcript.
    pub fn new() -> (r: Script)
        ensures
            r.digest() is None,
            !r.generated(),
    {
        Script { data: None, generated: false }
    }

    /// The bytes that the next digest is taken of, so far: the running
    /// digest.
    fn start_buffer(&self) -> (r: Vec<u8>)
        ensures
            r@ == match self.digest() {
                Some(d) => d,
                None => Seq::empty(),
            },
    {
        let mut buffer: Vec<u8> = Vec::new();
        match &self.data {
            Some(d) => {
                let mut i: usize = 0;
                while i < d.len()
                    invariant
                        i <= d.len(),
                        buffer@ == d@.take(i as int),
                    decreases d.len() - i,
                {
                    buffer.push(d[i]);
                    proof {
                        assert(d@.take(i as int).push(d@[i as int]) =~= d@.take(i + 1));
                    }
                    i += 1;
                }
                proof {
                    assert(d@.take(d.len() as int) =~= d@);
                }
            },
            None => {},
        }
        buffer
    }

    /// Absorbs the encodings of the commitments, in order.
    pub fn feed_with_commitments(&mut self, commitments: &[G1])
        ensures
            final(self).digest() == Some(
                absorb(old(self).digest(), g1s_bytes(g1s_view(commitments@))),
            ),
            !final(self).generated(),
    {
        let mut buffer = self.start_buffer();
        let ghost start = buffer@;
        let ghost points = g1s_view(commitments@);
        let mut i: usize = 0;
        while i < commitments.len()
            invariant
                i <= commitments.len(),
                points == g1s_view(commitments@),
                buffer@ == start + g1s_bytes(points.take(i as int)),
            decreases commitments.len() - i,
        {
            let bytes = commitments[i].to_bytes();
            let ghost before = buffer@;
            let mut j: usize = 0;
            while j < 96
                invariant
                    j <= 96,
                    bytes@.len() == 96,
                    buffer@ == before + bytes@.take(j as int),
                decreases 96 - j,
            {
                buffer.push(bytes[j]);
                proof {
                    assert(before + bytes@.take(j + 1) =~= (before + bytes@.take(j as int)).push(
                        bytes@[j as int],
                    ));
                }
                j += 1;
            }
            proof {
                assert(bytes@.take(96) =~= bytes@);
                assert(points.take(i + 1).drop_last() =~= points.take(i as int));
                assert(points.take(i + 1).last() == commitments@[i as int]@);
                assert(start + g1s_bytes(points.take(i + 1)) =~= before + bytes@);
            }
            i += 1;
        }
        proof {
            assert(points.take(commitments.len() as int) =~= points);
            assert(Seq::<u8>::empty() + g1s_bytes(points) =~= g1s_bytes(points));
        }
        self.data = Some(sha256(&buffer));
        self.generated = false;
    }

    /// Absorbs the encodings of the scalars, in order.
    pub fn feed_with_field_elements(&mut self, elements: &[Scalar])
        ensures
            final(self).digest() == Some(
                absorb(old(self).digest(), scalars_bytes(scalars_view(elements@))),
            ),
            !final(self).generated(),
    {
        let mut buffer = self.start_buffer();
        let ghost start = buffer@;
        let ghost values = scalars_view(elements@);
        let mut i: usize = 0;
        while i < elements.len()
            invariant
                i <= elements.len(),
                values == scalars_view(elements@),
                buffer@ == start + scalars_bytes(values.take(i as int)),
            decreases elements.len() - i,
        {
            let bytes = scalar_to_le_bytes(&elements[i]);
            let ghost before = buffer@;
            let mut j: usize = 0;
            while j < 32
                invariant
                    j <= 32,
                    bytes@.len() == 32,
                    buffer@ == before + bytes@.take(j as int),
                decreases 32 - j,
            {
                buffer.push(bytes[j]);
                proof {
                    assert(before + bytes@.take(j + 1) =~= (before + bytes@.take(j as int)).push(
                        bytes@[j as int],
                    ));
                }
                j += 1;
            }
            proof {
                assert(bytes@.take(32) =~= bytes@);
                assert(values.take(i + 1).drop_last() =~= values.take(i as int));
                assert(values.take(i + 1).last() == elements@[i as int]@);
                assert(start + scalars_bytes(values.take(i + 1)) =~= before + bytes@);
            }
            i += 1;
        }
        proof {
            assert(values.take(elements.len() as int) =~= values);
            assert(Seq::<u8>::empty() + scalars_bytes(values) =~= scalars_bytes(values));
        }
        self.data = Some(sha256(&buffer));
        self.generated = false;
    }

    /// The seed of the generator for the next challenges: the first eight
    /// bytes of the running digest, little-endian. Fails, and leaves the
    /// transcript as it is, unless something was absorbed since the last
    /// draw; else marks the transcript as drawn from.
    fn generate_rng_with_seed(&mut self) -> (r: Result<u64, GeneralError>)
        ensures
            r is Ok <==> old(self).ready(),
            r is Err ==> r == Err::<u64, GeneralError>(GeneralError::TranscriptMisuse) && *final(self) == *old(self),
            r is Ok ==> r->Ok_0 == challenge_seed(old(self).digest()->0) && final(self).digest()
                == old(self).digest() && final(self).generated(),
    {
        proof {
            use_type_invariant(&*self);
        }
        if self.generated {
            return Err(GeneralError::TranscriptMisuse);
        }
        let seed = match &self.data {
            Some(d) => {
                proof {
                    assert(d@.subrange(0, 8) =~= d@.take(8));
                }
                u64_from_le_bytes(d.as_slice(), 0)
            },
            None => {
                return Err(GeneralError::TranscriptMisuse);
            },
        };
        self.generated = true;
        Ok(seed)
    }

    /// Draws `N` challenges from the running digest. Fails, and leaves the
    /// transcript as it is, unless something was absorbed since the last
    /// draw.
    pub fn generate_challenges<const N: usize>(&mut self) -> (r: Result<[Scalar; N], GeneralError>)
        ensures
            r is Ok <==> old(self).ready(),
            r is Err ==> r == Err::<[Scalar; N], GeneralError>(GeneralError::TranscriptMisuse)
                && *final(self) == *old(self),
            r is Ok ==> scalars_view(r->Ok_0@) == challenges(old(self).digest()->0, N as nat)
                && final(self).digest() == old(self).digest() && final(self).generated(),
    {
        let seed = match self.generate_rng_with_seed() {
            Ok(seed) => seed,
            Err(e) => {
                return Err(e);
            },
        };
        let drawn = draw_scalars(seed, N);
        let mut points: [Scalar; N] = [Scalar::zero();N];
        let mut i: usize = 0;
        while i < N
            invariant
                i <= N,
                drawn.len() == N,
                forall|j: int| 0 <= j < i ==> points@[j] == drawn@[j],
            decreases N - i,
        {
            points[i] = drawn[i];
            i += 1;
        }
        proof {
            let digest = old(self).digest()->0;
            assert forall|j: int| 0 <= j < N implies scalars_view(points@)[j] == challenges(
                digest,
                N as nat,
            )[j] by {
                assert(points@[j] == drawn[j]);
            }
            assert(scalars_view(points@) =~= challenges(digest, N as nat));
        }
        Ok(points)
    }
}

/// `Digest::digest` of `sha2::Sha256`: the SHA-256 digest, thirty-two bytes.
#[verifier::external_body]
fn sha256(data: &Vec<u8>) -> (r: Vec<u8>)
    ensures
        r@ == sha256_digest(data@),
        r@.len() == 32,
{
    Sha256::digest(data).to_vec()
}

/// `SeedableRng::seed_from_u64` of `rand::rngs::StdRng`, then `count` times
/// `UniformRand::rand` of `ark_ff`: the scalars that the seed gives, in the
/// order of the draws.
#[verifier::external_body]
fn draw_scalars(seed: u64, count: usize) -> (r: Vec<Scalar>)
    ensures
        r.len() == count,
        forall|i: int| 0 <= i < count ==> (#[trigger] r[i]).wf(),
        forall|i: int| 0 <= i < count ==> (#[trigger] r[i])@ == challenge_value(seed, i as nat),
{
    let mut rng = StdRng::seed_from_u64(seed);
    (0..count).map(|_| Scalar { limbs: Fr::rand(&mut rng).into_bigint().0 }).collect()
}

} // verus!
