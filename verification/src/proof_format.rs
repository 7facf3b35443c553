//! The wire format of a proof: the witness length as eight little-endian
//! bytes, seven G1 commitments, three scalars, and two more G1 commitments,
//! each in its canonical uncompressed encoding.
use vstd::prelude::*;
use crate::bytes::{
    lemma_scalar_bytes_round_trip,
    lemma_u64_from_le_bytes,
    scalar_bytes,
    scalar_from_bytes,
    scalar_from_le_bytes,
    scalar_to_le_bytes,
    u64_from_le,
    u64_from_le_bytes,
    u64_le_bytes,
    u64_to_le_bytes,
};
use crate::field::{modulus, Scalar};
use crate::group::{g1_valid, G1};
use crate::prover::Proof;

verus! {

/// The length of an encoded proof.
pub const PROOF_BYTES: usize = 968;

/// The bytes of `b` that hold the G1 element number `k` of a proof.
pub open spec fn g1_part(b: Seq<u8>, k: int) -> Seq<u8> {
    if k < 7 {
        b.subrange(8 + 96 * k, 8 + 96 * k + 96)
    } else {
        b.subrange(776 + 96 * (k - 7), 776 + 96 * (k - 7) + 96)
    }
}

/// The bytes of `b` that hold the scalar number `k` of a proof.
pub open spec fn scalar_part(b: Seq<u8>, k: int) -> Seq<u8> {
    b.subrange(680 + 32 * k, 680 + 32 * k + 32)
}

/// `b` is the encoding of a proof.
pub open spec fn parses(b: Seq<u8>) -> bool {
    &&& b.len() == 968
    &&& u64_from_le(b.subrange(0, 8)) <= usize::MAX
    &&& forall|k: int| 0 <= k < 9 ==> g1_valid(#[trigger] g1_part(b, k))
    &&& forall|k: int| 0 <= k < 3 ==> scalar_from_bytes(#[trigger] scalar_part(b, k)) < modulus()
}

/// Copies ninety-six bytes out of a slice.
fn read_96(bytes: &[u8], at: usize) -> (r: [u8; 96])
    requires
        at + 96 <= bytes.len(),
    ensures
        r@ == bytes@.subrange(at as int, at + 96),
{
    let mut out = [0u8;96];
    let mut i: usize = 0;
    while i < 96
        invariant
            i <= 96,
            at + 96 <= bytes.len(),
            forall|j: int| 0 <= j < i ==> out@[j] == bytes@[at + j],
        decreases 96 - i,
    {
        out[i] = bytes[at + i];
        i += 1;
    }
    proof {
        assert(out@ =~= bytes@.subrange(at as int, at + 96));
    }
    out
}

/// Copies thirty-two bytes out of a slice.
fn read_32(bytes: &[u8], at: usize) -> (r: [u8; 32])
    requires
        at + 32 <= bytes.len(),
    ensures
        r@ == bytes@.subrange(at as int, at + 32),
{
    let mut out = [0u8;32];
    let mut i: usize = 0;
    while i < 32
        invariant
            i <= 32,
            at + 32 <= bytes.len(),
            forall|j: int| 0 <= j < i ==> out@[j] == bytes@[at + j],
        decreases 32 - i,
    {
        out[i] = bytes[at + i];
        i += 1;
    }
    proof {
        assert(out@ =~= bytes@.subrange(at as int, at + 32));
    }
    out
}

/// Appends the bytes of `part` to `out`.
fn append(out: &mut Vec<u8>, part: &[u8])
    ensures
        final(out)@ == old(out)@ + part@,
{
    let ghost start = out@;
    let mut i: usize = 0;
    while i < part.len()
        invariant
            i <= part.len(),
            out@ == start + part@.take(i as int),
        decreases part.len() - i,
    {
        out.push(part[i]);
        proof {
            assert(start + part@.take(i + 1) =~= (start + part@.take(i as int)).push(
                part@[i as int],
            ));
        }
        i += 1;
    }
    proof {
        assert(part@.take(part.len() as int) =~= part@);
    }
}

impl Proof {
    /// Every commitment is a group element, every evaluation a reduced
    /// residue.
    pub open spec fn wf(self) -> bool {
        &&& self.cm1_f.wf()
        &&& self.cm1_m.wf()
        &&& self.cm1_a.wf()
        &&& self.cm1_q_a.wf()
        &&& self.cm1_b_0.wf()
        &&& self.cm1_q_b.wf()
        &&& self.cm1_p.wf()
        &&& self.b_0_gamma.wf()
        &&& self.f_gamma.wf()
        &&& self.a_0.wf()
        &&& self.cm1_pi_eta.wf()
        &&& self.cm1_a_0_x.wf()
    }

    /// The G1 element number `k` of the proof, in the order of the format.
    pub open spec fn g1_at(self, k: int) -> G1 {
        if k == 0 {
            self.cm1_f
        } else if k == 1 {
            self.cm1_m
        } else if k == 2 {
            self.cm1_a
        } else if k == 3 {
            self.cm1_q_a
        } else if k == 4 {
            self.cm1_b_0
        } else if k == 5 {
            self.cm1_q_b
        } else if k == 6 {
            self.cm1_p
        } else if k == 7 {
            self.cm1_pi_eta
        } else {
            self.cm1_a_0_x
        }
    }

    /// The scalar number `k` of the proof, in the order of the format.
    pub open spec fn scalar_at(self, k: int) -> Scalar {
        if k == 0 {
            self.b_0_gamma
        } else if k == 1 {
            self.f_gamma
        } else {
            self.a_0
        }
    }

    /// The encoding of the proof.
    pub open spec fn spec_bytes(self) -> Seq<u8> {
        u64_le_bytes(self.small_n as u64) + self.cm1_f.spec_bytes() + self.cm1_m.spec_bytes()
            + self.cm1_a.spec_bytes() + self.cm1_q_a.spec_bytes() + self.cm1_b_0.spec_bytes()
            + self.cm1_q_b.spec_bytes() + self.cm1_p.spec_bytes() + scalar_bytes(self.b_0_gamma@)
            + scalar_bytes(self.f_gamma@) + scalar_bytes(self.a_0@) + self.cm1_pi_eta.spec_bytes()
            + self.cm1_a_0_x.spec_bytes()
    }

    /// Where the parts of a proof stand in its encoding.
    pub proof fn lemma_layout(self)
        ensures
            self.spec_bytes().len() == 968,
            self.spec_bytes().subrange(0, 8) == u64_le_bytes(self.small_n as u64),
            forall|k: int|
                0 <= k < 9 ==> #[trigger] g1_part(self.spec_bytes(), k) == self.g1_at(
                    k,
                ).spec_bytes(),
            forall|k: int|
                0 <= k < 3 ==> #[trigger] scalar_part(self.spec_bytes(), k) == scalar_bytes(
                    self.scalar_at(k)@,
                ),
    {
        let b = self.spec_bytes();
        self.cm1_f.lemma_view();
        self.cm1_m.lemma_view();
        self.cm1_a.lemma_view();
        self.cm1_q_a.lemma_view();
        self.cm1_b_0.lemma_view();
        self.cm1_q_b.lemma_view();
        self.cm1_p.lemma_view();
        self.cm1_pi_eta.lemma_view();
        self.cm1_a_0_x.lemma_view();
        assert(b.len() == 968);
        assert(b.subrange(0, 8) =~= u64_le_bytes(self.small_n as u64));
        assert forall|k: int| 0 <= k < 9 implies #[trigger] g1_part(b, k) == self.g1_at(
            k,
        ).spec_bytes() by {
            assert(g1_part(b, k) =~= self.g1_at(k).spec_bytes());
        }
        assert forall|k: int| 0 <= k < 3 implies #[trigger] scalar_part(b, k) == scalar_bytes(
            self.scalar_at(k)@,
        ) by {
            assert(scalar_part(b, k) =~= scalar_bytes(self.scalar_at(k)@));
        }
    }

    /// The encoding of a valid proof parses.
    pub proof fn lemma_encoding_parses(self)
        requires
            self.wf(),
        ensures
            parses(self.spec_bytes()),
    {
        let b = self.spec_bytes();
        self.lemma_layout();
        lemma_u64_from_le_bytes(self.small_n as u64);
        assert forall|k: int| 0 <= k < 9 implies g1_valid(#[trigger] g1_part(b, k)) by {
            self.g1_at(k).lemma_view();
        }
        assert forall|k: int| 0 <= k < 3 implies scalar_from_bytes(#[trigger] scalar_part(b, k))
            < modulus() by {
            self.scalar_at(k).lemma_view();
            lemma_scalar_bytes_round_trip(self.scalar_at(k)@);
        }
    }

    /// Valid proofs with the same encoding are the same proof.
    pub proof fn lemma_encoding_injective(self, other: Proof)
        requires
            self.wf(),
            other.wf(),
            self.spec_bytes() == other.spec_bytes(),
        ensures
            self == other,
    {
        self.lemma_layout();
        other.lemma_layout();
        let b = self.spec_bytes();
        lemma_u64_from_le_bytes(self.small_n as u64);
        lemma_u64_from_le_bytes(other.small_n as u64);
        assert(self.small_n == other.small_n);
        assert forall|k: int| 0 <= k < 9 implies self.g1_at(k) == other.g1_at(k) by {
            assert(g1_part(b, k) == self.g1_at(k).spec_bytes());
            assert(g1_part(b, k) == other.g1_at(k).spec_bytes());
            self.g1_at(k).lemma_same_bytes(other.g1_at(k));
        }
        assert forall|k: int| 0 <= k < 3 implies self.scalar_at(k) == other.scalar_at(k) by {
            assert(scalar_part(b, k) == scalar_bytes(self.scalar_at(k)@));
            assert(scalar_part(b, k) == scalar_bytes(other.scalar_at(k)@));
            self.scalar_at(k).lemma_view();
            other.scalar_at(k).lemma_view();
            lemma_scalar_bytes_round_trip(self.scalar_at(k)@);
            lemma_scalar_bytes_round_trip(other.scalar_at(k)@);
            self.scalar_at(k).lemma_view_injective(other.scalar_at(k));
        }
        assert(self.g1_at(0) == other.g1_at(0));
        assert(self.g1_at(1) == other.g1_at(1));
        assert(self.g1_at(2) == other.g1_at(2));
        assert(self.g1_at(3) == other.g1_at(3));
        assert(self.g1_at(4) == other.g1_at(4));
        assert(self.g1_at(5) == other.g1_at(5));
        assert(self.g1_at(6) == other.g1_at(6));
        assert(self.g1_at(7) == other.g1_at(7));
        assert(self.g1_at(8) == other.g1_at(8));
        assert(self.scalar_at(0) == other.scalar_at(0));
        assert(self.scalar_at(1) == other.scalar_at(1));
        assert(self.scalar_at(2) == other.scalar_at(2));
    }

    /// Valid proofs with the same view are the same proof, byte for byte.
    pub proof fn lemma_view_injective(self, other: Proof)
        requires
            self.wf(),
            other.wf(),
            self@ == other@,
        ensures
            self == other,
            self.spec_bytes() == other.spec_bytes(),
    {
        self.cm1_f.lemma_view_injective(other.cm1_f);
        self.cm1_m.lemma_view_injective(other.cm1_m);
        self.cm1_a.lemma_view_injective(other.cm1_a);
        self.cm1_q_a.lemma_view_injective(other.cm1_q_a);
        self.cm1_b_0.lemma_view_injective(other.cm1_b_0);
        self.cm1_q_b.lemma_view_injective(other.cm1_q_b);
        self.cm1_p.lemma_view_injective(other.cm1_p);
        self.cm1_pi_eta.lemma_view_injective(other.cm1_pi_eta);
        self.cm1_a_0_x.lemma_view_injective(other.cm1_a_0_x);
        self.b_0_gamma.lemma_view_injective(other.b_0_gamma);
        self.f_gamma.lemma_view_injective(other.f_gamma);
        self.a_0.lemma_view_injective(other.a_0);
    }

    /// The proof in exec code is always valid.
    pub fn valid(&self)
        ensures
            self.wf(),
    {
        proof {
            use_type_invariant(&self.cm1_f);
            use_type_invariant(&self.cm1_m);
            use_type_invariant(&self.cm1_a);
            use_type_invariant(&self.cm1_q_a);
            use_type_invariant(&self.cm1_b_0);
            use_type_invariant(&self.cm1_q_b);
            use_type_invariant(&self.cm1_p);
            use_type_invariant(&self.cm1_pi_eta);
            use_type_invariant(&self.cm1_a_0_x);
            use_type_invariant(&self.b_0_gamma);
            use_type_invariant(&self.f_gamma);
            use_type_invariant(&self.a_0);
        }
    }

    /// The encoding of the proof.
    pub fn to_bytes(&self) -> (r: Vec<u8>)
        ensures
            r@ == self.spec_bytes(),
            r.len() == PROOF_BYTES,
    {
        let mut out: Vec<u8> = Vec::new();
        append(&mut out, u64_to_le_bytes(self.small_n as u64).as_slice());
        append(&mut out, self.cm1_f.to_bytes().as_slice());
        append(&mut out, self.cm1_m.to_bytes().as_slice());
        append(&mut out, self.cm1_a.to_bytes().as_slice());
        append(&mut out, self.cm1_q_a.to_bytes().as_slice());
        append(&mut out, self.cm1_b_0.to_bytes().as_slice());
        append(&mut out, self.cm1_q_b.to_bytes().as_slice());
        append(&mut out, self.cm1_p.to_bytes().as_slice());
        append(&mut out, scalar_to_le_bytes(&self.b_0_gamma).as_slice());
        append(&mut out, scalar_to_le_bytes(&self.f_gamma).as_slice());
        append(&mut out, scalar_to_le_bytes(&self.a_0).as_slice());
        append(&mut out, self.cm1_pi_eta.to_bytes().as_slice());
        append(&mut out, self.cm1_a_0_x.to_bytes().as_slice());
        proof {
            self.lemma_layout();
            assert(Seq::<u8>::empty() + u64_le_bytes(self.small_n as u64) =~= u64_le_bytes(
                self.small_n as u64,
            ));
        }
        out
    }

    /// The proof that `bytes` encode, if they encode one. Decoding the
    /// encoding of a proof gives the proof back.
    pub fn from_bytes(bytes: &[u8]) -> (r: Option<Proof>)
        ensures
            r is Some <==> parses(bytes@),
            r is Some ==> r->0.spec_bytes() == bytes@ && r->0.wf(),
            forall|p: Proof| p.wf() && p.spec_bytes() == bytes@ ==> r == Some(p),
    {
        let r = Proof::decode(bytes);
        proof {
            assert forall|p: Proof| p.wf() && #[trigger] p.spec_bytes() == bytes@ implies r
                == Some(p) by {
                p.lemma_encoding_parses();
                p.lemma_encoding_injective(r->0);
            }
        }
        r
    }

    /// A proof whose parts stand in `b` where the format has them is
    /// encoded by `b`.
    proof fn lemma_decoded(self, b: Seq<u8>)
        requires
            b.len() == 968,
            u64_from_le(b.subrange(0, 8)) == self.small_n,
            forall|k: int| 0 <= k < 9 ==> self.g1_at(k).spec_bytes() == #[trigger] g1_part(b, k),
            forall|k: int|
                0 <= k < 3 ==> scalar_bytes(self.scalar_at(k)@) == #[trigger] scalar_part(b, k),
        ensures
            self.spec_bytes() == b,
    {
        self.lemma_layout();
        let e = self.spec_bytes();
        crate::bytes::lemma_bytes_of_u64_from_le(b.subrange(0, 8));
        assert(b.subrange(0, 8).take(8) =~= b.subrange(0, 8));
        assert(e.subrange(0, 8) == b.subrange(0, 8));
        assert forall|i: int| 0 <= i < 968 implies e[i] == b[i] by {
            if i < 8 {
                assert(e.subrange(0, 8)[i] == b.subrange(0, 8)[i]);
            } else if i < 680 {
                let k = (i - 8) / 96;
                assert(g1_part(e, k) == g1_part(b, k));
                assert(g1_part(e, k)[i - 8 - 96 * k] == g1_part(b, k)[i - 8 - 96 * k]);
            } else if i < 776 {
                let k = (i - 680) / 32;
                assert(scalar_part(e, k) == scalar_part(b, k));
                assert(scalar_part(e, k)[i - 680 - 32 * k] == scalar_part(b, k)[i - 680 - 32 * k]);
            } else {
                let k = 7 + (i - 776) / 96;
                assert(g1_part(e, k) == g1_part(b, k));
                assert(g1_part(e, k)[i - 776 - 96 * (k - 7)] == g1_part(b, k)[i - 776 - 96 * (k
                    - 7)]);
            }
        }
        assert(e =~= b);
    }

    /// The proof that `bytes` encode, if they encode one.
    fn decode(bytes: &[u8]) -> (r: Option<Proof>)
        ensures
            r is Some <==> parses(bytes@),
            r is Some ==> r->0.spec_bytes() == bytes@ && r->0.wf(),
    {
        if bytes.len() != PROOF_BYTES {
            return None;
        }
        let ghost b = bytes@;
        let n = u64_from_le_bytes(bytes, 0);
        if n > usize::MAX as u64 {
            return None;
        }
        let small_n = n as usize;
        let mut points: Vec<G1> = Vec::new();
        let mut k: usize = 0;
        while k < 9
            invariant
                k <= 9,
                bytes.len() == 968,
                b == bytes@,
                points.len() == k,
                forall|j: int| 0 <= j < k ==> g1_valid(#[trigger] g1_part(b, j)),
                forall|j: int| 0 <= j < k ==> (#[trigger] points[j]).spec_bytes() == g1_part(b, j),
                forall|j: int| 0 <= j < k ==> (#[trigger] points[j]).wf(),
            decreases 9 - k,
        {
            let at = if k < 7 {
                8 + 96 * k
            } else {
                776 + 96 * (k - 7)
            };
            match G1::from_bytes(read_96(bytes, at)) {
                Some(point) => {
                    proof {
                        point.lemma_view();
                    }
                    points.push(point);
                },
                None => {
                    assert(!g1_valid(g1_part(b, k as int)));
                    return None;
                },
            }
            k += 1;
        }
        let mut values: Vec<Scalar> = Vec::new();
        let mut k: usize = 0;
        while k < 3
            invariant
                k <= 3,
                bytes.len() == 968,
                b == bytes@,
                values.len() == k,
                forall|j: int|
                    0 <= j < k ==> scalar_from_bytes(#[trigger] scalar_part(b, j)) < modulus(),
                forall|j: int|
                    0 <= j < k ==> scalar_bytes((#[trigger] values[j])@) == scalar_part(b, j),
                forall|j: int| 0 <= j < k ==> (#[trigger] values[j]).wf(),
            decreases 3 - k,
        {
            let part = read_32(bytes, 680 + 32 * k);
            match scalar_from_le_bytes(&part) {
                Some(value) => {
                    proof {
                        value.lemma_view();
                    }
                    values.push(value);
                },
                None => {
                    assert(!(scalar_from_bytes(scalar_part(b, k as int)) < modulus()));
                    return None;
                },
            }
            k += 1;
        }
        let proof = Proof {
            small_n,
            cm1_f: points[0],
            cm1_m: points[1],
            cm1_a: points[2],
            cm1_q_a: points[3],
            cm1_b_0: points[4],
            cm1_q_b: points[5],
            cm1_p: points[6],
            b_0_gamma: values[0],
            f_gamma: values[1],
            a_0: values[2],
            cm1_pi_eta: points[7],
            cm1_a_0_x: points[8],
        };
        proof {
            assert forall|k: int| 0 <= k < 9 implies proof.g1_at(k).spec_bytes()
                == #[trigger] g1_part(b, k) by {
                assert(proof.g1_at(k) == points[k]);
            }
            assert forall|k: int| 0 <= k < 3 implies scalar_bytes(proof.scalar_at(k)@)
                == #[trigger] scalar_part(b, k) by {
                assert(proof.scalar_at(k) == values[k]);
            }
            proof.lemma_decoded(b);
        }
        Some(proof)
    }
}

} // verus!
