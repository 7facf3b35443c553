//! Little-endian byte encodings of machine integers and of scalars.
use vstd::prelude::*;
use crate::field::{limb_of, limbs_value, modulus, Scalar};

verus! {

/// Byte `j` of `x`, counted from the least significant.
pub open spec fn byte_of(x: u64, j: int) -> u8 {
    ((x >> ((8 * j) as u64)) & 0xff) as u8
}

/// The eight bytes of `x`, least significant first.
pub open spec fn u64_le_bytes(x: u64) -> Seq<u8> {
    Seq::new(8, |j: int| byte_of(x, j))
}

/// The integer whose eight little-endian bytes start `b`.
pub open spec fn u64_from_le(b: Seq<u8>) -> u64 {
    (b[0] as u64) | ((b[1] as u64) << 8) | ((b[2] as u64) << 16) | ((b[3] as u64) << 24) | ((
    b[4] as u64) << 32) | ((b[5] as u64) << 40) | ((b[6] as u64) << 48) | ((b[7] as u64) << 56)
}

/// The thirty-two bytes of a number below 2^256, least significant first.
pub open spec fn scalar_bytes(v: nat) -> Seq<u8> {
    Seq::new(32, |k: int| byte_of(limb_of(v, k / 8), k % 8))
}

/// The number that thirty-two little-endian bytes stand for.
pub open spec fn scalar_from_bytes(b: Seq<u8>) -> nat {
    limbs_value(
        seq![
            u64_from_le(b.subrange(0, 8)),
            u64_from_le(b.subrange(8, 16)),
            u64_from_le(b.subrange(16, 24)),
            u64_from_le(b.subrange(24, 32)),
        ],
    )
}

/// Eight bytes put together and taken apart again are the same bytes.
pub proof fn lemma_bytes_of_u64_from_le(b: Seq<u8>)
    requires
        b.len() >= 8,
    ensures
        u64_le_bytes(u64_from_le(b)) == b.take(8),
{
    let (b0, b1, b2, b3, b4, b5, b6, b7) = (b[0], b[1], b[2], b[3], b[4], b[5], b[6], b[7]);
    let x = u64_from_le(b);
    assert(x == (b0 as u64) | ((b1 as u64) << 8) | ((b2 as u64) << 16) | ((b3 as u64) << 24) | ((
    b4 as u64) << 32) | ((b5 as u64) << 40) | ((b6 as u64) << 48) | ((b7 as u64) << 56));
    assert(((x >> 0u64) & 0xff) as u8 == b0 && ((x >> 8u64) & 0xff) as u8 == b1 && ((x >> 16u64)
        & 0xff) as u8 == b2 && ((x >> 24u64) & 0xff) as u8 == b3 && ((x >> 32u64) & 0xff) as u8
        == b4 && ((x >> 40u64) & 0xff) as u8 == b5 && ((x >> 48u64) & 0xff) as u8 == b6 && ((x
        >> 56u64) & 0xff) as u8 == b7) by (bit_vector)
        requires
            x == (b0 as u64) | ((b1 as u64) << 8) | ((b2 as u64) << 16) | ((b3 as u64) << 24) | ((
            b4 as u64) << 32) | ((b5 as u64) << 40) | ((b6 as u64) << 48) | ((b7 as u64) << 56),
    ;
    assert(u64_le_bytes(x) =~= b.take(8));
}

/// The bytes of an integer put together again are the integer.
pub proof fn lemma_u64_from_le_bytes(x: u64)
    ensures
        u64_from_le(u64_le_bytes(x)) == x,
{
    let b = u64_le_bytes(x);
    assert((((x >> 0u64) & 0xff) as u8 as u64) | ((((x >> 8u64) & 0xff) as u8 as u64) << 8) | ((((x
        >> 16u64) & 0xff) as u8 as u64) << 16) | ((((x >> 24u64) & 0xff) as u8 as u64) << 24) | ((((
    x >> 32u64) & 0xff) as u8 as u64) << 32) | ((((x >> 40u64) & 0xff) as u8 as u64) << 40) | ((((x
        >> 48u64) & 0xff) as u8 as u64) << 48) | ((((x >> 56u64) & 0xff) as u8 as u64) << 56) == x)
        by (bit_vector);
}

/// The little-endian bytes of `x`.
pub fn u64_to_le_bytes(x: u64) -> (r: [u8; 8])
    ensures
        r@ == u64_le_bytes(x),
{
    let r: [u8; 8] = [
        ((x >> 0u64) & 0xff) as u8,
        ((x >> 8u64) & 0xff) as u8,
        ((x >> 16u64) & 0xff) as u8,
        ((x >> 24u64) & 0xff) as u8,
        ((x >> 32u64) & 0xff) as u8,
        ((x >> 40u64) & 0xff) as u8,
        ((x >> 48u64) & 0xff) as u8,
        ((x >> 56u64) & 0xff) as u8,
    ];
    assert(r@ =~= u64_le_bytes(x));
    r
}

/// The integer whose little-endian bytes are `b[at..at + 8]`.
pub fn u64_from_le_bytes(b: &[u8], at: usize) -> (r: u64)
    requires
        at + 8 <= b.len(),
    ensures
        r == u64_from_le(b@.subrange(at as int, at + 8)),
{
    let r = (b[at] as u64) | ((b[at + 1] as u64) << 8u64) | ((b[at + 2] as u64) << 16u64) | ((b[at
        + 3] as u64) << 24u64) | ((b[at + 4] as u64) << 32u64) | ((b[at + 5] as u64) << 40u64) | ((
    b[at + 6] as u64) << 48u64) | ((b[at + 7] as u64) << 56u64);
    r
}

/// The canonical little-endian encoding of a scalar.
pub fn scalar_to_le_bytes(s: &Scalar) -> (r: [u8; 32])
    ensures
        r@ == scalar_bytes(s@),
{
    let limbs = s.to_limbs();
    let a = u64_to_le_bytes(limbs[0]);
    let b = u64_to_le_bytes(limbs[1]);
    let c = u64_to_le_bytes(limbs[2]);
    let d = u64_to_le_bytes(limbs[3]);
    let r: [u8; 32] = [
        a[0],
        a[1],
        a[2],
        a[3],
        a[4],
        a[5],
        a[6],
        a[7],
        b[0],
        b[1],
        b[2],
        b[3],
        b[4],
        b[5],
        b[6],
        b[7],
        c[0],
        c[1],
        c[2],
        c[3],
        c[4],
        c[5],
        c[6],
        c[7],
        d[0],
        d[1],
        d[2],
        d[3],
        d[4],
        d[5],
        d[6],
        d[7],
    ];
    proof {
        s.lemma_view();
        assert(r@ =~= scalar_bytes(s@));
    }
    r
}

/// The scalar with the given canonical encoding, if the bytes are one.
pub fn scalar_from_le_bytes(b: &[u8; 32]) -> (r: Option<Scalar>)
    ensures
        r is Some <==> scalar_from_bytes(b@) < modulus(),
        r is Some ==> r->0@ == scalar_from_bytes(b@) && scalar_bytes(r->0@) == b@,
{
    let s = b.as_slice();
    let limbs: [u64; 4] = [
        u64_from_le_bytes(s, 0),
        u64_from_le_bytes(s, 8),
        u64_from_le_bytes(s, 16),
        u64_from_le_bytes(s, 24),
    ];
    proof {
        assert(limbs@ =~= seq![
            u64_from_le(b@.subrange(0, 8)),
            u64_from_le(b@.subrange(8, 16)),
            u64_from_le(b@.subrange(16, 24)),
            u64_from_le(b@.subrange(24, 32)),
        ]);
    }
    let r = Scalar::from_limbs(limbs);
    proof {
        if r is Some {
            let v = r->0@;
            crate::field::lemma_limb_of_value(limbs@);
            lemma_bytes_of_u64_from_le(b@.subrange(0, 8));
            lemma_bytes_of_u64_from_le(b@.subrange(8, 16));
            lemma_bytes_of_u64_from_le(b@.subrange(16, 24));
            lemma_bytes_of_u64_from_le(b@.subrange(24, 32));
            assert forall|k: int| 0 <= k < 32 implies scalar_bytes(v)[k] == b@[k] by {
                let m = k / 8;
                assert(limb_of(v, m) == limbs@[m]);
                assert(u64_le_bytes(limbs@[m])[k % 8] == b@.subrange(8 * m, 8 * m + 8).take(8)[k
                    % 8]);
            }
            assert(scalar_bytes(v) =~= b@);
        }
    }
    r
}

/// Encoding a scalar and decoding the bytes gives the scalar back.
pub proof fn lemma_scalar_bytes_round_trip(v: nat)
    requires
        v < modulus(),
    ensures
        scalar_from_bytes(scalar_bytes(v)) == v,
{
    let b = scalar_bytes(v);
    let l = seq![limb_of(v, 0), limb_of(v, 1), limb_of(v, 2), limb_of(v, 3)];
    assert forall|m: int| 0 <= m < 4 implies u64_from_le(#[trigger] b.subrange(8 * m, 8 * m + 8))
        == l[m] by {
        lemma_u64_from_le_bytes(limb_of(v, m));
        assert(b.subrange(8 * m, 8 * m + 8) =~= u64_le_bytes(limb_of(v, m))) by {
            assert forall|j: int| 0 <= j < 8 implies b.subrange(8 * m, 8 * m + 8)[j]
                == u64_le_bytes(limb_of(v, m))[j] by {
                assert((8 * m + j) / 8 == m);
                assert((8 * m + j) % 8 == j);
            }
        }
    }
    let (m0, m1, m2, m3) = (0int, 1int, 2int, 3int);
    assert(b.subrange(0, 8) == b.subrange(8 * m0, 8 * m0 + 8));
    assert(b.subrange(8, 16) == b.subrange(8 * m1, 8 * m1 + 8));
    assert(b.subrange(16, 24) == b.subrange(8 * m2, 8 * m2 + 8));
    assert(b.subrange(24, 32) == b.subrange(8 * m3, 8 * m3 + 8));
    crate::field::lemma_value_of_limbs(v);
    assert(seq![
        u64_from_le(b.subrange(0, 8)),
        u64_from_le(b.subrange(8, 16)),
        u64_from_le(b.subrange(16, 24)),
        u64_from_le(b.subrange(24, 32)),
    ] =~= l);
}

} // verus!
