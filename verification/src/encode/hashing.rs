//! Little-endian word reads, the wyhash-style pretoken hash and the packed
//! 8-byte prefix used by the streaming encoder.
use vstd::prelude::*;

verus! {

/// The little-endian `u16` at `p[i..i + 2]`.
pub open spec fn rd16(p: Seq<u8>, i: int) -> u64 {
    (p[i] as u64) | ((p[i + 1] as u64) << 8u64)
}

/// The little-endian `u32` at `p[i..i + 4]`, widened.
pub open spec fn rd32(p: Seq<u8>, i: int) -> u64 {
    (p[i] as u64) | ((p[i + 1] as u64) << 8u64) | ((p[i + 2] as u64) << 16u64) | ((p[i + 3] as u64) << 24u64)
}

/// The little-endian `u64` at `p[i..i + 8]`.
pub open spec fn rd64(p: Seq<u8>, i: int) -> u64 {
    (p[i] as u64) | ((p[i + 1] as u64) << 8u64) | ((p[i + 2] as u64) << 16u64) | ((p[i + 3] as u64) << 24u64)
        | ((p[i + 4] as u64) << 32u64) | ((p[i + 5] as u64) << 40u64) | ((p[i + 6] as u64) << 48u64) | ((
    p[i + 7] as u64) << 56u64)
}

fn read16(b: &[u8], i: usize) -> (r: u64)
    requires
        i + 2 <= b@.len(),
    ensures
        r == rd16(b@, i as int),
{
    (b[i] as u64) | ((b[i + 1] as u64) << 8u64)
}

fn read32(b: &[u8], i: usize) -> (r: u64)
    requires
        i + 4 <= b@.len(),
    ensures
        r == rd32(b@, i as int),
{
    (b[i] as u64) | ((b[i + 1] as u64) << 8u64) | ((b[i + 2] as u64) << 16u64) | ((b[i + 3] as u64) << 24u64)
}

fn read64(b: &[u8], i: usize) -> (r: u64)
    requires
        i + 8 <= b@.len(),
    ensures
        r == rd64(b@, i as int),
{
    (b[i] as u64) | ((b[i + 1] as u64) << 8u64) | ((b[i + 2] as u64) << 16u64) | ((b[i + 3] as u64) << 24u64)
        | ((b[i + 4] as u64) << 32u64) | ((b[i + 5] as u64) << 40u64) | ((b[i + 6] as u64) << 48u64) | ((
    b[i + 7] as u64) << 56u64)
}

/// The folded 128-bit product of `a` and `b`.
pub open spec fn wymix_spec(a: u64, b: u64) -> u64 {
    (((a as int) * (b as int)) % 0x1_0000_0000_0000_0000) as u64 ^ (((a as int) * (b as int))
        / 0x1_0000_0000_0000_0000) as u64
}

pub fn wymix(a: u64, b: u64) -> (r: u64)
    ensures
        r == wymix_spec(a, b),
{
    assert((a as int) * (b as int) <= 0xFFFF_FFFF_FFFF_FFFE_0000_0000_0000_0001) by (nonlinear_arith)
        requires
            a <= 0xFFFF_FFFF_FFFF_FFFFu64,
            b <= 0xFFFF_FFFF_FFFF_FFFFu64,
    ;
    let p = (a as u128) * (b as u128);
    let lo = #[verifier::truncate] (p as u64);
    let hi = #[verifier::truncate] ((p >> 64u128) as u64);
    assert(p as u64 == p % 0x1_0000_0000_0000_0000 && (p >> 64u128) as u64 == p / 0x1_0000_0000_0000_0000) by (bit_vector);
    lo ^ hi
}

/// The hash rounds over the 8-byte words of a long pretoken, from `i` on,
/// then over its last 8 bytes when a partial word is left.
pub open spec fn long_hash(p: Seq<u8>, i: int, h: u64) -> u64
    decreases p.len() - i,
{
    if i < 0 || p.len() < 8 {
        h
    } else if i + 8 <= p.len() {
        long_hash(p, i + 8, wymix_spec(h ^ rd64(p, i), 0xe7037ed1a0b428db))
    } else if i < p.len() {
        wymix_spec(h ^ rd64(p, p.len() - 8), 0x8a5cd789635d2dff)
    } else {
        h
    }
}

/// The hash of a pretoken: one mix of two overlapping reads (and the
/// length) for at most 8 bytes, word rounds beyond.
pub open spec fn fast_hash_spec(p: Seq<u8>) -> u64 {
    let len = p.len();
    if len <= 8 {
        let ab = if len >= 4 {
            (rd32(p, 0), rd32(p, len - 4))
        } else if len >= 2 {
            (rd16(p, 0), rd16(p, len - 2))
        } else {
            (p[0] as u64, 0u64)
        };
        wymix_spec(ab.0 ^ 0xa0761d6478bd642f, ab.1 ^ 0xe7037ed1a0b428db) ^ (len as u64).wrapping_mul(
            0x9e3779b97f4a7c15,
        )
    } else {
        long_hash(p, 0, (len as u64) ^ 0xa0761d6478bd642f)
    }
}

pub fn fast_hash(bytes: &[u8]) -> (h: u64)
    requires
        bytes@.len() >= 1,
    ensures
        h == fast_hash_spec(bytes@),
{
    let len = bytes.len();
    if len <= 8 {
        let (a, b) = if len >= 4 {
            (read32(bytes, 0), read32(bytes, len - 4))
        } else if len >= 2 {
            (read16(bytes, 0), read16(bytes, len - 2))
        } else {
            (bytes[0] as u64, 0u64)
        };
        wymix(a ^ 0xa0761d6478bd642f, b ^ 0xe7037ed1a0b428db) ^ (len as u64).wrapping_mul(0x9e3779b97f4a7c15)
    } else {
        let mut h: u64 = (len as u64) ^ 0xa0761d6478bd642f;
        let mut i: usize = 0;
        while len - i >= 8
            invariant
                len == bytes@.len(),
                len > 8,
                i <= len,
                long_hash(bytes@, i as int, h) == fast_hash_spec(bytes@),
            decreases len - i,
        {
            h = wymix(h ^ read64(bytes, i), 0xe7037ed1a0b428db);
            i += 8;
        }
        if i < len {
            h = wymix(h ^ read64(bytes, len - 8), 0x8a5cd789635d2dff);
        }
        h
    }
}

/// The packed prefix of a pretoken: its first 8 bytes; for 4 to 7 bytes the
/// first and last 4, for 2 or 3 the first 2 and the last; a single byte as
/// is; 0 when empty.
pub open spec fn prefix8_spec(p: Seq<u8>) -> u64 {
    let len = p.len();
    if len >= 8 {
        rd64(p, 0)
    } else if len >= 4 {
        rd32(p, 0) | (rd32(p, len - 4) << 32u64)
    } else if len >= 2 {
        rd16(p, 0) | ((p[len - 1] as u64) << 16u64)
    } else if len == 1 {
        p[0] as u64
    } else {
        0
    }
}

pub fn pack_prefix8(bytes: &[u8]) -> (r: u64)
    ensures
        r == prefix8_spec(bytes@),
{
    let len = bytes.len();
    if len >= 8 {
        read64(bytes, 0)
    } else if len >= 4 {
        read32(bytes, 0) | (read32(bytes, len - 4) << 32u64)
    } else if len >= 2 {
        read16(bytes, 0) | ((bytes[len - 1] as u64) << 16u64)
    } else if len == 1 {
        bytes[0] as u64
    } else {
        0
    }
}

proof fn lemma_rd64_injective(p: Seq<u8>, q: Seq<u8>)
    requires
        p.len() >= 8,
        q.len() >= 8,
        rd64(p, 0) == rd64(q, 0),
    ensures
        forall|k: int| 0 <= k < 8 ==> p[k] == q[k],
{
    let (a0, a1, a2, a3, a4, a5, a6, a7) = (p[0], p[1], p[2], p[3], p[4], p[5], p[6], p[7]);
    let (b0, b1, b2, b3, b4, b5, b6, b7) = (q[0], q[1], q[2], q[3], q[4], q[5], q[6], q[7]);
    assert(a0 == b0 && a1 == b1 && a2 == b2 && a3 == b3 && a4 == b4 && a5 == b5 && a6 == b6 && a7 == b7)
        by (bit_vector)
        requires
            (a0 as u64) | ((a1 as u64) << 8u64) | ((a2 as u64) << 16u64) | ((a3 as u64) << 24u64) | ((a4 as u64)
                << 32u64) | ((a5 as u64) << 40u64) | ((a6 as u64) << 48u64) | ((a7 as u64) << 56u64) == (b0 as u64)
                | ((b1 as u64) << 8u64) | ((b2 as u64) << 16u64) | ((b3 as u64) << 24u64) | ((b4 as u64) << 32u64)
                | ((b5 as u64) << 40u64) | ((b6 as u64) << 48u64) | ((b7 as u64) << 56u64),
    ;
}

/// Two pretokens of the same length with the same packed prefix agree on
/// their first `min(len, 8)` bytes.
pub proof fn lemma_prefix8_agree(p: Seq<u8>, q: Seq<u8>)
    requires
        p.len() == q.len(),
        prefix8_spec(p) == prefix8_spec(q),
    ensures
        forall|k: int| 0 <= k < p.len() && k < 8 ==> p[k] == q[k],
{
    let len = p.len() as int;
    if len >= 8 {
        lemma_rd64_injective(p, q);
    } else if len >= 4 {
        let (a0, a1, a2, a3) = (p[0], p[1], p[2], p[3]);
        let (c0, c1, c2, c3) = (p[len - 4], p[len - 3], p[len - 2], p[len - 1]);
        let (b0, b1, b2, b3) = (q[0], q[1], q[2], q[3]);
        let (d0, d1, d2, d3) = (q[len - 4], q[len - 3], q[len - 2], q[len - 1]);
        assert(a0 == b0 && a1 == b1 && a2 == b2 && a3 == b3 && c0 == d0 && c1 == d1 && c2 == d2 && c3 == d3)
            by (bit_vector)
            requires
                ((a0 as u64) | ((a1 as u64) << 8u64) | ((a2 as u64) << 16u64) | ((a3 as u64) << 24u64)) | (((c0 as u64)
                    | ((c1 as u64) << 8u64) | ((c2 as u64) << 16u64) | ((c3 as u64) << 24u64)) << 32u64) == ((b0 as u64)
                    | ((b1 as u64) << 8u64) | ((b2 as u64) << 16u64) | ((b3 as u64) << 24u64)) | (((d0 as u64) | ((
                d1 as u64) << 8u64) | ((d2 as u64) << 16u64) | ((d3 as u64) << 24u64)) << 32u64),
        ;
        assert forall|k: int| 0 <= k < p.len() && k < 8 implies p[k] == q[k] by {
            if k >= 4 {
                assert(k >= len - 4);
            }
        }
    } else if len >= 2 {
        let (a0, a1, a2) = (p[0], p[1], p[len - 1]);
        let (b0, b1, b2) = (q[0], q[1], q[len - 1]);
        assert(a0 == b0 && a1 == b1 && a2 == b2) by (bit_vector)
            requires
                ((a0 as u64) | ((a1 as u64) << 8u64)) | ((a2 as u64) << 16u64) == ((b0 as u64) | ((b1 as u64)
                    << 8u64)) | ((b2 as u64) << 16u64),
        ;
    }
}

} // verus!
