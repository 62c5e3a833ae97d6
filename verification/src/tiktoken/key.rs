//! Packed keys of short pretokens and the direct-mapped front cache entry.
//!
//! A pretoken of at most 15 bytes packs into a `u128`: its bytes little-endian
//! in the low 15 bytes, its length in the top byte. Two different pretokens
//! never share a key.
use vstd::prelude::*;

verus! {

/// `256^k`.
pub open spec fn pow256(k: nat) -> nat
    decreases k,
{
    if k == 0 {
        1
    } else {
        256 * pow256((k - 1) as nat)
    }
}

/// The little-endian value of `p[i..]`.
pub open spec fn le_value(p: Seq<u8>, i: int) -> nat
    decreases p.len() - i,
{
    if i < 0 || i >= p.len() {
        0
    } else {
        p[i] as nat + 256 * le_value(p, i + 1)
    }
}

/// `2^120`: the weight of the length byte.
pub open spec fn len_weight() -> nat {
    0x0100_0000_0000_0000_0000_0000_0000_0000
}

/// The packed key of a pretoken of at most 15 bytes.
pub open spec fn pack_key_int(p: Seq<u8>) -> int {
    (le_value(p, 0) + p.len() * len_weight()) as int
}

pub open spec fn pack_key_spec(p: Seq<u8>) -> u128 {
    pack_key_int(p) as u128
}

pub proof fn lemma_pow256_15()
    ensures
        pow256(15) == len_weight(),
{
    assert(pow256(0) == 1);
    assert(pow256(1) == 256);
    assert(pow256(2) == 65536);
    assert(pow256(3) == 16777216);
    assert(pow256(4) == 4294967296);
    assert(pow256(5) == 1099511627776);
    assert(pow256(6) == 281474976710656);
    assert(pow256(7) == 72057594037927936);
    assert(pow256(8) == 18446744073709551616);
    assert(pow256(9) == 4722366482869645213696);
    assert(pow256(10) == 1208925819614629174706176);
    assert(pow256(11) == 309485009821345068724781056);
    assert(pow256(12) == 79228162514264337593543950336);
    assert(pow256(13) == 20282409603651670423947251286016);
    assert(pow256(14) == 5192296858534827628530496329220096);
    assert(pow256(15) == 1329227995784915872903807060280344576);
}

pub proof fn lemma_pow256_pos(k: nat)
    ensures
        1 <= pow256(k),
    decreases k,
{
    if k > 0 {
        lemma_pow256_pos((k - 1) as nat);
    }
}

pub proof fn lemma_pow256_mono(a: nat, b: nat)
    requires
        a <= b,
    ensures
        1 <= pow256(a) <= pow256(b),
    decreases b,
{
    lemma_pow256_pos(a);
    if a < b {
        lemma_pow256_mono(a, (b - 1) as nat);
    }
}

pub proof fn lemma_le_value_bound(p: Seq<u8>, i: int)
    requires
        0 <= i <= p.len(),
    ensures
        le_value(p, i) < pow256((p.len() - i) as nat),
    decreases p.len() - i,
{
    if i < p.len() {
        lemma_le_value_bound(p, i + 1);
        let rest = le_value(p, i + 1);
        let pw = pow256((p.len() - i - 1) as nat);
        assert(pow256((p.len() - i) as nat) == 256 * pw);
        let b = p[i] as nat;
        assert(b + 256 * rest < 256 * pw) by (nonlinear_arith)
            requires
                b < 256,
                rest < pw,
        ;
    }
}

proof fn lemma_digit(a: nat, x: nat, b: nat, y: nat)
    requires
        a < 256,
        b < 256,
        a + 256 * x == b + 256 * y,
    ensures
        a == b,
        x == y,
{
    assert(a == b && x == y) by (nonlinear_arith)
        requires
            a < 256,
            b < 256,
            a + 256 * x == b + 256 * y,
    ;
}

proof fn lemma_le_value_injective(p: Seq<u8>, q: Seq<u8>, i: int)
    requires
        p.len() == q.len(),
        0 <= i <= p.len(),
        le_value(p, i) == le_value(q, i),
    ensures
        p.subrange(i, p.len() as int) == q.subrange(i, q.len() as int),
    decreases p.len() - i,
{
    if i < p.len() {
        lemma_digit(p[i] as nat, le_value(p, i + 1), q[i] as nat, le_value(q, i + 1));
        lemma_le_value_injective(p, q, i + 1);
        assert(p.subrange(i, p.len() as int) =~= seq![p[i]] + p.subrange(i + 1, p.len() as int));
        assert(q.subrange(i, q.len() as int) =~= seq![q[i]] + q.subrange(i + 1, q.len() as int));
    } else {
        assert(p.subrange(i, p.len() as int) =~= q.subrange(i, q.len() as int));
    }
}

/// The packed key of a short pretoken fits in a `u128` and below `2^124`.
pub proof fn lemma_pack_key_range(p: Seq<u8>)
    requires
        p.len() <= 15,
    ensures
        0 <= pack_key_int(p) < 16 * len_weight(),
        pack_key_spec(p) as int == pack_key_int(p),
        le_value(p, 0) < len_weight(),
{
    lemma_le_value_bound(p, 0);
    lemma_pow256_mono(p.len(), 15);
    lemma_pow256_15();
    assert(p.len() * len_weight() <= 15 * len_weight()) by (nonlinear_arith)
        requires
            p.len() <= 15,
    ;
}

/// Different short pretokens have different packed keys.
pub proof fn lemma_pack_key_injective(p: Seq<u8>, q: Seq<u8>)
    requires
        p.len() <= 15,
        q.len() <= 15,
        pack_key_spec(p) == pack_key_spec(q),
    ensures
        p == q,
{
    lemma_pack_key_range(p);
    lemma_pack_key_range(q);
    let lp = le_value(p, 0);
    let lq = le_value(q, 0);
    let w = len_weight();
    assert(p.len() == q.len() && lp == lq) by (nonlinear_arith)
        requires
            lp < w,
            lq < w,
            lp + p.len() * w == lq + q.len() * w,
            w > 0,
    ;
    lemma_le_value_injective(p, q, 0);
    assert(p =~= p.subrange(0, p.len() as int));
    assert(q =~= q.subrange(0, q.len() as int));
}

/// The packed key of `bytes`, or `None` when it is longer than 15 bytes.
/// An empty pretoken packs to 0.
pub fn pack_pretoken_key(bytes: &[u8]) -> (r: Option<u128>)
    ensures
        r is None <==> bytes@.len() > 15,
        r matches Some(k) ==> k == pack_key_spec(bytes@),
{
    let n = bytes.len();
    if n > 15 {
        return None;
    }
    if n == 0 {
        proof {
            assert(le_value(bytes@, 0) == 0);
        }
        return Some(0);
    }
    let mut acc: u128 = 0;
    let mut i: usize = n;
    proof {
        lemma_pow256_mono((n - i) as nat, 15);
    }
    while i > 0
        invariant
            n == bytes@.len(),
            n <= 15,
            i <= n,
            acc as int == le_value(bytes@, i as int),
            acc < pow256((n - i) as nat),
        decreases i,
    {
        i -= 1;
        proof {
            lemma_pow256_mono((n - i) as nat, 15);
            lemma_pow256_15();
            let pw = pow256((n - i - 1) as nat);
            assert(pow256((n - i) as nat) == 256 * pw);
            let b = bytes@[i as int] as nat;
            assert(acc * 256 + b < 256 * pw) by (nonlinear_arith)
                requires
                    b < 256,
                    acc < pw,
            ;
        }
        acc = acc * 256 + bytes[i] as u128;
    }
    proof {
        lemma_pack_key_range(bytes@);
    }
    Some(acc + (n as u128) * 0x0100_0000_0000_0000_0000_0000_0000_0000u128)
}

/// The front-cache hash of a packed key: the two halves folded, then a
/// multiplicative mix.
pub open spec fn cache_hash_spec(key: u128) -> u64 {
    ((key as u64) ^ ((key >> 64u128) as u64)).wrapping_mul(0x9E37_79B9_7F4A_7C15u64)
}

pub fn pretoken_cache_hash(key: u128) -> (h: u64)
    ensures
        h == cache_hash_spec(key),
{
    let folded = (key as u64) ^ ((key >> 64u128) as u64);
    folded.wrapping_mul(0x9E37_79B9_7F4A_7C15u64)
}

/// Log2 of the number of front-cache entries.
pub const PRETOKEN_FRONT_BITS: u32 = 18;

/// The number of front-cache entries.
pub const PRETOKEN_FRONT_LEN: usize = 262144;

/// The front-cache slot of a hash: its top `PRETOKEN_FRONT_BITS` bits.
pub fn pretoken_front_index(hash: u64) -> (r: usize)
    ensures
        r == hash >> 46u64,
        r < PRETOKEN_FRONT_LEN,
{
    let r = hash >> 46u64;
    assert(hash >> 46u64 < 262144) by (bit_vector);
    r as usize
}

/// A front-cache entry: a packed key and the `(offset, len)` range of its
/// tokens in the arena, both split into 64-bit words.
#[derive(Clone, Copy, Debug)]
pub struct PretokenFrontEntry {
    key_lo: u64,
    key_hi: u64,
    value: u64,
}

impl Default for PretokenFrontEntry {
    /// The empty entry: it holds key 0 (the front cache's sentinel) with the
    /// range `(0, 0)`, so it answers no other key.
    fn default() -> (r: Self)
        ensures
            r.key_view() == 0,
            r.offset_view() == 0,
            r.len_view() == 0,
    {
        PretokenFrontEntry::empty()
    }
}

impl PretokenFrontEntry {
    /// The key it holds.
    pub closed spec fn key_view(&self) -> int {
        self.key_hi as int * 0x1_0000_0000_0000_0000 + self.key_lo as int
    }

    /// The arena offset it holds.
    pub closed spec fn offset_view(&self) -> u32 {
        (self.value % 0x1_0000_0000) as u32
    }

    /// The token count it holds.
    pub closed spec fn len_view(&self) -> u32 {
        (self.value / 0x1_0000_0000) as u32
    }

    /// The empty entry: key 0, range `(0, 0)`.
    pub fn empty() -> (r: Self)
        ensures
            r.key_view() == 0,
            r.offset_view() == 0,
            r.len_view() == 0,
    {
        PretokenFrontEntry { key_lo: 0, key_hi: 0, value: 0 }
    }

    pub fn new(key: u128, offset: u32, len: u32) -> (r: Self)
        ensures
            r.key_view() == key as int,
            r.offset_view() == offset,
            r.len_view() == len,
    {
        let key_lo = key as u64;
        let key_hi = (key >> 64u128) as u64;
        let value = offset as u64 | ((len as u64) << 32u64);
        assert(key_hi as int * 0x1_0000_0000_0000_0000 + key_lo as int == key as int) by {
            assert(key as u64 == key % 0x1_0000_0000_0000_0000 && (key >> 64u128) as u64 == key / 0x1_0000_0000_0000_0000)
                by (bit_vector);
        }
        assert(offset as u64 | ((len as u64) << 32u64) == offset as u64 + len as u64 * 0x1_0000_0000) by (bit_vector);
        PretokenFrontEntry { key_lo, key_hi, value }
    }

    /// The range held for `key`, if this entry holds `key`.
    pub fn get(self, key: u128) -> (r: Option<(u32, u32)>)
        ensures
            self.key_view() == key as int ==> r == Some((self.offset_view(), self.len_view())),
            self.key_view() != key as int ==> r is None,
    {
        let lo = key as u64;
        let hi = (key >> 64u128) as u64;
        assert(key as u64 == key % 0x1_0000_0000_0000_0000 && (key >> 64u128) as u64 == key / 0x1_0000_0000_0000_0000)
            by (bit_vector);
        if self.key_lo == lo && self.key_hi == hi {
            let v = self.value;
            assert(v as u32 == v % 0x1_0000_0000 && (v >> 32u64) as u32 == v / 0x1_0000_0000) by (bit_vector);
            Some((v as u32, (v >> 32u64) as u32))
        } else {
            assert(self.key_view() != key as int) by (nonlinear_arith)
                requires
                    self.key_lo != key % 0x1_0000_0000_0000_0000 || self.key_hi != key / 0x1_0000_0000_0000_0000,
                    self.key_lo < 0x1_0000_0000_0000_0000,
                    self.key_view() == self.key_hi as int * 0x1_0000_0000_0000_0000 + self.key_lo as int,
            ;
            None
        }
    }
}

} // verus!
