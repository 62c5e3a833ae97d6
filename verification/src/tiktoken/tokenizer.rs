//! The tokenizer: vocabulary, merge rules and byte remapping, with a
//! memoizing cache from pretokens to their encodings.
//!
//! Encoded tokens live in an append-only arena; each cache entry holds the
//! `(offset, len)` range of its pretoken's tokens there. Short pretokens are
//! keyed by their packed `u128`, with a direct-mapped front cache before the
//! authoritative map; longer ones are keyed by their bytes.
use vstd::prelude::*;
use std::collections::HashMap;
use aho_corasick::AhoCorasick;
use crate::token::TokenId;
use crate::bpe::{Merges, bpe, bpe_merge};
use crate::bytemap::{ByteMap, key_bytes, vec_capacity};
use crate::pretokenize::pretoken::Pretoken;
use crate::pretokenize::scalar::pretoken_bytes;
use crate::pretokenize::options::{PretokenizerType, has_pretokenizer, scheme_pretokens};
use crate::pretokenize::cl100k::{Cl100kPretokenizer, cl100k_pretokens, qwen2_pretokens};
use crate::tiktoken::key::{
    PretokenFrontEntry, pack_key_spec, pack_pretoken_key, pretoken_cache_hash, pretoken_front_index,
    lemma_pack_key_injective, le_value, PRETOKEN_FRONT_LEN,
};
use crate::tiktoken::added::{automaton_builds, occurs_at,
    automaton_patterns, automaton_is_leftmost_longest, first_match, longest_at, lemma_first_match,
    lemma_longest_at, build_leftmost_longest, find_leftmost_longest,
};
use crate::tiktoken::nfc::{nfc_bytes, nfc_segment, is_ascii_bytes};
use crate::pretokenize::pattern::pretokens_of;
use crate::pretokenize::state_machine::pretokenize_as_iter;
use crate::unicode::{valid_from, suffix, lemma_valid_range};
use crate::bytemap::bytes_eq;
use vstd::utf8::*;
use vstd::slice::slice_subrange;

verus! {

broadcast use vstd::std_specs::hash::group_hash_axioms;

/// The symbols a pretoken's merging starts from: each byte through the
/// remapping, or as its own value without one.
pub open spec fn initial_symbols(remap: Option<Seq<TokenId>>, p: Seq<u8>) -> Seq<TokenId> {
    match remap {
        Some(m) => Seq::new(p.len(), |i: int| m[p[i] as int]),
        None => Seq::new(p.len(), |i: int| TokenId(p[i] as u32)),
    }
}

/// The encoding of one pretoken.
pub open spec fn encode_pretoken(
    rules: Map<(u32, u32), (u32, u32)>,
    remap: Option<Seq<TokenId>>,
    p: Seq<u8>,
) -> Seq<TokenId> {
    bpe(rules, initial_symbols(remap, p))
}

/// The encodings of pretokens, one after the other.
pub open spec fn encode_pretokens(
    rules: Map<(u32, u32), (u32, u32)>,
    remap: Option<Seq<TokenId>>,
    ps: Seq<Seq<u8>>,
) -> Seq<TokenId>
    decreases ps.len(),
{
    if ps.len() == 0 {
        seq![]
    } else {
        encode_pretokens(rules, remap, ps.drop_last()) + encode_pretoken(rules, remap, ps.last())
    }
}

/// The pieces joined in order.
pub open spec fn join_pieces(p: Seq<Seq<TokenId>>) -> Seq<TokenId>
    decreases p.len(),
{
    if p.len() == 0 {
        seq![]
    } else {
        join_pieces(p.drop_last()) + p.last()
    }
}

/// Where each piece ends when the pieces are appended after `base` ids.
pub open spec fn piece_ends(base: int, p: Seq<Seq<TokenId>>) -> Seq<int>
    decreases p.len(),
{
    if p.len() == 0 {
        seq![]
    } else {
        piece_ends(base, p.drop_last()).push(base + join_pieces(p).len())
    }
}

/// The encoding of each pretoken, one piece per pretoken.
pub open spec fn pretoken_pieces(
    rules: Map<(u32, u32), (u32, u32)>,
    remap: Option<Seq<TokenId>>,
    ps: Seq<Seq<u8>>,
) -> Seq<Seq<TokenId>> {
    ps.map_values(|q: Seq<u8>| encode_pretoken(rules, remap, q))
}

/// Joining the pretokens' pieces gives their encoding.
pub proof fn lemma_join_pretoken_pieces(rules: Map<(u32, u32), (u32, u32)>, remap: Option<Seq<TokenId>>, ps: Seq<Seq<u8>>)
    ensures
        join_pieces(pretoken_pieces(rules, remap, ps)) == encode_pretokens(rules, remap, ps),
    decreases ps.len(),
{
    if ps.len() > 0 {
        lemma_join_pretoken_pieces(rules, remap, ps.drop_last());
        assert(pretoken_pieces(rules, remap, ps).drop_last() =~= pretoken_pieces(rules, remap, ps.drop_last()));
    }
}

/// Joining distributes over concatenation.
pub proof fn lemma_join_concat(a: Seq<Seq<TokenId>>, b: Seq<Seq<TokenId>>)
    ensures
        join_pieces(a + b) == join_pieces(a) + join_pieces(b),
    decreases b.len(),
{
    if b.len() == 0 {
        assert(a + b =~= a);
        assert(join_pieces(a) + join_pieces(b) =~= join_pieces(a));
    } else {
        lemma_join_concat(a, b.drop_last());
        assert((a + b).drop_last() =~= a + b.drop_last());
        assert(join_pieces(a) + join_pieces(b.drop_last()) + b.last() =~= join_pieces(a) + (join_pieces(b.drop_last())
            + b.last()));
    }
}

/// The ends of concatenated pieces: those of the first, then those of the
/// second shifted past the first.
pub proof fn lemma_ends_concat(base: int, a: Seq<Seq<TokenId>>, b: Seq<Seq<TokenId>>)
    ensures
        piece_ends(base, a + b) == piece_ends(base, a) + piece_ends(base + join_pieces(a).len(), b),
    decreases b.len(),
{
    if b.len() == 0 {
        assert(a + b =~= a);
        assert(piece_ends(base, a) + piece_ends(base + join_pieces(a).len(), b) =~= piece_ends(base, a));
    } else {
        lemma_ends_concat(base, a, b.drop_last());
        lemma_join_concat(a, b);
        assert((a + b).drop_last() =~= a + b.drop_last());
        assert(piece_ends(base, a + b) =~= piece_ends(base, a) + piece_ends(base + join_pieces(a).len(), b));
    }
}

/// Where piece `k` starts when the pieces are appended after `base` ids:
/// at `base` for the first, else where the one before it ends.
pub open spec fn piece_start(base: int, p: Seq<Seq<TokenId>>, k: int) -> int {
    if k == 0 {
        base
    } else {
        piece_ends(base, p)[k - 1]
    }
}

proof fn lemma_piece_ends_value(base: int, p: Seq<Seq<TokenId>>, k: int)
    requires
        0 <= k < p.len(),
    ensures
        piece_ends(base, p).len() == p.len(),
        piece_ends(base, p)[k] == base + join_pieces(p.take(k + 1)).len(),
    decreases p.len(),
{
    let d = p.drop_last();
    if k < d.len() {
        lemma_piece_ends_value(base, d, k);
        assert(d.take(k + 1) =~= p.take(k + 1));
    } else {
        if d.len() > 0 {
            lemma_piece_ends_value(base, d, 0);
        } else {
            assert(piece_ends(base, d) =~= Seq::<int>::empty());
        }
        assert(p.take(k + 1) =~= p);
    }
}

/// The ends mark the pieces: after `base`, the ids from where a piece
/// starts to where it ends are exactly that piece.
pub proof fn law_piece_ends_mark_pieces(base: Seq<TokenId>, p: Seq<Seq<TokenId>>, k: int)
    requires
        0 <= k < p.len(),
    ensures
        piece_ends(base.len() as int, p).len() == p.len(),
        (base + join_pieces(p)).subrange(piece_start(base.len() as int, p, k), piece_ends(base.len() as int, p)[k])
            == p[k],
{
    let b = base.len() as int;
    lemma_piece_ends_value(b, p, k);
    if k > 0 {
        lemma_piece_ends_value(b, p, k - 1);
    } else {
        assert(join_pieces(p.take(0)) =~= Seq::<TokenId>::empty());
    }
    let front = p.take(k);
    let rest = p.skip(k + 1);
    assert(p.take(k + 1) =~= front + seq![p[k]]);
    assert(p =~= p.take(k + 1) + rest);
    lemma_join_concat(front, seq![p[k]]);
    lemma_join_concat(p.take(k + 1), rest);
    let one = seq![p[k]];
    assert(one.drop_last() =~= Seq::<Seq<TokenId>>::empty());
    assert(join_pieces(one.drop_last()) =~= Seq::<TokenId>::empty());
    assert(one.last() == p[k]);
    assert(join_pieces(one) =~= p[k]);
    let all = base + join_pieces(p);
    assert(all =~= base + join_pieces(front) + p[k] + join_pieces(rest));
    assert(all.subrange(b + join_pieces(front).len(), b + join_pieces(front).len() + p[k].len()) =~= p[k]);
}

/// Whether `arena[offset..offset + len]` is `expect`.
pub open spec fn range_holds(arena: Seq<TokenId>, offset: u32, len: u32, expect: Seq<TokenId>) -> bool {
    offset + len <= arena.len() && arena.subrange(offset as int, offset + len) == expect
}

/// The rules of a list of `((a, b), merged)` pairs, ranked by the merged id;
/// a later pair for the same `(a, b)` replaces an earlier one.
pub open spec fn rules_of_list(l: Seq<((TokenId, TokenId), TokenId)>) -> Map<(u32, u32), (u32, u32)>
    decreases l.len(),
{
    if l.len() == 0 {
        Map::empty()
    } else {
        rules_of_list(l.drop_last()).insert((l.last().0.0.0, l.last().0.1.0), (l.last().1.0, l.last().1.0))
    }
}

/// The id of each token's bytes: the last index holding them.
pub open spec fn inverse_vocab(v: Seq<Seq<u8>>) -> Map<Seq<u8>, TokenId>
    decreases v.len(),
{
    if v.len() == 0 {
        Map::empty()
    } else {
        inverse_vocab(v.drop_last()).insert(v.last(), TokenId((v.len() - 1) as u32))
    }
}

/// Why a vocabulary in rank order cannot be loaded.
#[derive(Clone, Copy, Debug, PartialEq, Eq, Structural)]
pub enum TokenizerError {
    /// No token consists of this single byte.
    MissingByteToken(u8),
    /// The token at this index does not merge from exactly two earlier tokens.
    NotAMerge(usize),
}

/// The first byte of `t` from `j` on without a single-byte token.
pub open spec fn first_unknown_byte(inv: Map<Seq<u8>, TokenId>, t: Seq<u8>, j: int) -> Option<u8>
    decreases t.len() - j,
{
    if j < 0 || j >= t.len() {
        None
    } else if !inv.contains_key(seq![t[j]]) {
        Some(t[j])
    } else {
        first_unknown_byte(inv, t, j + 1)
    }
}

/// The symbols a rank-ordered token is split into: the id of each byte's
/// token, taken as a byte value.
pub open spec fn rank_symbols(inv: Map<Seq<u8>, TokenId>, t: Seq<u8>) -> Seq<TokenId> {
    Seq::new(t.len(), |j: int| TokenId((inv[seq![t[j]]].0 as u8) as u32))
}

/// The merge rules recovered from the first `n` tokens of a vocabulary in
/// rank order: each token of two or more bytes merges the two tokens that
/// the rules so far make of it, with its index as merged id and rank.
pub open spec fn ranks_rules(v: Seq<Seq<u8>>, n: int) -> Result<Map<(u32, u32), (u32, u32)>, TokenizerError>
    decreases n,
{
    if n <= 0 {
        Ok(Map::empty())
    } else {
        match ranks_rules(v, n - 1) {
            Err(e) => Err(e),
            Ok(r) => {
                let t = v[n - 1];
                let inv = inverse_vocab(v);
                if t.len() < 2 {
                    Ok(r)
                } else if first_unknown_byte(inv, t, 0) is Some {
                    Err(TokenizerError::MissingByteToken(first_unknown_byte(inv, t, 0)->0))
                } else {
                    let tk = bpe(r, rank_symbols(inv, t));
                    if tk.len() != 2 {
                        Err(TokenizerError::NotAMerge((n - 1) as usize))
                    } else {
                        Ok(r.insert((tk[0].0, tk[1].0), ((n - 1) as u32, (n - 1) as u32)))
                    }
                }
            },
        }
    }
}

/// The first byte value from `b` on without a single-byte token.
pub open spec fn first_unmapped_byte(inv: Map<Seq<u8>, TokenId>, b: int) -> Option<u8>
    decreases 256 - b,
{
    if b < 0 || b >= 256 {
        None
    } else if !inv.contains_key(seq![b as u8]) {
        Some(b as u8)
    } else {
        first_unmapped_byte(inv, b + 1)
    }
}

/// The remapping that the single-byte tokens give: none when byte `b` is
/// token `b` for every byte.
pub open spec fn remap_of(inv: Map<Seq<u8>, TokenId>) -> Result<Option<Seq<TokenId>>, TokenizerError> {
    match first_unmapped_byte(inv, 0) {
        Some(b) => Err(TokenizerError::MissingByteToken(b)),
        None => if forall|b: int| 0 <= b < 256 ==> #[trigger] inv[seq![b as u8]] == TokenId(b as u32) {
            Ok(None)
        } else {
            Ok(Some(Seq::new(256, |b: int| inv[seq![b as u8]])))
        },
    }
}

/// The bytes of `ids` decoded one token after the other.
pub open spec fn decode_ids(vocab: Seq<Seq<u8>>, ids: Seq<TokenId>) -> Seq<u8>
    decreases ids.len(),
{
    if ids.len() == 0 {
        seq![]
    } else {
        decode_ids(vocab, ids.drop_last()) + vocab[ids.last().0 as int]
    }
}

/// The `(id, bytes)` entries of the first `n` ids that have content.
pub open spec fn vocab_entries_upto(vocab: Seq<Seq<u8>>, n: int) -> Seq<(u32, Seq<u8>)>
    decreases n,
{
    if n <= 0 {
        seq![]
    } else if vocab[n - 1].len() == 0 {
        vocab_entries_upto(vocab, n - 1)
    } else {
        vocab_entries_upto(vocab, n - 1).push(((n - 1) as u32, vocab[n - 1]))
    }
}

/// The id of each byte value's token.
#[derive(Clone, Debug)]
pub struct ByteRemapping {
    pub mapping: Vec<TokenId>,
}

pub proof fn lemma_first_unmapped(inv: Map<Seq<u8>, TokenId>, a: int, b: int)
    requires
        0 <= a <= b <= 256,
        forall|j: int| a <= j < b ==> #[trigger] inv.contains_key(seq![j as u8]),
    ensures
        first_unmapped_byte(inv, a) == first_unmapped_byte(inv, b),
    decreases b - a,
{
    if a < b {
        assert(inv.contains_key(seq![a as u8]));
        lemma_first_unmapped(inv, a + 1, b);
    }
}

pub proof fn lemma_first_unknown(inv: Map<Seq<u8>, TokenId>, t: Seq<u8>, a: int, b: int)
    requires
        0 <= a <= b <= t.len(),
        forall|j: int| a <= j < b ==> #[trigger] inv.contains_key(seq![t[j]]),
    ensures
        first_unknown_byte(inv, t, a) == first_unknown_byte(inv, t, b),
    decreases b - a,
{
    if a < b {
        assert(inv.contains_key(seq![t[a]]));
        lemma_first_unknown(inv, t, a + 1, b);
    }
}

/// Once recovering the rules fails, it fails the same way on longer prefixes.
pub proof fn lemma_ranks_err(v: Seq<Seq<u8>>, k: int, n: int)
    requires
        0 <= k <= n,
        ranks_rules(v, k) is Err,
    ensures
        ranks_rules(v, n) == ranks_rules(v, k),
    decreases n - k,
{
    if k < n {
        lemma_ranks_err(v, k, n - 1);
    }
}

/// The map from each token's bytes to its id (the last index holding them).
pub fn vocab_inverse(vocab: &Vec<Vec<u8>>) -> (r: ByteMap<TokenId>)
    requires
        vocab@.len() <= u32::MAX,
    ensures
        r.wf(),
        r.map_view() == inverse_vocab(vocab@.map_values(|v: Vec<u8>| v@)),
{
    let ghost vv = vocab@.map_values(|v: Vec<u8>| v@);
    let mut m: ByteMap<TokenId> = ByteMap::new();
    let mut i: usize = 0;
    proof {
        assert(vv.take(0) =~= Seq::<Seq<u8>>::empty());
    }
    while i < vocab.len()
        invariant
            vocab@.len() <= u32::MAX,
            vv == vocab@.map_values(|v: Vec<u8>| v@),
            m.wf(),
            i <= vocab@.len(),
            m.map_view() == inverse_vocab(vv.take(i as int)),
        decreases vocab@.len() - i,
    {
        m.insert(vocab[i].as_slice(), TokenId(i as u32));
        proof {
            let t = vv.take(i + 1);
            assert(t.drop_last() =~= vv.take(i as int));
            assert(t.last() == vocab@[i as int]@);
        }
        i += 1;
    }
    proof {
        assert(vv.take(vocab@.len() as int) =~= vv);
    }
    m
}

/// A byte string of one byte.
fn one_byte(b: u8) -> (r: Vec<u8>)
    ensures
        r@ == seq![b],
{
    let mut v: Vec<u8> = Vec::new();
    v.push(b);
    assert(v@ =~= seq![b]);
    v
}

impl ByteRemapping {
    /// The remapping that the single-byte tokens of `inv` give: `None` when
    /// every byte is its own token id.
    pub fn from_vocab_inv(inv: &ByteMap<TokenId>) -> (r: Result<Option<ByteRemapping>, TokenizerError>)
        requires
            inv.wf(),
        ensures
            match remap_of(inv.map_view()) {
                Err(e) => r matches Err(e2) && e2 == e,
                Ok(None) => r matches Ok(None),
                Ok(Some(m)) => r matches Ok(Some(br)) && br.mapping@ == m,
            },
    {
        let ghost mv = inv.map_view();
        let mut mapping: Vec<TokenId> = Vec::new();
        let mut identity = true;
        let mut b: usize = 0;
        while b < 256
            invariant
                inv.wf(),
                mv == inv.map_view(),
                b <= 256,
                mapping@.len() == b,
                forall|j: int| 0 <= j < b ==> #[trigger] mv.contains_key(seq![j as u8]),
                forall|j: int| 0 <= j < b ==> #[trigger] mapping@[j] == mv[seq![j as u8]],
                identity == (forall|j: int| 0 <= j < b ==> #[trigger] mapping@[j] == TokenId(j as u32)),
            decreases 256 - b,
        {
            let one = one_byte(b as u8);
            match inv.get(one.as_slice()) {
                None => {
                    proof {
                        lemma_first_unmapped(mv, 0, b as int);
                    }
                    return Err(TokenizerError::MissingByteToken(b as u8));
                },
                Some(id) => {
                    let ghost prev_identity = identity;
                    let ghost old_map = mapping@;
                    mapping.push(*id);
                    if id.0 != b as u32 {
                        identity = false;
                    }
                    proof {
                        assert forall|j: int| 0 <= j < b implies mapping@[j] == old_map[j] by {}
                        if identity {
                            assert forall|j: int| 0 <= j < b + 1 implies #[trigger] mapping@[j] == TokenId(j as u32) by {
                                if j < b {
                                    assert(old_map[j] == TokenId(j as u32));
                                }
                            }
                        } else {
                            if prev_identity {
                                assert(mapping@[b as int] != TokenId(b as u32));
                            } else {
                                assert(!(forall|j: int| 0 <= j < b ==> #[trigger] old_map[j] == TokenId(j as u32)));
                                let j = choose|j: int| !(0 <= j < b ==> #[trigger] old_map[j] == TokenId(j as u32));
                                assert(mapping@[j] == old_map[j]);
                                assert(!(0 <= j < b + 1 ==> mapping@[j] == TokenId(j as u32)));
                            }
                        }
                    }
                },
            }
            b += 1;
        }
        proof {
            lemma_first_unmapped(mv, 0, 256);
        }
        if identity {
            proof {
                assert forall|j: int| 0 <= j < 256 implies #[trigger] mv[seq![j as u8]] == TokenId(j as u32) by {
                    assert(mapping@[j] == TokenId(j as u32));
                }
            }
            Ok(None)
        } else {
            proof {
                let j = choose|j: int| !(0 <= j < 256 ==> #[trigger] mapping@[j] == TokenId(j as u32));
                assert(mv[seq![j as u8]] != TokenId(j as u32));
                assert(mapping@ =~= Seq::new(256, |b: int| mv[seq![b as u8]]));
            }
            Ok(Some(ByteRemapping { mapping }))
        }
    }

    /// A copy of the remapping.
    pub fn copy(&self) -> (r: ByteRemapping)
        ensures
            r.mapping@ == self.mapping@,
    {
        ByteRemapping { mapping: vstd::slice::slice_to_vec(self.mapping.as_slice()) }
    }
}

/// A copy of a list of byte strings.
fn copy_byte_strings(v: &Vec<Vec<u8>>) -> (r: Vec<Vec<u8>>)
    ensures
        r@.map_values(|x: Vec<u8>| x@) == v@.map_values(|x: Vec<u8>| x@),
{
    let mut out: Vec<Vec<u8>> = Vec::new();
    let mut i: usize = 0;
    while i < v.len()
        invariant
            i <= v@.len(),
            out@.len() == i,
            forall|j: int| 0 <= j < i ==> #[trigger] out@[j]@ == v@[j]@,
        decreases v@.len() - i,
    {
        out.push(vstd::slice::slice_to_vec(v[i].as_slice()));
        i += 1;
    }
    assert(out@.map_values(|x: Vec<u8>| x@) =~= v@.map_values(|x: Vec<u8>| x@));
    out
}

/// A copy of a list of `(content, id)` pairs.
fn copy_pairs(v: &Vec<(Vec<u8>, TokenId)>) -> (r: Vec<(Vec<u8>, TokenId)>)
    ensures
        r@.map_values(|t: (Vec<u8>, TokenId)| (t.0@, t.1)) == v@.map_values(|t: (Vec<u8>, TokenId)| (t.0@, t.1)),
{
    let mut out: Vec<(Vec<u8>, TokenId)> = Vec::new();
    let mut i: usize = 0;
    while i < v.len()
        invariant
            i <= v@.len(),
            out@.len() == i,
            forall|j: int| 0 <= j < i ==> #[trigger] out@[j].0@ == v@[j].0@ && out@[j].1 == v@[j].1,
        decreases v@.len() - i,
    {
        out.push((vstd::slice::slice_to_vec(v[i].0.as_slice()), v[i].1));
        i += 1;
    }
    assert(out@.map_values(|t: (Vec<u8>, TokenId)| (t.0@, t.1)) =~= v@.map_values(
        |t: (Vec<u8>, TokenId)| (t.0@, t.1),
    ));
    out
}

/// The pairs whose content is nonempty, in order.
pub open spec fn nonempty_only(s: Seq<(Seq<u8>, TokenId)>) -> Seq<(Seq<u8>, TokenId)>
    decreases s.len(),
{
    if s.len() == 0 {
        seq![]
    } else if s.last().0.len() == 0 {
        nonempty_only(s.drop_last())
    } else {
        nonempty_only(s.drop_last()).push(s.last())
    }
}

/// The first position from `i` on whose content is shorter than `n`.
pub open spec fn first_shorter(s: Seq<(Seq<u8>, TokenId)>, n: nat, i: int) -> int
    decreases s.len() - i,
{
    if i < 0 || i >= s.len() {
        s.len() as int
    } else if s[i].0.len() < n {
        i
    } else {
        first_shorter(s, n, i + 1)
    }
}

pub proof fn lemma_first_shorter(s: Seq<(Seq<u8>, TokenId)>, n: nat, i: int)
    requires
        0 <= i <= s.len(),
    ensures
        i <= first_shorter(s, n, i) <= s.len(),
    decreases s.len() - i,
{
    if i < s.len() && s[i].0.len() >= n {
        lemma_first_shorter(s, n, i + 1);
    }
}

/// The contents of the pairs, in order.
pub open spec fn contents_of(s: Seq<(Seq<u8>, TokenId)>) -> Seq<Seq<u8>> {
    s.map_values(|t: (Seq<u8>, TokenId)| t.0)
}

/// The added tokens that setting `s` leaves: the nonempty ones, longest
/// first, when the matcher over them builds (or there are none); otherwise
/// none.
pub open spec fn registered_added(s: Seq<(Seq<u8>, TokenId)>) -> Seq<(Seq<u8>, TokenId)> {
    let want = sort_by_len_desc(nonempty_only(s));
    if want.len() == 0 || automaton_builds(contents_of(want)) {
        want
    } else {
        seq![]
    }
}

/// The pairs ordered by content length, longest first; pairs of equal
/// length keep their order (a stable sort).
pub open spec fn sort_by_len_desc(s: Seq<(Seq<u8>, TokenId)>) -> Seq<(Seq<u8>, TokenId)>
    decreases s.len(),
{
    if s.len() == 0 {
        seq![]
    } else {
        let sorted = sort_by_len_desc(s.drop_last());
        sorted.insert(first_shorter(sorted, s.last().0.len(), 0), s.last())
    }
}

pub proof fn lemma_sort_len(s: Seq<(Seq<u8>, TokenId)>)
    ensures
        sort_by_len_desc(s).len() == s.len(),
    decreases s.len(),
{
    if s.len() > 0 {
        lemma_sort_len(s.drop_last());
        lemma_first_shorter(sort_by_len_desc(s.drop_last()), s.last().0.len(), 0);
    }
}

/// What `nonempty_only` keeps: every pair it holds is a nonempty pair of
/// `s`, and every nonempty pair of `s` is among them.
pub proof fn lemma_nonempty_only_members(s: Seq<(Seq<u8>, TokenId)>)
    ensures
        forall|x: int| 0 <= x < nonempty_only(s).len() ==> #[trigger] s.contains(nonempty_only(s)[x])
            && nonempty_only(s)[x].0.len() > 0,
        forall|y: int| 0 <= y < s.len() && s[y].0.len() > 0 ==> nonempty_only(s).contains(#[trigger] s[y]),
    decreases s.len(),
{
    if s.len() > 0 {
        let d = s.drop_last();
        lemma_nonempty_only_members(d);
        let n = nonempty_only(s);
        let nd = nonempty_only(d);
        assert forall|x: int| 0 <= x < n.len() implies #[trigger] s.contains(n[x]) && n[x].0.len() > 0 by {
            if x < nd.len() {
                assert(n[x] == nd[x]);
                assert(d.contains(nd[x]));
                let y = choose|y: int| 0 <= y < d.len() && d[y] == nd[x];
                assert(s[y] == d[y]);
            } else {
                assert(n[x] == s.last());
                assert(s[s.len() - 1] == s.last());
            }
        }
        assert forall|y: int| 0 <= y < s.len() && s[y].0.len() > 0 implies n.contains(#[trigger] s[y]) by {
            if y < d.len() {
                assert(s[y] == d[y]);
                assert(nd.contains(d[y]));
                let x = choose|x: int| 0 <= x < nd.len() && nd[x] == d[y];
                assert(n[x] == nd[x]);
            } else {
                assert(n[n.len() - 1] == s.last());
            }
        }
    }
}

/// Sorting keeps the pairs: each sorted pair is one of `s`, and each pair of
/// `s` is among the sorted ones.
pub proof fn lemma_sort_members(s: Seq<(Seq<u8>, TokenId)>)
    ensures
        forall|x: int| 0 <= x < sort_by_len_desc(s).len() ==> s.contains(#[trigger] sort_by_len_desc(s)[x]),
        forall|y: int| 0 <= y < s.len() ==> sort_by_len_desc(s).contains(#[trigger] s[y]),
    decreases s.len(),
{
    if s.len() > 0 {
        let d = s.drop_last();
        lemma_sort_members(d);
        lemma_sort_len(d);
        let sd = sort_by_len_desc(d);
        let k = first_shorter(sd, s.last().0.len(), 0);
        lemma_first_shorter(sd, s.last().0.len(), 0);
        let ss = sort_by_len_desc(s);
        assert(ss == sd.insert(k, s.last()));
        assert forall|x: int| 0 <= x < ss.len() implies s.contains(#[trigger] ss[x]) by {
            if x < k {
                assert(ss[x] == sd[x]);
                assert(d.contains(sd[x]));
                let y = choose|y: int| 0 <= y < d.len() && d[y] == sd[x];
                assert(s[y] == d[y]);
            } else if x == k {
                assert(s[s.len() - 1] == s.last());
            } else {
                assert(ss[x] == sd[x - 1]);
                assert(d.contains(sd[x - 1]));
                let y = choose|y: int| 0 <= y < d.len() && d[y] == sd[x - 1];
                assert(s[y] == d[y]);
            }
        }
        assert forall|y: int| 0 <= y < s.len() implies ss.contains(#[trigger] s[y]) by {
            if y < d.len() {
                assert(s[y] == d[y]);
                assert(sd.contains(d[y]));
                let x = choose|x: int| 0 <= x < sd.len() && sd[x] == d[y];
                if x < k {
                    assert(ss[x] == sd[x]);
                } else {
                    assert(ss[x + 1] == sd[x]);
                }
            } else {
                assert(ss[k] == s.last());
            }
        }
    }
}

/// The first index from `j` on whose content is `c`.
pub open spec fn first_index_with(added: Seq<(Seq<u8>, TokenId)>, c: Seq<u8>, j: int) -> int
    decreases added.len() - j,
{
    if j < 0 || j >= added.len() {
        added.len() as int
    } else if added[j].0 == c {
        j
    } else {
        first_index_with(added, c, j + 1)
    }
}

/// The id of the first added token whose content is `c`.
pub open spec fn id_for_content(added: Seq<(Seq<u8>, TokenId)>, c: Seq<u8>) -> TokenId {
    added[first_index_with(added, c, 0)].1
}

pub proof fn lemma_first_index_with(added: Seq<(Seq<u8>, TokenId)>, c: Seq<u8>, j: int, k: int)
    requires
        0 <= j <= k < added.len(),
        added[k].0 == c,
    ensures
        j <= first_index_with(added, c, j) <= k,
        added[first_index_with(added, c, j)].0 == c,
        forall|x: int| j <= x < first_index_with(added, c, j) ==> #[trigger] added[x].0 != c,
    decreases k - j,
{
    if added[j].0 != c {
        lemma_first_index_with(added, c, j + 1, k);
    }
}

/// Valid UTF-8 followed by more bytes, valid as a whole, leaves the rest valid.
pub proof fn lemma_valid_prefix_rest(p: Seq<u8>, r: Seq<u8>)
    requires
        valid_utf8(p),
        valid_utf8(p + r),
    ensures
        valid_utf8(r),
    decreases p.len(),
{
    let q = p + r;
    if p.len() == 0 {
        assert(q =~= r);
    } else {
        assert forall|k: int| 0 <= k < p.len() implies q[k] == p[k] by {}
        let w = length_of_first_scalar(p);
        assert(length_of_first_scalar(q) == w);
        assert(valid_first_scalar(q) == valid_first_scalar(p));
        assert(pop_first_scalar(q) =~= pop_first_scalar(p) + r);
        lemma_valid_prefix_rest(pop_first_scalar(p), r);
    }
}

pub proof fn lemma_first_match_none(b: Seq<u8>, s: int)
    ensures
        first_match(Seq::<Seq<u8>>::empty(), b, s) is None,
    decreases b.len() + 1 - s,
{
    if 0 <= s <= b.len() {
        assert(longest_at(Seq::<Seq<u8>>::empty(), b, s, 0) == 0);
        lemma_first_match_none(b, s + 1);
    }
}

/// The vocabulary padded with empty entries to at least `n` ids.
pub open spec fn pad_vocab(v: Seq<Seq<u8>>, n: int) -> Seq<Seq<u8>> {
    if v.len() >= n {
        v
    } else {
        v + Seq::new((n - v.len()) as nat, |i: int| Seq::<u8>::empty())
    }
}

/// The `(merged, a, b)` triple of each listed pair.
pub open spec fn merge_triples(rules: Map<(u32, u32), (u32, u32)>, pairs: Seq<(TokenId, TokenId)>) -> Seq<(u32, u32, u32)> {
    pairs.map_values(|p: (TokenId, TokenId)| (rules[(p.0.0, p.1.0)].0, p.0.0, p.1.0))
}

/// The first position from `i` on whose merged id exceeds `m`.
pub open spec fn first_greater(s: Seq<(u32, u32, u32)>, m: u32, i: int) -> int
    decreases s.len() - i,
{
    if i < 0 || i >= s.len() {
        s.len() as int
    } else if s[i].0 > m {
        i
    } else {
        first_greater(s, m, i + 1)
    }
}

proof fn lemma_first_greater(s: Seq<(u32, u32, u32)>, m: u32, i: int)
    requires
        0 <= i <= s.len(),
    ensures
        i <= first_greater(s, m, i) <= s.len(),
        forall|x: int| i <= x < first_greater(s, m, i) ==> #[trigger] s[x].0 <= m,
        first_greater(s, m, i) < s.len() ==> s[first_greater(s, m, i)].0 > m,
    decreases s.len() - i,
{
    if i < s.len() && s[i].0 <= m {
        lemma_first_greater(s, m, i + 1);
    }
}

/// The triples ordered by merged id; equal ids keep their order.
pub open spec fn sort_by_merged(s: Seq<(u32, u32, u32)>) -> Seq<(u32, u32, u32)>
    decreases s.len(),
{
    if s.len() == 0 {
        seq![]
    } else {
        let sorted = sort_by_merged(s.drop_last());
        sorted.insert(first_greater(sorted, s.last().0, 0), s.last())
    }
}

/// `HashMap::capacity`: a lower bound on how many entries the map holds
/// without reallocating. It depends on the allocation history, so nothing is
/// stated of it.
#[verifier::external_body]
fn hash_map_capacity(m: &HashMap<u128, (u32, u32)>) -> usize {
    m.capacity()
}

/// Byte-level BPE tokenizer.
pub struct Tokenizer {
    merges: Merges,
    vocab: Vec<Vec<u8>>,
    vocab_inv: ByteMap<TokenId>,
    byte_remapping: Option<ByteRemapping>,
    token_arena: Vec<TokenId>,
    pretoken_cache: HashMap<u128, (u32, u32)>,
    cache_src: Ghost<Map<u128, Seq<u8>>>,
    pretoken_front: Vec<PretokenFrontEntry>,
    front_src: Ghost<Seq<Seq<u8>>>,
    pretoken_cache_long: ByteMap<(u32, u32)>,
    pretokenizer_type: PretokenizerType,
    added_tokens: Vec<(Vec<u8>, TokenId)>,
    added_matcher: Option<AhoCorasick>,
    normalize_nfc: bool,
}

impl Tokenizer {
    /// The merge rules: `(a, b) -> (merged, rank)`.
    pub closed spec fn rules(&self) -> Map<(u32, u32), (u32, u32)> {
        self.merges.rules()
    }

    /// The merged pairs, in the order their rules were added.
    pub closed spec fn pair_list(&self) -> Seq<(TokenId, TokenId)> {
        self.merges.pair_list()
    }

    /// The byte remapping, when there is one.
    pub closed spec fn remap(&self) -> Option<Seq<TokenId>> {
        match self.byte_remapping {
            Some(r) => Some(r.mapping@),
            None => None,
        }
    }

    /// The bytes of each token id.
    pub closed spec fn vocab_view(&self) -> Seq<Seq<u8>> {
        self.vocab@.map_values(|v: Vec<u8>| v@)
    }

    /// The id of each token's bytes.
    pub closed spec fn vocab_inv_view(&self) -> Map<Seq<u8>, TokenId> {
        self.vocab_inv.map_view()
    }

    /// The added tokens, longest contents first.
    pub closed spec fn added_view(&self) -> Seq<(Seq<u8>, TokenId)> {
        self.added_tokens@.map_values(|t: (Vec<u8>, TokenId)| (t.0@, t.1))
    }

    /// The contents of the added tokens.
    pub open spec fn added_contents(&self) -> Seq<Seq<u8>> {
        self.added_view().map_values(|t: (Seq<u8>, TokenId)| t.0)
    }

    pub closed spec fn pretokenizer_type_view(&self) -> PretokenizerType {
        self.pretokenizer_type
    }

    pub closed spec fn normalize_nfc_view(&self) -> bool {
        self.normalize_nfc
    }

    /// The authoritative cache of short pretokens, by packed key.
    pub closed spec fn short_cache_view(&self) -> Map<u128, (u32, u32)> {
        self.pretoken_cache@
    }

    /// The cache of long pretokens: bytes to token range in the arena.
    pub closed spec fn long_cache_view(&self) -> Map<Seq<u8>, (u32, u32)> {
        self.pretoken_cache_long.map_view()
    }

    /// The cache of long pretokens, by bytes.
    pub closed spec fn long_cache_entries(&self) -> Seq<(Seq<u8>, (u32, u32))> {
        self.pretoken_cache_long.entries()
    }

    /// The token arena the caches point into.
    pub closed spec fn arena_view(&self) -> Seq<TokenId> {
        self.token_arena@
    }

    /// The front cache.
    pub closed spec fn front_view(&self) -> Seq<PretokenFrontEntry> {
        self.pretoken_front@
    }

    /// The encoding of pretoken `p`.
    pub open spec fn encoding(&self, p: Seq<u8>) -> Seq<TokenId> {
        encode_pretoken(self.rules(), self.remap(), p)
    }

    /// Everything that encoding and decoding read, as opposed to the caches.
    pub open spec fn same_model(&self, other: &Tokenizer) -> bool {
        &&& self.rules() == other.rules()
        &&& self.remap() == other.remap()
        &&& self.vocab_view() == other.vocab_view()
        &&& self.vocab_inv_view() == other.vocab_inv_view()
        &&& self.added_view() == other.added_view()
        &&& self.pretokenizer_type_view() == other.pretokenizer_type_view()
        &&& self.normalize_nfc_view() == other.normalize_nfc_view()
    }

    /// The bytes a segment between added tokens is pretokenized from.
    pub open spec fn segment_text(&self, seg: Seq<u8>) -> Seq<u8> {
        if self.normalize_nfc_view() {
            nfc_bytes(seg)
        } else {
            seg
        }
    }

    /// The encoding of a segment between added tokens.
    pub open spec fn segment_encoding(&self, seg: Seq<u8>) -> Seq<TokenId> {
        encode_pretokens(
            self.rules(),
            self.remap(),
            scheme_pretokens(self.pretokenizer_type_view(), self.segment_text(seg)),
        )
    }

    /// The encoding of `b` from `pos` on: each leftmost-longest added-token
    /// occurrence gives the id of the first added token with that content,
    /// and the segments before, between and after them are pretokenized and
    /// merged.
    pub open spec fn added_encoding(&self, b: Seq<u8>, pos: int) -> Seq<TokenId>
        decreases b.len() - pos,
    {
        if pos < 0 || pos > b.len() {
            seq![]
        } else {
            match first_match(self.added_contents(), b, pos) {
                None => self.segment_encoding(b.subrange(pos, b.len() as int)),
                Some((s, e)) => if pos <= s && s < e && e <= b.len() {
                    self.segment_encoding(b.subrange(pos, s)) + seq![id_for_content(self.added_view(), b.subrange(s, e))]
                        + self.added_encoding(b, e)
                } else {
                    seq![]
                },
            }
        }
    }

    /// The encoding of a segment between added tokens, one piece per pretoken.
    pub open spec fn segment_pieces(&self, seg: Seq<u8>) -> Seq<Seq<TokenId>> {
        pretoken_pieces(
            self.rules(),
            self.remap(),
            scheme_pretokens(self.pretokenizer_type_view(), self.segment_text(seg)),
        )
    }

    /// The encoding of `b` from `pos` on in pieces: one per pretoken of each
    /// segment, and one holding the id of each added-token occurrence.
    pub open spec fn added_pieces(&self, b: Seq<u8>, pos: int) -> Seq<Seq<TokenId>>
        decreases b.len() - pos,
    {
        if pos < 0 || pos > b.len() {
            seq![]
        } else {
            match first_match(self.added_contents(), b, pos) {
                None => self.segment_pieces(b.subrange(pos, b.len() as int)),
                Some((s, e)) => if pos <= s && s < e && e <= b.len() {
                    self.segment_pieces(b.subrange(pos, s)) + seq![seq![id_for_content(self.added_view(), b.subrange(s, e))]]
                        + self.added_pieces(b, e)
                } else {
                    seq![]
                },
            }
        }
    }

    closed spec fn front_ok(&self, i: int) -> bool {
        let e = self.pretoken_front@[i];
        let p = self.front_src@[i];
        &&& p.len() <= 15
        &&& pack_key_spec(p) as int == e.key_view()
        &&& range_holds(self.token_arena@, e.offset_view(), e.len_view(), self.encoding(p))
    }

    closed spec fn short_ok(&self, k: u128) -> bool {
        let v = self.pretoken_cache@[k];
        let p = self.cache_src@[k];
        &&& self.cache_src@.contains_key(k)
        &&& p.len() <= 15
        &&& pack_key_spec(p) == k
        &&& range_holds(self.token_arena@, v.0, v.1, self.encoding(p))
    }

    closed spec fn long_ok(&self, k: Seq<u8>) -> bool {
        let v = self.pretoken_cache_long.map_view()[k];
        range_holds(self.token_arena@, v.0, v.1, self.encoding(k))
    }

    /// The added tokens are nonempty valid UTF-8, and the matcher holds
    /// exactly their contents.
    pub open spec fn added_ok(added: Seq<(Seq<u8>, TokenId)>) -> bool {
        forall|i: int| 0 <= i < added.len() ==> #[trigger] added[i].0.len() > 0 && vstd::utf8::valid_utf8(added[i].0)
    }

    pub closed spec fn wf(&self) -> bool {
        &&& self.merges.wf()
        &&& self.vocab_inv.wf()
        &&& self.pretoken_cache_long.wf()
        &&& (self.byte_remapping matches Some(r) ==> r.mapping@.len() == 256)
        &&& self.pretoken_front@.len() == PRETOKEN_FRONT_LEN
        &&& self.front_src@.len() == PRETOKEN_FRONT_LEN
        &&& forall|i: int| 0 <= i < PRETOKEN_FRONT_LEN ==> #[trigger] self.front_ok(i)
        &&& forall|k: u128| #[trigger] self.pretoken_cache@.contains_key(k) ==> self.short_ok(k)
        &&& forall|k: Seq<u8>| #[trigger] self.pretoken_cache_long.map_view().contains_key(k) ==> self.long_ok(k)
        &&& Self::added_ok(self.added_view())
        &&& (self.added_matcher is Some <==> self.added_tokens@.len() > 0)
        &&& (self.added_matcher matches Some(ac) ==> automaton_patterns(ac) == self.added_contents()
            && automaton_is_leftmost_longest(ac))
    }

    /// A tokenizer over the given model with empty caches, GPT-2
    /// pretokenization, no added tokens and no normalization.
    fn with_model(
        merges: Merges,
        vocab: Vec<Vec<u8>>,
        vocab_inv: ByteMap<TokenId>,
        byte_remapping: Option<ByteRemapping>,
    ) -> (r: Self)
        requires
            merges.wf(),
            vocab_inv.wf(),
            byte_remapping matches Some(m) ==> m.mapping@.len() == 256,
        ensures
            r.wf(),
            r.rules() == merges.rules(),
            r.remap() == (match byte_remapping {
                Some(m) => Some(m.mapping@),
                None => None,
            }),
            r.vocab_view() == vocab@.map_values(|v: Vec<u8>| v@),
            r.vocab_inv_view() == vocab_inv.map_view(),
            r.added_view().len() == 0,
            r.pretokenizer_type_view() == PretokenizerType::GPT2,
            !r.normalize_nfc_view(),
            r.short_cache_view() == Map::<u128, (u32, u32)>::empty(),
    {
        let mut front: Vec<PretokenFrontEntry> = Vec::new();
        let mut i: usize = 0;
        while i < PRETOKEN_FRONT_LEN
            invariant
                i <= PRETOKEN_FRONT_LEN,
                front@.len() == i,
                forall|j: int| 0 <= j < i ==> (#[trigger] front@[j]).key_view() == 0 && front@[j].offset_view()
                    == 0 && front@[j].len_view() == 0,
            decreases PRETOKEN_FRONT_LEN - i,
        {
            front.push(PretokenFrontEntry::empty());
            i += 1;
        }
        let long: ByteMap<(u32, u32)> = ByteMap::new();
        let r = Tokenizer {
            merges,
            vocab,
            vocab_inv,
            byte_remapping,
            token_arena: Vec::new(),
            pretoken_cache: HashMap::new(),
            cache_src: Ghost(Map::empty()),
            pretoken_front: front,
            front_src: Ghost(Seq::new(PRETOKEN_FRONT_LEN as nat, |j: int| Seq::<u8>::empty())),
            pretoken_cache_long: long,
            pretokenizer_type: PretokenizerType::GPT2,
            added_tokens: Vec::new(),
            added_matcher: None,
            normalize_nfc: false,
        };
        proof {
            assert forall|j: int| 0 <= j < PRETOKEN_FRONT_LEN implies #[trigger] r.front_ok(j) by {
                let p = r.front_src@[j];
                assert(p =~= Seq::<u8>::empty());
                assert(le_value(p, 0) == 0);
                assert(initial_symbols(r.remap(), p) =~= Seq::<TokenId>::empty());
                assert(r.token_arena@.subrange(0, 0) =~= Seq::<TokenId>::empty());
            }
            assert(r.added_view() =~= Seq::<(Seq<u8>, TokenId)>::empty());
            assert(r.short_cache_view() =~= Map::<u128, (u32, u32)>::empty());
        }
        r
    }

    /// Appends `arena[offset..offset + len]` to `out`.
    fn emit(&self, offset: u32, len: u32, out: &mut Vec<TokenId>)
        requires
            offset + len <= self.token_arena@.len(),
        ensures
            final(out)@ == old(out)@ + self.token_arena@.subrange(offset as int, offset + len),
    {
        let n = self.token_arena.len();
        let start = offset as usize;
        let end = start + len as usize;
        let mut i = start;
        let ghost base = out@;
        while i < end
            invariant
                start <= i <= end <= self.token_arena@.len(),
                out@ == base + self.token_arena@.subrange(start as int, i as int),
            decreases end - i,
        {
            out.push(self.token_arena[i]);
            proof {
                assert(self.token_arena@.subrange(start as int, i + 1) =~= self.token_arena@.subrange(
                    start as int,
                    i as int,
                ).push(self.token_arena@[i as int]));
            }
            i += 1;
        }
    }

    /// The symbols that `bytes` start from.
    fn initial(&self, bytes: &[u8]) -> (r: Vec<TokenId>)
        requires
            self.wf(),
        ensures
            r@ == initial_symbols(self.remap(), bytes@),
    {
        let mut out: Vec<TokenId> = Vec::new();
        let mut i: usize = 0;
        while i < bytes.len()
            invariant
                self.wf(),
                i <= bytes@.len(),
                out@ == initial_symbols(self.remap(), bytes@.subrange(0, i as int)),
            decreases bytes@.len() - i,
        {
            let t = match &self.byte_remapping {
                Some(br) => br.mapping[bytes[i] as usize],
                None => TokenId(bytes[i] as u32),
            };
            out.push(t);
            proof {
                assert(initial_symbols(self.remap(), bytes@.subrange(0, i + 1)) =~= initial_symbols(
                    self.remap(),
                    bytes@.subrange(0, i as int),
                ).push(t));
            }
            i += 1;
        }
        proof {
            assert(bytes@.subrange(0, bytes@.len() as int) =~= bytes@);
        }
        out
    }

    /// Points front-cache slot `idx` at `(offset, len)` for the pretoken `p`.
    fn set_front(&mut self, idx: usize, key: u128, offset: u32, len: u32, Ghost(p): Ghost<Seq<u8>>)
        requires
            old(self).wf(),
            idx < PRETOKEN_FRONT_LEN,
            p.len() <= 15,
            pack_key_spec(p) == key,
            range_holds(old(self).token_arena@, offset, len, old(self).encoding(p)),
        ensures
            final(self).wf(),
            final(self).same_model(old(self)),
            final(self).token_arena@ == old(self).token_arena@,
            final(self).short_cache_view() == old(self).short_cache_view(),
            final(self).front_view().len() == old(self).front_view().len(),
            final(self).front_view()[idx as int].key_view() == key as int,
            final(self).front_view()[idx as int].offset_view() == offset,
            final(self).front_view()[idx as int].len_view() == len,
            forall|j: int| 0 <= j < PRETOKEN_FRONT_LEN && j != idx ==> #[trigger] final(self).front_view()[j] == old(self).front_view()[j],
    {
        let e = PretokenFrontEntry::new(key, offset, len);
        self.pretoken_front.set(idx, e);
        self.front_src = Ghost(self.front_src@.update(idx as int, p));
        proof {
            assert forall|j: int| 0 <= j < PRETOKEN_FRONT_LEN implies #[trigger] self.front_ok(j) by {
                if j != idx {
                    assert(old(self).pretoken_front@[j] == self.pretoken_front@[j]);
                    assert(old(self).front_ok(j));
                } else {
                    assert(self.front_src@[j] == p);
                    assert(self.pretoken_front@[j] == e);
                    assert(p.len() <= 15);
                    assert(pack_key_spec(p) as int == e.key_view());
                    assert(range_holds(self.token_arena@, e.offset_view(), e.len_view(), self.encoding(p)));
                    assert(self.front_ok(j));
                }
            }
            assert forall|k: u128| #[trigger] self.pretoken_cache@.contains_key(k) implies self.short_ok(k) by {
                assert(old(self).short_ok(k));
            }
            assert forall|k: Seq<u8>| #[trigger] self.pretoken_cache_long.map_view().contains_key(k) implies self.long_ok(k) by {
                assert(old(self).long_ok(k));
            }
        }
    }

    /// Appends `tokens` to the arena; every cached range stays as it was.
    fn append_arena(&mut self, tokens: &Vec<TokenId>)
        requires
            old(self).wf(),
        ensures
            final(self).wf(),
            final(self).same_model(old(self)),
            final(self).token_arena@ == old(self).token_arena@ + tokens@,
            final(self).short_cache_view() == old(self).short_cache_view(),
            final(self).front_view() == old(self).front_view(),
    {
        let mut i: usize = 0;
        let ghost a0 = self.token_arena@;
        while i < tokens.len()
            invariant
                i <= tokens@.len(),
                self.token_arena@ == a0 + tokens@.subrange(0, i as int),
                self.merges == old(self).merges,
                self.vocab == old(self).vocab,
                self.vocab_inv == old(self).vocab_inv,
                self.byte_remapping == old(self).byte_remapping,
                self.pretoken_cache == old(self).pretoken_cache,
                self.cache_src == old(self).cache_src,
                self.pretoken_front == old(self).pretoken_front,
                self.front_src == old(self).front_src,
                self.pretoken_cache_long == old(self).pretoken_cache_long,
                self.pretokenizer_type == old(self).pretokenizer_type,
                self.added_tokens == old(self).added_tokens,
                self.added_matcher == old(self).added_matcher,
                self.normalize_nfc == old(self).normalize_nfc,
                a0 == old(self).token_arena@,
            decreases tokens@.len() - i,
        {
            self.token_arena.push(tokens[i]);
            proof {
                assert(tokens@.subrange(0, i + 1) =~= tokens@.subrange(0, i as int).push(tokens@[i as int]));
            }
            i += 1;
        }
        proof {
            assert(tokens@.subrange(0, tokens@.len() as int) =~= tokens@);
            let a = self.token_arena@;
            assert forall|j: int| 0 <= j < PRETOKEN_FRONT_LEN implies #[trigger] self.front_ok(j) by {
                assert(old(self).front_ok(j));
                let e = self.pretoken_front@[j];
                assert(a.subrange(e.offset_view() as int, e.offset_view() + e.len_view()) =~= a0.subrange(
                    e.offset_view() as int,
                    e.offset_view() + e.len_view(),
                ));
            }
            assert forall|k: u128| #[trigger] self.pretoken_cache@.contains_key(k) implies self.short_ok(k) by {
                assert(old(self).short_ok(k));
                let v = self.pretoken_cache@[k];
                assert(a.subrange(v.0 as int, v.0 + v.1) =~= a0.subrange(v.0 as int, v.0 + v.1));
            }
            assert forall|k: Seq<u8>| #[trigger] self.pretoken_cache_long.map_view().contains_key(k) implies self.long_ok(k) by {
                assert(old(self).long_ok(k));
                let v = self.pretoken_cache_long.map_view()[k];
                assert(a.subrange(v.0 as int, v.0 + v.1) =~= a0.subrange(v.0 as int, v.0 + v.1));
            }
        }
    }

    /// Records `(offset, len)` as the range of the short pretoken `p` of key `key`.
    fn cache_short(&mut self, key: u128, offset: u32, len: u32, Ghost(p): Ghost<Seq<u8>>)
        requires
            old(self).wf(),
            p.len() <= 15,
            pack_key_spec(p) == key,
            range_holds(old(self).token_arena@, offset, len, old(self).encoding(p)),
        ensures
            final(self).wf(),
            final(self).same_model(old(self)),
            final(self).token_arena@ == old(self).token_arena@,
            final(self).short_cache_view() == old(self).short_cache_view().insert(key, (offset, len)),
            final(self).front_view() == old(self).front_view(),
    {
        self.pretoken_cache.insert(key, (offset, len));
        self.cache_src = Ghost(self.cache_src@.insert(key, p));
        proof {
            assert forall|j: int| 0 <= j < PRETOKEN_FRONT_LEN implies #[trigger] self.front_ok(j) by {
                assert(old(self).front_ok(j));
            }
            assert forall|k: u128| #[trigger] self.pretoken_cache@.contains_key(k) implies self.short_ok(k) by {
                if k != key {
                    assert(old(self).short_ok(k));
                }
            }
            assert forall|k: Seq<u8>| #[trigger] self.pretoken_cache_long.map_view().contains_key(k) implies self.long_ok(k) by {
                assert(old(self).long_ok(k));
            }
        }
    }

    /// Records `(offset, len)` as the range of the long pretoken `bytes`.
    fn cache_long(&mut self, bytes: &[u8], offset: u32, len: u32)
        requires
            old(self).wf(),
            range_holds(old(self).token_arena@, offset, len, old(self).encoding(bytes@)),
        ensures
            final(self).wf(),
            final(self).same_model(old(self)),
            final(self).token_arena@ == old(self).token_arena@,
            final(self).short_cache_view() == old(self).short_cache_view(),
            final(self).front_view() == old(self).front_view(),
            final(self).long_cache_view() == old(self).long_cache_view().insert(bytes@, (offset, len)),
    {
        self.pretoken_cache_long.insert(bytes, (offset, len));
        proof {
            assert forall|j: int| 0 <= j < PRETOKEN_FRONT_LEN implies #[trigger] self.front_ok(j) by {
                assert(old(self).front_ok(j));
            }
            assert forall|k: u128| #[trigger] self.pretoken_cache@.contains_key(k) implies self.short_ok(k) by {
                assert(old(self).short_ok(k));
            }
            assert forall|k: Seq<u8>| #[trigger] self.pretoken_cache_long.map_view().contains_key(k) implies self.long_ok(k) by {
                if k != bytes@ {
                    assert(old(self).long_ok(k));
                }
            }
        }
    }

    /// Appends the encoding of one pretoken to `out`: from the front cache,
    /// else from the authoritative caches (refreshing the front entry), else
    /// by merging, recording the result in the caches.
    fn encode_one(&mut self, bytes: &[u8], out: &mut Vec<TokenId>)
        requires
            old(self).wf(),
        ensures
            final(self).wf(),
            final(self).same_model(old(self)),
            final(out)@ == old(out)@ + old(self).encoding(bytes@),
    {
        let key = pack_pretoken_key(bytes);
        // Key 0 (the empty pretoken) is the front cache's empty sentinel.
        let mut front_key: u128 = 0;
        if let Some(k) = key {
            front_key = k;
        }
        let mut front_idx: usize = 0;
        if front_key != 0 {
            let h = pretoken_cache_hash(front_key);
            front_idx = pretoken_front_index(h);
            let e = self.pretoken_front[front_idx];
            if let Some((o, l)) = e.get(front_key) {
                proof {
                    assert(self.front_ok(front_idx as int));
                    lemma_pack_key_injective(self.front_src@[front_idx as int], bytes@);
                }
                self.emit(o, l, out);
                return;
            }
        }
        let cached: Option<(u32, u32)> = match key {
            Some(k) => match self.pretoken_cache.get(&k) {
                Some(v) => Some(*v),
                None => None,
            },
            None => match self.pretoken_cache_long.get(bytes) {
                Some(v) => Some(*v),
                None => None,
            },
        };
        match cached {
            Some((o, l)) => {
                proof {
                    match key {
                        Some(k) => {
                            assert(self.short_ok(k));
                            lemma_pack_key_injective(self.cache_src@[k], bytes@);
                        },
                        None => {
                            assert(self.long_ok(bytes@));
                        },
                    }
                }
                if front_key != 0 {
                    self.set_front(front_idx, front_key, o, l, Ghost(bytes@));
                }
                self.emit(o, l, out);
            },
            None => {
                let mut symbols = self.initial(bytes);
                bpe_merge(&mut symbols, &self.merges);
                let n = self.token_arena.len();
                let len = symbols.len();
                // The arena is indexed by `u32`: past that, results are no longer cached.
                if n <= 0xFFFF_FFFFusize && len <= 0xFFFF_FFFFusize - n {
                    let offset = n as u32;
                    let l = len as u32;
                    let ghost arena0 = self.token_arena@;
                    self.append_arena(&symbols);
                    proof {
                        assert(self.token_arena@.subrange(offset as int, offset + l) =~= symbols@);
                    }
                    match key {
                        Some(k) => {
                            self.cache_short(k, offset, l, Ghost(bytes@));
                            if front_key != 0 {
                                self.set_front(front_idx, front_key, offset, l, Ghost(bytes@));
                            }
                        },
                        None => {
                            self.cache_long(bytes, offset, l);
                        },
                    }
                }
                out.append(&mut symbols);
            },
        }
    }

    /// Encodes each pretoken in turn, appending the tokens to `out`.
    /// Encodings are memoized: a pretoken seen before is served from the cache.
    pub fn memoized_encode(&mut self, pretokens: &[Pretoken<'_>], out: &mut Vec<TokenId>)
        requires
            old(self).wf(),
        ensures
            final(self).wf(),
            final(self).same_model(old(self)),
            final(out)@ == old(out)@ + encode_pretokens(old(self).rules(), old(self).remap(), pretoken_bytes(pretokens@)),
    {
        let mut ends: Vec<usize> = Vec::new();
        self.memoized_encode_pieces(pretokens, out, &mut ends);
        proof {
            lemma_join_pretoken_pieces(self.rules(), self.remap(), pretoken_bytes(pretokens@));
        }
    }

    /// Like `memoized_encode`, and records in `ends` where each pretoken's
    /// tokens end in `out`: the pieces `out[start..end]` are the pretokens'
    /// encodings, one after the other (see `law_piece_ends_mark_pieces`).
    pub fn memoized_encode_pieces(&mut self, pretokens: &[Pretoken<'_>], out: &mut Vec<TokenId>, ends: &mut Vec<usize>)
        requires
            old(self).wf(),
        ensures
            final(self).wf(),
            final(self).same_model(old(self)),
            final(out)@ == old(out)@ + join_pieces(
                pretoken_pieces(old(self).rules(), old(self).remap(), pretoken_bytes(pretokens@)),
            ),
            final(ends)@.map_values(|e: usize| e as int) == old(ends)@.map_values(|e: usize| e as int) + piece_ends(
                old(out)@.len() as int,
                pretoken_pieces(old(self).rules(), old(self).remap(), pretoken_bytes(pretokens@)),
            ),
    {
        let ghost ps = pretoken_bytes(pretokens@);
        let ghost pp = pretoken_pieces(self.rules(), self.remap(), ps);
        let ghost base = out@;
        let ghost ends0 = ends@.map_values(|e: usize| e as int);
        let mut i: usize = 0;
        proof {
            assert(pp.take(0) =~= Seq::<Seq<TokenId>>::empty());
            assert(join_pieces(pp.take(0)) =~= Seq::<TokenId>::empty());
            assert(ends@.map_values(|e: usize| e as int) =~= ends0 + piece_ends(base.len() as int, pp.take(0)));
        }
        while i < pretokens.len()
            invariant
                self.wf(),
                self.same_model(old(self)),
                i <= pretokens@.len(),
                ps == pretoken_bytes(pretokens@),
                pp == pretoken_pieces(self.rules(), self.remap(), ps),
                pp.len() == ps.len(),
                ps.len() == pretokens@.len(),
                out@ == base + join_pieces(pp.take(i as int)),
                ends@.map_values(|e: usize| e as int) == ends0 + piece_ends(base.len() as int, pp.take(i as int)),
            decreases pretokens@.len() - i,
        {
            let bytes = pretokens[i].0;
            self.encode_one(bytes, out);
            let n = out.len();
            let ghost e0 = ends@;
            ends.push(n);
            proof {
                let t = pp.take(i + 1);
                assert(t.drop_last() =~= pp.take(i as int));
                assert(ps[i as int] == bytes@);
                assert(t.last() == pp[i as int]);
                assert(out@ =~= base + join_pieces(t));
                assert(ends@.map_values(|e: usize| e as int) =~= e0.map_values(|e: usize| e as int).push(n as int));
                assert(ends@.map_values(|e: usize| e as int) =~= ends0 + piece_ends(base.len() as int, t));
            }
            i += 1;
        }
        proof {
            assert(pp.take(pretokens@.len() as int) =~= pp);
        }
    }

    /// A tokenizer over merge rules `((a, b), merged)` (ranked by the merged
    /// id; a later rule for the same pair wins), the bytes of each token id,
    /// and an optional byte remapping.
    pub fn new(
        merges: Vec<((TokenId, TokenId), TokenId)>,
        vocab: Vec<Vec<u8>>,
        byte_remapping: Option<ByteRemapping>,
    ) -> (r: Self)
        requires
            vocab@.len() <= u32::MAX,
            byte_remapping matches Some(m) ==> m.mapping@.len() == 256,
        ensures
            r.wf(),
            r.rules() == rules_of_list(merges@),
            r.remap() == (match byte_remapping {
                Some(m) => Some(m.mapping@),
                None => None,
            }),
            r.vocab_view() == vocab@.map_values(|v: Vec<u8>| v@),
            r.vocab_inv_view() == inverse_vocab(vocab@.map_values(|v: Vec<u8>| v@)),
            r.added_view().len() == 0,
            r.pretokenizer_type_view() == PretokenizerType::GPT2,
            !r.normalize_nfc_view(),
    {
        let mut m = Merges::new();
        let mut i: usize = 0;
        proof {
            assert(merges@.take(0) =~= Seq::<((TokenId, TokenId), TokenId)>::empty());
        }
        while i < merges.len()
            invariant
                m.wf(),
                i <= merges@.len(),
                m.rules() == rules_of_list(merges@.take(i as int)),
            decreases merges@.len() - i,
        {
            let ((a, b), merged) = merges[i];
            m.insert(a, b, merged, merged.0);
            proof {
                let t = merges@.take(i + 1);
                assert(t.drop_last() =~= merges@.take(i as int));
                assert(t.last() == merges@[i as int]);
            }
            i += 1;
        }
        proof {
            assert(merges@.take(merges@.len() as int) =~= merges@);
        }
        let inv = vocab_inverse(&vocab);
        Tokenizer::with_model(m, vocab, inv, byte_remapping)
    }

    /// Rebuilds the merge rules of a vocabulary listed in rank order (the
    /// tiktoken format): each token of two or more bytes is the merge of the
    /// two tokens that the earlier rules make of it.
    pub fn from_ranks(vocab: Vec<Vec<u8>>) -> (r: Result<Self, TokenizerError>)
        requires
            vocab@.len() <= u32::MAX,
        ensures
            ({
                let vv = vocab@.map_values(|v: Vec<u8>| v@);
                match ranks_rules(vv, vv.len() as int) {
                    Err(e) => r matches Err(e2) && e2 == e,
                    Ok(rules) => match remap_of(inverse_vocab(vv)) {
                        Err(e) => r matches Err(e2) && e2 == e,
                        Ok(m) => r matches Ok(t) && {
                            &&& t.wf()
                            &&& t.rules() == rules
                            &&& t.remap() == m
                            &&& t.vocab_view() == vv
                            &&& t.vocab_inv_view() == inverse_vocab(vv)
                            &&& t.added_view().len() == 0
                            &&& t.pretokenizer_type_view() == PretokenizerType::GPT2
                            &&& !t.normalize_nfc_view()
                        },
                    },
                }
            }),
    {
        let ghost vv = vocab@.map_values(|v: Vec<u8>| v@);
        let inv = vocab_inverse(&vocab);
        let ghost iv = inv.map_view();
        let mut merges = Merges::new();
        let mut idx: usize = 0;
        while idx < vocab.len()
            invariant
                vv == vocab@.map_values(|v: Vec<u8>| v@),
                vocab@.len() <= u32::MAX,
                inv.wf(),
                iv == inv.map_view(),
                iv == inverse_vocab(vv),
                merges.wf(),
                idx <= vocab@.len(),
                ranks_rules(vv, idx as int) == Ok::<Map<(u32, u32), (u32, u32)>, TokenizerError>(merges.rules()),
            decreases vocab@.len() - idx,
        {
            let t = vocab[idx].as_slice();
            assert(t@ == vv[idx as int]);
            if t.len() >= 2 {
                let mut syms: Vec<TokenId> = Vec::new();
                let mut j: usize = 0;
                while j < t.len()
                    invariant
                        inv.wf(),
                        iv == inv.map_view(),
                        iv == inverse_vocab(vv),
                        vv == vocab@.map_values(|v: Vec<u8>| v@),
                        vv.len() == vocab@.len(),
                        idx < vv.len(),
                        t@ == vv[idx as int],
                        t@.len() >= 2,
                        merges.wf(),
                        ranks_rules(vv, idx as int) == Ok::<Map<(u32, u32), (u32, u32)>, TokenizerError>(merges.rules()),
                        j <= t@.len(),
                        forall|x: int| 0 <= x < j ==> #[trigger] iv.contains_key(seq![t@[x]]),
                        syms@ == rank_symbols(iv, t@.subrange(0, j as int)),
                    decreases t@.len() - j,
                {
                    let one = one_byte(t[j]);
                    match inv.get(one.as_slice()) {
                        None => {
                            proof {
                                lemma_first_unknown(iv, t@, 0, j as int);
                                assert(ranks_rules(vv, idx + 1) == Err::<Map<(u32, u32), (u32, u32)>, TokenizerError>(
                                    TokenizerError::MissingByteToken(t@[j as int]),
                                ));
                                lemma_ranks_err(vv, idx + 1, vv.len() as int);
                                assert(ranks_rules(vv, vv.len() as int) == Err::<Map<(u32, u32), (u32, u32)>, TokenizerError>(
                                    TokenizerError::MissingByteToken(t@[j as int]),
                                ));
                            }
                            let b = t[j];
                            return Err(TokenizerError::MissingByteToken(b));
                        },
                        Some(id) => {
                            syms.push(TokenId((#[verifier::truncate] (id.0 as u8)) as u32));
                            proof {
                                assert(syms@ =~= rank_symbols(iv, t@.subrange(0, j + 1)));
                            }
                        },
                    }
                    j += 1;
                }
                proof {
                    assert(t@.subrange(0, t@.len() as int) =~= t@);
                    lemma_first_unknown(iv, t@, 0, t@.len() as int);
                }
                bpe_merge(&mut syms, &merges);
                if syms.len() != 2 {
                    proof {
                        lemma_ranks_err(vv, idx + 1, vv.len() as int);
                    }
                    return Err(TokenizerError::NotAMerge(idx));
                }
                merges.insert(syms[0], syms[1], TokenId(idx as u32), idx as u32);
            }
            idx += 1;
        }
        proof {
            assert(vv.len() == vocab@.len());
        }
        let remap = match ByteRemapping::from_vocab_inv(&inv) {
            Err(e) => {
                return Err(e);
            },
            Ok(m) => m,
        };
        Ok(Tokenizer::with_model(merges, vocab, inv, remap))
    }

    /// A tokenizer with the same model and settings and empty caches, for
    /// another thread.
    pub fn fork(&self) -> (r: Tokenizer)
        requires
            self.wf(),
        ensures
            r.wf(),
            r.same_model(self),
            r.short_cache_view() == Map::<u128, (u32, u32)>::empty(),
    {
        let remap = match &self.byte_remapping {
            Some(b) => Some(b.copy()),
            None => None,
        };
        let mut t = Tokenizer::with_model(
            self.merges.copy(),
            copy_byte_strings(&self.vocab),
            self.vocab_inv.copy(),
            remap,
        );
        let ghost t0 = t;
        t.pretokenizer_type = self.pretokenizer_type;
        t.normalize_nfc = self.normalize_nfc;
        t.added_tokens = copy_pairs(&self.added_tokens);
        t.added_matcher = match &self.added_matcher {
            Some(ac) => Some(crate::tiktoken::added::clone_automaton(ac)),
            None => None,
        };
        proof {
            assert(t.added_view() == self.added_view());
            assert(t.added_contents() =~= self.added_contents());
            assert forall|j: int| 0 <= j < PRETOKEN_FRONT_LEN implies #[trigger] t.front_ok(j) by {
                assert(t0.front_ok(j));
            }
            assert forall|k: Seq<u8>| #[trigger] t.pretoken_cache_long.map_view().contains_key(k) implies t.long_ok(k) by {
                assert(t0.long_ok(k));
            }
        }
        t
    }

    pub fn set_pretokenizer_type(&mut self, pretokenizer_type: PretokenizerType)
        requires
            old(self).wf(),
        ensures
            final(self).wf(),
            final(self).pretokenizer_type_view() == pretokenizer_type,
            final(self).rules() == old(self).rules(),
            final(self).remap() == old(self).remap(),
            final(self).vocab_view() == old(self).vocab_view(),
            final(self).vocab_inv_view() == old(self).vocab_inv_view(),
            final(self).added_view() == old(self).added_view(),
            final(self).normalize_nfc_view() == old(self).normalize_nfc_view(),
    {
        self.pretokenizer_type = pretokenizer_type;
        proof {
            assert forall|j: int| 0 <= j < PRETOKEN_FRONT_LEN implies #[trigger] self.front_ok(j) by {
                assert(old(self).front_ok(j));
            }
            assert forall|k: u128| #[trigger] self.pretoken_cache@.contains_key(k) implies self.short_ok(k) by {
                assert(old(self).short_ok(k));
            }
            assert forall|k: Seq<u8>| #[trigger] self.pretoken_cache_long.map_view().contains_key(k) implies self.long_ok(k) by {
                assert(old(self).long_ok(k));
            }
        }
    }

    pub fn pretokenizer_type(&self) -> (r: PretokenizerType)
        ensures
            r == self.pretokenizer_type_view(),
    {
        self.pretokenizer_type
    }

    /// Turns NFC normalization of the text between added tokens on or off.
    pub fn set_normalize_nfc(&mut self, normalize_nfc: bool)
        requires
            old(self).wf(),
        ensures
            final(self).wf(),
            final(self).normalize_nfc_view() == normalize_nfc,
            final(self).rules() == old(self).rules(),
            final(self).remap() == old(self).remap(),
            final(self).vocab_view() == old(self).vocab_view(),
            final(self).vocab_inv_view() == old(self).vocab_inv_view(),
            final(self).added_view() == old(self).added_view(),
            final(self).pretokenizer_type_view() == old(self).pretokenizer_type_view(),
    {
        self.normalize_nfc = normalize_nfc;
        proof {
            assert forall|j: int| 0 <= j < PRETOKEN_FRONT_LEN implies #[trigger] self.front_ok(j) by {
                assert(old(self).front_ok(j));
            }
            assert forall|k: u128| #[trigger] self.pretoken_cache@.contains_key(k) implies self.short_ok(k) by {
                assert(old(self).short_ok(k));
            }
            assert forall|k: Seq<u8>| #[trigger] self.pretoken_cache_long.map_view().contains_key(k) implies self.long_ok(k) by {
                assert(old(self).long_ok(k));
            }
        }
    }

    /// One more than the largest token id, added tokens included.
    pub fn vocab_size(&self) -> (r: usize)
        ensures
            r == self.vocab_view().len(),
    {
        self.vocab.len()
    }

    /// The `(id, bytes)` entries in id order, skipping ids without content.
    pub fn vocab_entries(&self) -> (r: Vec<(u32, &[u8])>)
        requires
            self.vocab_view().len() <= u32::MAX,
        ensures
            r@.map_values(|e: (u32, &[u8])| (e.0, e.1@)) == vocab_entries_upto(self.vocab_view(), self.vocab_view().len() as int),
    {
        let mut out: Vec<(u32, &[u8])> = Vec::new();
        let mut i: usize = 0;
        while i < self.vocab.len()
            invariant
                self.vocab_view().len() <= u32::MAX,
                i <= self.vocab@.len(),
                out@.map_values(|e: (u32, &[u8])| (e.0, e.1@)) == vocab_entries_upto(self.vocab_view(), i as int),
            decreases self.vocab@.len() - i,
        {
            let ghost before = out@;
            if self.vocab[i].len() > 0 {
                out.push((i as u32, self.vocab[i].as_slice()));
                proof {
                    assert(out@.map_values(|e: (u32, &[u8])| (e.0, e.1@)) =~= before.map_values(
                        |e: (u32, &[u8])| (e.0, e.1@),
                    ).push((i as u32, self.vocab_view()[i as int])));
                }
            }
            i += 1;
        }
        out
    }

    /// The bytes of `ids`, token after token.
    pub fn decode(&self, ids: &[TokenId]) -> (r: Vec<u8>)
        requires
            forall|i: int| 0 <= i < ids@.len() ==> (#[trigger] ids@[i]).0 < self.vocab_view().len(),
        ensures
            r@ == decode_ids(self.vocab_view(), ids@),
    {
        let mut out: Vec<u8> = Vec::new();
        let mut i: usize = 0;
        while i < ids.len()
            invariant
                forall|x: int| 0 <= x < ids@.len() ==> (#[trigger] ids@[x]).0 < self.vocab_view().len(),
                i <= ids@.len(),
                out@ == decode_ids(self.vocab_view(), ids@.subrange(0, i as int)),
            decreases ids@.len() - i,
        {
            let t = self.vocab[ids[i].0 as usize].as_slice();
            let mut j: usize = 0;
            let ghost before = out@;
            while j < t.len()
                invariant
                    j <= t@.len(),
                    out@ == before + t@.subrange(0, j as int),
                decreases t@.len() - j,
            {
                out.push(t[j]);
                proof {
                    assert(t@.subrange(0, j + 1) =~= t@.subrange(0, j as int).push(t@[j as int]));
                }
                j += 1;
            }
            proof {
                let pre = ids@.subrange(0, i + 1);
                assert(pre.drop_last() =~= ids@.subrange(0, i as int));
                assert(t@.subrange(0, t@.len() as int) =~= t@);
            }
            i += 1;
        }
        proof {
            assert(ids@.subrange(0, ids@.len() as int) =~= ids@);
        }
        out
    }

    /// The contents of the added tokens, longest first.
    pub fn added_token_contents(&self) -> (r: Vec<&[u8]>)
        ensures
            r@.map_values(|c: &[u8]| c@) == self.added_contents(),
    {
        let mut out: Vec<&[u8]> = Vec::new();
        let mut i: usize = 0;
        while i < self.added_tokens.len()
            invariant
                i <= self.added_tokens@.len(),
                out@.len() == i,
                forall|j: int| 0 <= j < i ==> #[trigger] out@[j]@ == self.added_tokens@[j].0@,
            decreases self.added_tokens@.len() - i,
        {
            out.push(self.added_tokens[i].0.as_slice());
            i += 1;
        }
        assert(out@.map_values(|c: &[u8]| c@) =~= self.added_contents());
        out
    }

    /// The caches stay valid when nothing they read changes.
    proof fn lemma_caches_kept(a: &Tokenizer, b: &Tokenizer)
        requires
            a.wf(),
            a.merges == b.merges,
            a.byte_remapping == b.byte_remapping,
            a.token_arena == b.token_arena,
            a.pretoken_cache == b.pretoken_cache,
            a.cache_src == b.cache_src,
            a.pretoken_front == b.pretoken_front,
            a.front_src == b.front_src,
            a.pretoken_cache_long == b.pretoken_cache_long,
        ensures
            forall|j: int| 0 <= j < PRETOKEN_FRONT_LEN ==> #[trigger] b.front_ok(j),
            forall|k: u128| #[trigger] b.pretoken_cache@.contains_key(k) ==> b.short_ok(k),
            forall|k: Seq<u8>| #[trigger] b.pretoken_cache_long.map_view().contains_key(k) ==> b.long_ok(k),
    {
        assert forall|j: int| 0 <= j < PRETOKEN_FRONT_LEN implies #[trigger] b.front_ok(j) by {
            assert(a.front_ok(j));
        }
        assert forall|k: u128| #[trigger] b.pretoken_cache@.contains_key(k) implies b.short_ok(k) by {
            assert(a.short_ok(k));
        }
        assert forall|k: Seq<u8>| #[trigger] b.pretoken_cache_long.map_view().contains_key(k) implies b.long_ok(k) by {
            assert(a.long_ok(k));
        }
    }

    /// Sets the added tokens matched by [`Self::encode_with_added_tokens`]:
    /// empty contents are dropped, the rest ordered longest first (equal
    /// lengths keep their order). Should the matcher fail to build (past the
    /// automaton's size limits), no added tokens are kept.
    pub fn set_added_tokens(&mut self, added_tokens: Vec<(Vec<u8>, TokenId)>)
        requires
            old(self).wf(),
            forall|i: int| 0 <= i < added_tokens@.len() ==> valid_utf8(#[trigger] added_tokens@[i].0@),
        ensures
            final(self).wf(),
            final(self).rules() == old(self).rules(),
            final(self).remap() == old(self).remap(),
            final(self).vocab_view() == old(self).vocab_view(),
            final(self).vocab_inv_view() == old(self).vocab_inv_view(),
            final(self).pretokenizer_type_view() == old(self).pretokenizer_type_view(),
            final(self).normalize_nfc_view() == old(self).normalize_nfc_view(),
            final(self).added_view() == registered_added(
                added_tokens@.map_values(|t: (Vec<u8>, TokenId)| (t.0@, t.1)),
            ),
    {
        let ghost input = added_tokens@.map_values(|t: (Vec<u8>, TokenId)| (t.0@, t.1));
        let mut sorted: Vec<(Vec<u8>, TokenId)> = Vec::new();
        let mut i: usize = 0;
        proof {
            assert(input.take(0) =~= Seq::<(Seq<u8>, TokenId)>::empty());
            assert(sorted@.map_values(|t: (Vec<u8>, TokenId)| (t.0@, t.1)) =~= Seq::<(Seq<u8>, TokenId)>::empty());
        }
        while i < added_tokens.len()
            invariant
                input == added_tokens@.map_values(|t: (Vec<u8>, TokenId)| (t.0@, t.1)),
                forall|x: int| 0 <= x < added_tokens@.len() ==> valid_utf8(#[trigger] added_tokens@[x].0@),
                i <= added_tokens@.len(),
                sorted@.map_values(|t: (Vec<u8>, TokenId)| (t.0@, t.1)) == sort_by_len_desc(nonempty_only(input.take(i as int))),
                Self::added_ok(sorted@.map_values(|t: (Vec<u8>, TokenId)| (t.0@, t.1))),
            decreases added_tokens@.len() - i,
        {
            let ghost sv = sorted@.map_values(|t: (Vec<u8>, TokenId)| (t.0@, t.1));
            let c = added_tokens[i].0.as_slice();
            let id = added_tokens[i].1;
            proof {
                let t = input.take(i + 1);
                assert(t.drop_last() =~= input.take(i as int));
                assert(t.last() == (c@, id));
            }
            proof {
                let ne = nonempty_only(input.take(i + 1));
                if c@.len() > 0 {
                    assert(ne.drop_last() =~= nonempty_only(input.take(i as int)));
                    assert(ne.last() == (c@, id));
                } else {
                    assert(ne =~= nonempty_only(input.take(i as int)));
                }
            }
            if c.len() > 0 {
                let n = c.len();
                let mut pos: usize = 0;
                proof {
                    lemma_first_shorter(sv, n as nat, 0);
                }
                while pos < sorted.len() && sorted[pos].0.len() >= n
                    invariant
                        sv == sorted@.map_values(|t: (Vec<u8>, TokenId)| (t.0@, t.1)),
                        pos <= sorted@.len(),
                        first_shorter(sv, n as nat, 0) == first_shorter(sv, n as nat, pos as int),
                    decreases sorted@.len() - pos,
                {
                    pos += 1;
                }
                proof {
                    if pos < sorted@.len() {
                        assert(sv[pos as int].0.len() < n);
                    }
                    assert(first_shorter(sv, n as nat, pos as int) == pos);
                }
                sorted.insert(pos, (vstd::slice::slice_to_vec(c), id));
                proof {
                    let nv = sorted@.map_values(|t: (Vec<u8>, TokenId)| (t.0@, t.1));
                    assert(nv =~= sv.insert(pos as int, (c@, id)));
                    assert forall|x: int| 0 <= x < nv.len() implies #[trigger] nv[x].0.len() > 0 && valid_utf8(nv[x].0) by {
                        if x < pos {
                            assert(nv[x] == sv[x]);
                        } else if x > pos {
                            assert(nv[x] == sv[x - 1]);
                        }
                    }
                }
            }
            i += 1;
        }
        proof {
            assert(input.take(added_tokens@.len() as int) =~= input);
        }
        proof {
            assert(sorted@.map_values(|t: (Vec<u8>, TokenId)| t.0@) =~= contents_of(
                sorted@.map_values(|t: (Vec<u8>, TokenId)| (t.0@, t.1)),
            ));
        }
        let matcher = if sorted.len() > 0 {
            build_leftmost_longest(&sorted)
        } else {
            None
        };
        let ghost before = *self;
        match matcher {
            Some(ac) => {
                self.added_tokens = sorted;
                self.added_matcher = Some(ac);
                proof {
                    assert(self.added_contents() =~= self.added_tokens@.map_values(|t: (Vec<u8>, TokenId)| t.0@));
                }
            },
            None => {
                self.added_tokens = Vec::new();
                self.added_matcher = None;
                proof {
                    assert(self.added_view() =~= Seq::<(Seq<u8>, TokenId)>::empty());
                }
            },
        }
        proof {
            Self::lemma_caches_kept(&before, self);
        }
    }

    /// Registers one more added token; an id past the vocabulary grows it
    /// with empty entries, and an id without content takes `content` as its
    /// bytes.
    pub fn add_special_token(&mut self, content: Vec<u8>, id: TokenId)
        requires
            old(self).wf(),
            valid_utf8(content@),
            (id.0 as int) < usize::MAX,
        ensures
            final(self).wf(),
            final(self).rules() == old(self).rules(),
            final(self).remap() == old(self).remap(),
            final(self).pretokenizer_type_view() == old(self).pretokenizer_type_view(),
            final(self).normalize_nfc_view() == old(self).normalize_nfc_view(),
            ({
                let padded = pad_vocab(old(self).vocab_view(), id.0 + 1);
                if padded[id.0 as int].len() == 0 {
                    &&& final(self).vocab_view() == padded.update(id.0 as int, content@)
                    &&& final(self).vocab_inv_view() == old(self).vocab_inv_view().insert(content@, id)
                } else {
                    &&& final(self).vocab_view() == padded
                    &&& final(self).vocab_inv_view() == old(self).vocab_inv_view()
                }
            }),
            final(self).added_view() == registered_added(old(self).added_view().push((content@, id))),
    {
        let idx = id.0 as usize;
        let ghost before = *self;
        let ghost padded = pad_vocab(self.vocab_view(), id.0 + 1);
        while self.vocab.len() <= idx
            invariant
                self.vocab_view() == pad_vocab(before.vocab_view(), self.vocab@.len() as int),
                self.vocab@.len() >= before.vocab@.len(),
                self.vocab@.len() <= idx + 1 || self.vocab@.len() == before.vocab@.len(),
                self.merges == before.merges,
                self.byte_remapping == before.byte_remapping,
                self.token_arena == before.token_arena,
                self.pretoken_cache == before.pretoken_cache,
                self.cache_src == before.cache_src,
                self.pretoken_front == before.pretoken_front,
                self.front_src == before.front_src,
                self.pretoken_cache_long == before.pretoken_cache_long,
                self.vocab_inv == before.vocab_inv,
                self.added_tokens == before.added_tokens,
                self.added_matcher == before.added_matcher,
                self.pretokenizer_type == before.pretokenizer_type,
                self.normalize_nfc == before.normalize_nfc,
                idx == id.0,
                (idx as int) < usize::MAX,
            decreases idx + 1 - self.vocab@.len(),
        {
            let ghost v0 = self.vocab_view();
            let e: Vec<u8> = Vec::new();
            self.vocab.push(e);
            proof {
                assert(self.vocab_view() =~= v0.push(Seq::<u8>::empty()));
                assert(self.vocab_view() =~= pad_vocab(before.vocab_view(), self.vocab@.len() as int));
            }
        }
        proof {
            assert(self.vocab_view() =~= padded);
        }
        if self.vocab[idx].len() == 0 {
            let copy = vstd::slice::slice_to_vec(content.as_slice());
            self.vocab.set(idx, copy);
            self.vocab_inv.insert(content.as_slice(), id);
            proof {
                assert(self.vocab_view() =~= padded.update(id.0 as int, content@));
            }
        }
        proof {
            Self::lemma_caches_kept(&before, self);
        }
        let mut added = copy_pairs(&self.added_tokens);
        let ghost av = self.added_view();
        added.push((content, id));
        proof {
            assert(added@.map_values(|t: (Vec<u8>, TokenId)| (t.0@, t.1)) =~= av.push((content@, id)));
            assert forall|i: int| 0 <= i < added@.len() implies valid_utf8(#[trigger] added@[i].0@) by {
                if i < av.len() {
                    assert(added@[i].0@ == av[i].0);
                }
            }
        }
        self.set_added_tokens(added);
    }

    /// The leftmost-longest added-token occurrence at or after `from`:
    /// `(start, end, id)`.
    fn find_added_token(&self, bytes: &[u8], from: usize) -> (r: Option<(usize, usize, TokenId)>)
        requires
            self.wf(),
            from <= bytes@.len(),
        ensures
            match first_match(self.added_contents(), bytes@, from as int) {
                None => r is None,
                Some((s, e)) => r matches Some((s2, e2, id)) && s2 == s && e2 == e && id == id_for_content(
                    self.added_view(),
                    bytes@.subrange(s, e),
                ),
            },
    {
        match &self.added_matcher {
            None => {
                proof {
                    assert(self.added_contents() =~= Seq::<Seq<u8>>::empty());
                    lemma_first_match_none(bytes@, from as int);
                }
                None
            },
            Some(ac) => {
                proof {
                    assert forall|i: int| 0 <= i < automaton_patterns(*ac).len() implies #[trigger] automaton_patterns(*ac)[i].len() > 0 by {
                        assert(self.added_contents()[i] == self.added_view()[i].0);
                    }
                }
                match find_leftmost_longest(ac, bytes, from) {
                    None => None,
                    Some((s, e, i)) => {
                        let ghost c = bytes@.subrange(s as int, e as int);
                        let ghost av = self.added_view();
                        proof {
                            assert(av[i as int].0 == self.added_contents()[i as int]);
                            lemma_first_index_with(av, c, 0, i as int);
                            lemma_first_match(self.added_contents(), bytes@, from as int);
                        }
                        let m = slice_subrange(bytes, s, e);
                        let mut j: usize = 0;
                        while j < i
                            invariant
                                av == self.added_view(),
                                i < av.len(),
                                av[i as int].0 == c,
                                m@ == c,
                                j <= i,
                                forall|x: int| 0 <= x < j ==> #[trigger] av[x].0 != c,
                            ensures
                                j <= i,
                                av[j as int].0 == c,
                                forall|x: int| 0 <= x < j ==> #[trigger] av[x].0 != c,
                            decreases i - j,
                        {
                            if bytes_eq(self.added_tokens[j].0.as_slice(), m) {
                                break;
                            }
                            j += 1;
                        }
                        proof {
                            let f = first_index_with(av, c, 0);
                            if j < f {
                                assert(av[j as int].0 == c);
                            }
                            if f < j {
                                assert(av[f].0 != c);
                            }
                        }
                        Some((s, e, self.added_tokens[j].1))
                    },
                }
            },
        }
    }

    /// Pretokenizes `text` with this tokenizer's scheme and encodes the
    /// pretokens, recording where each one's tokens end.
    fn encode_text(&mut self, text: &[u8], out: &mut Vec<TokenId>, ends: &mut Vec<usize>)
        requires
            old(self).wf(),
            valid_utf8(text@),
            has_pretokenizer(old(self).pretokenizer_type_view()),
        ensures
            final(self).wf(),
            final(self).same_model(old(self)),
            final(out)@ == old(out)@ + join_pieces(
                pretoken_pieces(
                    old(self).rules(),
                    old(self).remap(),
                    scheme_pretokens(old(self).pretokenizer_type_view(), text@),
                ),
            ),
            final(ends)@.map_values(|e: usize| e as int) == old(ends)@.map_values(|e: usize| e as int) + piece_ends(
                old(out)@.len() as int,
                pretoken_pieces(
                    old(self).rules(),
                    old(self).remap(),
                    scheme_pretokens(old(self).pretokenizer_type_view(), text@),
                ),
            ),
    {
        let mut ps: Vec<Pretoken> = Vec::new();
        proof {
            assert(pretoken_bytes(Seq::<Pretoken>::empty()) =~= Seq::<Seq<u8>>::empty());
        }
        match self.pretokenizer_type {
            PretokenizerType::GPT2 => {
                let mut it = pretokenize_as_iter(text);
                it.collect_into(&mut ps);
                proof {
                    assert(pretoken_bytes(ps@) =~= pretokens_of(text@));
                }
            },
            PretokenizerType::GPT4 => {
                let mut it = Cl100kPretokenizer::cl100k(text);
                it.collect_into(&mut ps);
                proof {
                    assert(pretoken_bytes(ps@) =~= cl100k_pretokens(text@));
                }
            },
            _ => {
                let mut it = Cl100kPretokenizer::qwen2(text);
                it.collect_into(&mut ps);
                proof {
                    assert(pretoken_bytes(ps@) =~= qwen2_pretokens(text@));
                }
            },
        }
        self.memoized_encode_pieces(ps.as_slice(), out, ends);
    }

    /// Encodes one segment between added tokens, normalizing it first when
    /// NFC normalization is on.
    fn encode_segment(&mut self, seg: &[u8], out: &mut Vec<TokenId>, ends: &mut Vec<usize>)
        requires
            old(self).wf(),
            valid_utf8(seg@),
            has_pretokenizer(old(self).pretokenizer_type_view()),
        ensures
            final(self).wf(),
            final(self).same_model(old(self)),
            final(out)@ == old(out)@ + join_pieces(old(self).segment_pieces(seg@)),
            final(ends)@.map_values(|e: usize| e as int) == old(ends)@.map_values(|e: usize| e as int) + piece_ends(
                old(out)@.len() as int,
                old(self).segment_pieces(seg@),
            ),
    {
        if self.normalize_nfc {
            let text = nfc_segment(seg);
            proof {
                if !(crate::tiktoken::nfc::is_ascii_bytes(seg@) || !valid_utf8(seg@)) {
                    encode_utf8_valid_utf8(crate::tiktoken::nfc::unicode_nfc(decode_utf8(seg@)));
                }
            }
            self.encode_text(text.as_slice(), out, ends);
        } else {
            self.encode_text(seg, out, ends);
        }
    }

    /// Encodes raw text: added-token occurrences become their ids, the text
    /// between them is pretokenized with this tokenizer's scheme and merged.
    pub fn encode_with_added_tokens(&mut self, bytes: &[u8], out: &mut Vec<TokenId>)
        requires
            old(self).wf(),
            valid_utf8(bytes@),
            has_pretokenizer(old(self).pretokenizer_type_view()),
        ensures
            final(self).wf(),
            final(self).same_model(old(self)),
            final(out)@ == old(out)@ + old(self).added_encoding(bytes@, 0),
    {
        let mut ends: Vec<usize> = Vec::new();
        self.encode_with_added_tokens_pieces(bytes, out, &mut ends);
        proof {
            lemma_added_pieces_join(*old(self), bytes@, 0);
        }
    }

    /// Like `encode_with_added_tokens`, and records in `ends` where each
    /// piece ends in `out`: one piece per pretoken, and one holding the id
    /// of each added-token occurrence (see `law_piece_ends_mark_pieces`).
    pub fn encode_with_added_tokens_pieces(&mut self, bytes: &[u8], out: &mut Vec<TokenId>, ends: &mut Vec<usize>)
        requires
            old(self).wf(),
            valid_utf8(bytes@),
            has_pretokenizer(old(self).pretokenizer_type_view()),
        ensures
            final(self).wf(),
            final(self).same_model(old(self)),
            final(out)@ == old(out)@ + join_pieces(old(self).added_pieces(bytes@, 0)),
            final(ends)@.map_values(|e: usize| e as int) == old(ends)@.map_values(|e: usize| e as int) + piece_ends(
                old(out)@.len() as int,
                old(self).added_pieces(bytes@, 0),
            ),
    {
        let ghost base = out@;
        let ghost ends0 = ends@.map_values(|e: usize| e as int);
        let ghost all = old(self).added_pieces(bytes@, 0);
        let ghost mut done: Seq<Seq<TokenId>> = seq![];
        let mut pos: usize = 0;
        proof {
            assert(suffix(bytes@, 0) =~= bytes@);
            assert(done + all =~= all);
            assert(join_pieces(done) =~= Seq::<TokenId>::empty());
            assert(ends@.map_values(|e: usize| e as int) =~= ends0 + piece_ends(base.len() as int, done));
        }
        while pos < bytes.len()
            invariant_except_break
                pos <= bytes@.len(),
                valid_from(bytes@, pos as int),
                done + old(self).added_pieces(bytes@, pos as int) == all,
            invariant
                self.wf(),
                self.same_model(old(self)),
                valid_utf8(bytes@),
                has_pretokenizer(old(self).pretokenizer_type_view()),
                all == old(self).added_pieces(bytes@, 0),
                out@ == base + join_pieces(done),
                ends@.map_values(|e: usize| e as int) == ends0 + piece_ends(base.len() as int, done),
            ensures
                done == all,
            decreases bytes@.len() - pos,
        {
            let ghost p = pos as int;
            let found = self.find_added_token(bytes, pos);
            let ghost pats = self.added_contents();
            proof {
                lemma_first_match(pats, bytes@, p);
            }
            match found {
                Some((s, e, id)) => {
                    let ghost c = bytes@.subrange(s as int, e as int);
                    proof {
                        let i = choose|i: int| 0 <= i < pats.len() && #[trigger] pats[i] == c;
                        assert(pats[i] == self.added_view()[i].0);
                        assert(valid_utf8(c) && c.len() > 0);
                        assert(bytes@[s as int] == c[0]);
                        lemma_valid_range(bytes@, p, s as int);
                        assert(suffix(bytes@, s as int) =~= c + suffix(bytes@, e as int));
                        lemma_valid_prefix_rest(c, suffix(bytes@, e as int));
                    }
                    let seg = slice_subrange(bytes, pos, s);
                    let ghost out1 = out@;
                    let ghost sp = old(self).segment_pieces(seg@);
                    self.encode_segment(seg, out, ends);
                    let ghost ends1 = ends@;
                    out.push(id);
                    let n = out.len();
                    ends.push(n);
                    proof {
                        let idp = seq![seq![id]];
                        let d2 = done + sp + idp;
                        lemma_join_concat(done, sp);
                        lemma_join_concat(done + sp, idp);
                        assert(idp.drop_last() =~= Seq::<Seq<TokenId>>::empty());
                        assert(join_pieces(idp.drop_last()) =~= Seq::<TokenId>::empty());
                        assert(join_pieces(idp) =~= seq![id]);
                        assert(out@ =~= base + join_pieces(d2));
                        lemma_ends_concat(base.len() as int, done, sp);
                        lemma_ends_concat(base.len() as int, done + sp, idp);
                        let x = base.len() as int + join_pieces(done + sp).len();
                        assert(out@.len() == x + 1);
                        assert(piece_ends(x, idp.drop_last()) =~= Seq::<int>::empty());
                        assert(piece_ends(x, idp) =~= seq![n as int]);
                        assert(ends@.map_values(|e: usize| e as int) =~= ends1.map_values(|e: usize| e as int).push(
                            n as int,
                        ));
                        assert(ends@.map_values(|e: usize| e as int) =~= ends0 + piece_ends(base.len() as int, d2));
                        assert(d2 + old(self).added_pieces(bytes@, e as int) =~= done + old(self).added_pieces(
                            bytes@,
                            p,
                        ));
                        done = d2;
                    }
                    pos = e;
                },
                None => {
                    proof {
                        assert(suffix(bytes@, p) =~= bytes@.subrange(p, bytes@.len() as int));
                    }
                    let seg = slice_subrange(bytes, pos, bytes.len());
                    let ghost sp = old(self).segment_pieces(seg@);
                    self.encode_segment(seg, out, ends);
                    proof {
                        lemma_join_concat(done, sp);
                        lemma_ends_concat(base.len() as int, done, sp);
                        done = done + sp;
                    }
                    break;
                },
            }
        }
        proof {
            if pos >= bytes@.len() {
                let n = bytes@.len() as int;
                lemma_first_match(self.added_contents(), bytes@, n);
                assert(first_match(self.added_contents(), bytes@, n) is None);
                let t = self.segment_text(bytes@.subrange(n, n));
                assert(t.len() == 0);
                assert(scheme_pretokens(self.pretokenizer_type_view(), t) =~= Seq::<Seq<u8>>::empty());
                assert(old(self).added_pieces(bytes@, n) =~= Seq::<Seq<TokenId>>::empty());
                assert(done + Seq::<Seq<TokenId>>::empty() =~= done);
            }
        }
    }

    /// The front-cache entry at `idx`.
    pub fn front_entry(&self, idx: usize) -> (r: PretokenFrontEntry)
        requires
            self.wf(),
            idx < PRETOKEN_FRONT_LEN,
        ensures
            r == self.front_view()[idx as int],
    {
        self.pretoken_front[idx]
    }

    /// Drops the authoritative cache entry of a packed key, returning it.
    pub fn remove_cached_pretoken(&mut self, key: u128) -> (r: Option<(u32, u32)>)
        requires
            old(self).wf(),
        ensures
            final(self).wf(),
            final(self).same_model(old(self)),
            final(self).short_cache_view() == old(self).short_cache_view().remove(key),
            final(self).front_view() == old(self).front_view(),
            r == (if old(self).short_cache_view().contains_key(key) {
                Some(old(self).short_cache_view()[key])
            } else {
                None
            }),
    {
        let r = self.pretoken_cache.remove(&key);
        proof {
            assert forall|j: int| 0 <= j < PRETOKEN_FRONT_LEN implies #[trigger] self.front_ok(j) by {
                assert(old(self).front_ok(j));
            }
            assert forall|k: u128| #[trigger] self.pretoken_cache@.contains_key(k) implies self.short_ok(k) by {
                assert(old(self).short_ok(k));
            }
            assert forall|k: Seq<u8>| #[trigger] self.pretoken_cache_long.map_view().contains_key(k) implies self.long_ok(k) by {
                assert(old(self).long_ok(k));
            }
        }
        r
    }

    /// Whether the authoritative cache holds a packed key.
    pub fn has_cached_pretoken(&self, key: u128) -> (r: bool)
        ensures
            r == self.short_cache_view().contains_key(key),
    {
        self.pretoken_cache.contains_key(&key)
    }

    /// Whether the authoritative cache of short pretokens is empty.
    pub fn short_cache_is_empty(&self) -> (r: bool)
        ensures
            r == self.short_cache_view().is_empty(),
    {
        self.pretoken_cache.is_empty()
    }

    /// Cache sizes for memory accounting: `(short_len, short_cap, long_len,
    /// long_cap, long_key_bytes, arena_len, arena_cap)`. The fixed-size front
    /// cache is not in the tuple; the key byte total saturates.
    pub fn cache_mem_stats(&self) -> (r: (usize, usize, usize, usize, usize, usize, usize))
        requires
            self.wf(),
        ensures
            r.0 == self.short_cache_view().dom().len(),
            r.2 == self.long_cache_entries().len(),
            r.3 >= r.2,
            r.4 as int == if key_bytes(self.long_cache_entries()) > usize::MAX {
                usize::MAX as int
            } else {
                key_bytes(self.long_cache_entries()) as int
            },
            r.5 == self.arena_view().len(),
            r.6 >= r.5,
    {
        let short_len = self.pretoken_cache.len();
        proof {
            vstd::std_specs::hash::axiom_spec_hash_map_len(&self.pretoken_cache);
        }
        (
            short_len,
            hash_map_capacity(&self.pretoken_cache),
            self.pretoken_cache_long.len(),
            self.pretoken_cache_long.capacity(),
            self.pretoken_cache_long.key_bytes_saturating(),
            self.token_arena.len(),
            vec_capacity(&self.token_arena),
        )
    }

    /// The merge rules.
    pub fn merges(&self) -> (r: &Merges)
        requires
            self.wf(),
        ensures
            r.rules() == self.rules(),
            r.wf(),
    {
        &self.merges
    }

    /// The token each byte value starts as.
    pub fn byte_tokens(&self) -> (r: Vec<TokenId>)
        requires
            self.wf(),
        ensures
            r@.len() == 256,
            forall|b: u8| #[trigger] initial_symbols(self.remap(), seq![b]) == seq![r@[b as int]],
    {
        let mut t: Vec<TokenId> = Vec::new();
        let mut i: usize = 0;
        while i < 256
            invariant
                self.wf(),
                i <= 256,
                t@.len() == i,
                forall|b: int| 0 <= b < i ==> #[trigger] t@[b] == initial_symbols(self.remap(), seq![b as u8])[0],
            decreases 256 - i,
        {
            let v = match &self.byte_remapping {
                Some(br) => br.mapping[i],
                None => TokenId(i as u32),
            };
            t.push(v);
            i += 1;
        }
        proof {
            assert forall|b: u8| #[trigger] initial_symbols(self.remap(), seq![b]) == seq![t@[b as int]] by {
                assert(initial_symbols(self.remap(), seq![b]) =~= seq![t@[b as int]]);
            }
        }
        t
    }

    /// The merge rules as `(left, right)` byte pairs, by merged id (the
    /// merge priority for tiktoken vocabularies); rules of equal merged id
    /// in the order they were added.
    pub fn merge_entries(&self) -> (r: Vec<(&[u8], &[u8])>)
        requires
            self.wf(),
            forall|i: int| 0 <= i < self.pair_list().len() ==> (#[trigger] self.pair_list()[i]).0.0
                < self.vocab_view().len() && self.pair_list()[i].1.0 < self.vocab_view().len(),
        ensures
            r@.map_values(|e: (&[u8], &[u8])| (e.0@, e.1@)) == sort_by_merged(
                merge_triples(self.rules(), self.pair_list()),
            ).map_values(|t: (u32, u32, u32)| (self.vocab_view()[t.1 as int], self.vocab_view()[t.2 as int])),
    {
        let ghost triples = merge_triples(self.rules(), self.merges.pair_list());
        let mut sorted: Vec<(u32, u32, u32)> = Vec::new();
        let n = self.merges.len();
        let mut i: usize = 0;
        proof {
            self.merges.lemma_pairs();
            assert(triples.take(0) =~= Seq::<(u32, u32, u32)>::empty());
        }
        while i < n
            invariant
                self.wf(),
                n == self.merges.pair_list().len(),
                triples == merge_triples(self.rules(), self.merges.pair_list()),
                forall|j: int| #![trigger self.merges.pair_list()[j]] 0 <= j < n ==> self.merges.rule(
                    self.merges.pair_list()[j].0.0,
                    self.merges.pair_list()[j].1.0,
                ) is Some,
                i <= n,
                sorted@ == sort_by_merged(triples.take(i as int)),
                forall|j: int| 0 <= j < sorted@.len() ==> exists|x: int| 0 <= x < i && #[trigger] sorted@[j] == triples[x],
            decreases n - i,
        {
            let (a, b) = self.merges.pair_at(i);
            let m = match self.merges.get(a, b) {
                Some((m, _)) => m.0,
                None => 0,
            };
            let t = (m, a.0, b.0);
            let ghost sv = sorted@;
            proof {
                assert(self.merges.rule(a.0, b.0) is Some);
                assert(t == triples[i as int]);
                lemma_first_greater(sv, m, 0);
            }
            let mut pos: usize = 0;
            while pos < sorted.len() && sorted[pos].0 <= m
                invariant
                    sv == sorted@,
                    pos <= sorted@.len(),
                    first_greater(sv, m, 0) == first_greater(sv, m, pos as int),
                decreases sorted@.len() - pos,
            {
                pos += 1;
            }
            proof {
                if pos < sorted@.len() {
                    assert(sv[pos as int].0 > m);
                }
                assert(first_greater(sv, m, pos as int) == pos);
            }
            sorted.insert(pos, t);
            proof {
                let pre = triples.take(i + 1);
                assert(pre.drop_last() =~= triples.take(i as int));
                assert(pre.last() == t);
                assert(sorted@ =~= sv.insert(pos as int, t));
                assert forall|j: int| 0 <= j < sorted@.len() implies exists|x: int| 0 <= x < i + 1 && #[trigger] sorted@[j] == triples[x] by {
                    if j < pos {
                        assert(sorted@[j] == sv[j]);
                    } else if j > pos {
                        assert(sorted@[j] == sv[j - 1]);
                    } else {
                        assert(sorted@[j] == triples[i as int]);
                    }
                }
            }
            i += 1;
        }
        proof {
            assert(triples.take(n as int) =~= triples);
        }
        let mut out: Vec<(&[u8], &[u8])> = Vec::new();
        let mut k: usize = 0;
        while k < sorted.len()
            invariant
                self.wf(),
                forall|j: int| 0 <= j < sorted@.len() ==> exists|x: int| 0 <= x < n && #[trigger] sorted@[j] == triples[x],
                triples == merge_triples(self.rules(), self.merges.pair_list()),
                n == self.merges.pair_list().len(),
                forall|i: int| 0 <= i < self.pair_list().len() ==> (#[trigger] self.pair_list()[i]).0.0
                    < self.vocab_view().len() && self.pair_list()[i].1.0 < self.vocab_view().len(),
                k <= sorted@.len(),
                out@.len() == k,
                forall|j: int| 0 <= j < k ==> (#[trigger] out@[j]).0@ == self.vocab_view()[sorted@[j].1 as int]
                    && out@[j].1@ == self.vocab_view()[sorted@[j].2 as int],
            decreases sorted@.len() - k,
        {
            let (_, a, b) = sorted[k];
            proof {
                let x = choose|x: int| 0 <= x < n && sorted@[k as int] == triples[x];
                assert(self.pair_list()[x] == self.merges.pair_list()[x]);
                assert(self.pair_list()[x].0.0 < self.vocab_view().len() && self.pair_list()[x].1.0
                    < self.vocab_view().len());
                assert(triples[x].1 == self.pair_list()[x].0.0 && triples[x].2 == self.pair_list()[x].1.0);
                assert(self.vocab_view().len() == self.vocab@.len());
            }
            out.push((self.vocab[a as usize].as_slice(), self.vocab[b as usize].as_slice()));
            proof {
                assert(self.vocab_view()[a as int] == self.vocab@[a as int]@);
                assert(self.vocab_view()[b as int] == self.vocab@[b as int]@);
            }
            k += 1;
        }
        proof {
            assert(out@.map_values(|e: (&[u8], &[u8])| (e.0@, e.1@)) =~= sorted@.map_values(
                |t: (u32, u32, u32)| (self.vocab_view()[t.1 as int], self.vocab_view()[t.2 as int]),
            ));
        }
        out
    }
}

/// A registered added token is matched whole: once `content` is registered
/// as `id` after the added tokens `earlier` (its matcher built, and no
/// earlier added token has the same content), the text `content` encodes as
/// the single id `id`.
pub proof fn law_registered_token_encodes_as_its_id(
    t: Tokenizer,
    earlier: Seq<(Seq<u8>, TokenId)>,
    content: Seq<u8>,
    id: TokenId,
)
    requires
        t.added_view() == registered_added(earlier.push((content, id))),
        automaton_builds(contents_of(sort_by_len_desc(nonempty_only(earlier.push((content, id)))))),
        content.len() > 0,
        forall|i: int| 0 <= i < earlier.len() ==> #[trigger] earlier[i].0 != content,
    ensures
        t.added_encoding(content, 0) == seq![id],
{
    let s = earlier.push((content, id));
    let ne = nonempty_only(s);
    let want = sort_by_len_desc(ne);
    lemma_nonempty_only_members(s);
    lemma_sort_members(ne);
    assert(s[s.len() - 1] == (content, id));
    assert(ne.contains(s[s.len() - 1]));
    let k0 = choose|x: int| 0 <= x < ne.len() && ne[x] == (content, id);
    assert(want.contains(ne[k0]));
    let k = choose|x: int| 0 <= x < want.len() && want[x] == (content, id);
    assert(t.added_view() == want);
    assert forall|x: int| 0 <= x < want.len() implies #[trigger] want[x].0.len() > 0 && (want[x].0
        == content ==> want[x] == (content, id)) by {
        assert(ne.contains(want[x]));
        let y = choose|y: int| 0 <= y < ne.len() && ne[y] == want[x];
        assert(s.contains(ne[y]));
        let z = choose|z: int| 0 <= z < s.len() && s[z] == ne[y];
        if z < earlier.len() {
            assert(s[z] == earlier[z]);
        }
    }
    lemma_first_index_with(want, content, 0, k);
    let pats = t.added_contents();
    let n = pats.len() as int;
    assert(pats[k] == content);
    assert(content.subrange(0, content.len() as int) =~= content);
    assert(occurs_at(content, pats[k], 0));
    lemma_longest_at(pats, content, 0, n);
    let l = longest_at(pats, content, 0, n);
    assert(l == content.len()) by {
        let i = choose|i: int| 0 <= i < n && occurs_at(content, pats[i], 0) && pats[i].len() == l;
    }
    lemma_longest_at(pats, content, content.len() as int, n);
    assert(longest_at(pats, content, content.len() as int, n) == 0) by {
        if longest_at(pats, content, content.len() as int, n) > 0 {
            let i = choose|i: int| 0 <= i < n && occurs_at(content, pats[i], content.len() as int)
                && pats[i].len() == longest_at(pats, content, content.len() as int, n);
            assert(pats[i] == want[i].0);
        }
    }
    assert(first_match(pats, content, content.len() as int + 1) is None);
    assert(first_match(pats, content, content.len() as int) is None);
    assert(first_match(pats, content, 0) == Some((0int, content.len() as int)));
    let e = Seq::<u8>::empty();
    assert(content.subrange(0, 0) =~= e);
    assert(content.subrange(content.len() as int, content.len() as int) =~= e);
    assert(is_ascii_bytes(e));
    assert(t.segment_text(e) == e);
    assert(valid_utf8(e));
    assert(e.subrange(0, 0) =~= e);
    assert(scheme_pretokens(t.pretokenizer_type_view(), e) =~= Seq::<Seq<u8>>::empty());
    assert(t.segment_encoding(e) =~= Seq::<TokenId>::empty());
    assert(t.added_encoding(content, content.len() as int) =~= Seq::<TokenId>::empty());
    assert(t.added_encoding(content, 0) =~= seq![id]);
}

/// Joining the pieces gives the encoding.
pub proof fn lemma_added_pieces_join(t: Tokenizer, b: Seq<u8>, pos: int)
    ensures
        join_pieces(t.added_pieces(b, pos)) == t.added_encoding(b, pos),
    decreases b.len() - pos,
{
    if 0 <= pos <= b.len() {
        match first_match(t.added_contents(), b, pos) {
            None => {
                lemma_join_pretoken_pieces(
                    t.rules(),
                    t.remap(),
                    scheme_pretokens(t.pretokenizer_type_view(), t.segment_text(b.subrange(pos, b.len() as int))),
                );
            },
            Some((s, e)) => {
                if pos <= s && s < e && e <= b.len() {
                    lemma_added_pieces_join(t, b, e);
                    let sp = t.segment_pieces(b.subrange(pos, s));
                    let idp = seq![seq![id_for_content(t.added_view(), b.subrange(s, e))]];
                    lemma_join_pretoken_pieces(
                        t.rules(),
                        t.remap(),
                        scheme_pretokens(t.pretokenizer_type_view(), t.segment_text(b.subrange(pos, s))),
                    );
                    lemma_join_concat(sp, idp);
                    lemma_join_concat(sp + idp, t.added_pieces(b, e));
                    assert(idp.drop_last() =~= Seq::<Seq<TokenId>>::empty());
                    assert(join_pieces(idp.drop_last()) =~= Seq::<TokenId>::empty());
                } else {
                    assert(join_pieces(Seq::<Seq<TokenId>>::empty()) =~= Seq::<TokenId>::empty());
                }
            },
        }
    } else {
        assert(join_pieces(Seq::<Seq<TokenId>>::empty()) =~= Seq::<TokenId>::empty());
    }
}

/// Without added tokens, encoding raw text is encoding the pretokens of its
/// text (NFC-normalized when that is on) under the tokenizer's scheme, as
/// `memoized_encode` does over those pretokens.
pub proof fn law_no_added_tokens_is_pretoken_encoding(t: Tokenizer, b: Seq<u8>)
    requires
        t.added_view().len() == 0,
    ensures
        t.added_encoding(b, 0) == encode_pretokens(
            t.rules(),
            t.remap(),
            scheme_pretokens(t.pretokenizer_type_view(), t.segment_text(b)),
        ),
{
    assert(t.added_contents() =~= Seq::<Seq<u8>>::empty());
    lemma_first_match_none(b, 0);
    assert(b.subrange(0, b.len() as int) =~= b);
}

/// Rules handed to the constructor are ranked by the id they merge into:
/// each rule's rank is its merged id, that of the last entry of the list
/// for its pair, so of two applicable pairs the one making the lower id
/// merges first (see `law_lowest_rank_leftmost`).
pub proof fn law_rules_ranked_by_merged_id(l: Seq<((TokenId, TokenId), TokenId)>)
    ensures
        forall|k: (u32, u32)| #[trigger] rules_of_list(l).contains_key(k) ==> rules_of_list(l)[k].1 == rules_of_list(l)[k].0,
        forall|k: (u32, u32)| #[trigger] rules_of_list(l).contains_key(k) ==> exists|i: int|
            0 <= i < l.len() && (l[i].0.0.0, l[i].0.1.0) == k && rules_of_list(l)[k].0 == l[i].1.0,
    decreases l.len(),
{
    if l.len() > 0 {
        law_rules_ranked_by_merged_id(l.drop_last());
        let d = l.drop_last();
        let key = (l.last().0.0.0, l.last().0.1.0);
        assert forall|k: (u32, u32)| #[trigger] rules_of_list(l).contains_key(k) implies rules_of_list(l)[k].1
            == rules_of_list(l)[k].0 by {
            if k != key {
                assert(rules_of_list(d).contains_key(k));
            }
        }
        assert forall|k: (u32, u32)| #[trigger] rules_of_list(l).contains_key(k) implies exists|i: int|
            0 <= i < l.len() && (l[i].0.0.0, l[i].0.1.0) == k && rules_of_list(l)[k].0 == l[i].1.0 by {
            if k == key {
                assert(l[l.len() - 1] == l.last());
            } else {
                assert(rules_of_list(d).contains_key(k));
                let i = choose|i: int| 0 <= i < d.len() && (d[i].0.0.0, d[i].0.1.0) == k && rules_of_list(d)[k].0 == d[i].1.0;
                assert(l[i] == d[i]);
            }
        }
    }
}

/// Rules rebuilt from a rank-ordered vocabulary are ranked by the index of
/// the token they make, which is below the number of tokens read: a rule
/// making a lower index merges first.
pub proof fn law_rebuilt_rules_ranked_by_index(v: Seq<Seq<u8>>, n: int)
    requires
        n <= u32::MAX,
    ensures
        ranks_rules(v, n) matches Ok(r) ==> forall|k: (u32, u32)| #[trigger] r.contains_key(k) ==> r[k].1 == r[k].0
            && (r[k].0 as int) < n,
    decreases n,
{
    if n > 0 {
        law_rebuilt_rules_ranked_by_index(v, n - 1);
        match ranks_rules(v, n - 1) {
            Err(_) => {},
            Ok(r) => {
                let t = v[n - 1];
                let inv = inverse_vocab(v);
                if t.len() >= 2 && first_unknown_byte(inv, t, 0) is None {
                    let tk = bpe(r, rank_symbols(inv, t));
                    if tk.len() == 2 {
                        assert(((n - 1) as u32) == n - 1);
                    }
                }
            },
        }
    }
}

/// Merge entries come out in priority order and lose none: sorting by
/// merged id gives the same triples, each no later than any with a
/// greater merged id.
pub proof fn law_sort_by_merged_sorted(s: Seq<(u32, u32, u32)>)
    ensures
        sort_by_merged(s).len() == s.len(),
        sort_by_merged(s).to_multiset() == s.to_multiset(),
        forall|i: int, j: int|
            0 <= i < j < sort_by_merged(s).len() ==> #[trigger] sort_by_merged(s)[i].0 <= #[trigger] sort_by_merged(s)[j].0,
    decreases s.len(),
{
    broadcast use vstd::seq_lib::to_multiset_insert, vstd::seq_lib::to_multiset_build;
    if s.len() == 0 {
        assert(sort_by_merged(s) =~= s);
    } else {
        let d = s.drop_last();
        law_sort_by_merged_sorted(d);
        let sd = sort_by_merged(d);
        let m = s.last().0;
        lemma_first_greater(sd, m, 0);
        let k = first_greater(sd, m, 0);
        let r = sd.insert(k, s.last());
        assert(sort_by_merged(s) == r);
        assert(s =~= d.push(s.last()));
        assert(r.to_multiset() == sd.to_multiset().insert(s.last()));
        assert forall|i: int, j: int| 0 <= i < j < r.len() implies #[trigger] r[i].0 <= #[trigger] r[j].0 by {
            if j < k {
                assert(r[i] == sd[i] && r[j] == sd[j]);
            } else if j == k {
                assert(r[i] == sd[i]);
            } else if i < k {
                assert(r[i] == sd[i] && r[j] == sd[j - 1]);
                assert(sd[i].0 <= sd[j - 1].0);
            } else if i == k {
                assert(r[j] == sd[j - 1]);
                assert(sd[k].0 > m);
                assert(sd[k].0 <= sd[j - 1].0);
            } else {
                assert(r[i] == sd[i - 1] && r[j] == sd[j - 1]);
            }
        }
    }
}

} // verus!
