//! SentencePiece BPE with byte fallback (the Llama tokenizer): spaces become
//! `▁` (U+2581), each char starts as its own token (or its bytes' fallback
//! tokens), then merges apply by rank; added tokens are split out first.
use vstd::prelude::*;
use vstd::utf8::*;
use vstd::string::*;
use crate::token::TokenId;
use crate::bpe::{Merges, bpe, bpe_merge};
use crate::bytemap::ByteMap;
use crate::unicode::{valid_from, width_at, suffix, lemma_step, lemma_width_pos, next_codepoint_and_length};
use crate::pretokenize::counting::{find_from, occurs_at, find_separator, lemma_find_from};
use crate::hub::text::{bytes_of, at_boundary, owned, push_str, push_str_range, lemma_boundary};
use crate::tiktoken::tokenizer::{lemma_valid_prefix_rest, decode_ids};
use crate::tiktoken::roundtrip::{merges_concatenate, lemma_decode_bpe, lemma_decode_concat};
use crate::bpe::{best_pair, lemma_best_upto, merge_at};

verus! {

/// `b` with every byte `x` replaced by `rep`.
pub open spec fn replace_byte(b: Seq<u8>, x: u8, rep: Seq<u8>) -> Seq<u8>
    decreases b.len(),
{
    if b.len() == 0 {
        seq![]
    } else if b.last() == x {
        replace_byte(b.drop_last(), x, rep) + rep
    } else {
        replace_byte(b.drop_last(), x, rep).push(b.last())
    }
}

proof fn lemma_replace_plain(b: Seq<u8>, x: u8, rep: Seq<u8>, i: int, j: int)
    requires
        0 <= i <= j <= b.len(),
        forall|k: int| i <= k < j ==> #[trigger] b[k] != x,
    ensures
        replace_byte(b.subrange(0, j), x, rep) == replace_byte(b.subrange(0, i), x, rep) + b.subrange(i, j),
    decreases j - i,
{
    if i == j {
        assert(replace_byte(b.subrange(0, i), x, rep) + b.subrange(i, j) =~= replace_byte(b.subrange(0, i), x, rep));
    } else {
        lemma_replace_plain(b, x, rep, i, j - 1);
        let s = b.subrange(0, j);
        assert(s.drop_last() =~= b.subrange(0, j - 1));
        assert(b.subrange(i, j) =~= b.subrange(i, j - 1).push(b[j - 1]));
    }
}

/// The space marker `▁`.
pub open spec fn marker() -> Seq<u8> {
    "\u{2581}".spec_bytes()
}

/// The Llama normalization of UTF-8 text: nothing for empty text, else a
/// leading `▁` and every space turned into `▁`.
pub open spec fn normalize_spec(b: Seq<u8>) -> Seq<u8> {
    if b.len() == 0 {
        seq![]
    } else {
        marker() + replace_byte(b, 0x20, marker())
    }
}

/// The symbols that merging starts from: each char as its token when the
/// vocabulary has it, else the fallback token of each of its bytes.
pub open spec fn char_symbols(inv: Map<Seq<u8>, TokenId>, fallback: Seq<TokenId>, b: Seq<u8>, pos: int) -> Seq<TokenId>
    decreases b.len() + 4 - pos,
{
    if pos < 0 || pos >= b.len() {
        seq![]
    } else {
        proof {
            lemma_width_pos(b, pos);
        }
        let w = width_at(b, pos);
        let cb = b.subrange(pos, pos + w);
        let here = if inv.contains_key(cb) {
            seq![inv[cb]]
        } else {
            Seq::new(w as nat, |k: int| fallback[cb[k] as int])
        };
        here + char_symbols(inv, fallback, b, pos + w)
    }
}

/// The first occurrence of any of the first `n` added tokens: `(position,
/// index)`, the earliest position, the first token among equals.
pub open spec fn earliest_added(added: Seq<(Seq<u8>, TokenId)>, b: Seq<u8>, n: int) -> Option<(int, int)>
    decreases n,
{
    if n <= 0 {
        None
    } else {
        let prev = earliest_added(added, b, n - 1);
        match find_from(b, added[n - 1].0, 0) {
            None => prev,
            Some(p) => match prev {
                None => Some((p, n - 1)),
                Some(q) => if p < q.0 {
                    Some((p, n - 1))
                } else {
                    prev
                },
            },
        }
    }
}

proof fn lemma_earliest_added(added: Seq<(Seq<u8>, TokenId)>, b: Seq<u8>, n: int)
    requires
        n <= added.len(),
    ensures
        earliest_added(added, b, n) matches Some((p, i)) ==> 0 <= i < n && find_from(b, added[i].0, 0) == Some(p),
    decreases n,
{
    if n > 0 {
        lemma_earliest_added(added, b, n - 1);
    }
}

/// The text `String::from_utf8_lossy` makes of bytes.
pub uninterp spec fn utf8_lossy(b: Seq<u8>) -> Seq<char>;

/// `String::from_utf8_lossy`. Claimed: the result depends on the bytes alone,
/// and valid UTF-8 is decoded as it is (std documents that only invalid
/// sequences are replaced).
#[verifier::external_body]
pub(crate) fn from_utf8_lossy(b: &[u8]) -> (r: String)
    ensures
        r@ == utf8_lossy(b@),
        valid_utf8(b@) ==> r@ == decode_utf8(b@),
{
    String::from_utf8_lossy(b).into_owned()
}

/// The text `String::from_utf8_lossy` reads from bytes: valid UTF-8 decoded
/// as it is, other bytes with their invalid sequences replaced.
pub open spec fn lossy_text(b: Seq<u8>) -> Seq<char> {
    if valid_utf8(b) {
        decode_utf8(b)
    } else {
        utf8_lossy(b)
    }
}

/// The bytes of the tokens in `ids` (ids past the vocabulary skipped).
pub open spec fn token_bytes(vocab: Seq<Seq<u8>>, ids: Seq<TokenId>) -> Seq<u8>
    decreases ids.len(),
{
    if ids.len() == 0 {
        seq![]
    } else if (ids.last().0 as int) < vocab.len() {
        token_bytes(vocab, ids.drop_last()) + vocab[ids.last().0 as int]
    } else {
        token_bytes(vocab, ids.drop_last())
    }
}

/// `b` from `i` on with each occurrence of `m` (leftmost first) replaced by `rep`.
pub open spec fn replace_all(b: Seq<u8>, m: Seq<u8>, rep: Seq<u8>, i: int) -> Seq<u8>
    decreases b.len() + 1 - i,
{
    if i < 0 || i > b.len() || m.len() == 0 {
        seq![]
    } else {
        match find_from(b, m, i) {
            None => b.subrange(i, b.len() as int),
            Some(j) => if i <= j && j + m.len() <= b.len() {
                b.subrange(i, j) + rep + replace_all(b, m, rep, j + m.len())
            } else {
                seq![]
            },
        }
    }
}

/// `b` without a leading space.
pub open spec fn strip_leading_space(b: Seq<u8>) -> Seq<u8> {
    if b.len() > 0 && b[0] == 0x20 {
        b.drop_first()
    } else {
        b
    }
}

/// The rules of a list of `((a, b), (merged, rank))` entries; a later entry
/// for the same `(a, b)` replaces an earlier one.
pub open spec fn ranked_rules_of_list(l: Seq<((TokenId, TokenId), (TokenId, u32))>) -> Map<(u32, u32), (u32, u32)>
    decreases l.len(),
{
    if l.len() == 0 {
        Map::empty()
    } else {
        ranked_rules_of_list(l.drop_last()).insert((l.last().0.0.0, l.last().0.1.0), (l.last().1.0.0, l.last().1.1))
    }
}

/// A SentencePiece BPE model.
pub struct SentencePieceBPE {
    merges: Merges,
    vocab: Vec<Vec<u8>>,
    vocab_inv: ByteMap<TokenId>,
    byte_fallback_ids: Vec<TokenId>,
    added_tokens: Vec<(String, TokenId)>,
}

impl SentencePieceBPE {
    pub closed spec fn rules(&self) -> Map<(u32, u32), (u32, u32)> {
        self.merges.rules()
    }

    pub closed spec fn vocab_view(&self) -> Seq<Seq<u8>> {
        self.vocab@.map_values(|v: Vec<u8>| v@)
    }

    pub closed spec fn vocab_inv_view(&self) -> Map<Seq<u8>, TokenId> {
        self.vocab_inv.map_view()
    }

    pub closed spec fn fallback_view(&self) -> Seq<TokenId> {
        self.byte_fallback_ids@
    }

    pub closed spec fn added_view(&self) -> Seq<(Seq<u8>, TokenId)> {
        self.added_tokens@.map_values(|t: (String, TokenId)| (encode_utf8(t.0@), t.1))
    }

    pub closed spec fn wf(&self) -> bool {
        &&& self.vocab_inv.wf()
        &&& self.byte_fallback_ids@.len() == 256
        &&& forall|i: int| 0 <= i < self.added_tokens@.len() ==> (#[trigger] self.added_tokens@[i]).0@.len() > 0
    }

    /// The tokens of normalized UTF-8 text.
    pub open spec fn normalized_tokens(&self, b: Seq<u8>) -> Seq<TokenId> {
        bpe(self.rules(), char_symbols(self.vocab_inv_view(), self.fallback_view(), b, 0))
    }

    /// The tokens of raw UTF-8 text: added-token occurrences split out
    /// (earliest first), the text around them normalized and encoded.
    pub open spec fn raw_tokens(&self, b: Seq<u8>) -> Seq<TokenId>
        decreases b.len(),
    {
        let added = self.added_view();
        if added.len() == 0 {
            self.normalized_tokens(normalize_spec(b))
        } else if b.len() == 0 {
            seq![]
        } else {
            match earliest_added(added, b, added.len() as int) {
                None => self.normalized_tokens(normalize_spec(b)),
                Some((p, i)) => {
                    let e = p + added[i].0.len();
                    if 0 <= p && e <= b.len() && added[i].0.len() > 0 {
                        let before = if p > 0 {
                            self.normalized_tokens(normalize_spec(b.subrange(0, p)))
                        } else {
                            seq![]
                        };
                        before + seq![added[i].1] + self.raw_tokens(b.subrange(e, b.len() as int))
                    } else {
                        seq![]
                    }
                },
            }
        }
    }

    /// A model over merge rules `((a, b), (merged, rank))` (a later rule
    /// for the same pair wins), the bytes of each token id, the fallback
    /// token of each byte value, and the added tokens.
    pub fn new(
        merges: Vec<((TokenId, TokenId), (TokenId, u32))>,
        vocab: Vec<Vec<u8>>,
        byte_fallback_ids: Vec<TokenId>,
        added_tokens: Vec<(String, TokenId)>,
    ) -> (r: Self)
        requires
            vocab@.len() <= u32::MAX,
            byte_fallback_ids@.len() == 256,
            forall|i: int| 0 <= i < added_tokens@.len() ==> (#[trigger] added_tokens@[i]).0@.len() > 0,
        ensures
            r.wf(),
            r.vocab_view() == vocab@.map_values(|v: Vec<u8>| v@),
            r.vocab_inv_view() == crate::tiktoken::tokenizer::inverse_vocab(vocab@.map_values(|v: Vec<u8>| v@)),
            r.fallback_view() == byte_fallback_ids@,
            r.added_view() == added_tokens@.map_values(|t: (String, TokenId)| (encode_utf8(t.0@), t.1)),
            r.rules() == ranked_rules_of_list(merges@),
    {
        let mut m = Merges::new();
        let mut i: usize = 0;
        proof {
            assert(merges@.take(0) =~= Seq::<((TokenId, TokenId), (TokenId, u32))>::empty());
        }
        while i < merges.len()
            invariant
                m.wf(),
                i <= merges@.len(),
                m.rules() == ranked_rules_of_list(merges@.take(i as int)),
            decreases merges@.len() - i,
        {
            let ((a, b), (merged, rank)) = merges[i];
            m.insert(a, b, merged, rank);
            proof {
                let t = merges@.take(i + 1);
                assert(t.drop_last() =~= merges@.take(i as int));
                assert(t.last() == merges@[i as int]);
            }
            i += 1;
        }
        proof {
            assert(merges@.take(merges@.len() as int) =~= merges@);
        }
        let inv = crate::tiktoken::tokenizer::vocab_inverse(&vocab);
        SentencePieceBPE { merges: m, vocab, vocab_inv: inv, byte_fallback_ids, added_tokens }
    }

    /// The Llama normalization: `▁` first, every space as `▁`; empty stays empty.
    pub fn normalize(input: &str) -> (r: String)
        ensures
            bytes_of(r@) == normalize_spec(input.spec_bytes()),
    {
        let b = input.as_bytes();
        let n = b.len();
        let mut out = String::new();
        if n == 0 {
            proof {
                assert(bytes_of(out@) =~= Seq::<u8>::empty());
            }
            return out;
        }
        push_str(&mut out, "\u{2581}");
        let ghost head = bytes_of(out@);
        proof {
            assert(bytes_of(Seq::<char>::empty()) =~= Seq::<u8>::empty());
            assert(head =~= marker());
            encode_utf8_valid_utf8(input@);
            assert(b@.subrange(0, 0) =~= Seq::<u8>::empty());
        }
        let mut start: usize = 0;
        let mut i: usize = 0;
        while i < n
            invariant
                n == b@.len(),
                b@ == input.spec_bytes(),
                valid_utf8(b@),
                start <= i <= n,
                at_boundary(b@, start as int),
                forall|x: int| start <= x < i ==> #[trigger] b@[x] != 0x20,
                head == marker(),
                bytes_of(out@) == head + replace_byte(b@.subrange(0, start as int), 0x20, marker()),
            decreases n - i,
        {
            if b[i] == 0x20 {
                push_str_range(&mut out, input, start, i);
                push_str(&mut out, "\u{2581}");
                proof {
                    lemma_replace_plain(b@, 0x20, marker(), start as int, i as int);
                    let s = b@.subrange(0, i + 1);
                    assert(s.drop_last() =~= b@.subrange(0, i as int));
                    assert(bytes_of(out@) =~= head + replace_byte(b@.subrange(0, i + 1), 0x20, marker()));
                    if i + 1 < n {
                        crate::hub::repo::lemma_continuation_after_ascii(b@, i as int);
                    }
                }
                start = i + 1;
            }
            i += 1;
        }
        push_str_range(&mut out, input, start, n);
        proof {
            lemma_replace_plain(b@, 0x20, marker(), start as int, n as int);
            assert(b@.subrange(0, n as int) =~= b@);
            assert(bytes_of(out@) =~= head + replace_byte(b@, 0x20, marker()));
        }
        out
    }

    /// The text of `tokens` (ids past the vocabulary skipped): their bytes
    /// read as UTF-8 (invalid sequences replaced), `▁` turned back into
    /// spaces, one leading space dropped.
    pub fn decode(&self, tokens: &[TokenId]) -> (r: Vec<u8>)
        ensures
            r@ == strip_leading_space(
                replace_all(bytes_of(lossy_text(token_bytes(self.vocab_view(), tokens@))), marker(), seq![0x20u8], 0),
            ),
    {
        let mut raw: Vec<u8> = Vec::new();
        let mut i: usize = 0;
        while i < tokens.len()
            invariant
                i <= tokens@.len(),
                raw@ == token_bytes(self.vocab_view(), tokens@.subrange(0, i as int)),
            decreases tokens@.len() - i,
        {
            let idx = tokens[i].0 as usize;
            let ghost before = raw@;
            if idx < self.vocab.len() {
                let t = self.vocab[idx].as_slice();
                let mut j: usize = 0;
                while j < t.len()
                    invariant
                        j <= t@.len(),
                        raw@ == before + t@.subrange(0, j as int),
                    decreases t@.len() - j,
                {
                    raw.push(t[j]);
                    proof {
                        assert(t@.subrange(0, j + 1) =~= t@.subrange(0, j as int).push(t@[j as int]));
                    }
                    j += 1;
                }
                proof {
                    assert(t@.subrange(0, t@.len() as int) =~= t@);
                }
            }
            proof {
                let pre = tokens@.subrange(0, i + 1);
                assert(pre.drop_last() =~= tokens@.subrange(0, i as int));
            }
            i += 1;
        }
        proof {
            assert(tokens@.subrange(0, tokens@.len() as int) =~= tokens@);
        }
        let text = from_utf8_lossy(raw.as_slice());
        let tb = text.as_str().as_bytes();
        let m = "\u{2581}".as_bytes();
        proof {
            reveal_strlit("\u{2581}");
            encode_utf8_first_scalar("\u{2581}"@);
        }
        let mut out: Vec<u8> = Vec::new();
        let mut pos: usize = 0;
        let n = tb.len();
        loop
            invariant_except_break
                pos <= n,
                out@ + replace_all(tb@, m@, seq![0x20u8], pos as int) == replace_all(tb@, m@, seq![0x20u8], 0),
            invariant
                n == tb@.len(),
                m@.len() > 0,
                m@ == marker(),
            ensures
                out@ == replace_all(tb@, m@, seq![0x20u8], 0),
            decreases n + 1 - pos,
        {
            proof {
                lemma_find_from(tb@, m@, pos as int);
            }
            match find_separator(tb, m, pos) {
                Some(j) => {
                    let ghost before = out@;
                    let mut k = pos;
                    while k < j
                        invariant
                            pos <= k <= j <= n,
                            n == tb@.len(),
                            out@ == before + tb@.subrange(pos as int, k as int),
                        decreases j - k,
                    {
                        out.push(tb[k]);
                        proof {
                            assert(tb@.subrange(pos as int, k + 1) =~= tb@.subrange(pos as int, k as int).push(tb@[k as int]));
                        }
                        k += 1;
                    }
                    out.push(0x20);
                    proof {
                        assert(out@ =~= before + tb@.subrange(pos as int, j as int) + seq![0x20u8]);
                    }
                    pos = j + m.len();
                },
                None => {
                    let ghost before = out@;
                    let mut k = pos;
                    while k < n
                        invariant
                            pos <= k <= n,
                            n == tb@.len(),
                            out@ == before + tb@.subrange(pos as int, k as int),
                        decreases n - k,
                    {
                        out.push(tb[k]);
                        proof {
                            assert(tb@.subrange(pos as int, k + 1) =~= tb@.subrange(pos as int, k as int).push(tb@[k as int]));
                        }
                        k += 1;
                    }
                    break;
                },
            }
        }
        if out.len() > 0 && out[0] == 0x20 {
            out.remove(0);
            proof {
                assert(out@ =~= strip_leading_space(replace_all(tb@, m@, seq![0x20u8], 0)));
            }
        }
        out
    }

    /// An encoder over this model.
    pub fn encoder(&self) -> (r: Encoder<'_>)
        ensures
            r.model == self,
    {
        Encoder { model: self }
    }

    /// Encodes one raw text.
    pub fn encode_raw(&self, input: &str) -> (r: Vec<TokenId>)
        requires
            self.wf(),
        ensures
            r@ == self.raw_tokens(input.spec_bytes()),
    {
        let mut e = self.encoder();
        e.encode_raw(input)
    }
}

/// The earliest added-token occurrence: when raw encoding splits at `p`
/// on added token `i`, that token occurs at `p`, no added token occurs
/// anywhere before `p`, and no earlier token of the list occurs at `p`;
/// when there is none, no added token occurs at all.
pub proof fn law_earliest_added_is_earliest(added: Seq<(Seq<u8>, TokenId)>, b: Seq<u8>, n: int)
    requires
        0 <= n <= added.len(),
    ensures
        earliest_added(added, b, n) matches Some((p, i)) ==> {
            &&& 0 <= i < n
            &&& occurs_at(b, added[i].0, p)
            &&& forall|j: int, x: int| 0 <= j < n && 0 <= x < p ==> !#[trigger] occurs_at(b, added[j].0, x)
            &&& forall|j: int| 0 <= j < i ==> !occurs_at(b, #[trigger] added[j].0, p)
        },
        earliest_added(added, b, n) is None ==> forall|j: int, x: int|
            0 <= j < n && 0 <= x ==> !#[trigger] occurs_at(b, added[j].0, x),
    decreases n,
{
    if n > 0 {
        law_earliest_added_is_earliest(added, b, n - 1);
        let c = added[n - 1].0;
        lemma_find_from(b, c, 0);
        match find_from(b, c, 0) {
            None => {},
            Some(q) => {
                match earliest_added(added, b, n - 1) {
                    None => {},
                    Some((p, i)) => {
                        if q < p {
                        } else {
                            assert(!occurs_at(b, c, p) || q == p);
                        }
                    },
                }
            },
        }
    }
}

/// Raw encoding splits at added tokens and encodes the rest normalized:
/// where no added token occurs in `b`, the raw tokens of `b` are the tokens
/// of its normalization; otherwise, with the earliest occurrence at `p` of
/// the first added token `(c, id)` found there, they are the tokens of the
/// normalized text before it (nothing when `p` is 0), then `id`, then the
/// raw tokens of what follows the occurrence.
pub proof fn law_raw_splits_at_added(m: SentencePieceBPE, b: Seq<u8>)
    requires
        m.wf(),
    ensures
        earliest_added(m.added_view(), b, m.added_view().len() as int) is None ==> m.raw_tokens(b)
            == m.normalized_tokens(normalize_spec(b)),
        earliest_added(m.added_view(), b, m.added_view().len() as int) matches Some((p, i)) ==> {
            let c = m.added_view()[i].0;
            &&& 0 <= p && p + c.len() <= b.len()
            &&& b.subrange(p, p + c.len()) == c
            &&& forall|j: int, x: int|
                0 <= j < m.added_view().len() && 0 <= x < p ==> !#[trigger] occurs_at(b, m.added_view()[j].0, x)
            &&& m.raw_tokens(b) == (if p > 0 {
                m.normalized_tokens(normalize_spec(b.subrange(0, p)))
            } else {
                seq![]
            }) + seq![m.added_view()[i].1] + m.raw_tokens(b.subrange(p + c.len(), b.len() as int))
        },
{
    let added = m.added_view();
    let n = added.len() as int;
    lemma_earliest_added(added, b, n);
    law_earliest_added_is_earliest(added, b, n);
    if b.len() == 0 && n > 0 {
        assert(normalize_spec(b) =~= Seq::<u8>::empty());
        assert(char_symbols(m.vocab_inv_view(), m.fallback_view(), seq![], 0) =~= Seq::<TokenId>::empty());
    }
    match earliest_added(added, b, n) {
        None => {},
        Some((p, i)) => {
            let c = added[i].0;
            lemma_find_from(b, c, 0);
            assert(added[i].0.len() > 0) by {
                assert(added[i].0 == encode_utf8(m.added_tokens@[i].0@));
                if added[i].0.len() == 0 {
                    if m.added_tokens@[i].0@.len() > 0 {
                        encode_utf8_first_scalar(m.added_tokens@[i].0@);
                    }
                }
            }
            assert(b.len() > 0);
        },
    }
}


/// The bytes of `▁`.
proof fn lemma_marker_bytes()
    ensures
        marker() == seq![0xe2u8, 0x96u8, 0x81u8],
        encode_scalar('\u{2581}' as u32) == marker(),
{
    reveal_strlit("\u{2581}");
    let cs = "\u{2581}"@;
    assert(cs.len() == 1);
    let c = cs[0] as u32;
    assert(c == 0x2581);
    assert(encode_utf8(cs) =~= encode_scalar(c) + encode_utf8(cs.drop_first()));
    assert(encode_utf8(cs.drop_first()) =~= Seq::<u8>::empty());
    assert(leading_byte_width_3(0x2581u32) == 0xe2u8) by (bit_vector);
    assert(second_last_continuation_byte(0x2581u32) == 0x96u8) by (bit_vector);
    assert(last_continuation_byte(0x2581u32) == 0x81u8) by (bit_vector);
    assert(encode_scalar(c) =~= seq![0xe2u8, 0x96u8, 0x81u8]);
    assert('\u{2581}' as u32 == 0x2581);
}

/// Replacing bytes works piece by piece.
proof fn lemma_replace_byte_concat(a: Seq<u8>, b: Seq<u8>, x: u8, rep: Seq<u8>)
    ensures
        replace_byte(a + b, x, rep) == replace_byte(a, x, rep) + replace_byte(b, x, rep),
    decreases b.len(),
{
    if b.len() == 0 {
        assert(a + b =~= a);
        assert(replace_byte(a, x, rep) + replace_byte(b, x, rep) =~= replace_byte(a, x, rep));
    } else {
        lemma_replace_byte_concat(a, b.drop_last(), x, rep);
        assert((a + b).drop_last() =~= a + b.drop_last());
        assert((a + b).last() == b.last());
        if b.last() == x {
            assert(replace_byte(a, x, rep) + replace_byte(b.drop_last(), x, rep) + rep =~= replace_byte(a, x, rep)
                + (replace_byte(b.drop_last(), x, rep) + rep));
        } else {
            assert((replace_byte(a, x, rep) + replace_byte(b.drop_last(), x, rep)).push(b.last()) =~= replace_byte(
                a,
                x,
                rep,
            ) + replace_byte(b.drop_last(), x, rep).push(b.last()));
        }
    }
}

/// Replacing bytes in `s`: its first byte's replacement, then the rest's.
proof fn lemma_replace_byte_first(s: Seq<u8>, x: u8, rep: Seq<u8>)
    requires
        s.len() > 0,
    ensures
        replace_byte(s, x, rep) == (if s[0] == x {
            rep
        } else {
            seq![s[0]]
        }) + replace_byte(s.drop_first(), x, rep),
{
    assert(s =~= seq![s[0]] + s.drop_first());
    lemma_replace_byte_concat(seq![s[0]], s.drop_first(), x, rep);
    let one = seq![s[0]];
    assert(one.drop_last() =~= Seq::<u8>::empty());
    assert(replace_byte(Seq::<u8>::empty(), x, rep) =~= Seq::<u8>::empty());
    if s[0] == x {
        assert(replace_byte(one, x, rep) =~= rep);
    } else {
        assert(replace_byte(one, x, rep) =~= seq![s[0]]);
    }
}

/// Where `m` does not occur at `i`, replacing from `i` keeps `b[i]` and goes on.
proof fn lemma_replace_all_step(b: Seq<u8>, m: Seq<u8>, rep: Seq<u8>, i: int)
    requires
        0 <= i < b.len(),
        m.len() > 0,
        !occurs_at(b, m, i),
    ensures
        replace_all(b, m, rep, i) == seq![b[i]] + replace_all(b, m, rep, i + 1),
{
    assert(find_from(b, m, i) == find_from(b, m, i + 1));
    lemma_find_from(b, m, i + 1);
    match find_from(b, m, i + 1) {
        None => {
            assert(b.subrange(i, b.len() as int) =~= seq![b[i]] + b.subrange(i + 1, b.len() as int));
        },
        Some(j) => {
            assert(b.subrange(i, j) =~= seq![b[i]] + b.subrange(i + 1, j));
            assert(b.subrange(i, j) + rep + replace_all(b, m, rep, j + m.len()) =~= seq![b[i]] + (b.subrange(i + 1, j)
                + rep + replace_all(b, m, rep, j + m.len())));
        },
    }
}

/// Turning each `▁` back into a space undoes turning spaces into `▁`, in
/// text that holds no `▁` of its own.
proof fn lemma_unmark(pre: Seq<u8>, s: Seq<u8>)
    requires
        forall|x: int| !occurs_at(s, marker(), x),
    ensures
        replace_all(pre + replace_byte(s, 0x20, marker()), marker(), seq![0x20u8], pre.len() as int) == s,
    decreases s.len(),
{
    let mk = marker();
    let sp = seq![0x20u8];
    lemma_marker_bytes();
    let b = pre + replace_byte(s, 0x20, mk);
    let i = pre.len() as int;
    if s.len() == 0 {
        assert(replace_byte(s, 0x20, mk) =~= Seq::<u8>::empty());
        assert(find_from(b, mk, i) is None);
        assert(b.subrange(i, b.len() as int) =~= s);
    } else {
        let s1 = s.drop_first();
        assert forall|x: int| !occurs_at(s1, mk, x) by {
            if occurs_at(s1, mk, x) {
                assert(s.subrange(x + 1, x + 4) =~= s1.subrange(x, x + 3));
                assert(occurs_at(s, mk, x + 1));
            }
        }
        lemma_replace_byte_first(s, 0x20, mk);
        let r1 = replace_byte(s1, 0x20, mk);
        if s[0] == 0x20 {
            assert(b =~= (pre + mk) + r1);
            assert(b.subrange(i, i + 3) =~= mk);
            assert(occurs_at(b, mk, i));
            assert(find_from(b, mk, i) == Some(i));
            lemma_unmark(pre + mk, s1);
            assert(b.subrange(i, i) + sp + s1 =~= s);
        } else {
            assert(b =~= (pre + seq![s[0]]) + r1);
            if occurs_at(b, mk, i) {
                assert(b[i] == s[0]);
                assert(s[0] == 0xe2);
                assert(r1.len() >= 2);
                lemma_replace_byte_first(s1, 0x20, mk);
                assert(s1[0] != 0x20);
                assert(b[i + 1] == s1[0]);
                let s2 = s1.drop_first();
                lemma_replace_byte_first(s2, 0x20, mk);
                assert(s2[0] != 0x20);
                assert(b[i + 2] == s2[0]);
                assert(s.subrange(0, 3) =~= mk);
                assert(occurs_at(s, mk, 0));
            }
            lemma_replace_all_step(b, mk, sp, i);
            lemma_unmark(pre + seq![s[0]], s1);
            assert(seq![s[0]] + s1 =~= s);
        }
    }
}


/// Every id of `s` names a vocabulary entry.
pub open spec fn ids_in_vocab(vocab: Seq<Seq<u8>>, s: Seq<TokenId>) -> bool {
    forall|i: int| 0 <= i < s.len() ==> (#[trigger] s[i].0 as int) < vocab.len()
}

/// The bytes `cb` of one char are spelled by the symbols encoding starts
/// from: by the inverse vocabulary's token when it has one for them, else
/// by the fallback token of each byte.
pub open spec fn char_spelled(vocab: Seq<Seq<u8>>, inv: Map<Seq<u8>, TokenId>, fb: Seq<TokenId>, cb: Seq<u8>) -> bool {
    if inv.contains_key(cb) {
        (inv[cb].0 as int) < vocab.len() && vocab[inv[cb].0 as int] == cb
    } else {
        forall|k: int|
            0 <= k < cb.len() ==> (#[trigger] fb[cb[k] as int].0 as int) < vocab.len() && vocab[fb[cb[k] as int].0
                as int] == seq![cb[k]]
    }
}

/// Each char of `b` from byte `pos` on is spelled (see `char_spelled`).
pub open spec fn chars_spelled(vocab: Seq<Seq<u8>>, inv: Map<Seq<u8>, TokenId>, fb: Seq<TokenId>, b: Seq<u8>, pos: int) -> bool
    decreases b.len() + 4 - pos,
{
    if pos < 0 || pos >= b.len() {
        true
    } else {
        proof {
            lemma_width_pos(b, pos);
        }
        let w = width_at(b, pos);
        char_spelled(vocab, inv, fb, b.subrange(pos, pos + w)) && chars_spelled(vocab, inv, fb, b, pos + w)
    }
}

/// Every merge makes a vocabulary token whose bytes join those of its sides.
pub open spec fn merges_join(vocab: Seq<Seq<u8>>, rules: Map<(u32, u32), (u32, u32)>) -> bool {
    &&& merges_concatenate(vocab, rules)
    &&& forall|a: u32, b: u32| #[trigger] rules.contains_key((a, b)) ==> (rules[(a, b)].0 as int) < vocab.len()
}

/// Spaces turned into `▁`.
pub open spec fn spaces_marked(s: Seq<char>) -> Seq<char> {
    s.map_values(|c: char| if c == ' ' { '\u{2581}' } else { c })
}

proof fn lemma_scalar_bytes(v: u32)
    by (bit_vector)
    ensures
        has_width_1_encoding(v) && v != 32 ==> leading_byte_width_1(v) != 0x20,
        leading_byte_width_2(v) >= 0x80,
        leading_byte_width_3(v) >= 0x80,
        leading_byte_width_4(v) >= 0x80,
        last_continuation_byte(v) >= 0x80,
        second_last_continuation_byte(v) >= 0x80,
        third_last_continuation_byte(v) >= 0x80,
        has_width_1_encoding(v) && v == 32 ==> leading_byte_width_1(v) == 0x20,
{
}

/// Replacing the spaces of UTF-8 text by `▁` encodes the text with its
/// spaces marked.
proof fn lemma_replace_spaces(s: Seq<char>)
    ensures
        replace_byte(encode_utf8(s), 0x20, marker()) == encode_utf8(spaces_marked(s)),
    decreases s.len(),
{
    let mk = marker();
    if s.len() == 0 {
        assert(spaces_marked(s) =~= Seq::<char>::empty());
    } else {
        let c = s[0];
        let v = c as u32;
        let e = encode_scalar(v);
        lemma_replace_spaces(s.drop_first());
        assert(spaces_marked(s).drop_first() =~= spaces_marked(s.drop_first()));
        lemma_replace_byte_concat(e, encode_utf8(s.drop_first()), 0x20, mk);
        lemma_scalar_bytes(v);
        char_is_scalar(c);
        if c == ' ' {
            assert(v == 32);
            assert(e =~= seq![0x20u8]);
            assert(e.drop_last() =~= Seq::<u8>::empty());
            assert(replace_byte(e.drop_last(), 0x20, mk) =~= Seq::<u8>::empty());
            assert(e.last() == 0x20);
            assert(replace_byte(e, 0x20, mk) =~= mk);
            lemma_marker_bytes();
            assert(spaces_marked(s)[0] == '\u{2581}');
            assert(encode_scalar(spaces_marked(s)[0] as u32) =~= mk);
        } else {
            assert(spaces_marked(s)[0] == c);
            char_u32_cast(c, v);
            char_u32_cast(' ', 32u32);
            assert(v != 32);
            assert forall|k: int| 0 <= k < e.len() implies #[trigger] e[k] != 0x20 by {
                if has_width_1_encoding(v) {
                    assert(e == seq![leading_byte_width_1(v)]);
                } else if has_width_2_encoding(v) {
                    assert(e == seq![leading_byte_width_2(v), last_continuation_byte(v)]);
                    assert(k == 0 || k == 1);
                } else if has_width_3_encoding(v) {
                    assert(e == seq![leading_byte_width_3(v), second_last_continuation_byte(v), last_continuation_byte(v)]);
                    assert(k == 0 || k == 1 || k == 2);
                } else {
                    assert(e == seq![
                        leading_byte_width_4(v),
                        third_last_continuation_byte(v),
                        second_last_continuation_byte(v),
                        last_continuation_byte(v),
                    ]);
                    assert(k == 0 || k == 1 || k == 2 || k == 3);
                }
            }
            lemma_replace_plain(e, 0x20, mk, 0, e.len() as int);
            assert(e.subrange(0, e.len() as int) =~= e);
            assert(e.subrange(0, 0) =~= Seq::<u8>::empty());
            assert(replace_byte(Seq::<u8>::empty(), 0x20, mk) =~= Seq::<u8>::empty());
        }
    }
}

/// The normalization of UTF-8 text is UTF-8.
proof fn lemma_normalize_valid(s: Seq<char>)
    ensures
        valid_utf8(normalize_spec(encode_utf8(s))),
{
    let b = encode_utf8(s);
    if b.len() > 0 {
        lemma_replace_spaces(s);
        let t = seq!['\u{2581}'] + spaces_marked(s);
        assert(t[0] == '\u{2581}');
        assert(t.drop_first() =~= spaces_marked(s));
        lemma_marker_bytes();
        assert(encode_scalar(t[0] as u32) =~= marker());
        assert(encode_utf8(t) == normalize_spec(b));
        encode_utf8_valid_utf8(t);
    } else {
        assert(normalize_spec(b) =~= Seq::<u8>::empty());
    }
}

proof fn lemma_token_bytes_decode(vocab: Seq<Seq<u8>>, s: Seq<TokenId>)
    requires
        ids_in_vocab(vocab, s),
    ensures
        token_bytes(vocab, s) == decode_ids(vocab, s),
    decreases s.len(),
{
    if s.len() > 0 {
        assert(s.last() == s[s.len() - 1]);
        assert forall|i: int| 0 <= i < s.drop_last().len() implies (#[trigger] s.drop_last()[i].0 as int) < vocab.len() by {
            assert(s.drop_last()[i] == s[i]);
        }
        lemma_token_bytes_decode(vocab, s.drop_last());
    }
}

proof fn lemma_bpe_in_vocab(vocab: Seq<Seq<u8>>, rules: Map<(u32, u32), (u32, u32)>, s: Seq<TokenId>)
    requires
        ids_in_vocab(vocab, s),
        merges_join(vocab, rules),
    ensures
        ids_in_vocab(vocab, bpe(rules, s)),
    decreases s.len(),
{
    if s.len() >= 2 {
        match best_pair(rules, s) {
            None => {},
            Some((i, mg, _)) => {
                lemma_best_upto(rules, s, s.len() - 1);
                assert(rules.contains_key((s[i].0, s[i + 1].0)));
                let s2 = merge_at(s, i, TokenId(mg));
                assert forall|j: int| 0 <= j < s2.len() implies (#[trigger] s2[j].0 as int) < vocab.len() by {
                    if j < i {
                        assert(s2[j] == s[j]);
                    } else if j > i {
                        assert(s2[j] == s[j + 1]);
                    }
                }
                lemma_bpe_in_vocab(vocab, rules, s2);
            },
        }
    }
}

proof fn lemma_fallback_decode(vocab: Seq<Seq<u8>>, inv: Map<Seq<u8>, TokenId>, fb: Seq<TokenId>, cb: Seq<u8>, n: int)
    requires
        !inv.contains_key(cb),
        char_spelled(vocab, inv, fb, cb),
        0 <= n <= cb.len(),
    ensures
        ids_in_vocab(vocab, Seq::new(n as nat, |k: int| fb[cb[k] as int])),
        decode_ids(vocab, Seq::new(n as nat, |k: int| fb[cb[k] as int])) == cb.subrange(0, n),
    decreases n,
{
    let f = |k: int| fb[cb[k] as int];
    let sq = Seq::new(n as nat, f);
    if n > 0 {
        lemma_fallback_decode(vocab, inv, fb, cb, n - 1);
        assert(sq.drop_last() =~= Seq::new((n - 1) as nat, f));
        assert(sq.last() == fb[cb[n - 1] as int]);
        assert((fb[cb[n - 1] as int].0 as int) < vocab.len());
        assert(vocab[fb[cb[n - 1] as int].0 as int] == seq![cb[n - 1]]);
        assert(cb.subrange(0, n) =~= cb.subrange(0, n - 1) + seq![cb[n - 1]]);
        assert forall|i: int| 0 <= i < sq.len() implies (#[trigger] sq[i].0 as int) < vocab.len() by {
            assert(sq[i] == fb[cb[i] as int]);
            assert((fb[cb[i] as int].0 as int) < vocab.len());
        }
    } else {
        assert(sq =~= Seq::<TokenId>::empty());
        assert(cb.subrange(0, 0) =~= Seq::<u8>::empty());
    }
}

proof fn lemma_char_symbols_decode(vocab: Seq<Seq<u8>>, inv: Map<Seq<u8>, TokenId>, fb: Seq<TokenId>, b: Seq<u8>, pos: int)
    requires
        chars_spelled(vocab, inv, fb, b, pos),
        valid_from(b, pos),
    ensures
        ids_in_vocab(vocab, char_symbols(inv, fb, b, pos)),
        decode_ids(vocab, char_symbols(inv, fb, b, pos)) == b.subrange(pos, b.len() as int),
    decreases b.len() - pos,
{
    if pos >= b.len() {
        assert(b.subrange(pos, b.len() as int) =~= Seq::<u8>::empty());
    } else {
        lemma_step(b, pos);
        let w = width_at(b, pos);
        let cb = b.subrange(pos, pos + w);
        let here = if inv.contains_key(cb) {
            seq![inv[cb]]
        } else {
            Seq::new(w as nat, |k: int| fb[cb[k] as int])
        };
        let rest = char_symbols(inv, fb, b, pos + w);
        lemma_char_symbols_decode(vocab, inv, fb, b, pos + w);
        assert(char_symbols(inv, fb, b, pos) == here + rest);
        if inv.contains_key(cb) {
            assert(here.drop_last() =~= Seq::<TokenId>::empty());
            assert(decode_ids(vocab, here.drop_last()) =~= Seq::<u8>::empty());
            assert(here.last() == inv[cb]);
            assert(vocab[inv[cb].0 as int] == cb);
            assert(decode_ids(vocab, here) =~= cb);
        } else {
            lemma_fallback_decode(vocab, inv, fb, cb, w);
            assert(cb.subrange(0, w) =~= cb);
        }
        lemma_decode_concat(vocab, here, rest);
        assert(b.subrange(pos, b.len() as int) =~= cb + b.subrange(pos + w, b.len() as int));
        let all = here + rest;
        assert forall|i: int| 0 <= i < all.len() implies (#[trigger] all[i].0 as int) < vocab.len() by {
            if i < here.len() {
                assert(all[i] == here[i]);
            } else {
                assert(all[i] == rest[i - here.len()]);
            }
        }
    }
}

/// Decoding gives back the text: for a model without added tokens whose
/// vocabulary spells each char of the normalized text (as its own token or
/// byte by byte through the fallback tokens) and whose merges join the
/// bytes of their two sides, decoding the raw encoding of text that holds
/// no `▁` gives the text back.
pub proof fn law_decode_inverts_encode_raw(m: SentencePieceBPE, s: Seq<char>)
    requires
        m.added_view().len() == 0,
        chars_spelled(m.vocab_view(), m.vocab_inv_view(), m.fallback_view(), normalize_spec(encode_utf8(s)), 0),
        merges_join(m.vocab_view(), m.rules()),
        forall|x: int| !occurs_at(encode_utf8(s), marker(), x),
    ensures
        strip_leading_space(
            replace_all(
                bytes_of(lossy_text(token_bytes(m.vocab_view(), m.raw_tokens(encode_utf8(s))))),
                marker(),
                seq![0x20u8],
                0,
            ),
        ) == encode_utf8(s),
{
    let vocab = m.vocab_view();
    let b = encode_utf8(s);
    let n = normalize_spec(b);
    lemma_normalize_valid(s);
    assert(n.subrange(0, n.len() as int) =~= n);
    lemma_char_symbols_decode(vocab, m.vocab_inv_view(), m.fallback_view(), n, 0);
    let syms = char_symbols(m.vocab_inv_view(), m.fallback_view(), n, 0);
    lemma_bpe_in_vocab(vocab, m.rules(), syms);
    lemma_decode_bpe(vocab, m.rules(), syms);
    lemma_token_bytes_decode(vocab, bpe(m.rules(), syms));
    assert(m.raw_tokens(b) == bpe(m.rules(), syms));
    assert(token_bytes(vocab, m.raw_tokens(b)) == n);
    decode_utf8_encode_utf8(n);
    assert(bytes_of(lossy_text(n)) == n);
    lemma_marker_bytes();
    let sp = seq![0x20u8];
    if b.len() == 0 {
        assert(n =~= Seq::<u8>::empty());
        assert(find_from(n, marker(), 0) is None);
        assert(replace_all(n, marker(), sp, 0) =~= Seq::<u8>::empty());
    } else {
        let mk = marker();
        assert(n == mk + replace_byte(b, 0x20, mk));
        assert(n.subrange(0, 3) =~= mk);
        assert(occurs_at(n, mk, 0));
        assert(find_from(n, mk, 0) == Some(0int));
        lemma_unmark(mk, b);
        assert(replace_all(n, mk, sp, 0) =~= n.subrange(0, 0) + sp + b);
        assert((sp + b).drop_first() =~= b);
    }
}


/// Encodes texts with a model; one per thread.
pub struct Encoder<'a> {
    pub model: &'a SentencePieceBPE,
}

impl<'a> Encoder<'a> {
    /// Encodes normalized text: chars to symbols, then merges.
    pub fn encode_normalized(&mut self, input: &str) -> (r: Vec<TokenId>)
        requires
            old(self).model.wf(),
        ensures
            final(self).model == old(self).model,
            r@ == old(self).model.normalized_tokens(input.spec_bytes()),
    {
        let m = self.model;
        let b = input.as_bytes();
        let ghost inv = m.vocab_inv_view();
        let ghost fb = m.fallback_view();
        let mut symbols: Vec<TokenId> = Vec::new();
        let mut pos: usize = 0;
        proof {
            encode_utf8_valid_utf8(input@);
            assert(suffix(b@, 0) =~= b@);
        }
        while pos < b.len()
            invariant
                m.wf(),
                inv == m.vocab_inv_view(),
                fb == m.fallback_view(),
                valid_from(b@, pos as int),
                symbols@ + char_symbols(inv, fb, b@, pos as int) == char_symbols(inv, fb, b@, 0),
            decreases b@.len() - pos,
        {
            proof {
                lemma_step(b@, pos as int);
            }
            let (_, w) = next_codepoint_and_length(b, pos);
            let cb = vstd::slice::slice_subrange(b, pos, pos + w);
            let ghost before = symbols@;
            match m.vocab_inv.get(cb) {
                Some(id) => {
                    symbols.push(*id);
                },
                None => {
                    let mut k: usize = 0;
                    while k < w
                        invariant
                            m.wf(),
                            fb == m.fallback_view(),
                            k <= w,
                            cb@.len() == w,
                            symbols@ == before + Seq::new(k as nat, |x: int| fb[cb@[x] as int]),
                        decreases w - k,
                    {
                        symbols.push(m.byte_fallback_ids[cb[k] as usize]);
                        proof {
                            assert(symbols@ =~= before + Seq::new((k + 1) as nat, |x: int| fb[cb@[x] as int]));
                        }
                        k += 1;
                    }
                },
            }
            proof {
                let here = if inv.contains_key(cb@) {
                    seq![inv[cb@]]
                } else {
                    Seq::new(w as nat, |x: int| fb[cb@[x] as int])
                };
                assert(char_symbols(inv, fb, b@, pos as int) == here + char_symbols(inv, fb, b@, pos + w));
                assert(symbols@ =~= before + here);
            }
            pos += w;
        }
        proof {
            assert(char_symbols(inv, fb, b@, pos as int) =~= Seq::<TokenId>::empty());
            assert(symbols@ + Seq::<TokenId>::empty() =~= symbols@);
        }
        bpe_merge(&mut symbols, &m.merges);
        symbols
    }

    /// Encodes raw text: splits out added tokens, normalizes and encodes the
    /// text around them.
    pub fn encode_raw(&mut self, input: &str) -> (r: Vec<TokenId>)
        requires
            old(self).model.wf(),
        ensures
            final(self).model == old(self).model,
            r@ == old(self).model.raw_tokens(input.spec_bytes()),
        decreases input.spec_bytes().len(),
    {
        let m = self.model;
        if m.added_tokens.len() == 0 {
            let normalized = SentencePieceBPE::normalize(input);
            return self.encode_normalized(normalized.as_str());
        }
        let b = input.as_bytes();
        if b.len() == 0 {
            return Vec::new();
        }
        let ghost added = m.added_view();
        let mut best: Option<(usize, usize)> = None;
        let mut t: usize = 0;
        while t < m.added_tokens.len()
            invariant
                m.wf(),
                added == m.added_view(),
                t <= added.len(),
                b@ == input.spec_bytes(),
                b@.len() > 0,
                match earliest_added(added, b@, t as int) {
                    None => best is None,
                    Some((p, i)) => best matches Some((p2, i2)) && p2 == p && i2 == i,
                },
            decreases added.len() - t,
        {
            let content = m.added_tokens[t].0.as_str().as_bytes();
            proof {
                assert(content@ == added[t as int].0);
                assert(content@.len() > 0) by {
                    assert(m.added_tokens@[t as int].0@.len() > 0);
                    if content@.len() == 0 {
                        encode_utf8_first_scalar(m.added_tokens@[t as int].0@);
                    }
                }
            }
            match find_separator(b, content, 0) {
                Some(p) => {
                    let better = match best {
                        None => true,
                        Some((q, _)) => p < q,
                    };
                    if better {
                        best = Some((p, t));
                    }
                },
                None => {},
            }
            t += 1;
        }
        proof {
            lemma_earliest_added(added, b@, added.len() as int);
        }
        match best {
            None => {
                let normalized = SentencePieceBPE::normalize(input);
                self.encode_normalized(normalized.as_str())
            },
            Some((p, i)) => {
                let content = m.added_tokens[i].0.as_str();
                let cb = content.as_bytes();
                let id = m.added_tokens[i].1;
                let n = b.len();
                proof {
                    lemma_find_from(b@, cb@, 0);
                    assert(p + cb@.len() <= n);
                }
                let e = p + cb.len();
                proof {
                    assert(cb@ == added[i as int].0);
                    encode_utf8_valid_utf8(input@);
                    encode_utf8_valid_utf8(content@);
                    assert(cb@.len() > 0) by {
                        assert(m.added_tokens@[i as int].0@.len() > 0);
                        if cb@.len() == 0 {
                            encode_utf8_first_scalar(content@);
                        }
                    }
                    assert(b@[p as int] == cb@[0]) by {
                        assert(b@.subrange(p as int, e as int)[0] == b@[p as int]);
                    }
                    assert(valid_first_scalar(cb@));
                    lemma_boundary(b@, p as int);
                    assert(suffix(b@, p as int) =~= cb@ + suffix(b@, e as int));
                    valid_utf8_split(b@, p as int);
                    lemma_valid_prefix_rest(cb@, suffix(b@, e as int));
                    if e < b@.len() {
                        assert(suffix(b@, e as int)[0] == b@[e as int]);
                        assert(valid_first_scalar(suffix(b@, e as int)));
                    }
                    lemma_boundary(b@, e as int);
                }
                let (head, _) = input.split_at(p);
                let (_, rest) = input.split_at(e);
                let mut result: Vec<TokenId> = Vec::new();
                if p > 0 {
                    let normalized = SentencePieceBPE::normalize(head);
                    result = self.encode_normalized(normalized.as_str());
                }
                result.push(id);
                proof {
                    assert(rest.spec_bytes().len() < input.spec_bytes().len());
                }
                let mut tail = self.encode_raw(rest);
                result.append(&mut tail);
                proof {
                    assert(head.spec_bytes() =~= b@.subrange(0, p as int));
                    assert(rest.spec_bytes() =~= b@.subrange(e as int, b@.len() as int));
                }
                result
            },
        }
    }
}

} // verus!
