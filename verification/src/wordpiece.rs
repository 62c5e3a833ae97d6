//! WordPiece (BERT family): split text into words on whitespace and
//! punctuation, isolating each CJK char, then greedily longest-match each
//! word against the vocabulary, continuation pieces carrying a `##` prefix.
use vstd::prelude::*;
use vstd::utf8::*;
use vstd::slice::slice_subrange;
use crate::bytemap::ByteMap;
use crate::unicode::{
    decode_chars, push_utf8_range, valid_from, lemma_step, lemma_valid_range, lemma_valid_from_boundary,
    unicode_lowercase, unicode_nfd, unicode_general_category, general_category, all_ascii, to_lowercase, nfd,
    ascii_lower_char,
};
use crate::sentencepiece::{lossy_text, from_utf8_lossy};
use vstd::string::*;

verus! {

/// Whitespace bytes (BERT BasicTokenizer rules): space, `\t \n \r`, form feed, vertical tab.
pub open spec fn is_whitespace_spec(b: u8) -> bool {
    b == 32 || b == 9 || b == 10 || b == 13 || b == 0x0c || b == 0x0b
}

pub fn is_whitespace(b: u8) -> (r: bool)
    ensures
        r == is_whitespace_spec(b),
{
    b == 32 || b == 9 || b == 10 || b == 13 || b == 0x0c || b == 0x0b
}

/// ASCII control bytes.
pub open spec fn is_control_spec(b: u8) -> bool {
    b < 0x20 || b == 0x7f
}

pub fn is_control(b: u8) -> (r: bool)
    ensures
        r == is_control_spec(b),
{
    b < 0x20 || b == 0x7f
}

/// ASCII punctuation: `!` to `/`, `:` to `@`, `[` to `` ` ``, `{` to `~`.
pub open spec fn is_punct_spec(b: u8) -> bool {
    (0x21 <= b <= 0x2f) || (0x3a <= b <= 0x40) || (0x5b <= b <= 0x60) || (0x7b <= b <= 0x7e)
}

pub fn is_punct(b: u8) -> (r: bool)
    ensures
        r == is_punct_spec(b),
{
    (0x21 <= b && b <= 0x2f) || (0x3a <= b && b <= 0x40) || (0x5b <= b && b <= 0x60) || (0x7b <= b
        && b <= 0x7e)
}

/// Lead byte of a 3-byte UTF-8 CJK Unified Ideograph (BERT isolates each CJK char).
pub open spec fn is_cjk_lead_spec(b: u8) -> bool {
    0xe4 <= b <= 0xe9
}

pub fn is_cjk_lead(b: u8) -> (r: bool)
    ensures
        r == is_cjk_lead_spec(b),
{
    0xe4 <= b && b <= 0xe9
}

/// A byte where a word ends: whitespace, control, punctuation or a CJK lead byte.
pub open spec fn is_boundary_start_spec(b: u8) -> bool {
    is_whitespace_spec(b) || is_control_spec(b) || is_punct_spec(b) || is_cjk_lead_spec(b)
}

fn is_boundary_start(b: u8) -> (r: bool)
    ensures
        r == is_boundary_start_spec(b),
{
    is_whitespace(b) || is_control(b) || is_punct(b) || is_cjk_lead(b)
}

/// The first position at or after `p` that is not whitespace or control.
pub open spec fn skip_separators(b: Seq<u8>, p: int) -> int
    decreases b.len() - p,
{
    if 0 <= p < b.len() && (is_whitespace_spec(b[p]) || is_control_spec(b[p])) {
        skip_separators(b, p + 1)
    } else {
        p
    }
}

/// The first position at or after `p` holding a boundary byte (or the end).
pub open spec fn word_end(b: Seq<u8>, p: int) -> int
    decreases b.len() - p,
{
    if 0 <= p < b.len() && !is_boundary_start_spec(b[p]) {
        word_end(b, p + 1)
    } else {
        p
    }
}

/// The next word at or after `p`: `(start, end)`, or `None` at the end.
pub open spec fn next_span(b: Seq<u8>, p: int) -> Option<(int, int)> {
    let q = skip_separators(b, p);
    if q >= b.len() {
        None
    } else if is_cjk_lead_spec(b[q]) && q + 3 <= b.len() {
        Some((q, q + 3))
    } else if is_punct_spec(b[q]) {
        Some((q, q + 1))
    } else {
        Some((q, word_end(b, q)))
    }
}

pub proof fn lemma_skip_bounds(b: Seq<u8>, p: int)
    requires
        0 <= p <= b.len(),
    ensures
        p <= skip_separators(b, p) <= b.len(),
        skip_separators(b, p) < b.len() ==> !is_whitespace_spec(b[skip_separators(b, p)])
            && !is_control_spec(b[skip_separators(b, p)]),
        forall|x: int| p <= x < skip_separators(b, p) ==> is_whitespace_spec(#[trigger] b[x]) || is_control_spec(b[x]),
    decreases b.len() - p,
{
    if p < b.len() && (is_whitespace_spec(b[p]) || is_control_spec(b[p])) {
        lemma_skip_bounds(b, p + 1);
    }
}

pub proof fn lemma_word_end_bounds(b: Seq<u8>, p: int)
    requires
        0 <= p <= b.len(),
    ensures
        p <= word_end(b, p) <= b.len(),
        word_end(b, p) < b.len() ==> is_boundary_start_spec(b[word_end(b, p)]),
    decreases b.len() - p,
{
    if p < b.len() && !is_boundary_start_spec(b[p]) {
        lemma_word_end_bounds(b, p + 1);
    }
}

/// Yields the byte ranges of the words of a text, per WordPiece rules.
pub struct SpanIter<'a> {
    bytes: &'a [u8],
    pos: usize,
}

impl<'a> SpanIter<'a> {
    pub closed spec fn bytes_view(&self) -> Seq<u8> {
        self.bytes@
    }

    pub closed spec fn pos_view(&self) -> int {
        self.pos as int
    }

    pub fn new(bytes: &'a [u8]) -> (r: Self)
        ensures
            r.bytes_view() == bytes@,
            r.pos_view() == 0,
            0 <= r.pos_view(),
    {
        Self { bytes, pos: 0 }
    }

    /// The next word.
    pub fn next(&mut self) -> (r: Option<&'a [u8]>)
        requires
            old(self).pos_view() <= old(self).bytes_view().len(),
        ensures
            final(self).bytes_view() == old(self).bytes_view(),
            0 <= final(self).pos_view() <= final(self).bytes_view().len(),
            match next_span(old(self).bytes_view(), old(self).pos_view()) {
                None => r is None && final(self).pos_view() == old(self).bytes_view().len(),
                Some((s, e)) => r matches Some(w) && w@ == old(self).bytes_view().subrange(s, e)
                    && final(self).pos_view() == e,
            },
    {
        let b = self.bytes;
        let ghost p0 = self.pos as int;
        proof {
            lemma_skip_bounds(b@, p0);
        }
        while self.pos < b.len()
            invariant
                self.bytes == b,
                b == old(self).bytes,
                p0 == old(self).pos,
                p0 <= self.pos <= b@.len(),
                skip_separators(b@, p0) == skip_separators(b@, self.pos as int),
            decreases b@.len() - self.pos,
        {
            let cur = b[self.pos];
            // A lone CJK char is its own word.
            if is_cjk_lead(cur) && b.len() - self.pos >= 3 {
                let s = self.pos;
                self.pos += 3;
                return Some(slice_subrange(b, s, self.pos));
            }
            // Punctuation is its own 1-byte word (BERT isolates it).
            if is_punct(cur) {
                let s = self.pos;
                self.pos += 1;
                return Some(slice_subrange(b, s, self.pos));
            }
            // Whitespace/control are separators, not tokens: skip them.
            if is_whitespace(cur) || is_control(cur) {
                self.pos += 1;
                continue;
            }
            // start of a real word
            let start = self.pos;
            proof {
                lemma_word_end_bounds(b@, start as int);
            }
            while self.pos < b.len() && !is_boundary_start(b[self.pos])
                invariant
                    self.bytes == b,
                    b == old(self).bytes,
                    start <= self.pos <= b@.len(),
                    word_end(b@, start as int) == word_end(b@, self.pos as int),
                decreases b@.len() - self.pos,
            {
                self.pos += 1;
            }
            return Some(slice_subrange(b, start, self.pos));
        }
        None
    }
}

/// The words of `b` from `p` on.
pub open spec fn words_from(b: Seq<u8>, p: int) -> Seq<Seq<u8>>
    decreases b.len() - p,
{
    match next_span(b, p) {
        None => seq![],
        Some((s, e)) => if p < e <= b.len() {
            seq![b.subrange(s, e)] + words_from(b, e)
        } else {
            seq![]
        },
    }
}

/// In valid UTF-8, each word is nonempty valid UTF-8 and the scan goes on
/// from a char start.
pub proof fn lemma_next_span_valid(b: Seq<u8>, p: int)
    requires
        valid_utf8(b),
        valid_from(b, p),
    ensures
        next_span(b, p) matches Some((s, e)) ==> p <= s < e <= b.len() && valid_utf8(b.subrange(s, e))
            && valid_from(b, e),
{
    lemma_skip_bounds(b, p);
    let q = skip_separators(b, p);
    if q < b.len() {
        // the separators skipped are ASCII, so `q` is a char start
        assert(!is_continuation_byte(b[q])) by {
            if q > p {
                assert(is_whitespace_spec(b[q - 1]) || is_control_spec(b[q - 1]));
                lemma_valid_from_boundary(b, q - 1);
                lemma_ascii_then_boundary(b, q - 1);
            } else {
                lemma_start_not_continuation(b, p);
            }
        }
        lemma_valid_from_boundary(b, q);
        lemma_step(b, q);
        if is_cjk_lead_spec(b[q]) && q + 3 <= b.len() {
            lemma_step(b, q);
            assert(crate::unicode::width_at(b, q) == 3);
            crate::unicode::lemma_step(b, q);
            lemma_valid_range_from(b, q, q + 3);
        } else if is_punct_spec(b[q]) {
            lemma_valid_range_from(b, q, q + 1);
        } else {
            lemma_word_end_bounds(b, q);
            let e = word_end(b, q);
            if is_cjk_lead_spec(b[q]) {
                // a CJK lead byte starts a 3-byte char
                let sfx = crate::unicode::suffix(b, q);
                assert(sfx[0] == b[q]);
                assert(q + 3 <= b.len());
            }
            assert(e > q);
            if e < b.len() {
                assert(is_boundary_start_spec(b[e]));
                assert(!is_continuation_byte(b[e]));
            }
            lemma_valid_range(b, q, e);
        }
    }
}

proof fn lemma_ascii_then_boundary(b: Seq<u8>, i: int)
    requires
        valid_from(b, i),
        0 <= i < b.len(),
        b[i] < 128,
        valid_utf8(b),
    ensures
        i + 1 == b.len() || !is_continuation_byte(b[i + 1]),
{
    lemma_step(b, i);
    if i + 1 < b.len() {
        let sfx = crate::unicode::suffix(b, i + 1);
        assert(sfx[0] == b[i + 1]);
    }
}

proof fn lemma_start_not_continuation(b: Seq<u8>, p: int)
    requires
        valid_from(b, p),
        0 <= p < b.len(),
    ensures
        !is_continuation_byte(b[p]),
{
    let sfx = crate::unicode::suffix(b, p);
    assert(sfx[0] == b[p]);
}

proof fn lemma_valid_range_from(b: Seq<u8>, q: int, e: int)
    requires
        valid_utf8(b),
        valid_from(b, q),
        q < e <= b.len(),
        e == q + crate::unicode::width_at(b, q),
    ensures
        valid_utf8(b.subrange(q, e)),
        valid_from(b, e),
{
    lemma_step(b, q);
    lemma_start_not_continuation(b, q);
    if e < b.len() {
        lemma_start_not_continuation(b, e);
    }
    lemma_valid_range(b, q, e);
}

/// The key of the piece `cs[i..end]`: with a `##` prefix unless it starts the word.
pub open spec fn piece_key(cs: Seq<char>, i: int, end: int) -> Seq<u8> {
    if i == 0 {
        encode_utf8(cs.subrange(i, end))
    } else {
        seq![35u8, 35u8] + encode_utf8(cs.subrange(i, end))
    }
}

/// The longest piece `cs[i..end]` with `i < end <= hi` in the vocabulary.
pub open spec fn longest_match(vocab: Map<Seq<u8>, u32>, cs: Seq<char>, i: int, hi: int) -> Option<int>
    decreases hi - i,
{
    if hi <= i {
        None
    } else if vocab.contains_key(piece_key(cs, i, hi)) {
        Some(hi)
    } else {
        longest_match(vocab, cs, i, hi - 1)
    }
}

pub proof fn lemma_longest_match(vocab: Map<Seq<u8>, u32>, cs: Seq<char>, i: int, hi: int)
    ensures
        longest_match(vocab, cs, i, hi) matches Some(e) ==> i < e <= hi && vocab.contains_key(
            piece_key(cs, i, e),
        ),
    decreases hi - i,
{
    if hi > i && !vocab.contains_key(piece_key(cs, i, hi)) {
        lemma_longest_match(vocab, cs, i, hi - 1);
    }
}

/// Greedy longest-match ids of `cs` from char `i` on: a piece at most
/// `max_piece` chars long per step, `unk` for a char that starts no piece.
pub open spec fn greedy_ids(vocab: Map<Seq<u8>, u32>, unk: u32, max_piece: int, cs: Seq<char>, i: int) -> Seq<u32>
    decreases cs.len() - i,
{
    if i >= cs.len() {
        seq![]
    } else {
        let hi = if i + max_piece < cs.len() {
            i + max_piece
        } else {
            cs.len() as int
        };
        proof {
            lemma_longest_match(vocab, cs, i, hi);
        }
        match longest_match(vocab, cs, i, hi) {
            Some(e) => seq![vocab[piece_key(cs, i, e)]] + greedy_ids(vocab, unk, max_piece, cs, e),
            None => seq![unk] + greedy_ids(vocab, unk, max_piece, cs, i + 1),
        }
    }
}

/// WordPiece tokenizer over a vocabulary of `piece -> id`.
/// The chars of `cs` that are not nonspacing marks (general category Mn,
/// ICU discriminant 6).
pub open spec fn strip_marks(cs: Seq<char>) -> Seq<char>
    decreases cs.len(),
{
    if cs.len() == 0 {
        seq![]
    } else if unicode_general_category(cs.last()) == 6 {
        strip_marks(cs.drop_last())
    } else {
        strip_marks(cs.drop_last()).push(cs.last())
    }
}

/// BERT's accent stripping: canonical decomposition, then the nonspacing
/// marks dropped. ASCII text has no accents and stays as it is.
pub open spec fn strip_accents(cs: Seq<char>) -> Seq<char> {
    if all_ascii(cs) {
        cs
    } else {
        strip_marks(unicode_nfd(cs))
    }
}

/// The lowercase of `cs`: on ASCII text `A`-`Z` become `a`-`z`.
pub open spec fn lower_chars(cs: Seq<char>) -> Seq<char> {
    if all_ascii(cs) {
        cs.map_values(|c: char| ascii_lower_char(c))
    } else {
        unicode_lowercase(cs)
    }
}

/// The chars matched for a word: its bytes decoded (invalid sequences
/// replaced), and, with lowercasing on, lowercased and stripped of accents
/// (`bert-base-uncased`).
pub open spec fn word_chars(word: Seq<u8>, lowercase: bool) -> Seq<char> {
    let cs = lossy_text(word);
    if lowercase {
        strip_accents(lower_chars(cs))
    } else {
        cs
    }
}

/// Lowercases `cs` and strips its accents.
fn lowercase_strip_accents(cs: &Vec<char>) -> (r: Vec<char>)
    ensures
        r@ == strip_accents(lower_chars(cs@)),
{
    let low = to_lowercase(cs);
    let mut ascii = true;
    let mut i: usize = 0;
    while i < low.len()
        invariant
            i <= low@.len(),
            ascii == (forall|j: int| 0 <= j < i ==> (#[trigger] low@[j] as u32) < 128),
        decreases low@.len() - i,
    {
        if (low[i] as u32) >= 128 {
            ascii = false;
        }
        i += 1;
    }
    if ascii {
        return low;
    }
    let d = nfd(&low);
    let mut out: Vec<char> = Vec::new();
    let mut k: usize = 0;
    proof {
        assert(d@.take(0) =~= Seq::<char>::empty());
    }
    while k < d.len()
        invariant
            k <= d@.len(),
            out@ == strip_marks(d@.take(k as int)),
        decreases d@.len() - k,
    {
        let c = d[k];
        let gc = general_category(c);
        proof {
            assert(d@.take(k + 1).drop_last() =~= d@.take(k as int));
            assert(d@.take(k + 1).last() == c);
        }
        if gc != 6 {
            out.push(c);
        }
        k += 1;
    }
    proof {
        assert(d@.take(d@.len() as int) =~= d@);
    }
    out
}

pub struct WordPieceTokenizer {
    vocab: ByteMap<u32>,
    unk_id: u32,
    max_piece: usize,
    lowercase: bool,
}

impl WordPieceTokenizer {
    /// The vocabulary, keyed by the UTF-8 bytes of each piece.
    pub closed spec fn vocab_view(&self) -> Map<Seq<u8>, u32> {
        self.vocab.map_view()
    }

    pub closed spec fn unk_view(&self) -> u32 {
        self.unk_id
    }

    /// The byte length of the longest piece.
    pub closed spec fn max_piece_view(&self) -> int {
        self.max_piece as int
    }

    pub closed spec fn lowercase_view(&self) -> bool {
        self.lowercase
    }

    pub closed spec fn wf(&self) -> bool {
        self.vocab.wf()
    }

    /// The ids of one word.
    pub open spec fn word_ids(&self, word: Seq<u8>) -> Seq<u32> {
        greedy_ids(self.vocab_view(), self.unk_view(), self.max_piece_view(), word_chars(word, self.lowercase_view()), 0)
    }

    /// The ids of the words of `b` from `p` on.
    pub open spec fn ids_from(&self, b: Seq<u8>, p: int) -> Seq<u32>
        decreases b.len() - p,
    {
        match next_span(b, p) {
            None => seq![],
            Some((s, e)) => if p < e <= b.len() {
                self.word_ids(b.subrange(s, e)) + self.ids_from(b, e)
            } else {
                seq![]
            },
        }
    }

    /// A tokenizer over `vocab` (pairs `piece, id`; a later pair for the same
    /// piece wins), with `unk_id` for chars that start no piece.
    pub fn new(vocab: Vec<(String, u32)>, unk_id: u32) -> (r: Self)
        ensures
            r.wf(),
            r.unk_view() == unk_id,
            !r.lowercase_view(),
            forall|k: Seq<u8>| #[trigger] r.vocab_view().contains_key(k) <==> exists|i: int|
                0 <= i < vocab@.len() && vocab@[i].0@.len() >= 0 && encode_utf8(vocab@[i].0@) == k,
            forall|i: int| 0 <= i < vocab@.len() && (forall|j: int| i < j < vocab@.len() ==> encode_utf8(vocab@[j].0@) != encode_utf8(vocab@[i].0@))
                ==> #[trigger] r.vocab_view()[encode_utf8(vocab@[i].0@)] == vocab@[i].1,
            forall|k: Seq<u8>| #[trigger] r.vocab_view().contains_key(k) ==> k.len() <= r.max_piece_view(),
            r.max_piece_view() == 0 || exists|k: Seq<u8>| #[trigger] r.vocab_view().contains_key(k) && k.len() == r.max_piece_view(),
    {
        let mut map: ByteMap<u32> = ByteMap::new();
        let mut max_piece: usize = 0;
        let mut i: usize = 0;
        while i < vocab.len()
            invariant
                map.wf(),
                i <= vocab@.len(),
                forall|k: Seq<u8>| #[trigger] map.map_view().contains_key(k) <==> exists|j: int|
                    0 <= j < i && vocab@[j].0@.len() >= 0 && encode_utf8(vocab@[j].0@) == k,
                forall|j: int| 0 <= j < i && (forall|x: int| j < x < i ==> encode_utf8(vocab@[x].0@) != encode_utf8(vocab@[j].0@))
                    ==> #[trigger] map.map_view()[encode_utf8(vocab@[j].0@)] == vocab@[j].1,
                forall|k: Seq<u8>| #[trigger] map.map_view().contains_key(k) ==> k.len() <= max_piece,
                max_piece == 0 || exists|k: Seq<u8>| #[trigger] map.map_view().contains_key(k) && k.len() == max_piece,
            decreases vocab@.len() - i,
        {
            let key = vocab[i].0.as_str().as_bytes();
            let id = vocab[i].1;
            let ghost before = map.map_view();
            let ghost old_max = max_piece;
            map.insert(key, id);
            if key.len() > max_piece {
                max_piece = key.len();
            }
            proof {
                let ki = encode_utf8(vocab@[i as int].0@);
                assert(key@ == ki);
                assert forall|k: Seq<u8>| #[trigger] map.map_view().contains_key(k) <==> exists|j: int|
                    0 <= j < i + 1 && vocab@[j].0@.len() >= 0 && encode_utf8(vocab@[j].0@) == k by {
                    if k == ki {
                        assert(vocab@[i as int].0@.len() >= 0);
                    } else if before.contains_key(k) {
                        let j = choose|j: int| 0 <= j < i && vocab@[j].0@.len() >= 0 && encode_utf8(vocab@[j].0@) == k;
                        assert(0 <= j < i + 1);
                    }
                }
                assert forall|j: int| 0 <= j < i + 1 && (forall|x: int| j < x < i + 1 ==> encode_utf8(vocab@[x].0@) != encode_utf8(vocab@[j].0@))
                    implies #[trigger] map.map_view()[encode_utf8(vocab@[j].0@)] == vocab@[j].1 by {
                    if j < i {
                        assert(encode_utf8(vocab@[i as int].0@) != encode_utf8(vocab@[j].0@));
                    }
                }
                if max_piece == key.len() {
                    assert(map.map_view().contains_key(ki));
                } else if old_max > 0 {
                    let k0 = choose|k: Seq<u8>| #[trigger] before.contains_key(k) && k.len() == old_max;
                    assert(map.map_view().contains_key(k0));
                }
            }
            i += 1;
        }
        let r = WordPieceTokenizer { vocab: map, unk_id, max_piece, lowercase: false };
        proof {
            if max_piece > 0 {
                let k0 = choose|k: Seq<u8>| #[trigger] map.map_view().contains_key(k) && k.len() == max_piece;
                assert(r.vocab_view().contains_key(k0));
            }
        }
        r
    }

    /// With BERT-style lowercasing and accent stripping before matching
    /// (`bert-base-uncased`) on or off.
    pub fn with_lowercase(self, on: bool) -> (r: Self)
        ensures
            r.vocab_view() == self.vocab_view(),
            r.unk_view() == self.unk_view(),
            r.max_piece_view() == self.max_piece_view(),
            r.lowercase_view() == on,
            r.wf() == self.wf(),
    {
        let mut t = self;
        t.lowercase = on;
        t
    }

    /// Greedy longest-match encode of one word into token ids; bytes that
    /// are not UTF-8 decode to replacement chars.
    fn encode_word(&self, word: &[u8]) -> (r: Vec<u32>)
        requires
            self.wf(),
        ensures
            r@ == self.word_ids(word@),
    {
        let text = from_utf8_lossy(word);
        let tb = text.as_str().as_bytes();
        proof {
            encode_utf8_valid_utf8(text@);
            encode_utf8_decode_utf8(text@);
        }
        let chars0 = decode_chars(tb);
        let chars = if self.lowercase {
            lowercase_strip_accents(&chars0)
        } else {
            chars0
        };
        let ghost cs = chars@;
        let n = chars.len();
        let mut out: Vec<u32> = Vec::new();
        let mut i: usize = 0;
        let ghost vocab = self.vocab_view();
        let ghost mp = self.max_piece as int;
        while i < n
            invariant
                self.wf(),
                n == cs.len(),
                cs == chars@,
                vocab == self.vocab_view(),
                mp == self.max_piece as int,
                i <= n,
                out@ + greedy_ids(vocab, self.unk_id, mp, cs, i as int) == greedy_ids(vocab, self.unk_id, mp, cs, 0),
            decreases n - i,
        {
            let hi: usize = if self.max_piece < n - i {
                i + self.max_piece
            } else {
                n
            };
            let mut matched: Option<u32> = None;
            let mut end = hi;
            proof {
                lemma_longest_match(vocab, cs, i as int, hi as int);
            }
            while end > i
                invariant_except_break
                    matched is None,
                invariant
                    self.wf(),
                    cs == chars@,
                    vocab == self.vocab_view(),
                    i <= hi <= n,
                    n == cs.len(),
                    i <= end <= hi,
                    longest_match(vocab, cs, i as int, hi as int) == longest_match(vocab, cs, i as int, end as int),
                ensures
                    matched matches Some(id) ==> longest_match(vocab, cs, i as int, hi as int) == Some(end as int)
                        && id == vocab[piece_key(cs, i as int, end as int)],
                    matched is None ==> longest_match(vocab, cs, i as int, hi as int) is None,
                decreases end - i,
            {
                let mut key: Vec<u8> = Vec::new();
                if i > 0 {
                    key.push(35u8);
                    key.push(35u8);
                }
                let ghost pre = key@;
                push_utf8_range(&mut key, &chars, i, end);
                proof {
                    assert(key@ =~= piece_key(cs, i as int, end as int));
                }
                match self.vocab.get(key.as_slice()) {
                    Some(id) => {
                        matched = Some(*id);
                        break;
                    },
                    None => {},
                }
                end -= 1;
            }
            let ghost rest_i = i;
            match matched {
                Some(id) => {
                    out.push(id);
                    i = end;
                },
                None => {
                    out.push(self.unk_id);
                    i += 1;
                },
            }
            proof {
                assert(greedy_ids(vocab, self.unk_id, mp, cs, rest_i as int) == seq![out@.last()] + greedy_ids(vocab, self.unk_id, mp, cs, i as int));
                assert(out@ + greedy_ids(vocab, self.unk_id, mp, cs, i as int) =~= out@.drop_last() + greedy_ids(vocab, self.unk_id, mp, cs, rest_i as int));
            }
        }
        proof {
            assert(greedy_ids(vocab, self.unk_id, mp, cs, n as int) =~= Seq::<u32>::empty());
            assert(out@ + Seq::<u32>::empty() =~= out@);
        }
        out
    }

    /// The ids of `text`: its words, each greedily matched.
    pub fn encode(&self, text: &str) -> (r: Vec<u32>)
        requires
            self.wf(),
        ensures
            r@ == self.ids_from(text.spec_bytes(), 0),
    {
        let bytes = text.as_bytes();
        proof {
            vstd::utf8::encode_utf8_valid_utf8(text@);
            assert(crate::unicode::suffix(bytes@, 0) =~= bytes@);
        }
        let mut out: Vec<u32> = Vec::new();
        let mut it = SpanIter::new(bytes);
        loop
            invariant_except_break
                self.wf(),
                valid_utf8(bytes@),
                it.bytes_view() == bytes@,
                valid_from(bytes@, it.pos_view()),
                out@ + self.ids_from(bytes@, it.pos_view()) == self.ids_from(bytes@, 0),
            ensures
                out@ == self.ids_from(bytes@, 0),
            decreases bytes@.len() - it.pos_view(),
        {
            let ghost p = it.pos_view();
            proof {
                lemma_next_span_valid(bytes@, p);
            }
            match it.next() {
                Some(word) => {
                    let ids = self.encode_word(word);
                    let ghost before = out@;
                    let mut ids_mut = ids;
                    out.append(&mut ids_mut);
                    proof {
                        assert(out@ + self.ids_from(bytes@, it.pos_view()) =~= before + self.ids_from(bytes@, p));
                    }
                },
                None => {
                    proof {
                        assert(self.ids_from(bytes@, p) =~= Seq::<u32>::empty());
                        assert(out@ + Seq::<u32>::empty() =~= out@);
                    }
                    break;
                },
            }
        }
        out
    }
}

/// Every id in `ids` is `unk` or the id of some vocabulary piece.
pub open spec fn ids_known(vocab: Map<Seq<u8>, u32>, unk: u32, ids: Seq<u32>) -> bool {
    forall|i: int| 0 <= i < ids.len() ==> #[trigger] ids[i] == unk || exists|k: Seq<u8>|
        vocab.contains_key(k) && vocab[k] == ids[i]
}

proof fn lemma_ids_known_concat(vocab: Map<Seq<u8>, u32>, unk: u32, a: Seq<u32>, b: Seq<u32>)
    requires
        ids_known(vocab, unk, a),
        ids_known(vocab, unk, b),
    ensures
        ids_known(vocab, unk, a + b),
{
    assert forall|i: int| 0 <= i < (a + b).len() implies #[trigger] (a + b)[i] == unk || exists|k: Seq<u8>|
        vocab.contains_key(k) && vocab[k] == (a + b)[i] by {
        if i < a.len() {
            assert((a + b)[i] == a[i]);
        } else {
            assert((a + b)[i] == b[i - a.len()]);
        }
    }
}

proof fn lemma_greedy_known(vocab: Map<Seq<u8>, u32>, unk: u32, max_piece: int, cs: Seq<char>, i: int)
    ensures
        ids_known(vocab, unk, greedy_ids(vocab, unk, max_piece, cs, i)),
    decreases cs.len() - i,
{
    if i < cs.len() {
        let hi = if i + max_piece < cs.len() {
            i + max_piece
        } else {
            cs.len() as int
        };
        lemma_longest_match(vocab, cs, i, hi);
        match longest_match(vocab, cs, i, hi) {
            Some(e) => {
                lemma_greedy_known(vocab, unk, max_piece, cs, e);
                let k = piece_key(cs, i, e);
                let head = seq![vocab[k]];
                assert(head[0] == vocab[k]);
                assert(ids_known(vocab, unk, head));
                lemma_ids_known_concat(vocab, unk, head, greedy_ids(vocab, unk, max_piece, cs, e));
            },
            None => {
                lemma_greedy_known(vocab, unk, max_piece, cs, i + 1);
                let head = seq![unk];
                assert(ids_known(vocab, unk, head));
                lemma_ids_known_concat(vocab, unk, head, greedy_ids(vocab, unk, max_piece, cs, i + 1));
            },
        }
    }
}

/// Encoding emits nothing but vocabulary ids and the unknown id: every id
/// of `t`'s encoding of `b` is `unk` or the id of some vocabulary piece.
pub proof fn law_ids_are_vocab_or_unk(t: WordPieceTokenizer, b: Seq<u8>, p: int)
    ensures
        ids_known(t.vocab_view(), t.unk_view(), t.ids_from(b, p)),
    decreases b.len() - p,
{
    match next_span(b, p) {
        None => {},
        Some((s, e)) => {
            if p < e <= b.len() {
                law_ids_are_vocab_or_unk(t, b, e);
                lemma_greedy_known(
                    t.vocab_view(),
                    t.unk_view(),
                    t.max_piece_view(),
                    word_chars(b.subrange(s, e), t.lowercase_view()),
                    0,
                );
                lemma_ids_known_concat(t.vocab_view(), t.unk_view(), t.word_ids(b.subrange(s, e)), t.ids_from(b, e));
            }
        },
    }
}

/// Encoding works word by word: the ids of `b` from `p` on are the ids of
/// each of its words, encoded on its own, joined in text order.
pub proof fn law_encode_is_words_encoded(t: WordPieceTokenizer, b: Seq<u8>, p: int)
    ensures
        t.ids_from(b, p) == words_from(b, p).map_values(|w: Seq<u8>| t.word_ids(w)).flatten(),
    decreases b.len() - p,
{
    let f = |w: Seq<u8>| t.word_ids(w);
    match next_span(b, p) {
        None => {
            assert(words_from(b, p).map_values(f) =~= Seq::<Seq<u32>>::empty());
        },
        Some((s, e)) => {
            if p < e <= b.len() {
                law_encode_is_words_encoded(t, b, e);
                let rest = words_from(b, e);
                let all = words_from(b, p);
                assert(all == seq![b.subrange(s, e)] + rest);
                let m = all.map_values(f);
                assert(m =~= seq![t.word_ids(b.subrange(s, e))] + rest.map_values(f));
                assert(m.drop_first() =~= rest.map_values(f));
                assert(m.flatten() == m.first() + m.drop_first().flatten());
            } else {
                assert(words_from(b, p).map_values(f) =~= Seq::<Seq<u32>>::empty());
            }
        },
    }
}

/// The ASCII lowercase of a byte: `A`-`Z` become `a`-`z`, others stay.
pub open spec fn ascii_lower_byte(x: u8) -> u8 {
    if 65 <= x <= 90 {
        (x + 32) as u8
    } else {
        x
    }
}

/// Every byte of `b` is ASCII.
pub open spec fn ascii_bytes(b: Seq<u8>) -> bool {
    forall|i: int| 0 <= i < b.len() ==> #[trigger] b[i] < 128
}

proof fn lemma_lower_classes(x: u8)
    requires
        x < 128,
    ensures
        is_whitespace_spec(ascii_lower_byte(x)) == is_whitespace_spec(x),
        is_control_spec(ascii_lower_byte(x)) == is_control_spec(x),
        is_punct_spec(ascii_lower_byte(x)) == is_punct_spec(x),
        is_cjk_lead_spec(ascii_lower_byte(x)) == is_cjk_lead_spec(x),
        is_boundary_start_spec(ascii_lower_byte(x)) == is_boundary_start_spec(x),
        ascii_lower_byte(x) < 128,
{
}

proof fn lemma_lower_skip(t: Seq<u8>, l: Seq<u8>, p: int)
    requires
        ascii_bytes(t),
        l == t.map_values(|x: u8| ascii_lower_byte(x)),
    ensures
        skip_separators(l, p) == skip_separators(t, p),
        word_end(l, p) == word_end(t, p),
    decreases t.len() - p,
{
    if 0 <= p < t.len() {
        lemma_lower_classes(t[p]);
        assert(l[p] == ascii_lower_byte(t[p]));
        lemma_lower_skip(t, l, p + 1);
    }
}

/// The chars of ASCII bytes, one per byte.
proof fn lemma_ascii_decode(w: Seq<u8>)
    requires
        ascii_bytes(w),
    ensures
        valid_utf8(w),
        decode_utf8(w) == w.map_values(|x: u8| x as char),
{
    let cs = w.map_values(|x: u8| x as char);
    assert(is_ascii_chars(cs)) by {
        assert forall|i: int| 0 <= i < cs.len() implies '\0' <= #[trigger] cs[i] <= '\u{7f}' by {
            assert(w[i] < 128);
        }
    }
    is_ascii_chars_encode_utf8(cs);
    assert(encode_utf8(cs) =~= w) by {
        assert forall|i: int| 0 <= i < w.len() implies encode_utf8(cs)[i] == w[i] by {
            assert(cs[i] as u8 == encode_utf8(cs)[i]);
            assert(w[i] < 128);
        }
    }
    encode_utf8_valid_utf8(cs);
    encode_utf8_decode_utf8(cs);
}

/// An ASCII word, lowercased by the tokenizer, gives the chars of its ASCII
/// lowercase.
proof fn lemma_ascii_word(w: Seq<u8>)
    requires
        ascii_bytes(w),
    ensures
        word_chars(w, true) == word_chars(w.map_values(|x: u8| ascii_lower_byte(x)), false),
{
    let l = w.map_values(|x: u8| ascii_lower_byte(x));
    assert(ascii_bytes(l)) by {
        assert forall|i: int| 0 <= i < l.len() implies #[trigger] l[i] < 128 by {
            lemma_lower_classes(w[i]);
        }
    }
    lemma_ascii_decode(w);
    lemma_ascii_decode(l);
    let cs = w.map_values(|x: u8| x as char);
    assert(all_ascii(cs)) by {
        assert forall|i: int| 0 <= i < cs.len() implies (#[trigger] cs[i] as u32) < 128 by {
            assert(w[i] < 128);
        }
    }
    let low = cs.map_values(|c: char| ascii_lower_char(c));
    assert(low =~= l.map_values(|x: u8| x as char)) by {
        assert forall|i: int| 0 <= i < low.len() implies low[i] == l.map_values(|x: u8| x as char)[i] by {
            assert(w[i] < 128);
        }
    }
    assert(all_ascii(low)) by {
        assert forall|i: int| 0 <= i < low.len() implies (#[trigger] low[i] as u32) < 128 by {
            assert(w[i] < 128);
        }
    }
}

/// Lowercasing ASCII text: a tokenizer with lowercasing on encodes ASCII
/// `text` as the same tokenizer with lowercasing off encodes the ASCII
/// lowercase of `text`.
pub proof fn law_lowercase_ascii(a: WordPieceTokenizer, b: WordPieceTokenizer, text: Seq<u8>, p: int)
    requires
        a.vocab_view() == b.vocab_view(),
        a.unk_view() == b.unk_view(),
        a.max_piece_view() == b.max_piece_view(),
        a.lowercase_view(),
        !b.lowercase_view(),
        ascii_bytes(text),
        0 <= p,
    ensures
        a.ids_from(text, p) == b.ids_from(text.map_values(|x: u8| ascii_lower_byte(x)), p),
    decreases text.len() - p,
{
    let l = text.map_values(|x: u8| ascii_lower_byte(x));
    if p <= text.len() {
        lemma_skip_bounds(text, p);
    }
    lemma_lower_skip(text, l, p);
    let q = skip_separators(text, p);
    lemma_lower_skip(text, l, q);
    if 0 <= q < text.len() {
        lemma_lower_classes(text[q]);
        assert(l[q] == ascii_lower_byte(text[q]));
        lemma_word_end_bounds(text, q);
    }
    assert(next_span(l, p) == next_span(text, p));
    match next_span(text, p) {
        None => {},
        Some((s, e)) => {
            if p < e <= text.len() {
                law_lowercase_ascii(a, b, text, e);
                let w = text.subrange(s, e);
                assert(ascii_bytes(w)) by {
                    assert forall|i: int| 0 <= i < w.len() implies #[trigger] w[i] < 128 by {
                        assert(w[i] == text[s + i]);
                    }
                }
                assert(l.subrange(s, e) =~= w.map_values(|x: u8| ascii_lower_byte(x)));
                lemma_ascii_word(w);
            }
        },
    }
}

proof fn lemma_word_end_no_boundary(b: Seq<u8>, p: int)
    requires
        0 <= p <= b.len(),
    ensures
        forall|x: int| p <= x < word_end(b, p) ==> !is_boundary_start_spec(#[trigger] b[x]),
    decreases b.len() - p,
{
    if p < b.len() && !is_boundary_start_spec(b[p]) {
        lemma_word_end_no_boundary(b, p + 1);
    }
}

/// ASCII punctuation is a word of its own: in valid UTF-8, the scan from
/// `p` skips no punctuation byte (`!` to `/`, `:` to `@`, `[` to `` ` ``,
/// `{` to `~`), and a word holding one is that one byte.
pub proof fn law_punctuation_is_its_own_word(b: Seq<u8>, p: int)
    requires
        valid_utf8(b),
        valid_from(b, p),
    ensures
        match next_span(b, p) {
            None => forall|x: int|
                p <= x < b.len() ==> !((0x21 <= #[trigger] b[x] <= 0x2f) || (0x3a <= b[x] <= 0x40) || (0x5b <= b[x]
                    <= 0x60) || (0x7b <= b[x] <= 0x7e)),
            Some((s, e)) => {
                &&& forall|x: int|
                    p <= x < s ==> !((0x21 <= #[trigger] b[x] <= 0x2f) || (0x3a <= b[x] <= 0x40) || (0x5b <= b[x]
                        <= 0x60) || (0x7b <= b[x] <= 0x7e))
                &&& forall|x: int|
                    s <= x < e && ((0x21 <= #[trigger] b[x] <= 0x2f) || (0x3a <= b[x] <= 0x40) || (0x5b <= b[x]
                        <= 0x60) || (0x7b <= b[x] <= 0x7e)) ==> x == s && e == s + 1
            },
        },
{
    lemma_skip_bounds(b, p);
    lemma_next_span_valid(b, p);
    let q = skip_separators(b, p);
    if q < b.len() {
        if is_cjk_lead_spec(b[q]) && q + 3 <= b.len() {
            let w = b.subrange(q, q + 3);
            assert(w[0] == b[q]);
            assert(valid_first_scalar(w));
            assert(w[1] == b[q + 1] && w[2] == b[q + 2]);
            assert(is_continuation_byte(w[1]) && is_continuation_byte(w[2]));
        } else if is_punct_spec(b[q]) {
        } else {
            lemma_word_end_bounds(b, q);
            lemma_word_end_no_boundary(b, q);
        }
    }
}

} // verus!
