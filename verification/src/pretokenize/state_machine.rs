//! The pretokenizer as a byte-level state machine: one pass over the
//! document, a handful of states, no backtracking beyond one char.
use vstd::prelude::*;
use vstd::utf8::*;
use vstd::slice::slice_subrange;
use crate::unicode::{
    cp_at, width_at, valid_from, lemma_step, is_letter_cp, is_number_cp, is_ws_cp, is_other_cp,
    lemma_classes_disjoint, next_codepoint_and_length, scalar_to_char, is_letter, is_number,
    is_whitespace,
};
use crate::pretokenize::pattern::{
    CharKind, kind_holds, kind_of, run_end, ws_last_start, contraction_len, regex_end,
    lemma_run_end_bounds, lemma_ws_last_start_bounds, lemma_regex_end_bounds, pattern_pieces,
    pretokens_of,
};
use crate::pretokenize::scalar::pretoken_bytes;
use crate::pretokenize::pretoken::Pretoken;

verus! {

/// The state of the pretokenizer between two bytes.
#[derive(Clone, Copy, Debug, PartialEq, Eq, Structural)]
pub enum PretokenizerState {
    /// Nothing matched yet.
    Start,
    /// Inside a run of chars that are neither letters, numbers nor whitespace.
    Nonchar,
    /// Just after an apostrophe that starts a pretoken.
    Apostrophe,
    /// Inside a whitespace run whose last char is an ASCII space.
    AsciiSpace,
    /// Inside a whitespace run whose last char is another whitespace char of
    /// the given byte width.
    Whitespace(u8),
    Letter,
    Number,
    /// The pretoken ends here.
    Save,
    /// The document is exhausted.
    Finish,
}

/// What the first char of a pretoken is.
enum StartResult {
    Apostrophe,
    Letter,
    Number,
    AsciiSpace,
    Whitespace(u8),
    Nonchar,
}

enum WhitespaceResult {
    AsciiSpace,
    Whitespace(u8),
    Neither,
}

enum ApostropheResult {
    Matched,
    NotMatched,
}

/// Returned by the checks when the document ends before they decide.
pub struct OutOfBytesError {}

/// A position in a UTF-8 document.
pub struct UTF8Iterator<'a> {
    bytes: &'a [u8],
    pos: usize,
}

impl<'a> UTF8Iterator<'a> {
    pub closed spec fn bytes_view(&self) -> Seq<u8> {
        self.bytes@
    }

    pub closed spec fn pos_view(&self) -> int {
        self.pos as int
    }

    pub fn new(doc: &'a [u8]) -> (r: Self)
        ensures
            r.bytes_view() == doc@,
            r.pos_view() == 0,
    {
        Self { bytes: doc, pos: 0 }
    }

    /// The same position over other bytes.
    pub fn replace_bytes<'b>(&self, bytes: &'b [u8]) -> (r: UTF8Iterator<'b>)
        ensures
            r.bytes_view() == bytes@,
            r.pos_view() == self.pos_view(),
    {
        UTF8Iterator { bytes, pos: self.pos }
    }

    /// Decodes the char at the position, moving past it.
    fn next_codepoint_and_length(&mut self) -> (r: (u32, usize))
        requires
            valid_from(old(self).bytes@, old(self).pos as int),
            old(self).pos < old(self).bytes@.len(),
            old(self).bytes@[old(self).pos as int] >= 128,
        ensures
            final(self).bytes == old(self).bytes,
            r.0 == cp_at(old(self).bytes@, old(self).pos as int),
            r.1 == width_at(old(self).bytes@, old(self).pos as int),
            final(self).pos == old(self).pos + r.1,
            final(self).pos <= final(self).bytes@.len(),
            valid_from(final(self).bytes@, final(self).pos as int),
            1 <= r.1 <= 4,
            is_scalar(r.0),
            r.0 >= 128,
    {
        proof {
            lemma_step(self.bytes@, self.pos as int);
        }
        let (cp, len) = next_codepoint_and_length(self.bytes, self.pos);
        self.pos = self.pos + len;
        (cp, len)
    }

    /// Classifies the first char of a pretoken and moves past it.
    fn start_check(&mut self) -> (r: Result<StartResult, OutOfBytesError>)
        requires
            valid_from(old(self).bytes@, old(self).pos as int),
        ensures
            final(self).bytes == old(self).bytes,
            valid_from(final(self).bytes@, final(self).pos as int),
            ({
                let b = old(self).bytes@;
                let p = old(self).pos as int;
                let c = cp_at(b, p);
                match r {
                    Err(_) => p >= b.len() && final(self).pos == old(self).pos,
                    Ok(res) => p < b.len() && final(self).pos == p + width_at(b, p) && match res {
                        StartResult::Apostrophe => b[p] == 39 && is_other_cp(c),
                        StartResult::Letter => is_letter_cp(c),
                        StartResult::Number => is_number_cp(c),
                        StartResult::AsciiSpace => b[p] == 32 && is_ws_cp(c),
                        StartResult::Whitespace(w) => b[p] != 32 && is_ws_cp(c) && w == width_at(b, p),
                        StartResult::Nonchar => b[p] != 39 && is_other_cp(c),
                    },
                }
            }),
    {
        if self.pos >= self.bytes.len() {
            return Err(OutOfBytesError {});
        }
        proof {
            lemma_step(self.bytes@, self.pos as int);
            lemma_classes_disjoint(cp_at(self.bytes@, self.pos as int));
        }
        let byte = self.bytes[self.pos];
        if byte < 128 {
            self.pos += 1;
            Ok(
                if (65 <= byte && byte <= 90) || (97 <= byte && byte <= 122) {
                    StartResult::Letter
                } else if byte == 32 {
                    StartResult::AsciiSpace
                } else if 9 <= byte && byte <= 13 {
                    StartResult::Whitespace(1)
                } else if 48 <= byte && byte <= 57 {
                    StartResult::Number
                } else if byte == 39 {
                    StartResult::Apostrophe
                } else {
                    StartResult::Nonchar
                },
            )
        } else {
            let (cp, len) = self.next_codepoint_and_length();
            let c = scalar_to_char(cp);
            Ok(
                if is_letter(c) {
                    StartResult::Letter
                } else if is_number(c) {
                    StartResult::Number
                } else if is_whitespace(c) {
                    StartResult::Whitespace(len as u8)
                } else {
                    StartResult::Nonchar
                },
            )
        }
    }

    /// Whether the char at the position continues a whitespace run; moves
    /// past it when it does.
    fn whitespace_check(&mut self) -> (r: Result<WhitespaceResult, OutOfBytesError>)
        requires
            valid_from(old(self).bytes@, old(self).pos as int),
        ensures
            final(self).bytes == old(self).bytes,
            valid_from(final(self).bytes@, final(self).pos as int),
            ({
                let b = old(self).bytes@;
                let p = old(self).pos as int;
                let c = cp_at(b, p);
                match r {
                    Err(_) => p >= b.len() && final(self).pos == old(self).pos,
                    Ok(WhitespaceResult::Neither) => p < b.len() && !is_ws_cp(c) && final(self).pos
                        == old(self).pos,
                    Ok(WhitespaceResult::AsciiSpace) => p < b.len() && b[p] == 32 && is_ws_cp(c)
                        && final(self).pos == p + 1 && width_at(b, p) == 1,
                    Ok(WhitespaceResult::Whitespace(w)) => p < b.len() && b[p] != 32 && is_ws_cp(
                        c,
                    ) && w == width_at(b, p) && final(self).pos == p + w,
                }
            }),
    {
        if self.pos >= self.bytes.len() {
            return Err(OutOfBytesError {});
        }
        proof {
            lemma_step(self.bytes@, self.pos as int);
        }
        let byte = self.bytes[self.pos];
        if byte < 128 {
            Ok(
                if byte == 32 {
                    self.pos += 1;
                    WhitespaceResult::AsciiSpace
                } else if 9 <= byte && byte <= 13 {
                    self.pos += 1;
                    WhitespaceResult::Whitespace(1)
                } else {
                    WhitespaceResult::Neither
                },
            )
        } else {
            let (cp, len) = self.next_codepoint_and_length();
            let c = scalar_to_char(cp);
            Ok(
                if is_whitespace(c) {
                    WhitespaceResult::Whitespace(len as u8)
                } else {
                    self.pos -= len;
                    WhitespaceResult::Neither
                },
            )
        }
    }

    /// Moves to the end of the run of chars of kind `k` (letters, numbers or
    /// others); `Err` when the run reaches the end of the document.
    fn run_check(&mut self, k: CharKind) -> (r: Result<(), OutOfBytesError>)
        requires
            valid_from(old(self).bytes@, old(self).pos as int),
        ensures
            final(self).bytes == old(self).bytes,
            valid_from(final(self).bytes@, final(self).pos as int),
            final(self).pos == run_end(old(self).bytes@, old(self).pos as int, k),
            r is Err <==> final(self).pos == final(self).bytes@.len(),
            final(self).pos >= old(self).pos,
    {
        let ghost p0 = self.pos as int;
        proof {
            lemma_run_end_bounds(self.bytes@, p0, k);
        }
        loop
            invariant
                self.bytes == old(self).bytes,
                p0 == old(self).pos,
                p0 <= self.pos <= self.bytes@.len(),
                valid_from(self.bytes@, self.pos as int),
                run_end(self.bytes@, p0, k) == run_end(self.bytes@, self.pos as int, k),
            decreases self.bytes@.len() - self.pos,
        {
            if self.pos >= self.bytes.len() {
                return Err(OutOfBytesError {});
            }
            proof {
                lemma_step(self.bytes@, self.pos as int);
                lemma_classes_disjoint(cp_at(self.bytes@, self.pos as int));
            }
            let byte = self.bytes[self.pos];
            if byte < 128 {
                let holds = match k {
                    CharKind::Letter => (65 <= byte && byte <= 90) || (97 <= byte && byte <= 122),
                    CharKind::Number => 48 <= byte && byte <= 57,
                    CharKind::Whitespace => (9 <= byte && byte <= 13) || byte == 32,
                    CharKind::Other => !((65 <= byte && byte <= 90) || (97 <= byte && byte <= 122)
                        || (48 <= byte && byte <= 57) || (9 <= byte && byte <= 13) || byte == 32),
                };
                if holds {
                    self.pos += 1;
                } else {
                    return Ok(());
                }
            } else {
                let (cp, len) = self.next_codepoint_and_length();
                let c = scalar_to_char(cp);
                let holds = match k {
                    CharKind::Letter => is_letter(c),
                    CharKind::Number => is_number(c),
                    CharKind::Whitespace => is_whitespace(c),
                    CharKind::Other => !(is_letter(c) || is_number(c) || is_whitespace(c)),
                };
                if !holds {
                    self.pos -= len;  // Rewind
                    return Ok(());
                }
            }
        }
    }

    /// Letters: `\p{L}+`.
    fn letter_check(&mut self) -> (r: Result<(), OutOfBytesError>)
        requires
            valid_from(old(self).bytes@, old(self).pos as int),
        ensures
            final(self).bytes == old(self).bytes,
            valid_from(final(self).bytes@, final(self).pos as int),
            final(self).pos == run_end(old(self).bytes@, old(self).pos as int, CharKind::Letter),
            r is Err <==> final(self).pos == final(self).bytes@.len(),
            final(self).pos >= old(self).pos,
    {
        self.run_check(CharKind::Letter)
    }

    /// Numbers: `\p{N}+`.
    fn number_check(&mut self) -> (r: Result<(), OutOfBytesError>)
        requires
            valid_from(old(self).bytes@, old(self).pos as int),
        ensures
            final(self).bytes == old(self).bytes,
            valid_from(final(self).bytes@, final(self).pos as int),
            final(self).pos == run_end(old(self).bytes@, old(self).pos as int, CharKind::Number),
            r is Err <==> final(self).pos == final(self).bytes@.len(),
            final(self).pos >= old(self).pos,
    {
        self.run_check(CharKind::Number)
    }

    /// Neither letters, numbers nor whitespace: `[^\s\p{L}\p{N}]+`.
    fn other_check(&mut self) -> (r: Result<(), OutOfBytesError>)
        requires
            valid_from(old(self).bytes@, old(self).pos as int),
        ensures
            final(self).bytes == old(self).bytes,
            valid_from(final(self).bytes@, final(self).pos as int),
            final(self).pos == run_end(old(self).bytes@, old(self).pos as int, CharKind::Other),
            r is Err <==> final(self).pos == final(self).bytes@.len(),
            final(self).pos >= old(self).pos,
    {
        self.run_check(CharKind::Other)
    }

    /// The rest of a contraction after its apostrophe.
    fn apostrophe_check(&mut self) -> (r: Result<ApostropheResult, OutOfBytesError>)
        requires
            valid_from(old(self).bytes@, old(self).pos as int),
            old(self).pos >= 1,
            old(self).bytes@[old(self).pos - 1] == 39,
        ensures
            final(self).bytes == old(self).bytes,
            valid_from(final(self).bytes@, final(self).pos as int),
            ({
                let b = old(self).bytes@;
                let p = old(self).pos as int;
                match r {
                    Err(_) => p >= b.len() && final(self).pos == old(self).pos,
                    Ok(ApostropheResult::Matched) => contraction_len(b, p - 1) > 0
                        && final(self).pos == p - 1 + contraction_len(b, p - 1),
                    Ok(ApostropheResult::NotMatched) => p < b.len() && contraction_len(b, p - 1)
                        == 0 && final(self).pos == old(self).pos,
                }
            }),
    {
        if self.pos >= self.bytes.len() {
            return Err(OutOfBytesError {});
        }
        let byte = self.bytes[self.pos];
        if byte == 115 || byte == 100 || byte == 109 || byte == 116 {
            proof {
                lemma_step(self.bytes@, self.pos as int);
            }
            self.pos += 1;
            Ok(ApostropheResult::Matched)
        } else if byte == 108 || byte == 118 || byte == 114 {
            if self.pos + 1 >= self.bytes.len() {
                // Not enough bytes for a two-letter contraction ('ll, 've, 're)
                return Ok(ApostropheResult::NotMatched);
            }
            let next_byte = self.bytes[self.pos + 1];
            if (byte == 108 && next_byte == 108) || (byte == 118 && next_byte == 101) || (byte
                == 114 && next_byte == 101) {
                proof {
                    lemma_step(self.bytes@, self.pos as int);
                    lemma_step(self.bytes@, self.pos + 1);
                }
                self.pos += 2;
                Ok(ApostropheResult::Matched)
            } else {
                Ok(ApostropheResult::NotMatched)
            }
        } else {
            Ok(ApostropheResult::NotMatched)
        }
    }
}

/// Iterator over the pretokens of one document.
pub struct PretokenizerIter<'a> {
    iter: UTF8Iterator<'a>,
    starting: usize,
    state: PretokenizerState,
}

/// A space followed by a char that is not whitespace: the space belongs to
/// the pretoken that this char starts.
pub open spec fn pending_space(b: Seq<u8>, s: int) -> bool {
    0 <= s && s + 1 < b.len() && b[s] == 32 && !is_ws_cp(cp_at(b, s + 1))
}

/// A whitespace char other than a space, followed by a char that is not
/// whitespace: a pretoken by itself.
pub open spec fn pending_ws_char(b: Seq<u8>, s: int, p: int) -> bool {
    0 <= s < p < b.len() && b[s] != 32 && is_ws_cp(cp_at(b, s)) && p == s + width_at(b, s)
        && !is_ws_cp(cp_at(b, p))
}

proof fn lemma_pending_space(b: Seq<u8>, s: int)
    requires
        valid_from(b, s),
        pending_space(b, s),
    ensures
        regex_end(b, s) == run_end(b, s + 1, kind_of(cp_at(b, s + 1))),
        valid_from(b, s + 1),
        width_at(b, s) == 1,
        is_ws_cp(cp_at(b, s)),
{
    lemma_step(b, s);
}

/// In a whitespace run that started at `s0` and whose last char so far
/// starts at `q`, nothing but whitespace lies between the two.
pub open spec fn ws_run_state(b: Seq<u8>, s0: int, q: int, p: int) -> bool {
    &&& 0 <= s0 <= q < p <= b.len()
    &&& valid_from(b, s0)
    &&& valid_from(b, q)
    &&& p == q + width_at(b, q)
    &&& is_ws_cp(cp_at(b, s0))
    &&& is_ws_cp(cp_at(b, q))
    &&& ws_last_start(b, s0) == ws_last_start(b, q)
    &&& run_end(b, s0, CharKind::Whitespace) == run_end(b, q, CharKind::Whitespace)
    &&& (q > s0 ==> s0 + width_at(b, s0) < b.len() && is_ws_cp(cp_at(b, s0 + width_at(b, s0))))
}

/// How far a state is from ending the current pretoken, when no byte is consumed.
spec fn sm_rank(st: PretokenizerState) -> int {
    match st {
        PretokenizerState::Start => 4,
        PretokenizerState::AsciiSpace => 5,
        PretokenizerState::Whitespace(_) => 5,
        PretokenizerState::Apostrophe => 4,
        PretokenizerState::Letter => 3,
        PretokenizerState::Number => 3,
        PretokenizerState::Nonchar => 3,
        PretokenizerState::Finish => 2,
        PretokenizerState::Save => 1,
    }
}

/// A whitespace run followed by a char that is not whitespace.
proof fn lemma_ws_run_then_other(b: Seq<u8>, s0: int, q: int, p: int)
    requires
        ws_run_state(b, s0, q, p),
        p < b.len(),
        !is_ws_cp(cp_at(b, p)),
    ensures
        run_end(b, s0, CharKind::Whitespace) == p,
        ws_last_start(b, s0) == q,
        q > s0 ==> regex_end(b, s0) == q,
        q == s0 && b[s0] != 32 ==> regex_end(b, s0) == p,
        q == s0 && b[s0] == 32 ==> pending_space(b, s0),
{
    lemma_step(b, q);
    lemma_step(b, s0);
    assert(run_end(b, p, CharKind::Whitespace) == p);
    assert(run_end(b, q, CharKind::Whitespace) == p);
    assert(ws_last_start(b, q) == q);
}

/// A whitespace run that reaches the end of the document.
proof fn lemma_ws_run_to_end(b: Seq<u8>, s0: int, q: int, p: int)
    requires
        ws_run_state(b, s0, q, p),
        p == b.len(),
    ensures
        regex_end(b, s0) == b.len(),
{
    lemma_step(b, q);
    lemma_step(b, s0);
    assert(run_end(b, p, CharKind::Whitespace) == p);
    assert(run_end(b, q, CharKind::Whitespace) == p);
}

/// A whitespace run grows by the whitespace char at `p`.
proof fn lemma_ws_run_grow(b: Seq<u8>, s0: int, q: int, p: int)
    requires
        ws_run_state(b, s0, q, p),
        valid_from(b, p),
        p < b.len(),
        is_ws_cp(cp_at(b, p)),
    ensures
        ws_run_state(b, s0, p, p + width_at(b, p)),
{
    lemma_step(b, q);
    lemma_step(b, s0);
    lemma_step(b, p);
    assert(run_end(b, q, CharKind::Whitespace) == run_end(b, p, CharKind::Whitespace));
}

impl<'a> PretokenizerIter<'a> {
    /// The document.
    pub closed spec fn bytes_view(&self) -> Seq<u8> {
        self.iter.bytes@
    }

    /// Where the next pretoken starts.
    pub closed spec fn start_view(&self) -> int {
        self.starting as int
    }

    /// The iterator is between two pretokens of a valid UTF-8 document.
    pub closed spec fn wf(&self) -> bool {
        let b = self.iter.bytes@;
        let p = self.iter.pos as int;
        let s = self.starting as int;
        &&& valid_utf8(b)
        &&& valid_from(b, s)
        &&& valid_from(b, p)
        &&& s <= p <= b.len()
        &&& match self.state {
            PretokenizerState::Start => p == s || (p == s + 1 && pending_space(b, s)),
            PretokenizerState::Save => pending_ws_char(b, s, p),
            PretokenizerState::Finish => s == p && p == b.len(),
            _ => false,
        }
    }

    pub fn new(input: &'a [u8]) -> (r: PretokenizerIter<'a>)
        requires
            valid_utf8(input@),
        ensures
            r.wf(),
            r.bytes_view() == input@,
            r.start_view() == 0,
    {
        proof {
            assert(input@.subrange(0, input@.len() as int) =~= input@);
        }
        PretokenizerIter {
            iter: UTF8Iterator::new(input),
            starting: 0,
            state: PretokenizerState::Start,
        }
    }

    /// The next pretoken: the match of the GPT-2 pattern at the current
    /// start, or `None` at the end of the document.
    pub fn next(&mut self) -> (r: Option<Pretoken<'a>>)
        requires
            old(self).wf(),
        ensures
            final(self).wf(),
            final(self).bytes_view() == old(self).bytes_view(),
            old(self).start_view() < old(self).bytes_view().len() ==> ({
                let b = old(self).bytes_view();
                let s = old(self).start_view();
                &&& r matches Some(t) && t.0@ == b.subrange(s, regex_end(b, s))
                &&& final(self).start_view() == regex_end(b, s)
            }),
            old(self).start_view() >= old(self).bytes_view().len() ==> r is None
                && final(self).start_view() == old(self).start_view(),
    {
        let ghost b = self.iter.bytes@;
        let start0 = self.starting;
        let ghost s0 = start0 as int;
        proof {
            if s0 < b.len() {
                lemma_regex_end_bounds(b, s0);
            }
        }
        proof {
            if self.state == PretokenizerState::Save {
                lemma_step(b, s0);
                lemma_step(b, self.iter.pos as int);
                assert(ws_run_state(b, s0, s0, self.iter.pos as int));
                lemma_ws_run_then_other(b, s0, s0, self.iter.pos as int);
            }
        }
        let mut out_end: usize = self.starting;
        let mut state_after = PretokenizerState::Finish;
        loop
            invariant_except_break
                self.iter.bytes@ == b,
                s0 == start0 as int,
                self.starting == s0,
                valid_utf8(b),
                valid_from(b, s0),
                valid_from(b, self.iter.pos as int),
                s0 <= self.iter.pos <= b.len(),
                s0 < b.len() ==> s0 < regex_end(b, s0) <= b.len(),
                ({
                    let p = self.iter.pos as int;
                    match self.state {
                        PretokenizerState::Start => p == s0 || (p == s0 + 1 && pending_space(b, s0)),
                        PretokenizerState::Save => s0 < p && regex_end(b, s0) == p,
                        PretokenizerState::Apostrophe => p == s0 + 1 && b[s0] == 39 && s0 < b.len(),
                        PretokenizerState::Letter => s0 < p && regex_end(b, s0) == run_end(b, p, CharKind::Letter),
                        PretokenizerState::Number => s0 < p && regex_end(b, s0) == run_end(b, p, CharKind::Number),
                        PretokenizerState::Nonchar => s0 < p && regex_end(b, s0) == run_end(b, p, CharKind::Other),
                        PretokenizerState::AsciiSpace => ws_run_state(b, s0, p - 1, p) && b[p - 1] == 32,
                        PretokenizerState::Whitespace(w) => ws_run_state(b, s0, p - w, p) && b[p - w] != 32 && w == width_at(b, p - w),
                        PretokenizerState::Finish => p == b.len() && (s0 < b.len() ==> regex_end(b, s0) == b.len()),
                    }
                }),
            ensures
                self.iter.bytes@ == b,
                valid_from(b, self.iter.pos as int),
                valid_from(b, self.starting as int),
                self.starting <= self.iter.pos <= b.len(),
                s0 <= out_end,
                s0 < b.len() ==> out_end == regex_end(b, s0),
                s0 >= b.len() ==> out_end == s0,
                self.starting == out_end,
                match state_after {
                    PretokenizerState::Start => self.iter.pos == self.starting || (self.iter.pos == self.starting + 1 && pending_space(b, self.starting as int)),
                    PretokenizerState::Save => pending_ws_char(b, self.starting as int, self.iter.pos as int),
                    PretokenizerState::Finish => self.starting == self.iter.pos && self.iter.pos == b.len(),
                    _ => false,
                },
            decreases b.len() - self.iter.pos, sm_rank(self.state),
        {
            let ghost p = self.iter.pos as int;
            let ghost st0 = self.state;
            match self.state {
                PretokenizerState::Start => {
                    proof {
                        if p < b.len() {
                            lemma_step(b, p);
                            lemma_classes_disjoint(cp_at(b, p));
                        }
                        if p == s0 + 1 && pending_space(b, s0) {
                            lemma_pending_space(b, s0);
                        }
                        if p == s0 && s0 < b.len() {
                            lemma_classes_disjoint(cp_at(b, s0));
                        }
                    }
                    self.state = match self.iter.start_check() {
                        Ok(StartResult::Apostrophe) => {
                            if self.starting == self.iter.pos - 1 {
                                PretokenizerState::Apostrophe
                            } else {
                                // Only a contraction when nothing precedes the apostrophe
                                PretokenizerState::Nonchar
                            }
                        },
                        Ok(StartResult::Letter) => PretokenizerState::Letter,
                        Ok(StartResult::Number) => PretokenizerState::Number,
                        Ok(StartResult::AsciiSpace) => PretokenizerState::AsciiSpace,
                        Ok(StartResult::Whitespace(wslen)) => PretokenizerState::Whitespace(wslen),
                        Ok(StartResult::Nonchar) => PretokenizerState::Nonchar,
                        Err(_) => PretokenizerState::Finish,
                    };
                },
                PretokenizerState::Save => {
                    out_end = self.iter.pos;
                    self.starting = self.iter.pos;
                    state_after = PretokenizerState::Start;
                    break;
                },
                PretokenizerState::Apostrophe => {
                    proof {
                        lemma_step(b, s0);
                    }
                    self.state = match self.iter.apostrophe_check() {
                        Ok(ApostropheResult::Matched) => PretokenizerState::Save,
                        Ok(ApostropheResult::NotMatched) => PretokenizerState::Nonchar,
                        Err(_) => PretokenizerState::Finish,
                    };
                },
                PretokenizerState::Nonchar => {
                    self.state = match self.iter.other_check() {
                        Ok(_) => PretokenizerState::Save,
                        Err(_) => PretokenizerState::Finish,
                    };
                },
                PretokenizerState::Letter => {
                    self.state = match self.iter.letter_check() {
                        Ok(_) => PretokenizerState::Save,
                        Err(_) => PretokenizerState::Finish,
                    };
                },
                PretokenizerState::Number => {
                    self.state = match self.iter.number_check() {
                        Ok(_) => PretokenizerState::Save,
                        Err(_) => PretokenizerState::Finish,
                    };
                },
                PretokenizerState::Whitespace(prev_wslen) => {
                    let ghost q = p - prev_wslen;
                    proof {
                        if p < b.len() {
                            lemma_step(b, p);
                            if is_ws_cp(cp_at(b, p)) {
                                lemma_ws_run_grow(b, s0, q, p);
                            } else {
                                lemma_ws_run_then_other(b, s0, q, p);
                            }
                        } else {
                            lemma_ws_run_to_end(b, s0, q, p);
                        }
                    }
                    match self.iter.whitespace_check() {
                        Ok(WhitespaceResult::AsciiSpace) => {
                            self.state = PretokenizerState::AsciiSpace;
                        },
                        Ok(WhitespaceResult::Whitespace(wslen)) => {
                            self.state = PretokenizerState::Whitespace(wslen);
                        },
                        Ok(WhitespaceResult::Neither) => {
                            let last = self.iter.pos - (prev_wslen as usize);
                            self.starting = last;
                            if last == start0 {
                                self.state = PretokenizerState::Save;
                            } else {
                                out_end = last;
                                state_after = PretokenizerState::Save;
                                break;
                            }
                        },
                        Err(_) => {
                            self.state = PretokenizerState::Finish;
                        },
                    }
                },
                PretokenizerState::AsciiSpace => {
                    let ghost q = p - 1;
                    proof {
                        if p < b.len() {
                            lemma_step(b, p);
                            if is_ws_cp(cp_at(b, p)) {
                                lemma_ws_run_grow(b, s0, q, p);
                            } else {
                                lemma_ws_run_then_other(b, s0, q, p);
                            }
                        } else {
                            lemma_ws_run_to_end(b, s0, q, p);
                        }
                    }
                    match self.iter.whitespace_check() {
                        Ok(WhitespaceResult::AsciiSpace) => {
                            self.state = PretokenizerState::AsciiSpace;
                        },
                        Ok(WhitespaceResult::Whitespace(wslen)) => {
                            self.state = PretokenizerState::Whitespace(wslen);
                        },
                        Ok(WhitespaceResult::Neither) => {
                            let last = self.iter.pos - 1;
                            self.starting = last;
                            if last == start0 {
                                self.state = PretokenizerState::Start;
                            } else {
                                out_end = last;
                                state_after = PretokenizerState::Start;
                                break;
                            }
                        },
                        Err(_) => {
                            out_end = self.iter.pos;
                            self.starting = self.iter.pos;
                            state_after = PretokenizerState::Finish;
                            break;
                        },
                    }
                },
                PretokenizerState::Finish => {
                    out_end = self.iter.pos;
                    self.starting = self.iter.pos;
                    state_after = PretokenizerState::Finish;
                    break;
                },
            }
            assert(self.iter.pos > p || (self.iter.pos == p && sm_rank(self.state) < sm_rank(st0)));
        }
        self.state = state_after;
        if out_end == start0 {
            return None;
        }
        Some(Pretoken(slice_subrange(self.iter.bytes, start0, out_end)))
    }
}

impl<'a> PretokenizerIter<'a> {
    /// The same iterator state over other bytes.
    pub fn replace_bytes<'b>(&self, bytes: &'b [u8]) -> (r: PretokenizerIter<'b>)
        ensures
            r.bytes_view() == bytes@,
            r.start_view() == self.start_view(),
    {
        let iter = self.iter.replace_bytes(bytes);
        PretokenizerIter { iter, starting: self.starting, state: self.state }
    }

    /// Appends the remaining pretokens to `out`.
    pub fn collect_into(&mut self, out: &mut Vec<Pretoken<'a>>)
        requires
            old(self).wf(),
        ensures
            final(self).wf(),
            final(self).bytes_view() == old(self).bytes_view(),
            final(self).start_view() >= final(self).bytes_view().len(),
            pretoken_bytes(final(out)@) == pretoken_bytes(old(out)@) + pattern_pieces(
                old(self).bytes_view(),
                old(self).start_view(),
            ),
    {
        let ghost b = self.bytes_view();
        let ghost start = self.start_view();
        let ghost acc0 = pretoken_bytes(out@);
        loop
            invariant
                self.wf(),
                self.bytes_view() == b,
                valid_from(b, self.start_view()),
                valid_from(b, start),
                pretoken_bytes(out@) + pattern_pieces(b, self.start_view()) == acc0 + pattern_pieces(b, start),
            ensures
                self.wf(),
                self.bytes_view() == b,
                self.start_view() >= b.len(),
                pretoken_bytes(out@) == acc0 + pattern_pieces(b, start),
            decreases b.len() - self.start_view(),
        {
            let ghost s = self.start_view();
            let ghost before = out@;
            proof {
                if s < b.len() {
                    lemma_regex_end_bounds(b, s);
                }
            }
            match self.next() {
                Some(t) => {
                    out.push(t);
                    proof {
                        let e = regex_end(b, s);
                        assert(pattern_pieces(b, s) == seq![b.subrange(s, e)] + pattern_pieces(b, e));
                        assert(pretoken_bytes(out@) =~= pretoken_bytes(before).push(b.subrange(s, e)));
                        assert(pretoken_bytes(out@) + pattern_pieces(b, e) =~= pretoken_bytes(before)
                            + pattern_pieces(b, s));
                    }
                },
                None => {
                    proof {
                        assert(pattern_pieces(b, s) =~= Seq::<Seq<u8>>::empty());
                        assert(pretoken_bytes(out@) =~= pretoken_bytes(out@) + Seq::<Seq<u8>>::empty());
                    }
                    break;
                },
            }
        }
    }
}

/// A pretokenizer over `bytes`.
pub fn pretokenize_as_iter<'a>(bytes: &'a [u8]) -> (r: PretokenizerIter<'a>)
    requires
        valid_utf8(bytes@),
    ensures
        r.wf(),
        r.bytes_view() == bytes@,
        r.start_view() == 0,
{
    PretokenizerIter::new(bytes)
}

/// The pretokens of each document in turn.
pub open spec fn docs_pretokens(docs: Seq<Seq<u8>>) -> Seq<Seq<u8>>
    decreases docs.len(),
{
    if docs.len() == 0 {
        seq![]
    } else {
        docs_pretokens(docs.drop_last()) + pretokens_of(docs.last())
    }
}

/// The pretokens of a sequence of documents, one document after the other.
pub fn pretokenize_doc_iterable<'a>(docs: &[&'a [u8]]) -> (r: Vec<Pretoken<'a>>)
    requires
        forall|i: int| 0 <= i < docs@.len() ==> valid_utf8(#[trigger] docs@[i]@),
    ensures
        pretoken_bytes(r@) == docs_pretokens(docs@.map_values(|d: &[u8]| d@)),
{
    let ghost ds = docs@.map_values(|d: &[u8]| d@);
    let mut out: Vec<Pretoken<'a>> = Vec::new();
    let mut i: usize = 0;
    while i < docs.len()
        invariant
            i <= docs@.len(),
            ds == docs@.map_values(|d: &[u8]| d@),
            forall|k: int| 0 <= k < docs@.len() ==> valid_utf8(#[trigger] docs@[k]@),
            pretoken_bytes(out@) == docs_pretokens(ds.take(i as int)),
        decreases docs@.len() - i,
    {
        let mut it = pretokenize_as_iter(docs[i]);
        proof {
            assert(docs@[i as int]@.subrange(0, docs@[i as int]@.len() as int) =~= docs@[i as int]@);
        }
        it.collect_into(&mut out);
        proof {
            assert(ds.take(i + 1).drop_last() =~= ds.take(i as int));
            assert(ds.take(i + 1).last() == docs@[i as int]@);
        }
        i += 1;
    }
    proof {
        assert(ds.take(docs@.len() as int) =~= ds);
    }
    out
}

} // verus!
