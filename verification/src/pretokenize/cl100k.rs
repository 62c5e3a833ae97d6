//! The GPT-4 (cl100k) pretokenization pattern
//! `(?i:'s|'t|'re|'ve|'m|'ll|'d)|[^\r\n\p{L}\p{N}]?\p{L}+|\p{N}{1,3}| ?[^\s\p{L}\p{N}]+[\r\n]*|\s*[\r\n]+|\s+(?!\S)|\s+`
//! and its Qwen2 variant, which takes digits one at a time (`\p{N}` for
//! `\p{N}{1,3}`), stated over the UTF-8 bytes of a document and matched
//! alternative by alternative.
use vstd::prelude::*;
use vstd::utf8::*;
use vstd::slice::slice_subrange;
use crate::unicode::{
    cp_at, width_at, valid_from, lemma_step, is_letter_cp, is_number_cp, is_ws_cp, is_other_cp,
    lemma_classes_disjoint,
};
use crate::pretokenize::pattern::{
    CharKind, run_end, ws_last_start, lemma_run_end_bounds, lemma_ws_last_start_bounds,
};
use crate::pretokenize::scalar::{char_kind_at, lemma_kind_holds_iff, scan_run, whitespace_run, pretoken_bytes};
use crate::pretokenize::pretoken::Pretoken;

verus! {

/// `x` is the ASCII letter `lower` in either case.
pub open spec fn eq_ci(x: u8, lower: u8) -> bool {
    x == lower || x + 32 == lower
}

/// `\r` or `\n`.
pub open spec fn is_crlf_byte(x: u8) -> bool {
    x == 10 || x == 13
}

/// Length of the case-insensitive contraction `'s 't 're 've 'm 'll 'd` at
/// `i` (`ſ`, U+017F, folds to `s`), or 0.
pub open spec fn ci_contraction_len(b: Seq<u8>, i: int) -> int {
    if 0 <= i && i + 1 < b.len() && b[i] == 39 {
        let c = b[i + 1];
        if eq_ci(c, 115) || eq_ci(c, 116) || eq_ci(c, 109) || eq_ci(c, 100) {
            2
        } else if i + 2 < b.len() && c == 0xC5 && b[i + 2] == 0xBF {
            3
        } else if i + 2 < b.len() && ((eq_ci(c, 114) && eq_ci(b[i + 2], 101)) || (eq_ci(c, 118)
            && eq_ci(b[i + 2], 101)) || (eq_ci(c, 108) && eq_ci(b[i + 2], 108))) {
            3
        } else {
            0
        }
    } else {
        0
    }
}

/// `[^\r\n\p{L}\p{N}]?\p{L}+` at `i`: where it ends, if it matches.
pub open spec fn letters_alt(b: Seq<u8>, i: int) -> Option<int> {
    let c = cp_at(b, i);
    let j = i + width_at(b, i);
    if !is_letter_cp(c) && !is_number_cp(c) && c != 10 && c != 13 {
        if j < b.len() && is_letter_cp(cp_at(b, j)) {
            Some(run_end(b, j, CharKind::Letter))
        } else {
            None
        }
    } else if is_letter_cp(c) {
        Some(run_end(b, i, CharKind::Letter))
    } else {
        None
    }
}

/// End of at most `n` number chars from `i`.
pub open spec fn digits_end(b: Seq<u8>, i: int, n: nat) -> int
    decreases n,
{
    if n > 0 && 0 <= i < b.len() && is_number_cp(cp_at(b, i)) {
        digits_end(b, i + width_at(b, i), (n - 1) as nat)
    } else {
        i
    }
}

/// End of the run of `\r` and `\n` bytes from `i`.
pub open spec fn crlf_end(b: Seq<u8>, i: int) -> int
    decreases b.len() - i,
{
    if 0 <= i < b.len() && is_crlf_byte(b[i]) {
        crlf_end(b, i + 1)
    } else {
        i
    }
}

/// ` ?[^\s\p{L}\p{N}]+[\r\n]*` at `i`: where it ends, if it matches.
pub open spec fn other_alt(b: Seq<u8>, i: int) -> Option<int> {
    if b[i] == 32 {
        if i + 1 < b.len() && is_other_cp(cp_at(b, i + 1)) {
            Some(crlf_end(b, run_end(b, i + 1, CharKind::Other)))
        } else {
            None
        }
    } else if is_other_cp(cp_at(b, i)) {
        Some(crlf_end(b, run_end(b, i, CharKind::Other)))
    } else {
        None
    }
}

/// Along the whitespace run from `i`: the end of its last `\r` or `\n`,
/// or `acc` when it holds none.
pub open spec fn ws_crlf_end(b: Seq<u8>, i: int, acc: int) -> int
    decreases b.len() + 4 - i,
{
    if 0 <= i < b.len() && is_ws_cp(cp_at(b, i)) {
        proof {
            crate::unicode::lemma_width_pos(b, i);
        }
        ws_crlf_end(b, i + width_at(b, i), if is_crlf_byte(b[i]) { i + 1 } else { acc })
    } else {
        acc
    }
}

/// `\s+(?!\S)|\s+` at a whitespace char.
pub open spec fn trailing_ws_end(b: Seq<u8>, i: int) -> int {
    let e = run_end(b, i, CharKind::Whitespace);
    if e == b.len() {
        e
    } else if ws_last_start(b, i) > i {
        ws_last_start(b, i)
    } else {
        e
    }
}

/// Where the pattern's match at byte `i` (a char start, `i < b.len()`)
/// ends, when a number run takes at most `digits` chars.
pub open spec fn cl_end(b: Seq<u8>, i: int, digits: nat) -> int {
    let c = cp_at(b, i);
    if ci_contraction_len(b, i) > 0 {
        i + ci_contraction_len(b, i)
    } else if letters_alt(b, i) is Some {
        letters_alt(b, i)->0
    } else if is_number_cp(c) {
        digits_end(b, i, digits)
    } else if other_alt(b, i) is Some {
        other_alt(b, i)->0
    } else if ws_crlf_end(b, i, i) > i {
        ws_crlf_end(b, i, i)
    } else {
        trailing_ws_end(b, i)
    }
}

pub proof fn lemma_digits_end_bounds(b: Seq<u8>, i: int, n: nat)
    requires
        valid_from(b, i),
    ensures
        i <= digits_end(b, i, n) <= b.len(),
        valid_from(b, digits_end(b, i, n)),
        n > 0 && i < b.len() && is_number_cp(cp_at(b, i)) ==> digits_end(b, i, n) > i,
    decreases n,
{
    if n > 0 && 0 <= i < b.len() && is_number_cp(cp_at(b, i)) {
        lemma_step(b, i);
        lemma_digits_end_bounds(b, i + width_at(b, i), (n - 1) as nat);
    }
}

pub proof fn lemma_crlf_end_bounds(b: Seq<u8>, i: int)
    requires
        valid_from(b, i),
    ensures
        i <= crlf_end(b, i) <= b.len(),
        valid_from(b, crlf_end(b, i)),
    decreases b.len() - i,
{
    if 0 <= i < b.len() && is_crlf_byte(b[i]) {
        lemma_step(b, i);
        lemma_crlf_end_bounds(b, i + 1);
    }
}

pub proof fn lemma_ws_crlf_end_bounds(b: Seq<u8>, i: int, acc: int)
    requires
        valid_from(b, i),
    ensures
        ws_crlf_end(b, i, acc) == acc || (i < ws_crlf_end(b, i, acc) <= b.len() && valid_from(
            b,
            ws_crlf_end(b, i, acc),
        )),
    decreases b.len() - i,
{
    if 0 <= i < b.len() && is_ws_cp(cp_at(b, i)) {
        lemma_step(b, i);
        let w = width_at(b, i);
        let acc2 = if is_crlf_byte(b[i]) { i + 1 } else { acc };
        lemma_ws_crlf_end_bounds(b, i + w, acc2);
        if is_crlf_byte(b[i]) {
            assert(w == 1);
        }
    }
}

/// Every match is nonempty, stays inside the document and ends at a char start.
pub proof fn lemma_cl_end_bounds(b: Seq<u8>, i: int, digits: nat)
    requires
        valid_from(b, i),
        i < b.len(),
        digits >= 1,
    ensures
        i < cl_end(b, i, digits) <= b.len(),
        valid_from(b, cl_end(b, i, digits)),
{
    lemma_step(b, i);
    let c = cp_at(b, i);
    let w = width_at(b, i);
    lemma_classes_disjoint(c);
    if ci_contraction_len(b, i) > 0 {
        assert(b[i] == 39);
        assert(w == 1);
        let j = i + 1;
        lemma_step(b, j);
        if ci_contraction_len(b, i) == 3 {
            if b[j] < 128 {
                lemma_step(b, j + 1);
            } else {
                assert(b[j] == 0xC5);
                assert(width_at(b, j) == 2);
            }
        }
    } else if letters_alt(b, i) is Some {
        if !is_letter_cp(c) && !is_number_cp(c) && c != 10 && c != 13 {
            lemma_step(b, i + w);
            lemma_run_end_bounds(b, i + w, CharKind::Letter);
        } else {
            lemma_run_end_bounds(b, i, CharKind::Letter);
        }
    } else if is_number_cp(c) {
        lemma_digits_end_bounds(b, i, digits);
    } else if other_alt(b, i) is Some {
        if b[i] == 32 {
            lemma_step(b, i + 1);
            lemma_run_end_bounds(b, i + 1, CharKind::Other);
            lemma_crlf_end_bounds(b, run_end(b, i + 1, CharKind::Other));
        } else {
            lemma_run_end_bounds(b, i, CharKind::Other);
            lemma_crlf_end_bounds(b, run_end(b, i, CharKind::Other));
        }
    } else if ws_crlf_end(b, i, i) > i {
        lemma_ws_crlf_end_bounds(b, i, i);
    } else {
        assert(is_ws_cp(c));
        lemma_run_end_bounds(b, i, CharKind::Whitespace);
        lemma_ws_last_start_bounds(b, i);
    }
}

/// The pieces the pattern cuts the document into, from byte `i` on.
pub open spec fn cl_pieces(b: Seq<u8>, i: int, digits: nat) -> Seq<Seq<u8>>
    decreases b.len() - i,
    when valid_from(b, i) && digits >= 1
{
    if i >= b.len() {
        seq![]
    } else {
        proof {
            lemma_cl_end_bounds(b, i, digits);
        }
        seq![b.subrange(i, cl_end(b, i, digits))] + cl_pieces(b, cl_end(b, i, digits), digits)
    }
}

/// The GPT-4 pieces of a whole document.
pub open spec fn cl100k_pretokens(b: Seq<u8>) -> Seq<Seq<u8>> {
    cl_pieces(b, 0, 3)
}

/// The Qwen2 pieces of a whole document.
pub open spec fn qwen2_pretokens(b: Seq<u8>) -> Seq<Seq<u8>> {
    cl_pieces(b, 0, 1)
}

/// Pretokenization loses nothing: the pieces, joined, give back the
/// document, and none of them is empty.
pub proof fn lemma_cl_pieces_concat(b: Seq<u8>, i: int, digits: nat)
    requires
        valid_from(b, i),
        digits >= 1,
    ensures
        cl_pieces(b, i, digits).flatten() == b.subrange(i, b.len() as int),
        forall|k: int| 0 <= k < cl_pieces(b, i, digits).len() ==> #[trigger] cl_pieces(b, i, digits)[k].len() > 0,
    decreases b.len() - i,
{
    if i >= b.len() {
        assert(b.subrange(i, b.len() as int) =~= Seq::<u8>::empty());
    } else {
        lemma_cl_end_bounds(b, i, digits);
        let e = cl_end(b, i, digits);
        lemma_cl_pieces_concat(b, e, digits);
        let rest = cl_pieces(b, e, digits);
        let head = b.subrange(i, e);
        let all = seq![head] + rest;
        assert(cl_pieces(b, i, digits) == all);
        assert(all.first() == head);
        assert(all.drop_first() =~= rest);
        assert(all.flatten() == head + rest.flatten());
        assert(head + b.subrange(e, b.len() as int) =~= b.subrange(i, b.len() as int));
        assert forall|k: int| 0 <= k < all.len() implies #[trigger] all[k].len() > 0 by {
            if k > 0 {
                assert(all[k] == rest[k - 1]);
            }
        }
    }
}

/// The case-insensitive contraction at `pos`: its length, or 0.
fn ci_contraction(b: &[u8], pos: usize) -> (r: usize)
    ensures
        r == ci_contraction_len(b@, pos as int),
        r > 0 ==> r <= b.len() - pos,
{
    if pos < b.len() && b.len() - pos >= 2 && b[pos] == 39 {
        let c = b[pos + 1];
        let lc: u8 = if 65 <= c && c <= 90 { c + 32 } else { c };
        proof {
            assert(forall|l: u8| 97 <= l <= 122 ==> (eq_ci(c, l) <==> lc == l));
        }
        if lc == 115 || lc == 116 || lc == 109 || lc == 100 {
            return 2;
        }
        if b.len() - pos >= 3 {
            let d = b[pos + 2];
            let ld: u8 = if 65 <= d && d <= 90 { d + 32 } else { d };
            proof {
                assert(forall|l: u8| 97 <= l <= 122 ==> (eq_ci(d, l) <==> ld == l));
            }
            if c == 0xC5 && d == 0xBF {
                return 3;
            }
            if (lc == 114 && ld == 101) || (lc == 118 && ld == 101) || (lc == 108 && ld == 108) {
                return 3;
            }
        }
    }
    0
}

/// `[^\r\n\p{L}\p{N}]?\p{L}+` at `pos`.
fn letters_exec(b: &[u8], pos: usize) -> (r: Option<usize>)
    requires
        valid_from(b@, pos as int),
        pos < b@.len(),
    ensures
        r matches Some(e) ==> letters_alt(b@, pos as int) == Some(e as int),
        r is None ==> letters_alt(b@, pos as int) is None,
{
    proof {
        lemma_step(b@, pos as int);
    }
    let (k, w) = char_kind_at(b, pos);
    let c = cp_at_exec(b, pos);
    proof {
        lemma_kind_holds_iff(CharKind::Letter, cp_at(b@, pos as int));
        lemma_kind_holds_iff(CharKind::Number, cp_at(b@, pos as int));
    }
    if k != CharKind::Letter && k != CharKind::Number && c != 10 && c != 13 {
        let j = pos + w;
        if j < b.len() {
            let (kj, _) = char_kind_at(b, j);
            proof {
                lemma_kind_holds_iff(CharKind::Letter, cp_at(b@, j as int));
            }
            if kj == CharKind::Letter {
                return Some(scan_run(b, j, CharKind::Letter));
            }
        }
        None
    } else if k == CharKind::Letter {
        Some(scan_run(b, pos, CharKind::Letter))
    } else {
        None
    }
}

/// The scalar value of the char at `pos`.
fn cp_at_exec(b: &[u8], pos: usize) -> (c: u32)
    requires
        valid_from(b@, pos as int),
        pos < b@.len(),
    ensures
        c == cp_at(b@, pos as int),
{
    let (c, _) = crate::unicode::next_codepoint_and_length(b, pos);
    c
}

/// At most `n` number chars from `pos`.
fn digits_exec(b: &[u8], pos: usize, n: usize) -> (e: usize)
    requires
        valid_from(b@, pos as int),
    ensures
        e == digits_end(b@, pos as int, n as nat),
{
    let mut i = pos;
    let mut left = n;
    while left > 0 && i < b.len()
        invariant
            pos <= i <= b@.len(),
            valid_from(b@, i as int),
            digits_end(b@, pos as int, n as nat) == digits_end(b@, i as int, left as nat),
        decreases left,
    {
        let (k, w) = char_kind_at(b, i);
        proof {
            lemma_kind_holds_iff(CharKind::Number, cp_at(b@, i as int));
            lemma_step(b@, i as int);
        }
        if k != CharKind::Number {
            return i;
        }
        i = i + w;
        left = left - 1;
    }
    i
}

/// The run of `\r` and `\n` bytes from `pos`.
fn crlf_exec(b: &[u8], pos: usize) -> (e: usize)
    requires
        pos <= b@.len(),
    ensures
        e == crlf_end(b@, pos as int),
{
    let mut i = pos;
    while i < b.len() && (b[i] == 10 || b[i] == 13)
        invariant
            pos <= i <= b@.len(),
            crlf_end(b@, pos as int) == crlf_end(b@, i as int),
        decreases b@.len() - i,
    {
        i = i + 1;
    }
    i
}

/// ` ?[^\s\p{L}\p{N}]+[\r\n]*` at `pos`.
fn other_exec(b: &[u8], pos: usize) -> (r: Option<usize>)
    requires
        valid_from(b@, pos as int),
        pos < b@.len(),
    ensures
        r matches Some(e) ==> other_alt(b@, pos as int) == Some(e as int),
        r is None ==> other_alt(b@, pos as int) is None,
{
    proof {
        lemma_step(b@, pos as int);
    }
    let j = if b[pos] == 32 {
        pos + 1
    } else {
        pos
    };
    if j < b.len() {
        let (kj, _) = char_kind_at(b, j);
        proof {
            lemma_kind_holds_iff(CharKind::Other, cp_at(b@, j as int));
            lemma_classes_disjoint(cp_at(b@, j as int));
        }
        if kj == CharKind::Other {
            let e = scan_run(b, j, CharKind::Other);
            proof {
                lemma_run_end_bounds(b@, j as int, CharKind::Other);
            }
            return Some(crlf_exec(b, e));
        }
    }
    None
}

/// `\s*[\r\n]+` at `pos`: the end of the last `\r` or `\n` of the
/// whitespace run there, or `pos` when it holds none.
fn ws_crlf_exec(b: &[u8], pos: usize) -> (e: usize)
    requires
        valid_from(b@, pos as int),
    ensures
        e == ws_crlf_end(b@, pos as int, pos as int),
{
    let mut i = pos;
    let mut acc = pos;
    while i < b.len()
        invariant
            pos <= acc <= i <= b@.len(),
            valid_from(b@, i as int),
            ws_crlf_end(b@, pos as int, pos as int) == ws_crlf_end(b@, i as int, acc as int),
        decreases b@.len() - i,
    {
        let (k, w) = char_kind_at(b, i);
        proof {
            lemma_kind_holds_iff(CharKind::Whitespace, cp_at(b@, i as int));
            lemma_step(b@, i as int);
        }
        if k != CharKind::Whitespace {
            return acc;
        }
        if b[i] == 10 || b[i] == 13 {
            acc = i + 1;
        }
        i = i + w;
    }
    acc
}

/// The pattern's match at `pos`: its alternatives tried in order.
pub fn cl_pretoken(b: &[u8], pos: usize, digits: usize) -> (e: usize)
    requires
        valid_from(b@, pos as int),
        pos < b@.len(),
        digits >= 1,
    ensures
        e == cl_end(b@, pos as int, digits as nat),
        pos < e <= b@.len(),
        valid_from(b@, e as int),
{
    proof {
        lemma_cl_end_bounds(b@, pos as int, digits as nat);
        lemma_step(b@, pos as int);
        lemma_classes_disjoint(cp_at(b@, pos as int));
    }
    let n = ci_contraction(b, pos);
    if n > 0 {
        return pos + n;
    }
    if let Some(e) = letters_exec(b, pos) {
        return e;
    }
    let (k, _) = char_kind_at(b, pos);
    proof {
        lemma_kind_holds_iff(CharKind::Number, cp_at(b@, pos as int));
    }
    if k == CharKind::Number {
        return digits_exec(b, pos, digits);
    }
    if let Some(e) = other_exec(b, pos) {
        return e;
    }
    let e = ws_crlf_exec(b, pos);
    if e > pos {
        return e;
    }
    match whitespace_run(b, pos) {
        Some(e) => e,
        None => {
            proof {
                lemma_kind_holds_iff(CharKind::Whitespace, cp_at(b@, pos as int));
                lemma_run_end_bounds(b@, pos as int, CharKind::Whitespace);
                lemma_ws_last_start_bounds(b@, pos as int);
            }
            let (_, w) = char_kind_at(b, pos);
            pos + w
        },
    }
}

/// A GPT-4 or Qwen2 pretokenizer over a document.
pub struct Cl100kPretokenizer<'a> {
    bytes: &'a [u8],
    pos: usize,
    digits: usize,
}

impl<'a> Cl100kPretokenizer<'a> {
    /// The document.
    pub closed spec fn bytes_view(&self) -> Seq<u8> {
        self.bytes@
    }

    /// Where the next pretoken starts.
    pub closed spec fn start_view(&self) -> int {
        self.pos as int
    }

    /// How many number chars one pretoken takes at most.
    pub closed spec fn digits_view(&self) -> nat {
        self.digits as nat
    }

    pub closed spec fn wf(&self) -> bool {
        &&& valid_from(self.bytes@, self.pos as int)
        &&& self.digits >= 1
    }

    /// The GPT-4 pretokenizer: numbers in runs of up to three digits.
    pub fn cl100k(bytes: &'a [u8]) -> (r: Self)
        requires
            valid_utf8(bytes@),
        ensures
            r.wf(),
            r.bytes_view() == bytes@,
            r.start_view() == 0,
            r.digits_view() == 3,
    {
        proof {
            assert(bytes@.subrange(0, bytes@.len() as int) =~= bytes@);
        }
        Cl100kPretokenizer { bytes, pos: 0, digits: 3 }
    }

    /// The Qwen2 pretokenizer: numbers one digit at a time.
    pub fn qwen2(bytes: &'a [u8]) -> (r: Self)
        requires
            valid_utf8(bytes@),
        ensures
            r.wf(),
            r.bytes_view() == bytes@,
            r.start_view() == 0,
            r.digits_view() == 1,
    {
        proof {
            assert(bytes@.subrange(0, bytes@.len() as int) =~= bytes@);
        }
        Cl100kPretokenizer { bytes, pos: 0, digits: 1 }
    }

    /// The next pretoken, or `None` at the end of the document.
    pub fn next(&mut self) -> (r: Option<Pretoken<'a>>)
        requires
            old(self).wf(),
        ensures
            final(self).wf(),
            final(self).bytes_view() == old(self).bytes_view(),
            final(self).digits_view() == old(self).digits_view(),
            old(self).start_view() < old(self).bytes_view().len() ==> ({
                let b = old(self).bytes_view();
                let s = old(self).start_view();
                let e = cl_end(b, s, old(self).digits_view());
                &&& r matches Some(t) && t.0@ == b.subrange(s, e)
                &&& final(self).start_view() == e
            }),
            old(self).start_view() >= old(self).bytes_view().len() ==> r is None
                && final(self).start_view() == old(self).start_view(),
    {
        if self.pos >= self.bytes.len() {
            return None;
        }
        let e = cl_pretoken(self.bytes, self.pos, self.digits);
        let t = Pretoken(slice_subrange(self.bytes, self.pos, e));
        self.pos = e;
        Some(t)
    }

    /// Appends the remaining pretokens to `out`.
    pub fn collect_into(&mut self, out: &mut Vec<Pretoken<'a>>)
        requires
            old(self).wf(),
        ensures
            final(self).wf(),
            final(self).bytes_view() == old(self).bytes_view(),
            final(self).digits_view() == old(self).digits_view(),
            final(self).start_view() >= final(self).bytes_view().len(),
            pretoken_bytes(final(out)@) == pretoken_bytes(old(out)@) + cl_pieces(
                old(self).bytes_view(),
                old(self).start_view(),
                old(self).digits_view(),
            ),
    {
        let ghost b = self.bytes_view();
        let ghost d = self.digits_view();
        let ghost start = self.start_view();
        let ghost acc0 = pretoken_bytes(out@);
        while self.pos < self.bytes.len()
            invariant
                self.wf(),
                self.bytes_view() == b,
                self.digits_view() == d,
                d >= 1,
                valid_from(b, start),
                pretoken_bytes(out@) + cl_pieces(b, self.start_view(), d) == acc0 + cl_pieces(b, start, d),
            decreases b.len() - self.start_view(),
        {
            let ghost s = self.start_view();
            let ghost before = out@;
            proof {
                lemma_cl_end_bounds(b, s, d);
            }
            let t = self.next();
            match t {
                Some(t) => {
                    out.push(t);
                    proof {
                        let e = cl_end(b, s, d);
                        assert(cl_pieces(b, s, d) == seq![b.subrange(s, e)] + cl_pieces(b, e, d));
                        assert(pretoken_bytes(out@) =~= pretoken_bytes(before).push(b.subrange(s, e)));
                        assert(pretoken_bytes(out@) + cl_pieces(b, e, d) =~= pretoken_bytes(before)
                            + cl_pieces(b, s, d));
                    }
                },
                None => {},
            }
        }
        proof {
            let s = self.start_view();
            assert(cl_pieces(b, s, d) =~= Seq::<Seq<u8>>::empty());
            assert(pretoken_bytes(out@) =~= pretoken_bytes(out@) + Seq::<Seq<u8>>::empty());
        }
    }
}

} // verus!
