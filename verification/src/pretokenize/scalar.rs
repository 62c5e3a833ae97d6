//! A direct matcher for the GPT-2 pattern: one function per alternative,
//! tried in the pattern's order, each working on the UTF-8 bytes of the
//! document from a byte position.
use vstd::prelude::*;
use vstd::utf8::*;
use vstd::string::*;
use vstd::slice::slice_subrange;
use crate::unicode::{
    cp_at, width_at, valid_from, lemma_step, is_letter_cp, is_number_cp, is_ws_cp, is_other_cp,
    lemma_classes_disjoint, next_codepoint_and_length, scalar_to_char, is_letter, is_number,
    is_whitespace,
};
use crate::pretokenize::pattern::{
    CharKind, kind_holds, kind_of, run_end, ws_last_start, contraction_len, regex_end,
    lemma_run_end_bounds, lemma_ws_last_start_bounds, lemma_regex_end_bounds, pattern_pieces,
    pretokens_of,
};
use crate::pretokenize::pretoken::Pretoken;

verus! {

/// The kind of the char at `pos` and its byte width.
pub fn char_kind_at(b: &[u8], pos: usize) -> (r: (CharKind, usize))
    requires
        valid_from(b@, pos as int),
        pos < b@.len(),
    ensures
        r.0 == kind_of(cp_at(b@, pos as int)),
        r.1 == width_at(b@, pos as int),
        1 <= r.1 <= 4,
        pos + r.1 <= b@.len(),
        r.1 <= b.len() - pos,
{
    proof {
        lemma_step(b@, pos as int);
    }
    let byte = b[pos];
    if byte < 128 {
        let k = if (9 <= byte && byte <= 13) || byte == 32 {
            CharKind::Whitespace
        } else if (65 <= byte && byte <= 90) || (97 <= byte && byte <= 122) {
            CharKind::Letter
        } else if 48 <= byte && byte <= 57 {
            CharKind::Number
        } else {
            CharKind::Other
        };
        (k, 1)
    } else {
        let (cp, w) = next_codepoint_and_length(b, pos);
        let c = scalar_to_char(cp);
        let k = if is_whitespace(c) {
            CharKind::Whitespace
        } else if is_letter(c) {
            CharKind::Letter
        } else if is_number(c) {
            CharKind::Number
        } else {
            CharKind::Other
        };
        (k, w)
    }
}

pub proof fn lemma_kind_holds_iff(k: CharKind, cp: u32)
    ensures
        kind_holds(k, cp) <==> kind_of(cp) == k,
{
    lemma_classes_disjoint(cp);
}

/// End of the longest run of chars of kind `k` starting at `pos`.
pub fn scan_run(b: &[u8], pos: usize, k: CharKind) -> (e: usize)
    requires
        valid_from(b@, pos as int),
    ensures
        e == run_end(b@, pos as int, k),
{
    let mut i = pos;
    while i < b.len()
        invariant
            pos <= i <= b@.len(),
            valid_from(b@, i as int),
            run_end(b@, pos as int, k) == run_end(b@, i as int, k),
        decreases b@.len() - i,
    {
        let (ki, w) = char_kind_at(b, i);
        proof {
            lemma_kind_holds_iff(k, cp_at(b@, i as int));
            lemma_step(b@, i as int);
        }
        if ki != k {
            return i;
        }
        i = i + w;
    }
    i
}

/// The alternative ` ?X+` for the char kind `k` (letters, numbers or others):
/// an optional space, then a nonempty run of kind `k`.
pub open spec fn spaced_run(b: Seq<u8>, i: int, k: CharKind) -> Option<int> {
    let j = if b[i] == 32 { i + 1 } else { i };
    if j < b.len() && kind_holds(k, cp_at(b, j)) {
        Some(run_end(b, j, k))
    } else {
        None
    }
}

fn spaced_run_exec(b: &[u8], pos: usize, k: CharKind) -> (r: Option<usize>)
    requires
        valid_from(b@, pos as int),
        pos < b@.len(),
        k != CharKind::Whitespace,
    ensures
        r matches Some(e) ==> spaced_run(b@, pos as int, k) == Some(e as int),
        r is None ==> spaced_run(b@, pos as int, k) is None,
{
    let j = if b[pos] == 32 {
        proof {
            lemma_step(b@, pos as int);
        }
        pos + 1
    } else {
        pos
    };
    if j < b.len() {
        let (kj, _) = char_kind_at(b, j);
        proof {
            lemma_kind_holds_iff(k, cp_at(b@, j as int));
        }
        if kj == k {
            return Some(scan_run(b, j, k));
        }
    }
    None
}

/// `' ?\p{L}+`.
pub fn letter_run(b: &[u8], pos: usize) -> (r: Option<usize>)
    requires
        valid_from(b@, pos as int),
        pos < b@.len(),
    ensures
        r matches Some(e) ==> spaced_run(b@, pos as int, CharKind::Letter) == Some(e as int),
        r is None ==> spaced_run(b@, pos as int, CharKind::Letter) is None,
{
    spaced_run_exec(b, pos, CharKind::Letter)
}

/// ` ?\p{N}+`.
pub fn number_run(b: &[u8], pos: usize) -> (r: Option<usize>)
    requires
        valid_from(b@, pos as int),
        pos < b@.len(),
    ensures
        r matches Some(e) ==> spaced_run(b@, pos as int, CharKind::Number) == Some(e as int),
        r is None ==> spaced_run(b@, pos as int, CharKind::Number) is None,
{
    spaced_run_exec(b, pos, CharKind::Number)
}

/// ` ?[^\s\p{L}\p{N}]+`.
pub fn other_run(b: &[u8], pos: usize) -> (r: Option<usize>)
    requires
        valid_from(b@, pos as int),
        pos < b@.len(),
    ensures
        r matches Some(e) ==> spaced_run(b@, pos as int, CharKind::Other) == Some(e as int),
        r is None ==> spaced_run(b@, pos as int, CharKind::Other) is None,
{
    spaced_run_exec(b, pos, CharKind::Other)
}

/// `'(?:[sdmt]|ll|ve|re)`.
pub fn contraction(b: &[u8], pos: usize) -> (r: Option<usize>)
    ensures
        r matches Some(e) ==> contraction_len(b@, pos as int) > 0 && e == pos + contraction_len(
            b@,
            pos as int,
        ),
        r is None ==> contraction_len(b@, pos as int) == 0,
{
    if pos < b.len() && b.len() - pos >= 2 && b[pos] == 39 {
        let c = b[pos + 1];
        if c == 115 || c == 100 || c == 109 || c == 116 {
            return Some(pos + 2);
        }
        if b.len() - pos >= 3 {
            let d = b[pos + 2];
            if (c == 108 && d == 108) || (c == 118 && d == 101) || (c == 114 && d == 101) {
                return Some(pos + 3);
            }
        }
    }
    None
}

/// The alternative `\s+(?!\S)` at a whitespace char.
pub open spec fn ws_lookahead_run(b: Seq<u8>, i: int) -> Option<int> {
    let e = run_end(b, i, CharKind::Whitespace);
    if e == b.len() {
        Some(e)
    } else if ws_last_start(b, i) > i {
        Some(ws_last_start(b, i))
    } else {
        None
    }
}

/// `\s+(?!\S)`: a whitespace run that reaches the end of the document, or
/// the run without its last char when something else follows it.
pub fn whitespace_run(b: &[u8], pos: usize) -> (r: Option<usize>)
    requires
        valid_from(b@, pos as int),
        pos < b@.len(),
    ensures
        !is_ws_cp(cp_at(b@, pos as int)) ==> r is None,
        is_ws_cp(cp_at(b@, pos as int)) ==> (r matches Some(e) ==> ws_lookahead_run(b@, pos as int)
            == Some(e as int)) && (r is None ==> ws_lookahead_run(b@, pos as int) is None),
{
    let (k0, w0) = char_kind_at(b, pos);
    proof {
        lemma_kind_holds_iff(CharKind::Whitespace, cp_at(b@, pos as int));
    }
    if k0 != CharKind::Whitespace {
        return None;
    }
    proof {
        lemma_step(b@, pos as int);
        lemma_ws_last_start_bounds(b@, pos as int);
    }
    let mut last = pos;
    let mut i = pos + w0;
    while i < b.len()
        invariant
            pos <= last < i <= b@.len(),
            valid_from(b@, i as int),
            valid_from(b@, last as int),
            i == last + width_at(b@, last as int),
            is_ws_cp(cp_at(b@, last as int)),
            ws_last_start(b@, pos as int) == ws_last_start(b@, last as int),
            run_end(b@, pos as int, CharKind::Whitespace) == run_end(
                b@,
                i as int,
                CharKind::Whitespace,
            ),
        decreases b@.len() - i,
    {
        let (ki, wi) = char_kind_at(b, i);
        proof {
            lemma_kind_holds_iff(CharKind::Whitespace, cp_at(b@, i as int));
            lemma_step(b@, i as int);
        }
        if ki != CharKind::Whitespace {
            assert(ws_last_start(b@, last as int) == last);
            assert(run_end(b@, i as int, CharKind::Whitespace) == i);
            if last > pos {
                return Some(last);
            } else {
                return None;
            }
        }
        last = i;
        i = i + wi;
    }
    assert(run_end(b@, i as int, CharKind::Whitespace) == i);
    Some(i)
}

/// `\s+` where only a single whitespace char can match (the pattern's last
/// alternative, reached when `\s+(?!\S)` failed).
pub fn single_whitespace(b: &[u8], pos: usize) -> (r: Option<usize>)
    requires
        valid_from(b@, pos as int),
        pos < b@.len(),
    ensures
        r matches Some(e) ==> is_ws_cp(cp_at(b@, pos as int)) && e == pos + width_at(
            b@,
            pos as int,
        ),
        r is None ==> !is_ws_cp(cp_at(b@, pos as int)),
{
    let (k, w) = char_kind_at(b, pos);
    proof {
        lemma_kind_holds_iff(CharKind::Whitespace, cp_at(b@, pos as int));
    }
    if k == CharKind::Whitespace {
        Some(pos + w)
    } else {
        None
    }
}

/// The pattern's match at `pos`: its alternatives tried in order.
pub fn pretoken(b: &[u8], pos: usize) -> (e: usize)
    requires
        valid_from(b@, pos as int),
        pos < b@.len(),
    ensures
        e == regex_end(b@, pos as int),
        pos < e <= b@.len(),
        valid_from(b@, e as int),
{
    proof {
        lemma_regex_end_bounds(b@, pos as int);
        lemma_step(b@, pos as int);
        let c = cp_at(b@, pos as int);
        lemma_classes_disjoint(c);
        if b@[pos as int] == 32 && pos + 1 < b@.len() {
            lemma_step(b@, pos + 1);
            lemma_classes_disjoint(cp_at(b@, pos + 1));
        }
        if b@[pos as int] == 39 {
            assert(!is_ws_cp(c));
        }
    }
    if let Some(e) = letter_run(b, pos) {
        return e;
    }
    if let Some(e) = contraction(b, pos) {
        return e;
    }
    if let Some(e) = number_run(b, pos) {
        return e;
    }
    if let Some(e) = other_run(b, pos) {
        return e;
    }
    if let Some(e) = whitespace_run(b, pos) {
        return e;
    }
    proof {
        lemma_ws_last_start_bounds(b@, pos as int);
    }
    match single_whitespace(b, pos) {
        Some(e) => e,
        None => pos + 1,
    }
}

/// The bytes of each pretoken.
pub open spec fn pretoken_bytes<'a>(v: Seq<Pretoken<'a>>) -> Seq<Seq<u8>> {
    v.map_values(|p: Pretoken<'a>| p.0@)
}

/// All pretokens of `input`, matched alternative by alternative.
pub fn pretokens_iterator_scalar<'a>(input: &'a str) -> (r: Vec<Pretoken<'a>>)
    ensures
        pretoken_bytes(r@) == pretokens_of(input.spec_bytes()),
{
    let b = input.as_bytes();
    proof {
        vstd::utf8::encode_utf8_valid_utf8(input@);
        assert(b@.subrange(0, b@.len() as int) =~= b@);
    }
    let mut out: Vec<Pretoken<'a>> = Vec::new();
    let mut pos: usize = 0;
    while pos < b.len()
        invariant
            valid_from(b@, pos as int),
            pos <= b@.len(),
            pretoken_bytes(out@) + pattern_pieces(b@, pos as int) == pattern_pieces(b@, 0),
        decreases b@.len() - pos,
    {
        let e = pretoken(b, pos);
        let ghost before = out@;
        out.push(Pretoken(slice_subrange(b, pos, e)));
        proof {
            assert(pattern_pieces(b@, pos as int) == seq![b@.subrange(pos as int, e as int)]
                + pattern_pieces(b@, e as int));
            assert(pretoken_bytes(out@) =~= pretoken_bytes(before).push(b@.subrange(pos as int, e as int)));
            assert(pretoken_bytes(out@) + pattern_pieces(b@, e as int) =~= pretoken_bytes(before)
                + pattern_pieces(b@, pos as int));
        }
        pos = e;
    }
    proof {
        assert(pattern_pieces(b@, pos as int) =~= Seq::<Seq<u8>>::empty());
        assert(pretoken_bytes(out@) =~= pretoken_bytes(out@) + Seq::<Seq<u8>>::empty());
    }
    out
}

} // verus!
