//! The GPT-2 pretokenization pattern, stated over the UTF-8 bytes of a
//! document: `regex_end(b, i)` is where the leftmost-first match of
//! `'(?:[sdmt]|ll|ve|re)| ?\p{L}+| ?\p{N}+| ?[^\s\p{L}\p{N}]+|\s+(?!\S)|\s+`
//! that starts at byte `i` ends.
use vstd::prelude::*;
use vstd::utf8::*;
use crate::unicode::{cp_at, width_at, valid_from, lemma_step, lemma_width_pos, is_letter_cp, is_number_cp, is_ws_cp, is_other_cp};

verus! {

/// The classes of chars the pattern distinguishes.
#[derive(Clone, Copy, PartialEq, Eq, Structural, Debug)]
pub enum CharKind {
    Letter,
    Number,
    Whitespace,
    Other,
}

pub open spec fn kind_holds(k: CharKind, cp: u32) -> bool {
    match k {
        CharKind::Letter => is_letter_cp(cp),
        CharKind::Number => is_number_cp(cp),
        CharKind::Whitespace => is_ws_cp(cp),
        CharKind::Other => is_other_cp(cp),
    }
}

/// The kind of the char `cp`: whitespace first, then letter, number, other.
pub open spec fn kind_of(cp: u32) -> CharKind {
    if is_ws_cp(cp) {
        CharKind::Whitespace
    } else if is_letter_cp(cp) {
        CharKind::Letter
    } else if is_number_cp(cp) {
        CharKind::Number
    } else {
        CharKind::Other
    }
}

/// End of the longest run of chars of kind `k` starting at byte `i`.
pub open spec fn run_end(b: Seq<u8>, i: int, k: CharKind) -> int
    decreases b.len() + 4 - i,
{
    if 0 <= i < b.len() && kind_holds(k, cp_at(b, i)) {
        proof {
            lemma_width_pos(b, i);
        }
        run_end(b, i + width_at(b, i), k)
    } else {
        i
    }
}

/// Start of the last char of the whitespace run that contains the
/// whitespace char at `i` (and continues to the right of it).
pub open spec fn ws_last_start(b: Seq<u8>, i: int) -> int
    decreases b.len() + 4 - i,
{
    if 0 <= i && i + width_at(b, i) < b.len() && is_ws_cp(cp_at(b, i + width_at(b, i))) {
        proof {
            lemma_width_pos(b, i);
        }
        ws_last_start(b, i + width_at(b, i))
    } else {
        i
    }
}

/// Length of the contraction `'s 'd 'm 't 'll 've 're` at `i`, or 0.
pub open spec fn contraction_len(b: Seq<u8>, i: int) -> int {
    if 0 <= i && i + 1 < b.len() && b[i] == 39 {
        let c = b[i + 1];
        if c == 115 || c == 100 || c == 109 || c == 116 {
            2
        } else if i + 2 < b.len() && ((c == 108 && b[i + 2] == 108) || (c == 118 && b[i + 2]
            == 101) || (c == 114 && b[i + 2] == 101)) {
            3
        } else {
            0
        }
    } else {
        0
    }
}

/// Where the pattern's match at byte `i` (a char start, `i < b.len()`) ends.
pub open spec fn regex_end(b: Seq<u8>, i: int) -> int {
    let c = cp_at(b, i);
    if is_ws_cp(c) {
        if b[i] == 32 && i + 1 < b.len() && !is_ws_cp(cp_at(b, i + 1)) {
            // ` ?\p{L}+`, ` ?\p{N}+` or ` ?[^\s\p{L}\p{N}]+` with the space
            run_end(b, i + 1, kind_of(cp_at(b, i + 1)))
        } else {
            let e = run_end(b, i, CharKind::Whitespace);
            if e == b.len() {
                e  // `\s+(?!\S)` up to the end
            } else if ws_last_start(b, i) > i {
                ws_last_start(b, i)  // `\s+(?!\S)`, leaving the last char
            } else {
                e  // `\s+`
            }
        }
    } else if contraction_len(b, i) > 0 {
        i + contraction_len(b, i)
    } else {
        run_end(b, i, kind_of(c))
    }
}

pub proof fn lemma_run_end_bounds(b: Seq<u8>, i: int, k: CharKind)
    requires
        valid_from(b, i),
    ensures
        i <= run_end(b, i, k) <= b.len(),
        valid_from(b, run_end(b, i, k)),
        i < b.len() && kind_holds(k, cp_at(b, i)) ==> run_end(b, i, k) >= i + width_at(b, i),
        run_end(b, i, k) < b.len() ==> !kind_holds(k, cp_at(b, run_end(b, i, k))),
    decreases b.len() - i,
{
    if 0 <= i < b.len() && kind_holds(k, cp_at(b, i)) {
        lemma_step(b, i);
        lemma_run_end_bounds(b, i + width_at(b, i), k);
    }
}

pub proof fn lemma_ws_last_start_bounds(b: Seq<u8>, i: int)
    requires
        valid_from(b, i),
        i < b.len(),
        is_ws_cp(cp_at(b, i)),
    ensures
        i <= ws_last_start(b, i) < b.len(),
        valid_from(b, ws_last_start(b, i)),
        is_ws_cp(cp_at(b, ws_last_start(b, i))),
        ws_last_start(b, i) + width_at(b, ws_last_start(b, i)) == run_end(b, i, CharKind::Whitespace),
    decreases b.len() - i,
{
    lemma_step(b, i);
    let j = i + width_at(b, i);
    if j < b.len() && is_ws_cp(cp_at(b, j)) {
        lemma_ws_last_start_bounds(b, j);
        assert(run_end(b, i, CharKind::Whitespace) == run_end(b, j, CharKind::Whitespace));
    } else {
        assert(run_end(b, j, CharKind::Whitespace) == j);
    }
}

/// Every match is nonempty, stays inside the document and ends at a char start.
pub proof fn lemma_regex_end_bounds(b: Seq<u8>, i: int)
    requires
        valid_from(b, i),
        i < b.len(),
    ensures
        i < regex_end(b, i) <= b.len(),
        valid_from(b, regex_end(b, i)),
{
    lemma_step(b, i);
    let c = cp_at(b, i);
    if is_ws_cp(c) {
        if b[i] == 32 && i + 1 < b.len() && !is_ws_cp(cp_at(b, i + 1)) {
            assert(width_at(b, i) == 1);
            let k = kind_of(cp_at(b, i + 1));
            lemma_run_end_bounds(b, i + 1, k);
        } else {
            lemma_run_end_bounds(b, i, CharKind::Whitespace);
            lemma_ws_last_start_bounds(b, i);
        }
    } else if contraction_len(b, i) > 0 {
        assert(b[i] == 39);
        assert(width_at(b, i) == 1);
        assert(valid_from(b, i + 1));
        let j = i + 1;
        lemma_step(b, j);
        assert(b[j] < 128);
        assert(width_at(b, j) == 1);
        if contraction_len(b, i) == 3 {
            lemma_step(b, j + 1);
        }
    } else {
        lemma_run_end_bounds(b, i, kind_of(c));
    }
}

/// The pieces the pattern cuts the document into, from byte `i` on.
pub open spec fn pattern_pieces(b: Seq<u8>, i: int) -> Seq<Seq<u8>>
    decreases b.len() - i,
    when valid_from(b, i)
{
    if i >= b.len() {
        seq![]
    } else {
        proof {
            lemma_regex_end_bounds(b, i);
        }
        seq![b.subrange(i, regex_end(b, i))] + pattern_pieces(b, regex_end(b, i))
    }
}

/// The pieces of a whole document.
pub open spec fn pretokens_of(b: Seq<u8>) -> Seq<Seq<u8>> {
    pattern_pieces(b, 0)
}

/// Pretokenization loses nothing: the pieces, joined, give back the
/// document, and none of them is empty.
pub proof fn lemma_pieces_concat(b: Seq<u8>, i: int)
    requires
        valid_from(b, i),
    ensures
        pattern_pieces(b, i).flatten() == b.subrange(i, b.len() as int),
        forall|k: int| 0 <= k < pattern_pieces(b, i).len() ==> #[trigger] pattern_pieces(b, i)[k].len() > 0,
    decreases b.len() - i,
{
    if i >= b.len() {
        assert(b.subrange(i, b.len() as int) =~= Seq::<u8>::empty());
    } else {
        lemma_regex_end_bounds(b, i);
        let e = regex_end(b, i);
        lemma_pieces_concat(b, e);
        let rest = pattern_pieces(b, e);
        let head = b.subrange(i, e);
        let all = seq![head] + rest;
        assert(pattern_pieces(b, i) == all);
        assert(all.first() == head);
        assert(all.drop_first() =~= rest);
        assert(all.flatten() == head + rest.flatten());
        assert(head + b.subrange(e, b.len() as int) =~= b.subrange(i, b.len() as int));
        assert forall|k: int| 0 <= k < all.len() implies #[trigger] all[k].len() > 0 by {
            if k > 0 {
                assert(all[k] == rest[k - 1]);
            }
        }
    }
}

} // verus!
