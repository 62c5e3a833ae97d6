//! Character classes used by the pretokenizers, and UTF-8 decoding at a
//! byte position.
use vstd::prelude::*;
use vstd::utf8::*;
use icu::properties::props::{EnumeratedProperty, GeneralCategory};

verus! {

/// Unicode general category of `c`, as the `u8` discriminant of ICU's
/// `GeneralCategory` (0 = Unassigned, 1..=5 letters, 9..=11 numbers,
/// 12..=14 separators, ...).
pub uninterp spec fn unicode_general_category(c: char) -> u8;

/// Calls `icu::properties::props::GeneralCategory::for_char` and returns the
/// category's `u8` discriminant. Claimed: the result depends on `c` alone and
/// is one of ICU's 30 discriminants (0..=29, see `GeneralCategory`'s
/// `#[repr(u8)]` declaration).
#[verifier::external_body]
pub(crate) fn general_category(c: char) -> (gc: u8)
    ensures
        gc == unicode_general_category(c),
        gc <= 29,
{
    GeneralCategory::for_char(c) as u8
}

/// Calls `char::from_u32` on a Unicode scalar value, which std documents to
/// return `Some` of the char with that value.
#[verifier::external_body]
pub(crate) fn scalar_to_char(v: u32) -> (c: char)
    requires
        is_scalar(v),
    ensures
        c == v as char,
        c as u32 == v,
{
    char::from_u32(v).unwrap()
}

/// ICU's `GeneralCategoryGroup::Letter`: Lu, Ll, Lt, Lm, Lo.
pub open spec fn gc_is_letter(gc: u8) -> bool {
    1 <= gc <= 5
}

/// ICU's `GeneralCategoryGroup::Number`: Nd, Nl, No.
pub open spec fn gc_is_number(gc: u8) -> bool {
    9 <= gc <= 11
}

/// ICU's `GeneralCategoryGroup::Separator`: Zs, Zl, Zp.
pub open spec fn gc_is_separator(gc: u8) -> bool {
    12 <= gc <= 14
}

pub fn is_gc_letter(gc: u8) -> (r: bool)
    ensures
        r == gc_is_letter(gc),
{
    1 <= gc && gc <= 5
}

pub fn is_gc_number(gc: u8) -> (r: bool)
    ensures
        r == gc_is_number(gc),
{
    9 <= gc && gc <= 11
}

pub fn is_gc_separator(gc: u8) -> (r: bool)
    ensures
        r == gc_is_separator(gc),
{
    12 <= gc && gc <= 14
}

/// NEXT LINE (U+0085): the one `White_Space` char outside the ASCII range
/// that is not a separator (its general category is Cc).
pub open spec fn is_nel(cp: u32) -> bool {
    cp == 0x85
}

/// `\p{L}`: ASCII letters, and non-ASCII chars whose general category is a letter.
pub open spec fn is_letter_cp(cp: u32) -> bool {
    if cp < 128 {
        (65 <= cp <= 90) || (97 <= cp <= 122)
    } else {
        !is_nel(cp) && gc_is_letter(unicode_general_category(cp as char))
    }
}

/// `\p{N}`: ASCII digits, and non-ASCII chars whose general category is a number.
pub open spec fn is_number_cp(cp: u32) -> bool {
    if cp < 128 {
        48 <= cp <= 57
    } else {
        !is_nel(cp) && gc_is_number(unicode_general_category(cp as char))
    }
}

/// `\s` (`White_Space`): ASCII `\t \n \v \f \r` and space; outside ASCII,
/// NEXT LINE and the separators (general categories Zs, Zl, Zp).
pub open spec fn is_ws_cp(cp: u32) -> bool {
    if cp < 128 {
        (9 <= cp <= 13) || cp == 32
    } else {
        is_nel(cp) || gc_is_separator(unicode_general_category(cp as char))
    }
}

/// `[^\s\p{L}\p{N}]`.
pub open spec fn is_other_cp(cp: u32) -> bool {
    !is_ws_cp(cp) && !is_letter_cp(cp) && !is_number_cp(cp)
}

/// Letters, numbers and whitespace are pairwise disjoint.
pub proof fn lemma_classes_disjoint(cp: u32)
    ensures
        !(is_ws_cp(cp) && is_letter_cp(cp)),
        !(is_ws_cp(cp) && is_number_cp(cp)),
        !(is_letter_cp(cp) && is_number_cp(cp)),
{
}


pub fn is_letter(c: char) -> (r: bool)
    ensures
        r == is_letter_cp(c as u32),
{
    let v = c as u32;
    if v < 128 {
        (65 <= v && v <= 90) || (97 <= v && v <= 122)
    } else {
        proof { vstd::utf8::char_u32_cast(c, v); }
        v != 0x85 && is_gc_letter(general_category(c))
    }
}

pub fn is_number(c: char) -> (r: bool)
    ensures
        r == is_number_cp(c as u32),
{
    let v = c as u32;
    if v < 128 {
        48 <= v && v <= 57
    } else {
        proof { vstd::utf8::char_u32_cast(c, v); }
        v != 0x85 && is_gc_number(general_category(c))
    }
}

pub fn is_whitespace(c: char) -> (r: bool)
    ensures
        r == is_ws_cp(c as u32),
{
    let v = c as u32;
    if v < 128 {
        (9 <= v && v <= 13) || v == 32
    } else {
        proof { vstd::utf8::char_u32_cast(c, v); }
        v == 0x85 || is_gc_separator(general_category(c))
    }
}

/// The bytes from `pos` to the end.
pub open spec fn suffix(b: Seq<u8>, pos: int) -> Seq<u8> {
    b.subrange(pos, b.len() as int)
}

/// `pos` starts a char of `b` and everything from there on is valid UTF-8.
pub open spec fn valid_from(b: Seq<u8>, pos: int) -> bool {
    0 <= pos <= b.len() && valid_utf8(suffix(b, pos))
}

/// The scalar value of the char starting at `pos`.
pub open spec fn cp_at(b: Seq<u8>, pos: int) -> u32 {
    decode_first_scalar(suffix(b, pos))
}

/// The byte width of the char starting at `pos`.
pub open spec fn width_at(b: Seq<u8>, pos: int) -> int {
    length_of_first_scalar(suffix(b, pos))
}

pub proof fn lemma_width_pos(b: Seq<u8>, pos: int)
    ensures
        1 <= width_at(b, pos) <= 4,
{
}

/// Moving over one char keeps the rest valid UTF-8.
pub proof fn lemma_step(b: Seq<u8>, pos: int)
    requires
        valid_from(b, pos),
        pos < b.len(),
    ensures
        1 <= width_at(b, pos) <= 4,
        pos + width_at(b, pos) <= b.len(),
        valid_from(b, pos + width_at(b, pos)),
        is_scalar(cp_at(b, pos)),
        cp_at(b, pos) < 128 <==> b[pos] < 128,
        b[pos] < 128 ==> cp_at(b, pos) == b[pos] as u32 && width_at(b, pos) == 1,
{
    let s = suffix(b, pos);
    assert(s[0] == b[pos]);
    let w = width_at(b, pos);
    assert(pop_first_scalar(s) =~= suffix(b, pos + w));
    let v = cp_at(b, pos);
    let b0 = s[0];
    if is_leading_byte_width_1(b0) {
        assert(v == (b0 & 0x7F) as u32);
        assert(b0 <= 0x7f ==> (b0 & 0x7F) == b0) by (bit_vector);
    } else if is_leading_byte_width_2(b0) {
        let b1 = s[1];
        assert((((b0 & 0x1F) as u32) << 6) | ((b1 & 0x3f) as u32) <= 0x7FF) by (bit_vector);
    } else if is_leading_byte_width_3(b0) {
        let b1 = s[1];
        let b2 = s[2];
        assert((((b0 & 0x0F) as u32) << 12) | (((b1 & 0x3f) as u32) << 6) | ((b2 & 0x3f) as u32)
            <= 0xFFFF) by (bit_vector);
    } else {
    }
}

/// Decodes the char at `pos`, returning its scalar value and byte width.
pub fn next_codepoint_and_length(b: &[u8], pos: usize) -> (r: (u32, usize))
    requires
        valid_from(b@, pos as int),
        pos < b@.len(),
    ensures
        r.0 == cp_at(b@, pos as int),
        r.1 == width_at(b@, pos as int),
        1 <= r.1 <= 4,
        pos + r.1 <= b@.len(),
        r.1 <= b.len() - pos,
        is_scalar(r.0),
{
    proof {
        lemma_step(b@, pos as int);
    }
    let ghost s = suffix(b@, pos as int);
    let b0 = b[pos];
    assert(s[0] == b0);
    if b0 <= 0x7f {
        ((b0 & 0x7F) as u32, 1)
    } else if b0 <= 0xdf {
        let b1 = b[pos + 1];
        assert(s[1] == b1);
        ((((b0 & 0x1F) as u32) << 6) | ((b1 & 0x3f) as u32), 2)
    } else if b0 <= 0xef {
        let b1 = b[pos + 1];
        let b2 = b[pos + 2];
        assert(s[1] == b1 && s[2] == b2);
        ((((b0 & 0x0F) as u32) << 12) | (((b1 & 0x3f) as u32) << 6) | ((b2 & 0x3f) as u32), 3)
    } else {
        let b1 = b[pos + 1];
        let b2 = b[pos + 2];
        let b3 = b[pos + 3];
        assert(s[1] == b1 && s[2] == b2 && s[3] == b3);
        ((((b0 & 0x07) as u32) << 18) | (((b1 & 0x3f) as u32) << 12) | (((b2 & 0x3f) as u32) << 6)
            | ((b3 & 0x3f) as u32), 4)
    }
}

/// The chars of valid UTF-8 bytes.
pub fn decode_chars(b: &[u8]) -> (r: Vec<char>)
    requires
        valid_utf8(b@),
    ensures
        r@ == decode_utf8(b@),
{
    let mut out: Vec<char> = Vec::new();
    let mut pos: usize = 0;
    proof {
        assert(suffix(b@, 0) =~= b@);
    }
    while pos < b.len()
        invariant
            valid_from(b@, pos as int),
            out@ + decode_utf8(suffix(b@, pos as int)) == decode_utf8(b@),
        decreases b@.len() - pos,
    {
        proof {
            lemma_step(b@, pos as int);
        }
        let (cp, w) = next_codepoint_and_length(b, pos);
        let c = scalar_to_char(cp);
        let ghost before = out@;
        out.push(c);
        proof {
            let sfx = suffix(b@, pos as int);
            assert(pop_first_scalar(sfx) =~= suffix(b@, pos + w));
            assert(decode_utf8(sfx) == seq![decode_first_scalar(sfx) as char] + decode_utf8(pop_first_scalar(sfx)));
            assert(out@ + decode_utf8(suffix(b@, pos + w)) =~= before + decode_utf8(sfx));
        }
        pos = pos + w;
    }
    proof {
        assert(decode_utf8(suffix(b@, pos as int)) =~= Seq::<char>::empty());
        assert(out@ + Seq::<char>::empty() =~= out@);
    }
    out
}

/// Appends the UTF-8 encoding of `c` to `out`.
pub fn push_utf8(out: &mut Vec<u8>, c: char)
    ensures
        final(out)@ == old(out)@ + encode_scalar(c as u32),
{
    let v = c as u32;
    proof {
        char_is_scalar(c);
    }
    if v <= 0x7F {
        out.push((v & 0x7F) as u8);
    } else if v <= 0x7FF {
        out.push(0xC0 | ((v >> 6) & 0x1F) as u8);
        out.push(0x80 | (v & 0x3F) as u8);
    } else if v <= 0xFFFF {
        out.push(0xE0 | ((v >> 12) & 0x0F) as u8);
        out.push(0x80 | ((v >> 6) & 0x3F) as u8);
        out.push(0x80 | (v & 0x3F) as u8);
    } else {
        out.push(0xF0 | ((v >> 18) & 0x7) as u8);
        out.push(0x80 | ((v >> 12) & 0x3F) as u8);
        out.push(0x80 | ((v >> 6) & 0x3F) as u8);
        out.push(0x80 | (v & 0x3F) as u8);
    }
    proof {
        assert(final(out)@ =~= old(out)@ + encode_scalar(v));
    }
}

/// Appends the UTF-8 encoding of `cs[from..to]` to `out`.
pub fn push_utf8_range(out: &mut Vec<u8>, cs: &Vec<char>, from: usize, to: usize)
    requires
        from <= to <= cs@.len(),
    ensures
        final(out)@ == old(out)@ + encode_utf8(cs@.subrange(from as int, to as int)),
{
    let mut i = from;
    let ghost start = out@;
    while i < to
        invariant
            from <= i <= to <= cs@.len(),
            out@ == start + encode_utf8(cs@.subrange(from as int, i as int)),
        decreases to - i,
    {
        let ghost before = out@;
        push_utf8(out, cs[i]);
        proof {
            lemma_encode_utf8_push(cs@.subrange(from as int, i as int), cs@[i as int]);
            assert(cs@.subrange(from as int, i + 1) =~= cs@.subrange(from as int, i as int).push(cs@[i as int]));
        }
        i += 1;
    }
}

/// Encoding one more char appends its encoding.
pub proof fn lemma_encode_utf8_push(s: Seq<char>, c: char)
    ensures
        encode_utf8(s.push(c)) == encode_utf8(s) + encode_scalar(c as u32),
    decreases s.len(),
{
    if s.len() == 0 {
        let t = s.push(c);
        assert(t[0] == c);
        assert(t.drop_first() =~= Seq::<char>::empty());
        assert(encode_utf8(t.drop_first()) =~= Seq::<u8>::empty());
        assert(encode_utf8(s) =~= Seq::<u8>::empty());
        assert(encode_utf8(t) == encode_scalar(c as u32) + encode_utf8(t.drop_first()));
        assert(encode_utf8(t) =~= encode_utf8(s) + encode_scalar(c as u32));
    } else {
        lemma_encode_utf8_push(s.drop_first(), c);
        assert(s.push(c).drop_first() =~= s.drop_first().push(c));
        assert(encode_utf8(s.push(c)) =~= encode_scalar(s[0] as u32) + encode_utf8(s.drop_first().push(c)));
    }
}

/// A range of valid UTF-8 that starts and ends at char starts (or the end)
/// is valid UTF-8.
pub proof fn lemma_valid_range(b: Seq<u8>, i: int, j: int)
    requires
        valid_utf8(b),
        0 <= i <= j <= b.len(),
        i == b.len() || !is_continuation_byte(b[i]),
        j == b.len() || !is_continuation_byte(b[j]),
    ensures
        valid_utf8(b.subrange(i, j)),
        valid_from(b, i),
        valid_from(b, j),
{
    lemma_valid_from_boundary(b, i);
    lemma_valid_from_boundary(b, j);
    let s = suffix(b, i);
    if j == b.len() {
    } else {
        assert(s[j - i] == b[j]);
        is_char_boundary_iff_not_is_continuation_byte(s, j - i);
        valid_utf8_split(s, j - i);
        assert(s.subrange(0, j - i) =~= b.subrange(i, j));
    }
}

/// Valid UTF-8 continues valid from any byte that is not a continuation byte.
pub proof fn lemma_valid_from_boundary(b: Seq<u8>, i: int)
    requires
        valid_utf8(b),
        0 <= i <= b.len(),
        i == b.len() || !is_continuation_byte(b[i]),
    ensures
        valid_from(b, i),
{
    if i == b.len() {
        is_char_boundary_start_end_of_seq(b);
    } else {
        is_char_boundary_iff_not_is_continuation_byte(b, i);
    }
    valid_utf8_split(b, i);
}

/// Lowercase mapping of a string (`str::to_lowercase`).
pub uninterp spec fn unicode_lowercase(s: Seq<char>) -> Seq<char>;

/// All chars of `s` are ASCII.
pub open spec fn all_ascii(s: Seq<char>) -> bool {
    forall|i: int| 0 <= i < s.len() ==> (#[trigger] s[i] as u32) < 128
}

/// The ASCII lowercase of a char: `A`-`Z` become `a`-`z`, others stay.
pub open spec fn ascii_lower_char(c: char) -> char {
    if 'A' <= c <= 'Z' {
        ((c as u32) + 32) as char
    } else {
        c
    }
}

/// Calls `str::to_lowercase` on the string made of `s`. Claimed: the result
/// depends on the chars of `s` alone, and on ASCII text it maps `A`-`Z` to
/// `a`-`z` and keeps every other char (Unicode's lowercase mapping of the
/// ASCII letters, which `char::to_lowercase` documents).
#[verifier::external_body]
pub(crate) fn to_lowercase(s: &Vec<char>) -> (r: Vec<char>)
    ensures
        r@ == unicode_lowercase(s@),
        all_ascii(s@) ==> r@ == s@.map_values(|c: char| ascii_lower_char(c)),
{
    s.iter().collect::<String>().to_lowercase().chars().collect()
}

/// The canonical decomposition (NFD) of a string.
pub uninterp spec fn unicode_nfd(s: Seq<char>) -> Seq<char>;

/// Calls `icu::normalizer::DecomposingNormalizerBorrowed::new_nfd().normalize`
/// on the string made of `s`. Claimed: the result depends on the chars of
/// `s` alone.
#[verifier::external_body]
pub(crate) fn nfd(s: &Vec<char>) -> (r: Vec<char>)
    ensures
        r@ == unicode_nfd(s@),
{
    let t: String = s.iter().collect();
    icu::normalizer::DecomposingNormalizerBorrowed::new_nfd().normalize(&t).chars().collect()
}

} // verus!
