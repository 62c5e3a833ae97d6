//! Per-codepoint character classes for lookup tables, the bits of a
//! codepoint's UTF-8 encoding, and the set of chars a text uses.
use vstd::prelude::*;
use vstd::utf8::*;
use vstd::string::*;
use crate::unicode::{decode_chars, push_utf8, scalar_to_char};
use icu::collections::codepointtrie::{CodePointTrie, CodePointTrieBuilder, TrieType};

verus! {

/// A value outside the range of [`UnicodeClass`].
#[derive(Debug, Clone, Copy, PartialEq, Eq, Structural)]
pub struct UnicodeClassError;

/// The class of a char in the lookup tables.
#[derive(Debug, Clone, Copy, PartialEq, Eq, Hash, Structural)]
pub enum UnicodeClass {
    Letter,
    Number,
    Separator,
    Other,
}

/// Whether `char::is_alphabetic` holds of `c` (the Unicode `Alphabetic` property).
pub uninterp spec fn std_is_alphabetic(c: char) -> bool;

/// Whether `char::is_numeric` holds of `c` (general categories Nd, Nl, No).
pub uninterp spec fn std_is_numeric(c: char) -> bool;

/// The Unicode `White_Space` property, which `char::is_whitespace` tests:
/// tab to carriage return, space, NEL, no-break space, ogham space mark,
/// the spaces U+2000 to U+200A, line and paragraph separators, narrow
/// no-break space, medium mathematical space and ideographic space.
pub open spec fn std_is_whitespace(c: char) -> bool {
    let v = c as u32;
    ||| 9 <= v <= 13
    ||| v == 0x20 || v == 0x85 || v == 0xa0 || v == 0x1680
    ||| 0x2000 <= v <= 0x200a
    ||| v == 0x2028 || v == 0x2029 || v == 0x202f || v == 0x205f || v == 0x3000
}

/// `char::is_alphabetic`. Claimed: the result depends on `c` alone.
#[verifier::external_body]
fn char_is_alphabetic(c: char) -> (r: bool)
    ensures
        r == std_is_alphabetic(c),
{
    c.is_alphabetic()
}

/// `char::is_numeric`. Claimed: the result depends on `c` alone.
#[verifier::external_body]
fn char_is_numeric(c: char) -> (r: bool)
    ensures
        r == std_is_numeric(c),
{
    c.is_numeric()
}

/// Whether `c` has the `White_Space` property (what `char::is_whitespace`
/// tests).
pub(crate) fn char_is_whitespace(c: char) -> (r: bool)
    ensures
        r == std_is_whitespace(c),
{
    let v = c as u32;
    (9 <= v && v <= 13) || v == 0x20 || v == 0x85 || v == 0xa0 || v == 0x1680 || (0x2000 <= v && v <= 0x200a)
        || v == 0x2028 || v == 0x2029 || v == 0x202f || v == 0x205f || v == 0x3000
}

/// The class of `c`: letter before number before separator.
pub open spec fn class_of(c: char) -> UnicodeClass {
    if std_is_alphabetic(c) {
        UnicodeClass::Letter
    } else if std_is_numeric(c) {
        UnicodeClass::Number
    } else if std_is_whitespace(c) {
        UnicodeClass::Separator
    } else {
        UnicodeClass::Other
    }
}

/// The table value of a class.
pub open spec fn class_value(c: UnicodeClass) -> u32 {
    match c {
        UnicodeClass::Letter => 0,
        UnicodeClass::Number => 1,
        UnicodeClass::Separator => 2,
        UnicodeClass::Other => 3,
    }
}

impl From<char> for UnicodeClass {
    fn from(cp: char) -> (r: UnicodeClass) {
        if char_is_alphabetic(cp) {
            UnicodeClass::Letter
        } else if char_is_numeric(cp) {
            UnicodeClass::Number
        } else if char_is_whitespace(cp) {
            UnicodeClass::Separator
        } else {
            UnicodeClass::Other
        }
    }
}

impl vstd::std_specs::convert::FromSpecImpl<char> for UnicodeClass {
    open spec fn obeys_from_spec() -> bool {
        true
    }

    open spec fn from_spec(cp: char) -> UnicodeClass {
        class_of(cp)
    }
}

impl UnicodeClass {
    /// The class of a table value 0..=3.
    pub fn try_from_u32(i: u32) -> (r: Result<UnicodeClass, UnicodeClassError>)
        ensures
            i <= 3 <==> r is Ok,
            r matches Ok(c) ==> class_value(c) == i,
    {
        match i {
            0 => Ok(UnicodeClass::Letter),
            1 => Ok(UnicodeClass::Number),
            2 => Ok(UnicodeClass::Separator),
            3 => Ok(UnicodeClass::Other),
            _ => Err(UnicodeClassError),
        }
    }

    /// The table value of the class.
    pub fn to_u32(self) -> (r: u32)
        ensures
            r == class_value(self),
    {
        match self {
            UnicodeClass::Letter => 0,
            UnicodeClass::Number => 1,
            UnicodeClass::Separator => 2,
            UnicodeClass::Other => 3,
        }
    }
}

/// Reading a class's value back gives the class.
pub proof fn law_class_value_round_trip(c: UnicodeClass)
    ensures
        class_value(c) <= 3,
        forall|d: UnicodeClass| class_value(d) == class_value(c) ==> d == c,
{
}

/// Every char, from `char::MIN` to `char::MAX` (surrogates are not chars,
/// so iterating skips them).
pub fn unicode_range() -> (r: core::ops::RangeInclusive<char>)
    ensures
        r@.start == '\0',
        r@.end == '\u{10FFFF}',
        !r@.exhausted,
{
    core::ops::RangeInclusive::new('\0', '\u{10FFFF}')
}

/// A codepoint.
#[derive(Debug, Clone, Copy, PartialEq, Eq, Hash, Structural)]
pub struct Codepoint {
    cp: char,
}

/// The bits of `bytes`, most significant first within each byte.
pub open spec fn bits_of(bytes: Seq<u8>) -> Seq<bool> {
    Seq::new(bytes.len() * 8, |i: int| (bytes[i / 8] >> (7 - i % 8) as u8) & 1 == 1)
}

impl Codepoint {
    pub closed spec fn view(&self) -> char {
        self.cp
    }

    /// The bits of the codepoint's UTF-8 encoding, byte after byte, most
    /// significant bit first.
    pub fn get_bits(self) -> (r: Vec<bool>)
        ensures
            r@ == bits_of(encode_scalar(self.view() as u32)),
    {
        let mut bytes: Vec<u8> = Vec::new();
        push_utf8(&mut bytes, self.cp);
        let ghost eb = encode_scalar(self.cp as u32);
        assert(bytes@ =~= eb);
        let mut bits: Vec<bool> = Vec::new();
        let mut j: usize = 0;
        while j < bytes.len()
            invariant
                bytes@ == eb,
                eb.len() <= 4,
                j <= eb.len(),
                bits@ == bits_of(eb).subrange(0, 8 * j),
            decreases eb.len() - j,
        {
            let byte = bytes[j];
            let mut i: u8 = 8;
            while i > 0
                invariant
                    byte == eb[j as int],
                    j < eb.len(),
                    eb.len() <= 4,
                    i <= 8,
                    bits@ == bits_of(eb).subrange(0, 8 * j + (8 - i)),
                decreases i,
            {
                i -= 1;
                bits.push((byte >> i) & 1 == 1);
                proof {
                    let k = 8 * j + (7 - i);
                    assert(k / 8 == j && k % 8 == 7 - i) by (nonlinear_arith)
                        requires
                            k == 8 * j + (7 - i),
                            0 <= i < 8,
                    ;
                    assert(bits@ =~= bits_of(eb).subrange(0, 8 * j + (8 - i)));
                }
            }
            j += 1;
        }
        proof {
            assert(bits_of(eb).subrange(0, 8 * eb.len() as int) =~= bits_of(eb));
        }
        bits
    }
}

impl From<char> for Codepoint {
    fn from(cp: char) -> (r: Codepoint)
        ensures
            r.view() == cp,
    {
        Codepoint { cp }
    }
}

impl vstd::std_specs::convert::FromSpecImpl<char> for Codepoint {
    open spec fn obeys_from_spec() -> bool {
        true
    }

    closed spec fn from_spec(cp: char) -> Codepoint {
        Codepoint { cp }
    }
}

/// The distinct chars of `text`, in increasing order. `text` must not hold
/// `char::MAX`, which falls past the end of the table.
pub fn build_charset(text: &str) -> (r: Vec<char>)
    requires
        forall|i: int| 0 <= i < text@.len() ==> (#[trigger] text@[i] as u32) < 0x10FFFF,
    ensures
        forall|i: int, j: int| 0 <= i < j < r@.len() ==> (r@[i] as u32) < (r@[j] as u32),
        forall|c: char| r@.contains(c) <==> text@.contains(c),
{
    let mut charset: Vec<bool> = Vec::new();
    let mut k: usize = 0;
    while k < 0x10FFFF
        invariant
            k <= 0x10FFFF,
            charset@.len() == k,
            forall|x: int| 0 <= x < k ==> !(#[trigger] charset@[x]),
        decreases 0x10FFFF - k,
    {
        charset.push(false);
        k += 1;
    }
    proof {
        encode_utf8_valid_utf8(text@);
        encode_utf8_decode_utf8(text@);
    }
    let chars = decode_chars(text.as_bytes());
    assert(chars@ == text@);
    let mut i: usize = 0;
    while i < chars.len()
        invariant
            chars@ == text@,
            charset@.len() == 0x10FFFF,
            forall|x: int| 0 <= x < text@.len() ==> (#[trigger] text@[x] as u32) < 0x10FFFF,
            i <= chars@.len(),
            forall|v: int| 0 <= v < 0x10FFFF ==> (#[trigger] charset@[v] <==> exists|x: int|
                0 <= x < i && chars@[x] as u32 == v),
        decreases chars@.len() - i,
    {
        let c = chars[i];
        assert((text@[i as int] as u32) < 0x10FFFF);
        let v = c as u32 as usize;
        charset.set(v, true);
        proof {
            assert forall|w: int| 0 <= w < 0x10FFFF implies (#[trigger] charset@[w] <==> exists|x: int|
                0 <= x < i + 1 && chars@[x] as u32 == w) by {
                if w == v {
                    assert(chars@[i as int] as u32 == w);
                } else {
                    if exists|x: int| 0 <= x < i + 1 && chars@[x] as u32 == w {
                        let x = choose|x: int| 0 <= x < i + 1 && chars@[x] as u32 == w;
                        assert(x != i);
                    }
                }
            }
        }
        i += 1;
    }
    let mut out: Vec<char> = Vec::new();
    let mut cp: u32 = 0;
    while cp < 0x10FFFF
        invariant
            charset@.len() == 0x10FFFF,
            chars@ == text@,
            cp <= 0x10FFFF,
            forall|v: int| 0 <= v < 0x10FFFF ==> (#[trigger] charset@[v] <==> exists|x: int|
                0 <= x < chars@.len() && chars@[x] as u32 == v),
            forall|a: int, b: int| 0 <= a < b < out@.len() ==> (out@[a] as u32) < (out@[b] as u32),
            forall|a: int| 0 <= a < out@.len() ==> (#[trigger] out@[a] as u32) < cp,
            forall|c: char| (c as u32) < cp ==> (out@.contains(c) <==> text@.contains(c)),
            forall|a: int| 0 <= a < out@.len() ==> text@.contains(#[trigger] out@[a]),
        decreases 0x10FFFF - cp,
    {
        if charset[cp as usize] {
            let ghost x = choose|x: int| 0 <= x < chars@.len() && chars@[x] as u32 == cp;
            proof {
                char_is_scalar(chars@[x]);
            }
            let c = scalar_to_char(cp);
            proof {
                char_u32_cast(chars@[x], cp);
                assert(c == chars@[x]);
            }
            let ghost before = out@;
            out.push(c);
            proof {
                assert forall|d: char| (d as u32) < cp + 1 implies (out@.contains(d) <==> text@.contains(d)) by {
                    if d as u32 == cp {
                        char_u32_cast(d, cp);
                        char_u32_cast(c, cp);
                        assert(d == c);
                        assert(out@[out@.len() - 1] == d);
                        assert(text@[x] == d);
                    } else {
                        if out@.contains(d) {
                            let a = choose|a: int| 0 <= a < out@.len() && out@[a] == d;
                            if a < before.len() {
                                assert(before[a] == d);
                            }
                        }
                        if before.contains(d) {
                            let a = choose|a: int| 0 <= a < before.len() && before[a] == d;
                            assert(out@[a] == d);
                        }
                    }
                }
            }
        } else {
            proof {
                assert forall|d: char| (d as u32) < cp + 1 implies (out@.contains(d) <==> text@.contains(d)) by {
                    if d as u32 == cp {
                        if text@.contains(d) {
                            let x = choose|x: int| 0 <= x < text@.len() && text@[x] == d;
                            assert(chars@[x] as u32 == cp);
                            assert(charset@[cp as int]);
                        }
                        if out@.contains(d) {
                            let a = choose|a: int| 0 <= a < out@.len() && out@[a] == d;
                            assert((out@[a] as u32) < cp);
                        }
                    }
                }
            }
        }
        cp += 1;
    }
    proof {
        assert forall|c: char| out@.contains(c) <==> text@.contains(c) by {
            if (c as u32 as int) >= 0x10FFFF {
                if text@.contains(c) {
                    let x = choose|x: int| 0 <= x < text@.len() && text@[x] == c;
                    assert((text@[x] as u32) < 0x10FFFF);
                }
                if out@.contains(c) {
                    let a = choose|a: int| 0 <= a < out@.len() && out@[a] == c;
                    assert((out@[a] as u32) < cp);
                }
            }
        }
    }
    out
}

/// A small code point trie of class values, built by
/// [`build_unicode_tables`].
#[verifier::external_body]
pub struct UnicodeTable {
    pub trie: CodePointTrie<'static, u8>,
}

/// A code point trie being built.
#[verifier::external_body]
pub struct TableBuilder {
    builder: CodePointTrieBuilder<u8>,
}

/// The values set so far in a trie builder, by code point.
pub uninterp spec fn builder_values(b: TableBuilder) -> Map<u32, u8>;

/// The value a trie builder was made with for code points without one.
pub uninterp spec fn builder_default(b: TableBuilder) -> u8;

/// The value a trie holds for each code point.
pub uninterp spec fn trie_values(t: UnicodeTable) -> Map<u32, u8>;

/// `CodePointTrieBuilder::new` for a small trie: no values set yet.
#[verifier::external_body]
fn small_trie_builder(default_value: u8, error_value: u8) -> (r: TableBuilder)
    ensures
        builder_values(r).dom().is_empty(),
        builder_default(r) == default_value,
{
    TableBuilder { builder: CodePointTrieBuilder::new(default_value, error_value, TrieType::Small) }
}

/// `CodePointTrieBuilder::set_value`: sets the value of a code point; a
/// value equal to the default, or a code point past U+10FFFF, is ignored.
#[verifier::external_body]
fn builder_set_value(b: &mut TableBuilder, cp: u32, value: u8)
    ensures
        builder_default(*final(b)) == builder_default(*old(b)),
        builder_values(*final(b)) == if value == builder_default(*old(b)) || cp > 0x10FFFF {
            builder_values(*old(b))
        } else {
            builder_values(*old(b)).insert(cp, value)
        },
{
    b.builder.set_value(cp, value)
}

/// `CodePointTrieBuilder::build`: the trie holds each code point's set
/// value, and the default for the others.
#[verifier::external_body]
fn builder_build(b: TableBuilder) -> (r: UnicodeTable)
    ensures
        forall|cp: u32|
            cp <= 0x10FFFF ==> #[trigger] trie_values(r).contains_key(cp) && trie_values(r)[cp] == (if builder_values(
                b,
            ).contains_key(cp) {
                builder_values(b)[cp]
            } else {
                builder_default(b)
            }),
{
    UnicodeTable { trie: b.builder.build() }
}

proof fn lemma_sorted_ge(cs: Seq<char>, k: int)
    requires
        forall|i: int, j: int| 0 <= i < j < cs.len() ==> (cs[i] as u32) < (cs[j] as u32),
        0 <= k < cs.len(),
    ensures
        (cs[k] as u32) >= k,
    decreases k,
{
    if k > 0 {
        lemma_sorted_ge(cs, k - 1);
    }
}

/// Strictly increasing chars are at most as many as there are code points.
proof fn lemma_sorted_chars_len(cs: Seq<char>)
    requires
        forall|i: int, j: int| 0 <= i < j < cs.len() ==> (cs[i] as u32) < (cs[j] as u32),
    ensures
        cs.len() <= 0x110000,
{
    if cs.len() > 0 {
        lemma_sorted_ge(cs, cs.len() - 1);
        char_is_scalar(cs[cs.len() - 1]);
    }
}

/// A small code point trie holding, for each index `i` of
/// `values_by_codepoint`, the class value at `i`, and the value of
/// [`UnicodeClass::Other`] past the end.
pub fn build_unicode_tables(values_by_codepoint: &[UnicodeClass]) -> (r: UnicodeTable)
    requires
        values_by_codepoint@.len() <= u32::MAX,
    ensures
        forall|cp: u32|
            cp <= 0x10FFFF ==> #[trigger] trie_values(r).contains_key(cp) && trie_values(r)[cp] == (if (cp as int)
                < values_by_codepoint@.len() {
                class_value(values_by_codepoint@[cp as int]) as u8
            } else {
                3u8
            }),
{
    let other = UnicodeClass::Other.to_u32() as u8;
    let mut builder = small_trie_builder(other, other);
    let n = values_by_codepoint.len();
    let mut i: usize = 0;
    while i < n
        invariant
            n == values_by_codepoint@.len(),
            n <= u32::MAX,
            i <= n,
            other == 3,
            builder_default(builder) == other,
            forall|cp: u32| #[trigger] builder_values(builder).contains_key(cp) ==> (cp as int) < i,
            forall|cp: u32|
                (cp as int) < i && cp <= 0x10FFFF ==> (if #[trigger] builder_values(builder).contains_key(cp) {
                    builder_values(builder)[cp] == class_value(values_by_codepoint@[cp as int])
                } else {
                    class_value(values_by_codepoint@[cp as int]) == 3
                }),
        decreases n - i,
    {
        let v = values_by_codepoint[i].to_u32() as u8;
        builder_set_value(&mut builder, i as u32, v);
        i += 1;
    }
    builder_build(builder)
}

/// `cs` is the distinct chars of `text`, in increasing order.
pub open spec fn charset_of(cs: Seq<char>, text: Seq<char>) -> bool {
    &&& forall|i: int, j: int| 0 <= i < j < cs.len() ==> (cs[i] as u32) < (cs[j] as u32)
    &&& forall|c: char| cs.contains(c) <==> text.contains(c)
}

/// The table holds the class value of `cs[i]` at each index `i` of `cs`,
/// and that of [`UnicodeClass::Other`] past them.
pub open spec fn table_of_chars(t: UnicodeTable, cs: Seq<char>) -> bool {
    forall|cp: u32|
        cp <= 0x10FFFF ==> #[trigger] trie_values(t).contains_key(cp) && trie_values(t)[cp] == (if (cp as int)
            < cs.len() {
            class_value(class_of(cs[cp as int])) as u8
        } else {
            3u8
        })
}

/// The lookup table of a text's chars: the class value of the `i`-th of
/// its distinct chars, in increasing order, at index `i`.
pub fn table_from_text(text: &str) -> (r: UnicodeTable)
    requires
        forall|i: int| 0 <= i < text@.len() ==> (#[trigger] text@[i] as u32) < 0x10FFFF,
    ensures
        exists|cs: Seq<char>| #[trigger] charset_of(cs, text@) && table_of_chars(r, cs),
{
    let charset = build_charset(text);
    let mut values: Vec<UnicodeClass> = Vec::new();
    let mut i: usize = 0;
    while i < charset.len()
        invariant
            i <= charset@.len(),
            values@.len() == i,
            forall|j: int| 0 <= j < i ==> #[trigger] values@[j] == class_of(charset@[j]),
        decreases charset@.len() - i,
    {
        values.push(UnicodeClass::from(charset[i]));
        i += 1;
    }
    proof {
        assert(charset@.len() <= 0x110000) by {
            lemma_sorted_chars_len(charset@);
        }
    }
    let r = build_unicode_tables(values.as_slice());
    assert(charset_of(charset@, text@) && table_of_chars(r, charset@));
    r
}

} // verus!
