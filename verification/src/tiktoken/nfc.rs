//! NFC normalization of text segments (HuggingFace's `NFC` normalizer).
use vstd::prelude::*;
use vstd::utf8::*;
use vstd::string::*;
use vstd::slice::slice_to_vec;

verus! {

/// The NFC normalization of a string.
pub uninterp spec fn unicode_nfc(s: Seq<char>) -> Seq<char>;

/// `ComposingNormalizerBorrowed::new_nfc().is_normalized`. Claimed: true
/// exactly when normalizing would leave the string as it is.
#[verifier::external_body]
fn nfc_is_normalized(s: &str) -> (r: bool)
    ensures
        r == (unicode_nfc(s@) == s@),
{
    icu::normalizer::ComposingNormalizerBorrowed::new_nfc().is_normalized(s)
}

/// `ComposingNormalizerBorrowed::new_nfc().normalize`. Claimed: the result
/// is the NFC form of the string.
#[verifier::external_body]
fn nfc_normalize(s: &str) -> (r: String)
    ensures
        r@ == unicode_nfc(s@),
{
    icu::normalizer::ComposingNormalizerBorrowed::new_nfc().normalize(s).into_owned()
}

/// `std::str::from_utf8`. Claimed, as documented: a string exactly when the
/// bytes are valid UTF-8, with those bytes.
#[verifier::external_body]
fn str_from_utf8(b: &[u8]) -> (r: Option<&str>)
    ensures
        r is Some <==> valid_utf8(b@),
        r matches Some(s) ==> s.spec_bytes() == b@,
{
    std::str::from_utf8(b).ok()
}

/// Whether every byte is ASCII.
pub open spec fn is_ascii_bytes(b: Seq<u8>) -> bool {
    forall|i: int| 0 <= i < b.len() ==> #[trigger] b[i] < 128
}

fn bytes_are_ascii(b: &[u8]) -> (r: bool)
    ensures
        r == is_ascii_bytes(b@),
{
    let mut i: usize = 0;
    while i < b.len()
        invariant
            i <= b@.len(),
            forall|j: int| 0 <= j < i ==> #[trigger] b@[j] < 128,
        decreases b@.len() - i,
    {
        if b[i] >= 128 {
            return false;
        }
        i += 1;
    }
    true
}

/// The bytes a segment is pretokenized from under NFC normalization: ASCII
/// and invalid UTF-8 pass through, anything else is normalized.
pub open spec fn nfc_bytes(seg: Seq<u8>) -> Seq<u8> {
    if is_ascii_bytes(seg) || !valid_utf8(seg) {
        seg
    } else {
        encode_utf8(unicode_nfc(decode_utf8(seg)))
    }
}

/// The NFC form of a segment's text.
pub fn nfc_segment(seg: &[u8]) -> (r: Vec<u8>)
    ensures
        r@ == nfc_bytes(seg@),
{
    if bytes_are_ascii(seg) {
        return slice_to_vec(seg);
    }
    let s = match str_from_utf8(seg) {
        Some(s) => s,
        None => {
            return slice_to_vec(seg);
        },
    };
    proof {
        encode_utf8_decode_utf8(s@);
    }
    if nfc_is_normalized(s) {
        return slice_to_vec(seg);
    }
    let out = nfc_normalize(s);
    let bytes = out.as_str().as_bytes();
    slice_to_vec(bytes)
}

} // verus!
