use gigatoken::unicode_tables::{UnicodeClass, UnicodeClassError, Codepoint, build_charset, build_unicode_tables, table_from_text, unicode_range};
use gigatoken::unicode::{is_letter, is_number, is_whitespace, next_codepoint_and_length, decode_chars, push_utf8};
use gigatoken::bytemap::{ByteMap, hash_bytes, bytes_eq};
use gigatoken::bpe::{Merges, bpe_merge, pair_key};
use gigatoken::token::TokenId;

#[test]
fn classes_of_chars() {
    assert_eq!(UnicodeClass::from('a'), UnicodeClass::Letter);
    assert_eq!(UnicodeClass::from('中'), UnicodeClass::Letter);
    assert_eq!(UnicodeClass::from('7'), UnicodeClass::Number);
    assert_eq!(UnicodeClass::from('½'), UnicodeClass::Number);
    assert_eq!(UnicodeClass::from(' '), UnicodeClass::Separator);
    assert_eq!(UnicodeClass::from('\u{3000}'), UnicodeClass::Separator);
    assert_eq!(UnicodeClass::from('!'), UnicodeClass::Other);
}

#[test]
fn class_values_round_trip() {
    for v in 0..4u32 {
        assert_eq!(UnicodeClass::try_from_u32(v).unwrap().to_u32(), v);
    }
    assert_eq!(UnicodeClass::try_from_u32(4), Err(UnicodeClassError));
    assert_eq!(UnicodeClass::Separator.to_u32(), 2);
}

#[test]
fn codepoint_bits() {
    let bits = Codepoint::from('A').get_bits();
    assert_eq!(bits, vec![false, true, false, false, false, false, false, true]);
    let bits = Codepoint::from('é').get_bits();
    assert_eq!(bits.len(), 16);
    assert_eq!(&bits[0..8], &[true, true, false, false, false, false, true, true]);
}

#[test]
fn charset_is_sorted_and_distinct() {
    assert_eq!(build_charset("banana"), vec!['a', 'b', 'n']);
    assert_eq!(build_charset("é a é"), vec![' ', 'a', 'é']);
    assert_eq!(build_charset(""), Vec::<char>::new());
}

#[test]
fn pretokenizer_char_classes() {
    assert!(is_letter('x') && is_letter('ж') && !is_letter('5'));
    assert!(is_number('5') && is_number('٣') && !is_number('x'));
    assert!(is_whitespace('\t') && is_whitespace('\u{a0}') && is_whitespace('\u{85}') && !is_whitespace('x'));
    assert!(!is_letter('\u{85}'));
}

#[test]
fn utf8_decoding() {
    let b = "a€😀".as_bytes();
    assert_eq!(next_codepoint_and_length(b, 0), (0x61, 1));
    assert_eq!(next_codepoint_and_length(b, 1), (0x20ac, 3));
    assert_eq!(next_codepoint_and_length(b, 4), (0x1f600, 4));
    assert_eq!(decode_chars(b), vec!['a', '€', '😀']);
    let mut out = Vec::new();
    push_utf8(&mut out, '€');
    assert_eq!(out, "€".as_bytes().to_vec());
}

#[test]
fn byte_map() {
    let mut m: ByteMap<u32> = ByteMap::new();
    m.insert(b"ab", 1);
    m.insert(b"cd", 2);
    m.insert(b"ab", 3);
    assert_eq!(m.len(), 2);
    assert_eq!(m.get(b"ab"), Some(&3));
    assert_eq!(m.get(b"x"), None);
    assert!(m.contains_key(b"cd"));
    assert_eq!(m.entry_at(0), (&b"ab"[..], &3));
    assert!(m.capacity() >= 2);
    assert_eq!(m.key_bytes_saturating(), 4);
    let c = m.copy();
    assert_eq!(c.get(b"cd"), Some(&2));
    assert!(bytes_eq(b"xy", b"xy") && !bytes_eq(b"xy", b"x"));
    let mut h: u64 = 0xcbf29ce484222325;
    for &b in b"hi" {
        h = (h ^ b as u64).wrapping_mul(0x100000001b3);
    }
    assert_eq!(hash_bytes(b"hi"), h);
}

#[test]
fn merges_and_bpe() {
    assert_eq!(pair_key(1, 2), (1u64 << 32) | 2);
    let mut m = Merges::new();
    m.insert(TokenId(1), TokenId(2), TokenId(10), 5);
    m.insert(TokenId(2), TokenId(3), TokenId(11), 1);
    assert_eq!(m.len(), 2);
    assert_eq!(m.get(TokenId(1), TokenId(2)), Some((TokenId(10), 5)));
    assert_eq!(m.get(TokenId(2), TokenId(1)), None);
    assert_eq!(m.pair_at(1), (TokenId(2), TokenId(3)));
    m.insert(TokenId(1), TokenId(2), TokenId(12), 0);
    assert_eq!(m.len(), 2);
    let mut s = vec![TokenId(1), TokenId(2), TokenId(3)];
    bpe_merge(&mut s, &m);
    assert_eq!(s, vec![TokenId(12), TokenId(3)]);
    let mut s = vec![TokenId(4), TokenId(2), TokenId(3), TokenId(2), TokenId(3)];
    bpe_merge(&mut s, &m);
    assert_eq!(s, vec![TokenId(4), TokenId(11), TokenId(11)]);
    let c = m.copy();
    assert_eq!(c.get(TokenId(2), TokenId(3)), Some((TokenId(11), 1)));
}

#[test]
fn token_conversions() {
    assert_eq!(TokenId::from(7u32), TokenId(7));
    assert_eq!(TokenId::from(7usize), TokenId(7));
    assert_eq!(TokenId::from(7i32), TokenId(7));
    let v: u32 = TokenId(9).into();
    assert_eq!(v, 9);
    assert!(TokenId(1) < TokenId(2));
}

#[test]
fn class_tables() {
    let t = build_unicode_tables(&[
        UnicodeClass::Letter,
        UnicodeClass::Number,
        UnicodeClass::Other,
        UnicodeClass::Separator,
    ]);
    assert_eq!(t.trie.get32(0), 0);
    assert_eq!(t.trie.get32(1), 1);
    assert_eq!(t.trie.get32(2), 3);
    assert_eq!(t.trie.get32(3), 2);
    assert_eq!(t.trie.get32(4), 3);
    assert_eq!(t.trie.get32(0x10FFFF), 3);
    let t = table_from_text("b a1");
    assert_eq!(t.trie.get32(0), 2);
    assert_eq!(t.trie.get32(1), 1);
    assert_eq!(t.trie.get32(2), 0);
    assert_eq!(t.trie.get32(3), 0);
    assert_eq!(t.trie.get32(4), 3);
}

#[test]
fn all_chars() {
    let r = unicode_range();
    assert_eq!(*r.start(), char::MIN);
    assert_eq!(*r.end(), char::MAX);
    assert_eq!(r.count(), 0x110000 - 0x800);
}
