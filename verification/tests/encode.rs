use gigatoken::encode::hashing::{wymix, fast_hash, pack_prefix8};
use gigatoken::encode::tiktoken_radix::encode_lines;
use gigatoken::tiktoken::tokenizer::Tokenizer;
use gigatoken::pretokenize::pretoken::Pretoken;
use gigatoken::token::TokenId;

fn mix(a: u64, b: u64) -> u64 {
    let p = (a as u128) * (b as u128);
    (p as u64) ^ ((p >> 64) as u64)
}

#[test]
fn wymix_folds_the_product() {
    assert_eq!(wymix(2, 3), 6);
    assert_eq!(wymix(u64::MAX, 2), u64::MAX);
    assert_eq!(wymix(1 << 32, 1 << 32), 1);
}

#[test]
fn fast_hash_short_and_long() {
    let expected = mix(0x61 ^ 0xa0761d6478bd642f, 0xe7037ed1a0b428db) ^ 0x9e3779b97f4a7c15;
    assert_eq!(fast_hash(b"a"), expected);
    let w = u32::from_le_bytes(*b"abcd") as u64;
    let expected = mix(w ^ 0xa0761d6478bd642f, w ^ 0xe7037ed1a0b428db) ^ 4u64.wrapping_mul(0x9e3779b97f4a7c15);
    assert_eq!(fast_hash(b"abcd"), expected);
    let bytes = b"0123456789ab";
    let mut h = (bytes.len() as u64) ^ 0xa0761d6478bd642f;
    h = mix(h ^ u64::from_le_bytes(bytes[0..8].try_into().unwrap()), 0xe7037ed1a0b428db);
    h = mix(h ^ u64::from_le_bytes(bytes[4..12].try_into().unwrap()), 0x8a5cd789635d2dff);
    assert_eq!(fast_hash(bytes), h);
    assert_ne!(fast_hash(b"ab"), fast_hash(b"ba"));
}

#[test]
fn packed_prefixes() {
    assert_eq!(pack_prefix8(b""), 0);
    assert_eq!(pack_prefix8(b"a"), 0x61);
    assert_eq!(pack_prefix8(b"abc"), 0x636261);
    assert_eq!(pack_prefix8(b"abcde"), 0x6564636264636261);
    assert_eq!(pack_prefix8(b"abcdefghij"), 0x6867666564636261);
}

fn rank_tokenizer() -> Tokenizer {
    let mut v: Vec<Vec<u8>> = (0..=u8::MAX).map(|b| vec![b]).collect();
    v.push(b"he".to_vec());
    v.push(b"ll".to_vec());
    v.push(b"hell".to_vec());
    Tokenizer::from_ranks(v).unwrap()
}

#[test]
fn lines_encode_like_the_tokenizer() {
    let t = rank_tokenizer();
    let lines: Vec<&[u8]> = vec![b"hello hello", b"", b"hell", "héllo".as_bytes()];
    let (tokens, bounds) = encode_lines(&lines, &t);
    assert_eq!(bounds, vec![0, 5, 5, 6, 11]);
    let ids: Vec<u32> = tokens.iter().map(|t| t.0).collect();
    assert_eq!(&ids[0..5], &[258, 111, 32, 258, 111]);
    assert_eq!(ids[5], 258);
    assert_eq!(&ids[6..11], &[104, 0xc3, 0xa9, 257, 111]);
    let mut reference = rank_tokenizer();
    let mut expected: Vec<TokenId> = Vec::new();
    reference.memoized_encode(&[Pretoken(b"hello"), Pretoken(b" hello")], &mut expected);
    assert_eq!(&tokens[0..bounds[1]], &expected[..]);
}
