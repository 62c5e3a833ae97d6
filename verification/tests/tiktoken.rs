use gigatoken::tiktoken::tokenizer::{Tokenizer, TokenizerError, ByteRemapping, vocab_inverse};
use gigatoken::tiktoken::key::{pack_pretoken_key, pretoken_cache_hash, pretoken_front_index, PretokenFrontEntry};
use gigatoken::tiktoken::nfc::nfc_segment;
use gigatoken::pretokenize::pretoken::Pretoken;
use gigatoken::pretokenize::options::PretokenizerType;
use gigatoken::token::TokenId;

fn byte_vocab() -> Vec<Vec<u8>> {
    (0..=u8::MAX).map(|b| vec![b]).collect()
}

fn ids(v: &[TokenId]) -> Vec<u32> {
    v.iter().map(|t| t.0).collect()
}

/// Bytes in order, then "he", "ll", "hell".
fn rank_vocab() -> Vec<Vec<u8>> {
    let mut v = byte_vocab();
    v.push(b"he".to_vec());
    v.push(b"ll".to_vec());
    v.push(b"hell".to_vec());
    v
}

#[test]
fn packed_front_cache_serves_repeated_pretokens() {
    let mut tokenizer = Tokenizer::new(Vec::new(), byte_vocab(), None);
    let bytes = b"hello";

    let mut out = Vec::new();
    tokenizer.memoized_encode(&[Pretoken(bytes)], &mut out);
    let first = ids(&out);
    let expected: Vec<u32> = bytes.iter().map(|&byte| byte as u32).collect();
    assert_eq!(first, expected);

    let key = pack_pretoken_key(bytes).unwrap();
    let front_idx = pretoken_front_index(pretoken_cache_hash(key));
    assert!(tokenizer.front_entry(front_idx).get(key).is_some());
    assert!(tokenizer.remove_cached_pretoken(key).is_some());

    let mut out = Vec::new();
    tokenizer.memoized_encode(&[Pretoken(bytes)], &mut out);
    assert_eq!(ids(&out), first);
    assert!(tokenizer.short_cache_is_empty());

    let mut out = Vec::new();
    tokenizer.memoized_encode(&[Pretoken(b"")], &mut out);
    assert!(out.is_empty());
    assert!(tokenizer.has_cached_pretoken(0));
}

#[test]
fn concrete_pretokenizer_dispatch_matches_enum_dispatch() {
    let schemes = [PretokenizerType::GPT2, PretokenizerType::GPT4, PretokenizerType::Qwen2];
    let input = "Hello, 世界! café 12345\r\ncan't  stop".as_bytes();
    for scheme in schemes {
        let mut reference = Tokenizer::new(Vec::new(), byte_vocab(), None);
        let mut pretokens = Vec::new();
        let mut it = scheme.pretokenize(input);
        while let Some(p) = it.next() {
            pretokens.push(p);
        }
        let mut expected = Vec::new();
        reference.memoized_encode(&pretokens, &mut expected);

        let mut concrete = Tokenizer::new(Vec::new(), byte_vocab(), None);
        concrete.set_pretokenizer_type(scheme);
        let mut actual = Vec::new();
        concrete.encode_with_added_tokens(input, &mut actual);
        assert_eq!(actual, expected, "dispatch differs for {scheme:?}");
        assert_eq!(ids(&actual), input.iter().map(|&b| b as u32).collect::<Vec<u32>>());
    }
}

fn pieces(scheme: PretokenizerType, input: &str) -> Vec<String> {
    let mut it = scheme.pretokenize(input.as_bytes());
    let mut out = Vec::new();
    while let Some(p) = it.next() {
        out.push(String::from_utf8(p.0.to_vec()).unwrap());
    }
    out
}

#[test]
fn gpt4_pattern_pieces() {
    let got = pieces(PretokenizerType::GPT4, "Hello, 世界! café 12345\r\ncan't  stop");
    let want = vec!["Hello", ",", " 世界", "!", " café", " ", "123", "45", "\r\n", "can", "'t", " ", " stop"];
    assert_eq!(got, want);
    assert_eq!(pieces(PretokenizerType::GPT4, "I'M here"), vec!["I", "'M", " here"]);
    assert_eq!(pieces(PretokenizerType::GPT4, "a  \n\n  b"), vec!["a", "  \n\n", " ", " b"]);
    assert_eq!(pieces(PretokenizerType::GPT4, "x!!\n\ny"), vec!["x", "!!\n\n", "y"]);
    assert_eq!(pieces(PretokenizerType::GPT4, "end   "), vec!["end", "   "]);
}

#[test]
fn qwen2_pattern_takes_single_digits() {
    assert_eq!(pieces(PretokenizerType::Qwen2, "ab 123"), vec!["ab", " ", "1", "2", "3"]);
    assert_eq!(pieces(PretokenizerType::GPT4, "ab 12345"), vec!["ab", " ", "123", "45"]);
    assert_eq!(pieces(PretokenizerType::GPT2, "ab 12345"), vec!["ab", " 12345"]);
}

#[test]
fn registered_special_token_is_emitted_whole() {
    let mut tk = Tokenizer::new(Vec::new(), byte_vocab(), None);
    tk.add_special_token(b"<|e|>".to_vec(), TokenId(300));
    let mut out = Vec::new();
    tk.encode_with_added_tokens(b"a<|e|>b", &mut out);
    assert_eq!(ids(&out), vec![97, 300, 98]);
    let mut out = Vec::new();
    tk.encode_with_added_tokens(b"<|e|>", &mut out);
    assert_eq!(ids(&out), vec![300]);
}

#[test]
fn ranks_rebuild_merges() {
    let mut t = Tokenizer::from_ranks(rank_vocab()).unwrap();
    assert_eq!(t.vocab_size(), 259);
    let mut out = Vec::new();
    t.memoized_encode(&[Pretoken(b"hello")], &mut out);
    assert_eq!(ids(&out), vec![258, b'o' as u32]);
    assert_eq!(t.decode(&out), b"hello".to_vec());
    let merges = t.merge_entries();
    assert_eq!(merges, vec![(&b"h"[..], &b"e"[..]), (&b"l"[..], &b"l"[..]), (&b"he"[..], &b"ll"[..])]);
    let mut out = Vec::new();
    t.memoized_encode(&[Pretoken(b"hell"), Pretoken(b"hell")], &mut out);
    assert_eq!(ids(&out), vec![258, 258]);
}

#[test]
fn ranks_errors() {
    let mut v = byte_vocab();
    v.remove(7);
    assert_eq!(Tokenizer::from_ranks(v).err(), Some(TokenizerError::MissingByteToken(7)));
    let mut v = byte_vocab();
    v.push(b"abc".to_vec());
    assert_eq!(Tokenizer::from_ranks(v).err(), Some(TokenizerError::NotAMerge(256)));
}

#[test]
fn ranks_with_permuted_bytes_remap() {
    let mut v = byte_vocab();
    v.swap(b'a' as usize, b'b' as usize);
    let mut t = Tokenizer::from_ranks(v).unwrap();
    let bt = t.byte_tokens();
    assert_eq!(bt[b'a' as usize], TokenId(b'b' as u32));
    assert_eq!(bt[b'b' as usize], TokenId(b'a' as u32));
    let mut out = Vec::new();
    t.memoized_encode(&[Pretoken(b"ab")], &mut out);
    assert_eq!(ids(&out), vec![b'b' as u32, b'a' as u32]);
    assert_eq!(t.decode(&out), b"ab".to_vec());
}

#[test]
fn byte_remapping_from_inverse() {
    let inv = vocab_inverse(&byte_vocab());
    assert!(ByteRemapping::from_vocab_inv(&inv).unwrap().is_none());
    let mut v = byte_vocab();
    v.swap(1, 2);
    let inv = vocab_inverse(&v);
    let m = ByteRemapping::from_vocab_inv(&inv).unwrap().unwrap();
    assert_eq!(m.mapping[1], TokenId(2));
    assert_eq!(m.mapping[3], TokenId(3));
    let mut v = byte_vocab();
    v.pop();
    assert_eq!(ByteRemapping::from_vocab_inv(&vocab_inverse(&v)).err(), Some(TokenizerError::MissingByteToken(255)));
}

#[test]
fn merges_rank_by_merged_id() {
    let merges = vec![
        ((TokenId(b'l' as u32), TokenId(b'l' as u32)), TokenId(256)),
        ((TokenId(b'h' as u32), TokenId(b'e' as u32)), TokenId(257)),
    ];
    let mut vocab = byte_vocab();
    vocab.push(b"ll".to_vec());
    vocab.push(b"he".to_vec());
    let mut t = Tokenizer::new(merges, vocab, None);
    let mut out = Vec::new();
    t.memoized_encode(&[Pretoken(b"hello")], &mut out);
    assert_eq!(ids(&out), vec![257, 256, b'o' as u32]);
}

#[test]
fn added_tokens_split_text() {
    let mut t = Tokenizer::new(Vec::new(), byte_vocab(), None);
    t.set_added_tokens(vec![(b"<|eot|>".to_vec(), TokenId(300)), (Vec::new(), TokenId(301)), (b"<|e".to_vec(), TokenId(302))]);
    assert_eq!(t.added_token_contents(), vec![&b"<|eot|>"[..], &b"<|e"[..]]);
    let mut out = Vec::new();
    t.encode_with_added_tokens(b"hi<|eot|>yo<|ex", &mut out);
    assert_eq!(ids(&out), vec![104, 105, 300, 121, 111, 302, 120]);
}

#[test]
fn special_token_grows_vocab() {
    let mut t = Tokenizer::new(Vec::new(), byte_vocab(), None);
    t.add_special_token(b"<|end|>".to_vec(), TokenId(260));
    assert_eq!(t.vocab_size(), 261);
    let mut out = Vec::new();
    t.encode_with_added_tokens(b"a<|end|>", &mut out);
    assert_eq!(ids(&out), vec![97, 260]);
    assert_eq!(t.decode(&out), b"a<|end|>".to_vec());
    let entries = t.vocab_entries();
    assert_eq!(entries.len(), 257);
    assert_eq!(entries[256], (260, &b"<|end|>"[..]));
}

#[test]
fn nfc_normalization_between_added_tokens() {
    assert_eq!(nfc_segment("e\u{301}".as_bytes()), "\u{e9}".as_bytes().to_vec());
    assert_eq!(nfc_segment(b"plain"), b"plain".to_vec());
    let mut t = Tokenizer::new(Vec::new(), byte_vocab(), None);
    t.set_normalize_nfc(true);
    let mut out = Vec::new();
    t.encode_with_added_tokens("e\u{301}".as_bytes(), &mut out);
    assert_eq!(ids(&out), vec![0xc3, 0xa9]);
}

#[test]
fn fork_keeps_model_and_empties_caches() {
    let mut t = Tokenizer::from_ranks(rank_vocab()).unwrap();
    let mut out = Vec::new();
    t.memoized_encode(&[Pretoken(b"hell")], &mut out);
    let mut f = t.fork();
    assert!(f.short_cache_is_empty());
    let mut out2 = Vec::new();
    f.memoized_encode(&[Pretoken(b"hell")], &mut out2);
    assert_eq!(out, out2);
    assert_eq!(f.pretokenizer_type(), PretokenizerType::GPT2);
}

#[test]
fn long_pretokens_use_the_long_cache() {
    let mut t = Tokenizer::new(Vec::new(), byte_vocab(), None);
    let long = b"abcdefghijklmnopqrstuvwxyz";
    let mut out = Vec::new();
    t.memoized_encode(&[Pretoken(long), Pretoken(long)], &mut out);
    assert_eq!(out.len(), 2 * long.len());
    let stats = t.cache_mem_stats();
    assert_eq!(stats.2, 1);
    assert_eq!(stats.4, long.len());
    assert!(stats.3 >= stats.2 && stats.6 >= stats.5);
}

#[test]
fn pretoken_keys() {
    assert_eq!(pack_pretoken_key(b""), Some(0));
    assert!(pack_pretoken_key(&[1u8; 16]).is_none());
    assert_ne!(pack_pretoken_key(b"a"), pack_pretoken_key(b"a\0"));
    assert!(pretoken_front_index(u64::MAX) < 262144);
    let e = PretokenFrontEntry::new(5, 7, 9);
    assert_eq!(e.get(5), Some((7, 9)));
    assert_eq!(e.get(6), None);
    assert_eq!(PretokenFrontEntry::empty().get(0), Some((0, 0)));
}

#[test]
fn decoding_gives_the_text_back() {
    let mut t = Tokenizer::from_ranks(rank_vocab()).unwrap();
    let text = "hello, hell! Hello wörld  12\n";
    let mut out = Vec::new();
    t.encode_with_added_tokens(text.as_bytes(), &mut out);
    assert!(ids(&out).contains(&258));
    assert_eq!(t.decode(&out), text.as_bytes().to_vec());
}

#[test]
fn default_front_entry_answers_only_the_zero_key() {
    let e = PretokenFrontEntry::default();
    assert_eq!(e.get(0), Some((0, 0)));
    assert_eq!(e.get(1), None);
    assert_eq!(e.get(pack_pretoken_key(b"a").unwrap()), None);
}

#[test]
fn pieces_mark_each_pretoken_and_added_token() {
    let mut tk = Tokenizer::new(Vec::new(), byte_vocab(), None);
    tk.add_special_token(b"<|e|>".to_vec(), TokenId(300));
    let mut out = Vec::new();
    let mut ends = Vec::new();
    tk.encode_with_added_tokens_pieces(b"ab<|e|> cd", &mut out, &mut ends);
    assert_eq!(ids(&out), vec![97, 98, 300, 32, 99, 100]);
    assert_eq!(ends, vec![2, 3, 6]);

    let mut out = vec![TokenId(7)];
    let mut ends = Vec::new();
    tk.memoized_encode_pieces(&[Pretoken(b"hi"), Pretoken(b""), Pretoken(b"x")], &mut out, &mut ends);
    assert_eq!(ids(&out), vec![7, 104, 105, 120]);
    assert_eq!(ends, vec![3, 3, 4]);
}
