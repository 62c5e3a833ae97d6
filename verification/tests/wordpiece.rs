use gigatoken::wordpiece::{SpanIter, WordPieceTokenizer, is_whitespace, is_control, is_punct, is_cjk_lead};

fn test_vocab() -> (Vec<(String, u32)>, u32) {
    let v = vec![
        ("hello".to_string(), 1),
        ("he".to_string(), 2),
        ("##llo".to_string(), 3),
        ("world".to_string(), 4),
        (",".to_string(), 5),
        ("play".to_string(), 6),
        ("##ing".to_string(), 7),
        ("##ed".to_string(), 8),
    ];
    (v, 0)
}

fn spans(txt: &[u8]) -> Vec<&[u8]> {
    let mut it = SpanIter::new(txt);
    let mut out = Vec::new();
    while let Some(s) = it.next() {
        out.push(s);
    }
    out
}

#[test]
fn span_split() {
    let txt = b"hello, world!";
    assert_eq!(spans(txt), vec![&b"hello"[..], &b","[..], &b"world"[..], &b"!"[..]]);
}

#[test]
fn encode_basic() {
    let (v, unk) = test_vocab();
    let tk = WordPieceTokenizer::new(v, unk);
    assert_eq!(tk.encode("hello, world"), vec![1, 5, 4]);
}

#[test]
fn encode_subword() {
    let (v, unk) = test_vocab();
    let tk = WordPieceTokenizer::new(v, unk);
    assert_eq!(tk.encode("playing"), vec![6, 7]);
}

#[test]
fn cjk_isolated_and_unk() {
    let (v, unk) = test_vocab();
    let tk = WordPieceTokenizer::new(v, unk);
    assert_eq!(tk.encode("中"), vec![unk]);
}

#[test]
fn empty_vocab_all_unk() {
    let tk = WordPieceTokenizer::new(Vec::new(), 0);
    assert_eq!(tk.encode("abc"), vec![0, 0, 0]);
}

#[test]
fn lowercase_matches_bert() {
    let v = vec![("hello".to_string(), 1), ("world".to_string(), 2)];
    let tk = WordPieceTokenizer::new(v, 0).with_lowercase(true);
    assert_eq!(tk.encode("Hello World"), vec![1, 2]);
}

#[test]
fn spans_isolate_cjk_and_skip_controls() {
    assert_eq!(spans("a中b".as_bytes()), vec![&b"a"[..], "中".as_bytes(), &b"b"[..]]);
    assert_eq!(spans(b"  \t\n"), Vec::<&[u8]>::new());
    assert_eq!(spans(b""), Vec::<&[u8]>::new());
    assert_eq!(spans(b"a\x01b"), vec![&b"a"[..], &b"b"[..]]);
}

#[test]
fn byte_classes() {
    assert!(is_whitespace(b' ') && is_whitespace(b'\n') && !is_whitespace(b'a'));
    assert!(is_control(0x01) && is_control(b'\t') && is_control(0x7f) && !is_control(b'a'));
    assert!(is_punct(b',') && is_punct(b'!') && !is_punct(b'a'));
    assert!(is_cjk_lead(0xE4) && !is_cjk_lead(b'a'));
}

#[test]
fn subword_prefix_and_unknown_word() {
    let (v, unk) = test_vocab();
    let tk = WordPieceTokenizer::new(v, unk);
    assert_eq!(tk.encode("hello"), vec![1]);
    assert_eq!(tk.encode("played"), vec![6, 8]);
    assert_eq!(tk.encode("xyz"), vec![unk, unk, unk]);
    assert_eq!(tk.encode("hexyz"), vec![2, unk, unk, unk]);
    assert_eq!(tk.encode(""), Vec::<u32>::new());
}

#[test]
fn lowercase_strips_accents_like_bert_uncased() {
    let tk = WordPieceTokenizer::new(vec![("cafe".to_string(), 1)], 0).with_lowercase(true);
    assert_eq!(tk.encode("Café"), vec![1]);
    assert_eq!(tk.encode("CAFÉ"), vec![1]);
    let cased = WordPieceTokenizer::new(vec![("cafe".to_string(), 1)], 0);
    assert_eq!(cased.encode("Café"), vec![0, 0, 0, 0]);
}

#[test]
fn lowercasing_ascii_equals_encoding_its_lowercase() {
    let (v, unk) = test_vocab();
    let lower = WordPieceTokenizer::new(v.clone(), unk).with_lowercase(true);
    let plain = WordPieceTokenizer::new(v, unk);
    assert_eq!(lower.encode("HELLO, Playing World"), plain.encode("hello, playing world"));
    assert_eq!(lower.encode("HELLO, Playing World"), vec![1, 5, 6, 7, 4]);
}
