use gigatoken::pretokenize::scalar::{pretokens_iterator_scalar, pretoken, char_kind_at};
use gigatoken::pretokenize::state_machine::{pretokenize_as_iter, pretokenize_doc_iterable};
use gigatoken::pretokenize::counting::{
    pretoken_count, pretokenize_count, pretokenize_with_endoftext, count_pretokens_weighted, merge_counts, split_ranges,
    find_separator, find_boundaries, has_boundaries, find_boundaries_for_pool, endoftext, add_pretoken_counts,
    count_rows_weighted,
};
use gigatoken::pretokenize::pretoken::Pretoken;
use gigatoken::bytemap::ByteMap;

const SAMPLE: &str = "Hello, 世界! café 12345\r\ncan't  stop";

fn expected_sample() -> Vec<&'static [u8]> {
    vec![
        b"Hello",
        b",",
        " 世界".as_bytes(),
        b"!",
        " café".as_bytes(),
        b" 12345",
        b"\r",
        b"\n",
        b"can",
        b"'t",
        b" ",
        b" stop",
    ]
}

fn iter_pieces(b: &[u8]) -> Vec<&[u8]> {
    let mut it = pretokenize_as_iter(b);
    let mut out = Vec::new();
    while let Some(p) = it.next() {
        out.push(p.0);
    }
    out
}

#[test]
fn gpt2_pattern_pieces() {
    let scalar: Vec<&[u8]> = pretokens_iterator_scalar(SAMPLE).iter().map(|p| p.0).collect();
    assert_eq!(scalar, expected_sample());
    assert_eq!(iter_pieces(SAMPLE.as_bytes()), expected_sample());
}

#[test]
fn contractions_and_trailing_spaces() {
    assert_eq!(iter_pieces(b"I'll we're"), vec![&b"I"[..], b"'ll", b" we", b"'re"]);
    assert_eq!(iter_pieces(b"a   "), vec![&b"a"[..], b"   "]);
    assert_eq!(iter_pieces(b"a  b"), vec![&b"a"[..], b" ", b" b"]);
    assert_eq!(iter_pieces(b"x'Q"), vec![&b"x"[..], b"'", b"Q"]);
    assert_eq!(iter_pieces(b""), Vec::<&[u8]>::new());
    assert_eq!(iter_pieces(b"?!. 42"), vec![&b"?!."[..], b" 42"]);
}

#[test]
fn scalar_matchers() {
    let b = b"hello world";
    assert_eq!(pretoken(b, 0), 5);
    assert_eq!(pretoken(b, 5), 11);
    let (_, w) = char_kind_at("é".as_bytes(), 0);
    assert_eq!(w, 2);
}

#[test]
fn pretokens_joined_give_the_text() {
    let joined: Vec<u8> = pretokens_iterator_scalar(SAMPLE).iter().flat_map(|p| p.0.iter().copied()).collect();
    assert_eq!(joined, SAMPLE.as_bytes().to_vec());
}

#[test]
fn counting() {
    let pieces = pretokens_iterator_scalar("a a b a");
    let counts = pretoken_count(&pieces);
    assert_eq!(counts.get(b"a"), Some(&1));
    assert_eq!(counts.get(b" a"), Some(&2));
    assert_eq!(counts.get(b" b"), Some(&1));
    assert_eq!(counts.get(b"b"), None);
    assert_eq!(counts.len(), 3);

    let counts = pretokenize_count(b"x x");
    assert_eq!(counts.get(b"x"), Some(&1));
    assert_eq!(counts.get(b" x"), Some(&1));

    let mut acc = pretoken_count(&pieces);
    merge_counts(&mut acc, &counts);
    assert_eq!(acc.get(b" a"), Some(&2));
    assert_eq!(acc.get(b"x"), Some(&1));

    let mut c = ByteMap::new();
    add_pretoken_counts(&mut c, &vec![Pretoken(b"q"), Pretoken(b"q")]);
    assert_eq!(c.get(b"q"), Some(&2));

    let w = count_pretokens_weighted(&[(&b"a"[..], 3), (&b"b"[..], 1), (&b"a"[..], 2)]);
    assert_eq!(w.get(b"a"), Some(&5));
    assert_eq!(w.get(b"b"), Some(&1));
}

#[test]
fn documents_split_at_endoftext() {
    assert_eq!(endoftext(), b"<|endoftext|>".to_vec());
    let text = b"hi there<|endoftext|>hi<|endoftext|>";
    let counts = pretokenize_with_endoftext(text);
    assert_eq!(counts.get(b"hi"), Some(&2));
    assert_eq!(counts.get(b" there"), Some(&1));
    assert_eq!(counts.get(b"<|"), None);
    let docs = [&b"ab cd"[..], &b"ef"[..]];
    let all: Vec<&[u8]> = pretokenize_doc_iterable(&docs).iter().map(|p| p.0).collect();
    assert_eq!(all, vec![&b"ab"[..], b" cd", b"ef"]);
}

#[test]
fn separators() {
    assert_eq!(find_separator(b"a--b--", b"--", 0), Some(1));
    assert_eq!(find_separator(b"a--b--", b"--", 2), Some(4));
    assert_eq!(find_separator(b"a--b", b"--", 2), None);
    assert_eq!(split_ranges(b"a--b--", b"--"), vec![(0, 1), (3, 4), (6, 6)]);
    assert_eq!(split_ranges(b"", b"--"), vec![(0, 0)]);
}

#[test]
fn chunk_boundaries() {
    let text = b"One. Two. Three. Four. Five.";
    let b = find_boundaries(text, 3);
    assert_eq!(b.len(), 4);
    assert_eq!(b[0], 0);
    assert_eq!(b[3], text.len());
    assert_eq!(&text[b[1] - 1..b[1] + 1], b". ");
    assert_eq!(&text[b[2] - 1..b[2] + 1], b". ");
    assert!(has_boundaries(text, 3));
    assert!(!has_boundaries(b"no periods here at all", 2));
    assert!(has_boundaries(b"no periods", 1));
    assert!(!has_boundaries(b"x", 0));
    assert_eq!(find_boundaries(b"abc", 1), vec![0, 3]);
    let (n, v) = find_boundaries_for_pool(b"abc");
    assert!(n >= 1);
    assert_eq!(v.is_some(), has_boundaries(b"abc", n));
    if let Some(v) = v {
        assert_eq!(v, find_boundaries(b"abc", n));
    }
    let (n, v) = find_boundaries_for_pool(text);
    assert_eq!(v.is_some(), has_boundaries(text, n));
}

#[test]
fn rows_count_with_their_weights() {
    let rows: Vec<(Option<&[u8]>, Option<i64>)> = vec![
        (Some(&b"a a"[..]), Some(2)),
        (None, Some(5)),
        (Some(&b"a"[..]), None),
        (Some(&b"b"[..]), Some(0)),
    ];
    let c = count_rows_weighted(&rows);
    assert_eq!(c.get(b"a"), Some(&3));
    assert_eq!(c.get(b" a"), Some(&2));
    assert_eq!(c.get(b"b"), Some(&0));
    assert_eq!(c.len(), 3);
}
