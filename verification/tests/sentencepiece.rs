use gigatoken::sentencepiece::SentencePieceBPE;
use gigatoken::token::TokenId;

const FALLBACK: u32 = 6;

fn model(added: Vec<(String, TokenId)>) -> SentencePieceBPE {
    let mut vocab: Vec<Vec<u8>> = vec![
        b"<unk>".to_vec(),
        "\u{2581}".as_bytes().to_vec(),
        b"h".to_vec(),
        b"i".to_vec(),
        "\u{2581}h".as_bytes().to_vec(),
        "\u{2581}hi".as_bytes().to_vec(),
    ];
    for b in 0..=255u8 {
        vocab.push(format!("<0x{b:02X}>").into_bytes());
    }
    let fallback: Vec<TokenId> = (0..256u32).map(|b| TokenId(FALLBACK + b)).collect();
    let merges = vec![((TokenId(1), TokenId(2)), (TokenId(4), 0)), ((TokenId(4), TokenId(3)), (TokenId(5), 1))];
    SentencePieceBPE::new(merges, vocab, fallback, added)
}

fn ids(v: &[TokenId]) -> Vec<u32> {
    v.iter().map(|t| t.0).collect()
}

#[test]
fn normalize_marks_spaces() {
    assert_eq!(SentencePieceBPE::normalize(""), "");
    assert_eq!(SentencePieceBPE::normalize("a b"), "\u{2581}a\u{2581}b");
    assert_eq!(SentencePieceBPE::normalize(" "), "\u{2581}\u{2581}");
}

#[test]
fn encode_merges_by_rank() {
    let m = model(Vec::new());
    assert_eq!(ids(&m.encode_raw("hi")), vec![5]);
    assert_eq!(ids(&m.encode_raw("hi hi")), vec![5, 5]);
    assert_eq!(ids(&m.encode_raw("h")), vec![4]);
    assert_eq!(ids(&m.encode_raw("")), Vec::<u32>::new());
}

#[test]
fn unknown_chars_fall_back_to_bytes() {
    let m = model(Vec::new());
    assert_eq!(ids(&m.encode_raw("x")), vec![1, FALLBACK + b'x' as u32]);
    let e = "é".as_bytes();
    assert_eq!(ids(&m.encode_raw("é")), vec![1, FALLBACK + e[0] as u32, FALLBACK + e[1] as u32]);
}

#[test]
fn added_tokens_are_split_out() {
    let m = model(vec![("</s>".to_string(), TokenId(300)), ("<s>".to_string(), TokenId(301))]);
    assert_eq!(ids(&m.encode_raw("hi</s>hi")), vec![5, 300, 5]);
    assert_eq!(ids(&m.encode_raw("<s>hi")), vec![301, 5]);
    assert_eq!(ids(&m.encode_raw("hi")), vec![5]);
    let mut enc = m.encoder();
    assert_eq!(ids(&enc.encode_raw("</s></s>")), vec![300, 300]);
}

#[test]
fn encode_normalized_skips_normalization() {
    let m = model(Vec::new());
    let mut enc = m.encoder();
    assert_eq!(ids(&enc.encode_normalized("\u{2581}hi")), vec![5]);
    assert_eq!(ids(&enc.encode_normalized("hi")), vec![2, 3]);
}

#[test]
fn decode_restores_spaces() {
    let m = model(Vec::new());
    assert_eq!(m.decode(&[TokenId(5), TokenId(5)]), b"hi hi".to_vec());
    assert_eq!(m.decode(&[TokenId(5), TokenId(9999)]), b"hi".to_vec());
    assert_eq!(m.decode(&[TokenId(2), TokenId(1), TokenId(3)]), b"h i".to_vec());
    assert_eq!(m.decode(&[]), Vec::<u8>::new());
}

fn byte_model() -> SentencePieceBPE {
    let mut vocab: Vec<Vec<u8>> = vec![
        b"<unk>".to_vec(),
        "\u{2581}".as_bytes().to_vec(),
        b"h".to_vec(),
        b"i".to_vec(),
        "\u{2581}h".as_bytes().to_vec(),
        "\u{2581}hi".as_bytes().to_vec(),
    ];
    for b in 0..=255u8 {
        vocab.push(vec![b]);
    }
    let fallback: Vec<TokenId> = (0..256u32).map(|b| TokenId(FALLBACK + b)).collect();
    let merges = vec![((TokenId(1), TokenId(2)), (TokenId(4), 0)), ((TokenId(4), TokenId(3)), (TokenId(5), 1))];
    SentencePieceBPE::new(merges, vocab, fallback, Vec::new())
}

#[test]
fn decode_gives_back_encoded_text() {
    let m = byte_model();
    for text in ["hi there", "", "héllo wörld", "  two  spaces ", "hi"] {
        let ids = m.encode_raw(text);
        assert_eq!(m.decode(&ids), text.as_bytes().to_vec(), "round trip of {text:?}");
    }
}

#[test]
fn raw_encoding_splits_at_the_earliest_added_token() {
    let m = model(vec![("</s>".to_string(), TokenId(300))]);
    let mut enc = m.encoder();
    let before = enc.encode_normalized(&SentencePieceBPE::normalize("hi"));
    let after = enc.encode_raw("hi");
    let mut want = before.clone();
    want.push(TokenId(300));
    want.extend(after);
    assert_eq!(m.encode_raw("hi</s>hi"), want);
}
