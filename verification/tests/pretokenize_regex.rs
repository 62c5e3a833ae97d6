use gigatoken::pretokenize::state_machine::pretokenize_as_iter;
use gigatoken::pretokenize::scalar::pretokens_iterator_scalar;
use gigatoken::pretokenize::options::PretokenizerType;

const CL100K_REGEX: &str =
    r"(?i:'s|'t|'re|'ve|'m|'ll|'d)|[^\r\n\p{L}\p{N}]?\p{L}+|\p{N}{1,3}| ?[^\s\p{L}\p{N}]+[\r\n]*|\s*[\r\n]+|\s+(?!\S)|\s+";
const QWEN2_REGEX: &str =
    r"(?i:'s|'t|'re|'ve|'m|'ll|'d)|[^\r\n\p{L}\p{N}]?\p{L}+|\p{N}| ?[^\s\p{L}\p{N}]+[\r\n]*|\s*[\r\n]+|\s+(?!\S)|\s+";
const GPT2_REGEX: &str = r"'(?:[sdmt]|ll|ve|re)| ?\p{L}+| ?\p{N}+| ?[^\s\p{L}\p{N}]+|\s+(?!\S)|\s+";

/// A varied text: words in several scripts, numbers, punctuation,
/// contractions, and every kind of white space, mixed at random.
fn corpus(n_pieces: usize) -> String {
    let fragments = [
        "Hello", "world", "the", "a", "I", "don", "'t", "'s", "'ll", "'re", "'ve", "'m", "'d", "'x", "'", "’s",
        "café", "naïve", "Straße", "ΑΒΓ", "δέλτα", "Привет", "мир", "世界", "中文", "日本語", "한국어", "עברית",
        "مرحبا", "हिन्दी", "ไทย", "12345", "3", "٣٤", "²", "½", "Ⅻ", "0x1F", ".", ",", "!", "?", "...", "--", "(",
        ")", "\"", "#", "$", "%", "&", "*", "@", "^", "_", "`", "~", "😀", "🚀🌟", "©", "€", " ", " ", " ", "  ",
        "   ", "\t", "\n", "\r\n", "\n\n", "\u{a0}", "\u{85}", "\u{2003}", "\u{3000}", "\u{2028}", "\u{200b}",
        "\u{301}", "e\u{301}", "\u{1680}", "\u{0b}", "\u{0c}", "\u{7f}", "\u{1}",
    ];
    let mut state: u64 = 0x2545F4914F6CDD1D;
    let mut out = String::new();
    for _ in 0..n_pieces {
        state = state.wrapping_mul(6364136223846793005).wrapping_add(1442695040888963407);
        let i = ((state >> 33) as usize) % fragments.len();
        out.push_str(fragments[i]);
    }
    out
}

fn regex_pieces(text: &str) -> Vec<&str> {
    let re = fancy_regex::Regex::new(GPT2_REGEX).unwrap();
    re.find_iter(text).map(|m| m.expect("regex match error").as_str()).collect()
}

#[test]
fn test_pretokenizer_matches_regex_owt() {
    let text = corpus(200_000);
    let input = text.as_bytes();
    let expected = regex_pieces(&text);
    let mut sm_iter = pretokenize_as_iter(input);
    let mut token_idx: usize = 0;
    loop {
        match (sm_iter.next(), expected.get(token_idx)) {
            (Some(sm_tok), Some(re_str)) => {
                let sm_str = String::from_utf8_lossy(sm_tok.0);
                assert_eq!(sm_str, *re_str, "Mismatch at token {token_idx}");
            }
            (None, None) => break,
            (Some(sm_tok), None) => {
                panic!("State machine produced extra token at index {token_idx}: {:?}", String::from_utf8_lossy(sm_tok.0));
            }
            (None, Some(re_str)) => {
                panic!("Regex produced extra token at index {token_idx}: {:?}", re_str);
            }
        }
        token_idx += 1;
    }
}

#[test]
fn scalar_matcher_matches_regex() {
    for n in [0usize, 1, 2, 3, 10, 1000, 20_000] {
        let text = corpus(n);
        let scalar: Vec<&str> = pretokens_iterator_scalar(&text)
            .iter()
            .map(|p| std::str::from_utf8(p.0).unwrap())
            .collect();
        assert_eq!(scalar, regex_pieces(&text), "corpus of {n} fragments");
    }
}

#[test]
fn regex_edge_cases() {
    for text in [
        "", " ", "  ", "a ", "a  ", " a", "  a", "\n", "\n ", " \n", "a\n\nb", "x'", "x's", "x'S", "'ll've",
        "?!", " ?!", "1 2", "\u{85}x", "x\u{85}", "\u{a0}\u{a0}x", "\t\tx", "e\u{301}", "  \u{301}",
    ] {
        let sm: Vec<&str> = {
            let mut it = pretokenize_as_iter(text.as_bytes());
            let mut v = Vec::new();
            while let Some(p) = it.next() {
                v.push(std::str::from_utf8(p.0).unwrap());
            }
            v
        };
        assert_eq!(sm, regex_pieces(text), "input {:?}", text);
    }
}

fn scheme_pieces(scheme: PretokenizerType, text: &str) -> Vec<String> {
    let mut it = scheme.pretokenize(text.as_bytes());
    let mut out = Vec::new();
    while let Some(p) = it.next() {
        out.push(String::from_utf8_lossy(p.0).into_owned());
    }
    out
}

fn pattern_pieces(pattern: &str, text: &str) -> Vec<String> {
    let re = fancy_regex::Regex::new(pattern).unwrap();
    re.find_iter(text).map(|m| m.expect("regex match error").as_str().to_string()).collect()
}

#[test]
fn gpt4_pretokenizer_matches_regex() {
    let extra = "I'M HERE'S 'LL 'Ve ſ 'ſ x!!\n\ny a  \n\n  b 1234567 \r\n\r\n end   ";
    for n in [0usize, 1, 2, 3, 10, 1000, 50_000] {
        let text = format!("{}{}", corpus(n), extra);
        assert_eq!(scheme_pieces(PretokenizerType::GPT4, &text), pattern_pieces(CL100K_REGEX, &text), "corpus of {n}");
    }
}

#[test]
fn qwen2_pretokenizer_matches_regex() {
    let extra = "I'M HERE'S 'LL 'Ve ſ 'ſ x!!\n\ny a  \n\n  b 1234567 \r\n\r\n end   ";
    for n in [0usize, 1, 2, 3, 10, 1000, 50_000] {
        let text = format!("{}{}", corpus(n), extra);
        assert_eq!(scheme_pieces(PretokenizerType::Qwen2, &text), pattern_pieces(QWEN2_REGEX, &text), "corpus of {n}");
    }
}
