use gigatoken::input::{
    detect_compression, detect_format, detect_content_format, Compression, ContentFormat, JsonLinesReader, LineOutcome,
    docs_from_counts,
};

#[test]
fn test_detect_compression() {
    assert!(matches!(detect_compression("data.jsonl.zst"), (_, Compression::Zstd)));
    assert!(matches!(detect_compression("data.jsonl.zstd"), (_, Compression::Zstd)));
    assert!(matches!(detect_compression("data.txt.gz"), (_, Compression::Gzip)));
    assert!(matches!(detect_compression("data.jsonl"), (_, Compression::Uncompressed)));
    assert!(matches!(detect_compression("data.txt"), (_, Compression::Uncompressed)));
}

#[test]
fn test_detect_compression_strips_ext() {
    assert_eq!(detect_compression("data.jsonl.zst").0, "data.jsonl");
    assert_eq!(detect_compression("data.jsonl.zstd").0, "data.jsonl");
    assert_eq!(detect_compression("data.txt.gz").0, "data.txt");
    assert_eq!(detect_compression("data.jsonl.gz").0, "data.jsonl");
    assert_eq!(detect_compression("data.txt").0, "data.txt");
}

#[test]
fn test_detect_format_combinations() {
    assert!(matches!(detect_format("data.jsonl.zst"), (ContentFormat::Jsonl, Compression::Zstd)));
    assert!(matches!(detect_format("data.jsonl.zstd"), (ContentFormat::Jsonl, Compression::Zstd)));
    assert!(matches!(detect_format("data.jsonl.gz"), (ContentFormat::Jsonl, Compression::Gzip)));
    assert!(matches!(detect_format("data.jsonl"), (ContentFormat::Jsonl, Compression::Uncompressed)));

    assert!(matches!(detect_format("data.txt.zst"), (ContentFormat::PlainText, Compression::Zstd)));
    assert!(matches!(detect_format("data.txt.gz"), (ContentFormat::PlainText, Compression::Gzip)));
    assert!(matches!(detect_format("data.txt"), (ContentFormat::PlainText, Compression::Uncompressed)));

    assert!(matches!(detect_format("data.zst"), (ContentFormat::PlainText, Compression::Zstd)));
    assert!(matches!(detect_format("data.gz"), (ContentFormat::PlainText, Compression::Gzip)));

    assert!(matches!(detect_format("data.csv"), (ContentFormat::PlainText, Compression::Uncompressed)));
}

#[test]
fn content_format_of_stems() {
    assert!(matches!(detect_content_format("a.jsonl"), ContentFormat::Jsonl));
    assert!(matches!(detect_content_format("a.json"), ContentFormat::PlainText));
    assert!(matches!(detect_content_format("jsonl"), ContentFormat::PlainText));
    assert_eq!(detect_compression("").0, "");
    assert_eq!(detect_compression(".gz").0, "");
}

#[test]
fn json_lines() {
    let r = JsonLinesReader::new("text");
    assert!(matches!(r.on_line(b"\n"), LineOutcome::Skip));
    assert!(matches!(r.on_line(b"\r\n"), LineOutcome::Skip));
    assert!(matches!(r.on_line(b""), LineOutcome::Skip));
    match r.on_line(b"{\"text\": \"caf\\u00e9\", \"id\": 1}\n") {
        LineOutcome::Document(d) => assert_eq!(d, "café".as_bytes().to_vec()),
        other => panic!("unexpected {:?}", other),
    }
    assert!(matches!(r.on_line(b"{\"id\": 1}\n"), LineOutcome::End));
    assert!(matches!(r.on_line(b"{\"text\": 3}\n"), LineOutcome::End));
    assert!(matches!(r.on_line(b"not json\n"), LineOutcome::End));
}

#[test]
fn documents_from_counts() {
    let bytes = b"helloworld!";
    let docs = docs_from_counts(bytes, &[5, 0, 5]);
    assert_eq!(docs, vec![&b"hello"[..], &b""[..], &b"world"[..]]);
    assert!(docs_from_counts(bytes, &[]).is_empty());
}
