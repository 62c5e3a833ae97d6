//! Input files: compression and content format from the file name, and the
//! documents of JSON-lines input.
use vstd::prelude::*;
use vstd::string::*;
use vstd::utf8::*;
use crate::hub::repo::{ends_with, has_suffix};
use crate::hub::text::{at_boundary, lemma_boundary, lemma_ascii_bytes};
use sonic_rs::JsonValueTrait;

verus! {

/// How a file is compressed.
#[derive(Debug, Clone, Copy, PartialEq, Eq, Structural)]
pub enum Compression {
    Uncompressed,
    Gzip,
    Zstd,
}

/// What a file holds once decompressed.
#[derive(Debug, Clone, Copy, PartialEq, Eq, Structural)]
pub enum ContentFormat {
    PlainText,
    Jsonl,
}

/// The compression named by a file name's extension and the length of the
/// name without it: `.zst` or `.zstd` is zstd, `.gz` gzip.
pub open spec fn compression_of(name: Seq<u8>) -> (int, Compression) {
    if ends_with(name, ".zst".spec_bytes()) {
        (name.len() - 4, Compression::Zstd)
    } else if ends_with(name, ".zstd".spec_bytes()) {
        (name.len() - 5, Compression::Zstd)
    } else if ends_with(name, ".gz".spec_bytes()) {
        (name.len() - 3, Compression::Gzip)
    } else {
        (name.len() as int, Compression::Uncompressed)
    }
}

proof fn lemma_extension_bytes()
    ensures
        ".zst".spec_bytes() == seq![0x2eu8, 0x7a, 0x73, 0x74],
        ".zstd".spec_bytes() == seq![0x2eu8, 0x7a, 0x73, 0x74, 0x64],
        ".gz".spec_bytes() == seq![0x2eu8, 0x67, 0x7a],
{
    reveal_strlit(".zst");
    reveal_strlit(".zstd");
    reveal_strlit(".gz");
    assert(is_ascii_chars(".zst"@));
    assert(is_ascii_chars(".zstd"@));
    assert(is_ascii_chars(".gz"@));
    lemma_ascii_bytes(".zst"@);
    lemma_ascii_bytes(".zstd"@);
    lemma_ascii_bytes(".gz"@);
    assert(".zst".spec_bytes() =~= seq![0x2eu8, 0x7a, 0x73, 0x74]);
    assert(".zstd".spec_bytes() =~= seq![0x2eu8, 0x7a, 0x73, 0x74, 0x64]);
    assert(".gz".spec_bytes() =~= seq![0x2eu8, 0x67, 0x7a]);
}

/// The name without its compression extension, and the compression.
pub fn detect_compression(name: &str) -> (r: (&str, Compression))
    ensures
        r.0.spec_bytes() == name.spec_bytes().subrange(0, compression_of(name.spec_bytes()).0),
        r.1 == compression_of(name.spec_bytes()).1,
{
    let b = name.as_bytes();
    let n = b.len();
    proof {
        lemma_extension_bytes();
        encode_utf8_valid_utf8(name@);
    }
    let (cut, c) = if has_suffix(b, ".zst".as_bytes()) {
        (n - 4, Compression::Zstd)
    } else if has_suffix(b, ".zstd".as_bytes()) {
        (n - 5, Compression::Zstd)
    } else if has_suffix(b, ".gz".as_bytes()) {
        (n - 3, Compression::Gzip)
    } else {
        (n, Compression::Uncompressed)
    };
    proof {
        if cut < n {
            assert(b@.subrange(cut as int, n as int)[0] == b@[cut as int]);
            assert(b@[cut as int] == 0x2e);
        }
        lemma_boundary(b@, cut as int);
    }
    let (stem, _) = name.split_at(cut);
    (stem, c)
}

/// `.jsonl` content is JSON lines; anything else plain text.
pub open spec fn content_format_of(stem: Seq<u8>) -> ContentFormat {
    if ends_with(stem, ".jsonl".spec_bytes()) {
        ContentFormat::Jsonl
    } else {
        ContentFormat::PlainText
    }
}

/// The content format of an uncompressed file name.
pub fn detect_content_format(stem: &str) -> (r: ContentFormat)
    ensures
        r == content_format_of(stem.spec_bytes()),
{
    if has_suffix(stem.as_bytes(), ".jsonl".as_bytes()) {
        ContentFormat::Jsonl
    } else {
        ContentFormat::PlainText
    }
}

/// The content format and compression of a file, from its file name.
pub fn detect_format(file_name: &str) -> (r: (ContentFormat, Compression))
    ensures
        ({
            let (cut, c) = compression_of(file_name.spec_bytes());
            r == (content_format_of(file_name.spec_bytes().subrange(0, cut)), c)
        }),
{
    let (stem, compression) = detect_compression(file_name);
    let content = detect_content_format(stem);
    (content, compression)
}

/// The string value of field `field` of the JSON object on `line`, if the
/// line parses, has it, and it is a string.
pub uninterp spec fn json_string_field(line: Seq<u8>, field: Seq<char>) -> Option<Seq<char>>;

/// `sonic_rs::get_from_slice(line, &[field])`, the value read with
/// `JsonValueTrait::as_str`. Claimed: the result depends on the line and the
/// field name alone.
#[verifier::external_body]
fn get_string_field(line: &[u8], field: &str) -> (r: Option<String>)
    ensures
        r matches Some(s) ==> json_string_field(line@, field@) == Some(s@),
        r is None ==> json_string_field(line@, field@) is None,
{
    match sonic_rs::get_from_slice(line, &[field]) {
        Ok(v) => v.as_str().map(|s| s.to_owned()),
        Err(_) => None,
    }
}

/// A line of nothing but line-break bytes.
pub open spec fn is_blank_line(line: Seq<u8>) -> bool {
    forall|i: int| 0 <= i < line.len() ==> #[trigger] line[i] == 0x0a || line[i] == 0x0d
}

/// What a line of JSON-lines input gives.
#[derive(Debug)]
pub enum LineOutcome {
    /// A blank line: read on.
    Skip,
    /// A document: the field's string, as UTF-8.
    Document(Vec<u8>),
    /// A line without the field as a string ends the input.
    End,
}

/// Documents of JSON-lines input: the string field `field` of each line.
pub struct JsonLinesReader {
    field: String,
}

impl JsonLinesReader {
    pub closed spec fn field_view(&self) -> Seq<char> {
        self.field@
    }

    pub fn new(field: &str) -> (r: JsonLinesReader)
        ensures
            r.field_view() == field@,
    {
        JsonLinesReader { field: String::from_str(field) }
    }

    /// What one line (with its line break, if any) gives.
    pub fn on_line(&self, line: &[u8]) -> (r: LineOutcome)
        ensures
            is_blank_line(line@) ==> r is Skip,
            !is_blank_line(line@) ==> match json_string_field(line@, self.field_view()) {
                Some(s) => r matches LineOutcome::Document(d) && d@ == encode_utf8(s),
                None => r is End,
            },
    {
        let mut i: usize = 0;
        while i < line.len()
            invariant
                i <= line@.len(),
                forall|j: int| 0 <= j < i ==> #[trigger] line@[j] == 0x0a || line@[j] == 0x0d,
            ensures
                i <= line@.len(),
                forall|j: int| 0 <= j < i ==> #[trigger] line@[j] == 0x0a || line@[j] == 0x0d,
                i < line@.len() ==> !(line@[i as int] == 0x0a || line@[i as int] == 0x0d),
            decreases line@.len() - i,
        {
            if line[i] != 0x0a && line[i] != 0x0d {
                break;
            }
            i += 1;
        }
        if i == line.len() {
            return LineOutcome::Skip;
        }
        assert(!is_blank_line(line@)) by {
            assert(!(line@[i as int] == 0x0a || line@[i as int] == 0x0d));
        }
        match get_string_field(line, self.field.as_str()) {
            Some(s) => LineOutcome::Document(vstd::slice::slice_to_vec(s.as_str().as_bytes())),
            None => LineOutcome::End,
        }
    }
}

/// The documents of a flat byte buffer cut by per-document byte counts.
pub fn docs_from_counts<'a>(bytes: &'a [u8], counts: &[i64]) -> (r: Vec<&'a [u8]>)
    requires
        forall|i: int| 0 <= i < counts@.len() ==> #[trigger] counts@[i] >= 0,
        sum_counts(counts@, counts@.len() as int) <= bytes@.len(),
    ensures
        r@.len() == counts@.len(),
        forall|i: int| 0 <= i < counts@.len() ==> (#[trigger] r@[i])@ == bytes@.subrange(
            sum_counts(counts@, i),
            sum_counts(counts@, i) + counts@[i],
        ),
{
    let mut out: Vec<&'a [u8]> = Vec::new();
    let mut pos: usize = 0;
    let mut i: usize = 0;
    let blen = bytes.len();
    while i < counts.len()
        invariant
            blen == bytes@.len(),
            forall|x: int| 0 <= x < counts@.len() ==> #[trigger] counts@[x] >= 0,
            sum_counts(counts@, counts@.len() as int) <= bytes@.len(),
            i <= counts@.len(),
            pos == sum_counts(counts@, i as int),
            out@.len() == i,
            forall|x: int| 0 <= x < i ==> (#[trigger] out@[x])@ == bytes@.subrange(
                sum_counts(counts@, x),
                sum_counts(counts@, x) + counts@[x],
            ),
        decreases counts@.len() - i,
    {
        proof {
            lemma_sum_counts_mono(counts@, i + 1, counts@.len() as int);
            assert(sum_counts(counts@, i + 1) == sum_counts(counts@, i as int) + counts@[i as int]);
            assert(pos + counts@[i as int] <= bytes@.len());
        }
        let n = counts[i] as usize;
        out.push(vstd::slice::slice_subrange(bytes, pos, pos + n));
        pos = pos + n;
        i += 1;
    }
    out
}

/// The sum of the first `n` counts.
pub open spec fn sum_counts(counts: Seq<i64>, n: int) -> int
    decreases n,
{
    if n <= 0 {
        0
    } else {
        sum_counts(counts, n - 1) + counts[n - 1]
    }
}

proof fn lemma_sum_counts_mono(counts: Seq<i64>, a: int, b: int)
    requires
        0 <= a <= b <= counts.len(),
        forall|i: int| 0 <= i < counts.len() ==> #[trigger] counts[i] >= 0,
    ensures
        sum_counts(counts, a) <= sum_counts(counts, b),
    decreases b - a,
{
    if a < b {
        lemma_sum_counts_mono(counts, a, b - 1);
    }
}

} // verus!
