//! Repo ids, revisions, repo types, cache paths, URLs and HTTP statuses.
use vstd::prelude::*;
use vstd::string::*;
use vstd::utf8::*;
use crate::bytemap::bytes_eq;
use crate::hub::text::{bytes_of, at_boundary, path_join, join, owned, push_str, push_str_range, lemma_encode_utf8_concat};

verus! {

/// ASCII letter or digit.
pub open spec fn is_alnum_byte(c: u8) -> bool {
    (0x30 <= c <= 0x39) || (0x41 <= c <= 0x5a) || (0x61 <= c <= 0x7a)
}

/// A char allowed in a repo id part: ASCII letter, digit, `_`, `.` or `-`.
pub open spec fn is_word_byte(c: u8) -> bool {
    is_alnum_byte(c) || c == 0x5f || c == 0x2e || c == 0x2d
}

/// A nonempty part of word chars, the first a letter or digit when asked.
pub open spec fn part_ok(p: Seq<u8>, first_alnum: bool) -> bool {
    &&& p.len() > 0
    &&& if first_alnum {
        is_alnum_byte(p[0])
    } else {
        is_word_byte(p[0])
    }
    &&& forall|i: int| 1 <= i < p.len() ==> is_word_byte(#[trigger] p[i])
}

/// The position of the first `/` from `i` on, or the length.
pub open spec fn first_slash(b: Seq<u8>, i: int) -> int
    decreases b.len() - i,
{
    if i < 0 || i >= b.len() {
        b.len() as int
    } else if b[i] == 0x2f {
        i
    } else {
        first_slash(b, i + 1)
    }
}

pub proof fn lemma_first_slash(b: Seq<u8>, i: int)
    requires
        0 <= i <= b.len(),
    ensures
        i <= first_slash(b, i) <= b.len(),
        first_slash(b, i) < b.len() ==> b[first_slash(b, i)] == 0x2f,
        forall|j: int| i <= j < first_slash(b, i) ==> #[trigger] b[j] != 0x2f,
    decreases b.len() - i,
{
    if i < b.len() && b[i] != 0x2f {
        lemma_first_slash(b, i + 1);
    }
}

/// Whether `b` ends with `s`.
pub open spec fn ends_with(b: Seq<u8>, s: Seq<u8>) -> bool {
    s.len() <= b.len() && b.subrange(b.len() - s.len(), b.len() as int) == s
}

/// A Hub repo id: `org/name` or a bare name (at most one `/`), parts of
/// ASCII letters, digits, `_`, `.` and `-`, the first part starting with a
/// letter or digit; and not the name of a local tokenizer file (`.json`,
/// `.model`).
pub open spec fn repo_id_spec(b: Seq<u8>) -> bool {
    let k = first_slash(b, 0);
    &&& part_ok(b.subrange(0, k), true)
    &&& (k == b.len() || part_ok(b.subrange(k + 1, b.len() as int), false))
    &&& !ends_with(b, ".json".spec_bytes())
    &&& !ends_with(b, ".model".spec_bytes())
}

fn is_alnum(c: u8) -> (r: bool)
    ensures
        r == is_alnum_byte(c),
{
    (0x30 <= c && c <= 0x39) || (0x41 <= c && c <= 0x5a) || (0x61 <= c && c <= 0x7a)
}

fn is_word(c: u8) -> (r: bool)
    ensures
        r == is_word_byte(c),
{
    is_alnum(c) || c == 0x5f || c == 0x2e || c == 0x2d
}

fn part_ok_range(b: &[u8], from: usize, to: usize, first_alnum: bool) -> (r: bool)
    requires
        from <= to <= b@.len(),
    ensures
        r == part_ok(b@.subrange(from as int, to as int), first_alnum),
{
    let ghost p = b@.subrange(from as int, to as int);
    if from == to {
        return false;
    }
    let first = if first_alnum {
        is_alnum(b[from])
    } else {
        is_word(b[from])
    };
    if !first {
        return false;
    }
    let mut i = from + 1;
    while i < to
        invariant
            from < i <= to <= b@.len(),
            p == b@.subrange(from as int, to as int),
            forall|j: int| 1 <= j < i - from ==> is_word_byte(#[trigger] p[j]),
        decreases to - i,
    {
        if !is_word(b[i]) {
            assert(p[i - from] == b@[i as int]);
            return false;
        }
        i += 1;
    }
    true
}

/// Whether `b` ends with `s`.
pub fn has_suffix(b: &[u8], s: &[u8]) -> (r: bool)
    ensures
        r == ends_with(b@, s@),
{
    if s.len() > b.len() {
        return false;
    }
    let start = b.len() - s.len();
    bytes_eq(vstd::slice::slice_subrange(b, start, b.len()), s)
}

/// Whether `name` is shaped like a Hub repo id (see [`repo_id_spec`]).
pub fn looks_like_repo_id(name: &str) -> (r: bool)
    ensures
        r == repo_id_spec(name.spec_bytes()),
{
    let b = name.as_bytes();
    let n = b.len();
    let mut k: usize = 0;
    proof {
        lemma_first_slash(b@, 0);
    }
    while k < n && b[k] != 0x2f
        invariant
            n == b@.len(),
            k <= n,
            first_slash(b@, 0) == first_slash(b@, k as int),
        decreases n - k,
    {
        k += 1;
    }
    let org_ok = part_ok_range(b, 0, k, true);
    let rest_ok = k == n || part_ok_range(b, k + 1, n, false);
    org_ok && rest_ok && !has_suffix(b, ".json".as_bytes()) && !has_suffix(b, ".model".as_bytes())
}

/// A lowercase hex digit.
pub open spec fn is_lower_hex(c: u8) -> bool {
    (0x30 <= c <= 0x39) || (0x61 <= c <= 0x66)
}

/// A full git commit hash: 40 lowercase hex digits.
pub open spec fn commit_hash_spec(b: Seq<u8>) -> bool {
    b.len() == 40 && forall|i: int| 0 <= i < b.len() ==> is_lower_hex(#[trigger] b[i])
}

/// Whether `revision` is a full commit hash, the name of a snapshot directory.
pub fn is_commit_hash(revision: &str) -> (r: bool)
    ensures
        r == commit_hash_spec(revision.spec_bytes()),
{
    let b = revision.as_bytes();
    if b.len() != 40 {
        return false;
    }
    let mut i: usize = 0;
    while i < b.len()
        invariant
            b@ == revision.spec_bytes(),
            b@.len() == 40,
            i <= b@.len(),
            forall|j: int| 0 <= j < i ==> is_lower_hex(#[trigger] b@[j]),
        decreases b@.len() - i,
    {
        let c = b[i];
        if !((0x30 <= c && c <= 0x39) || (0x61 <= c && c <= 0x66)) {
            assert(!is_lower_hex(b@[i as int]));
            return false;
        }
        i += 1;
    }
    true
}

/// The kind of a Hub repo.
#[derive(Clone, Copy, Debug, PartialEq, Eq, Structural)]
pub enum RepoType {
    Model,
    Dataset,
    Space,
}

impl Default for RepoType {
    fn default() -> (r: RepoType)
        ensures
            r == RepoType::Model,
    {
        RepoType::Model
    }
}

/// A repo type that is not `model`, `dataset` or `space`.
#[derive(Debug)]
pub struct UnknownRepoType {
    pub value: String,
}

impl RepoType {
    pub open spec fn cache_prefix_spec(self) -> Seq<u8> {
        match self {
            RepoType::Model => "models".spec_bytes(),
            RepoType::Dataset => "datasets".spec_bytes(),
            RepoType::Space => "spaces".spec_bytes(),
        }
    }

    pub open spec fn url_prefix_spec(self) -> Seq<u8> {
        match self {
            RepoType::Model => "".spec_bytes(),
            RepoType::Dataset => "datasets/".spec_bytes(),
            RepoType::Space => "spaces/".spec_bytes(),
        }
    }

    /// The cache directory prefix (`models--org--name` etc.).
    pub fn cache_prefix(self) -> (r: &'static str)
        ensures
            r.spec_bytes() == self.cache_prefix_spec(),
    {
        match self {
            RepoType::Model => "models",
            RepoType::Dataset => "datasets",
            RepoType::Space => "spaces",
        }
    }

    /// The URL path prefix before the repo id.
    pub fn url_prefix(self) -> (r: &'static str)
        ensures
            r.spec_bytes() == self.url_prefix_spec(),
    {
        match self {
            RepoType::Model => "",
            RepoType::Dataset => "datasets/",
            RepoType::Space => "spaces/",
        }
    }

    /// `model`, `dataset` or `space`.
    pub fn parse(s: &str) -> (r: Result<RepoType, UnknownRepoType>)
        ensures
            s.spec_bytes() == "model".spec_bytes() ==> r matches Ok(RepoType::Model),
            s.spec_bytes() == "dataset".spec_bytes() ==> r matches Ok(RepoType::Dataset),
            s.spec_bytes() == "space".spec_bytes() ==> r matches Ok(RepoType::Space),
            r is Ok ==> s.spec_bytes() == "model".spec_bytes() || s.spec_bytes() == "dataset".spec_bytes()
                || s.spec_bytes() == "space".spec_bytes(),
            r matches Err(e) ==> e.value@ == s@,
    {
        let b = s.as_bytes();
        proof {
            lemma_repo_type_names();
        }
        if bytes_eq(b, "model".as_bytes()) {
            Ok(RepoType::Model)
        } else if bytes_eq(b, "dataset".as_bytes()) {
            Ok(RepoType::Dataset)
        } else if bytes_eq(b, "space".as_bytes()) {
            Ok(RepoType::Space)
        } else {
            Err(UnknownRepoType { value: owned(s) })
        }
    }
}

impl std::str::FromStr for RepoType {
    type Err = UnknownRepoType;

    fn from_str(s: &str) -> (r: Result<RepoType, UnknownRepoType>)
        ensures
            s.spec_bytes() == "model".spec_bytes() ==> r matches Ok(RepoType::Model),
            s.spec_bytes() == "dataset".spec_bytes() ==> r matches Ok(RepoType::Dataset),
            s.spec_bytes() == "space".spec_bytes() ==> r matches Ok(RepoType::Space),
            r is Ok ==> s.spec_bytes() == "model".spec_bytes() || s.spec_bytes() == "dataset".spec_bytes()
                || s.spec_bytes() == "space".spec_bytes(),
            r matches Err(e) ==> e.value@ == s@,
    {
        RepoType::parse(s)
    }
}

/// A value that is set and not empty.
pub open spec fn set_nonempty(v: Option<&str>) -> bool {
    v matches Some(s) && s.spec_bytes().len() > 0
}

/// `$HF_HOME`, else `$XDG_CACHE_HOME/huggingface`, else
/// `~/.cache/huggingface` (unset and empty variables alike skipped).
pub open spec fn hf_home_spec(hf_home: Option<&str>, xdg_cache_home: Option<&str>, home: &str) -> Seq<u8> {
    if set_nonempty(hf_home) {
        hf_home->0.spec_bytes()
    } else {
        let cache = if set_nonempty(xdg_cache_home) {
            xdg_cache_home->0.spec_bytes()
        } else {
            path_join(home.spec_bytes(), ".cache".spec_bytes())
        };
        path_join(cache, "huggingface".spec_bytes())
    }
}

fn nonempty(v: Option<&str>) -> (r: bool)
    ensures
        r == set_nonempty(v),
{
    match v {
        Some(s) => s.as_bytes().len() > 0,
        None => false,
    }
}

/// The HuggingFace home, from the values of `HF_HOME` and
/// `XDG_CACHE_HOME` and the home directory.
pub fn hf_home(hf_home_var: Option<&str>, xdg_cache_home: Option<&str>, home: &str) -> (r: String)
    ensures
        bytes_of(r@) == hf_home_spec(hf_home_var, xdg_cache_home, home),
{
    if nonempty(hf_home_var) {
        let h = hf_home_var.unwrap();
        owned(h)
    } else {
        let cache = if nonempty(xdg_cache_home) {
            owned(xdg_cache_home.unwrap())
        } else {
            join(home, ".cache")
        };
        join(cache.as_str(), "huggingface")
    }
}

/// `$HF_HUB_CACHE`, else the `hub` directory of the HuggingFace home.
pub open spec fn hub_cache_spec(
    hf_hub_cache: Option<&str>,
    hf_home: Option<&str>,
    xdg_cache_home: Option<&str>,
    home: &str,
) -> Seq<u8> {
    if set_nonempty(hf_hub_cache) {
        hf_hub_cache->0.spec_bytes()
    } else {
        path_join(hf_home_spec(hf_home, xdg_cache_home, home), "hub".spec_bytes())
    }
}

/// The standard HuggingFace hub cache directory, resolved from the values
/// of `HF_HUB_CACHE`, `HF_HOME` and `XDG_CACHE_HOME` and the home directory.
pub fn hf_hub_cache_dir(
    hf_hub_cache: Option<&str>,
    hf_home_var: Option<&str>,
    xdg_cache_home: Option<&str>,
    home: &str,
) -> (r: String)
    ensures
        bytes_of(r@) == hub_cache_spec(hf_hub_cache, hf_home_var, xdg_cache_home, home),
{
    if nonempty(hf_hub_cache) {
        owned(hf_hub_cache.unwrap())
    } else {
        let h = hf_home(hf_home_var, xdg_cache_home, home);
        join(h.as_str(), "hub")
    }
}

/// `b` with each `/` replaced by `--`.
pub open spec fn replace_slashes(b: Seq<u8>) -> Seq<u8>
    decreases b.len(),
{
    if b.len() == 0 {
        seq![]
    } else if b.last() == 0x2f {
        replace_slashes(b.drop_last()) + seq![0x2du8, 0x2du8]
    } else {
        replace_slashes(b.drop_last()).push(b.last())
    }
}

proof fn lemma_replace_plain(b: Seq<u8>, i: int, j: int)
    requires
        0 <= i <= j <= b.len(),
        forall|x: int| i <= x < j ==> #[trigger] b[x] != 0x2f,
    ensures
        replace_slashes(b.subrange(0, j)) == replace_slashes(b.subrange(0, i)) + b.subrange(i, j),
    decreases j - i,
{
    if i == j {
        assert(replace_slashes(b.subrange(0, i)) + b.subrange(i, j) =~= replace_slashes(b.subrange(0, i)));
    } else {
        lemma_replace_plain(b, i, j - 1);
        let s = b.subrange(0, j);
        assert(s.drop_last() =~= b.subrange(0, j - 1));
        assert(b.subrange(i, j) =~= b.subrange(i, j - 1).push(b[j - 1]));
    }
}

/// The cache directory of a repo: `<cache>/<type prefix>--<org>--<name>`.
pub open spec fn repo_cache_dir_spec(cache_dir: Seq<u8>, repo_type: RepoType, repo_id: Seq<u8>) -> Seq<u8> {
    path_join(cache_dir, repo_type.cache_prefix_spec() + "--".spec_bytes() + replace_slashes(repo_id))
}

/// The cache directory of a repo under `cache_dir`.
pub fn repo_cache_dir(cache_dir: &str, repo_type: RepoType, repo_id: &str) -> (r: String)
    ensures
        bytes_of(r@) == repo_cache_dir_spec(cache_dir.spec_bytes(), repo_type, repo_id.spec_bytes()),
{
    let mut name = owned(repo_type.cache_prefix());
    push_str(&mut name, "--");
    let ghost head = bytes_of(name@);
    let b = repo_id.as_bytes();
    let n = b.len();
    let mut start: usize = 0;
    let mut i: usize = 0;
    proof {
        reveal_strlit("--");
        lemma_ascii_dashes();
        assert(b@.subrange(0, 0) =~= Seq::<u8>::empty());
        encode_utf8_valid_utf8(repo_id@);
    }
    while i < n
        invariant
            n == b@.len(),
            b@ == repo_id.spec_bytes(),
            valid_utf8(b@),
            start <= i <= n,
            at_boundary(b@, start as int),
            forall|x: int| start <= x < i ==> #[trigger] b@[x] != 0x2f,
            bytes_of(name@) == head + replace_slashes(b@.subrange(0, start as int)),
            "--".spec_bytes() == seq![0x2du8, 0x2du8],
        decreases n - i,
    {
        if b[i] == 0x2f {
            push_str_range(&mut name, repo_id, start, i);
            push_str(&mut name, "--");
            proof {
                lemma_replace_plain(b@, start as int, i as int);
                let s = b@.subrange(0, i + 1);
                assert(s.drop_last() =~= b@.subrange(0, i as int));
                assert(bytes_of(name@) =~= head + replace_slashes(b@.subrange(0, i + 1)));
                if i + 1 < n {
                    lemma_continuation_after_ascii(b@, i as int);
                }
            }
            start = i + 1;
        }
        i += 1;
    }
    push_str_range(&mut name, repo_id, start, n);
    proof {
        lemma_replace_plain(b@, start as int, n as int);
        assert(b@.subrange(0, n as int) =~= b@);
        assert(bytes_of(name@) =~= head + replace_slashes(b@));
    }
    join(cache_dir, name.as_str())
}

proof fn lemma_repo_type_names()
    ensures
        "model".spec_bytes() == seq![0x6du8, 0x6f, 0x64, 0x65, 0x6c],
        "dataset".spec_bytes() == seq![0x64u8, 0x61, 0x74, 0x61, 0x73, 0x65, 0x74],
        "space".spec_bytes() == seq![0x73u8, 0x70, 0x61, 0x63, 0x65],
{
    reveal_strlit("model");
    reveal_strlit("dataset");
    reveal_strlit("space");
    assert(is_ascii_chars("model"@));
    assert(is_ascii_chars("dataset"@));
    assert(is_ascii_chars("space"@));
    crate::hub::text::lemma_ascii_bytes("model"@);
    crate::hub::text::lemma_ascii_bytes("dataset"@);
    crate::hub::text::lemma_ascii_bytes("space"@);
    assert("model".spec_bytes() =~= seq![0x6du8, 0x6f, 0x64, 0x65, 0x6c]);
    assert("dataset".spec_bytes() =~= seq![0x64u8, 0x61, 0x74, 0x61, 0x73, 0x65, 0x74]);
    assert("space".spec_bytes() =~= seq![0x73u8, 0x70, 0x61, 0x63, 0x65]);
}

proof fn lemma_ascii_dashes()
    ensures
        "--".spec_bytes() == seq![0x2du8, 0x2du8],
{
    reveal_strlit("--");
    assert(is_ascii_chars("--"@));
    crate::hub::text::lemma_ascii_bytes("--"@);
    assert("--".spec_bytes() =~= seq![0x2du8, 0x2du8]);
}

/// In valid UTF-8 the byte after an ASCII byte is no continuation byte.
pub proof fn lemma_continuation_after_ascii(b: Seq<u8>, i: int)
    requires
        valid_utf8(b),
        0 <= i,
        i + 1 < b.len(),
        b[i] < 0x80,
    ensures
        !is_continuation_byte(b[i + 1]),
    decreases b.len(),
{
    let w = length_of_first_scalar(b);
    let p = pop_first_scalar(b);
    assert(valid_first_scalar(b) && valid_utf8(p));
    assert(p.len() == b.len() - w);
    if i == 0 {
        assert(w == 1);
        assert(p[0] == b[1]);
        assert(valid_first_scalar(p));
    } else if i < w {
        assert(is_continuation_byte(b[i]));
    } else {
        assert(p[i - w] == b[i]);
        assert(p[i - w + 1] == b[i + 1]);
        lemma_continuation_after_ascii(p, i - w);
    }
}

} // verus!
