//! Resolving a Hub file: a cache lookup, then on a miss a download with
//! redirects followed by hand, decided step by step. The caller performs
//! each action (read a ref file, test a path, send a request, store a body)
//! and reports what came of it.
use vstd::prelude::*;
use vstd::string::*;
use vstd::utf8::*;
use crate::bytemap::bytes_eq;
use crate::pretokenize::counting::{find_from, occurs_at, find_separator, lemma_find_from};
use crate::hub::text::{bytes_of, at_boundary, path_join, join, owned, push_str, push_str_range, lemma_ascii_bytes};
use crate::unicode_tables::{std_is_whitespace, char_is_whitespace};
use crate::hub::repo::{RepoType, commit_hash_spec, is_commit_hash, repo_cache_dir, repo_cache_dir_spec, set_nonempty, lemma_continuation_after_ascii};

verus! {

/// A download failure with a definite HTTP cause.
#[derive(Debug)]
pub enum FetchError {
    /// 404: no such repo, revision or file.
    NotFound { url: String },
    /// 401 or 403: a private or gated repo.
    Unauthorized { url: String, status: u16, had_token: bool },
}

/// Why a Hub file could not be had.
#[derive(Debug)]
pub enum HubError {
    Fetch(FetchError),
    /// Any other status outside 200 to 399.
    Status { url: String, status: u16 },
    /// More than 10 redirects.
    TooManyRedirects { url: String },
    /// A redirect without a `Location` header.
    NoLocation { url: String },
    /// A cache lookup only, and the file is not cached.
    NotCached,
    /// Writing the file into the cache failed.
    Io,
    /// An event that does not answer the last action.
    UnexpectedEvent,
    /// A download failed: what was being downloaded, and why.
    Download { context: String, cause: Box<HubError> },
}

/// The error `ensure_status` gives for a status outside 200 to 399.
pub open spec fn status_error_spec(e: HubError, url: Seq<char>, status: u16, had_token: bool) -> bool {
    if status == 404 {
        e matches HubError::Fetch(FetchError::NotFound { url: u }) && u@ == url
    } else if status == 401 || status == 403 {
        e matches HubError::Fetch(FetchError::Unauthorized { url: u, status: s, had_token: h }) && u@ == url
            && s == status && h == had_token
    } else {
        e matches HubError::Status { url: u, status: s } && u@ == url && s == status
    }
}

/// `Ok` for 200 to 399; 404 is "not found", 401 and 403 "unauthorized"
/// (noting whether a token was sent), anything else a plain status error.
pub fn ensure_status(url: &str, status: u16, had_token: bool) -> (r: Result<(), HubError>)
    ensures
        200 <= status <= 399 <==> r is Ok,
        status == 404 ==> (r matches Err(HubError::Fetch(FetchError::NotFound { url: u })) && u@ == url@),
        (status == 401 || status == 403) ==> (r matches Err(
            HubError::Fetch(FetchError::Unauthorized { url: u, status: s, had_token: h }),
        ) && u@ == url@ && s == status && h == had_token),
        !(200 <= status <= 399 || status == 404 || status == 401 || status == 403) ==> (r matches Err(
            HubError::Status { url: u, status: s },
        ) && u@ == url@ && s == status),
        r matches Err(e) ==> status_error_spec(e, url@, status, had_token),
{
    if 200 <= status && status <= 399 {
        Ok(())
    } else if status == 404 {
        Err(HubError::Fetch(FetchError::NotFound { url: owned(url) }))
    } else if status == 401 || status == 403 {
        Err(HubError::Fetch(FetchError::Unauthorized { url: owned(url), status, had_token }))
    } else {
        Err(HubError::Status { url: owned(url), status })
    }
}

/// The last `/` of `b`, if any.
pub open spec fn last_slash(b: Seq<u8>, n: int) -> Option<int>
    decreases n,
{
    if n <= 0 || n > b.len() {
        None
    } else if b[n - 1] == 0x2f {
        Some(n - 1)
    } else {
        last_slash(b, n - 1)
    }
}

proof fn lemma_last_slash(b: Seq<u8>, n: int)
    requires
        0 <= n <= b.len(),
    ensures
        last_slash(b, n) matches Some(i) ==> 0 <= i < n && b[i] == 0x2f,
    decreases n,
{
    if n > 0 && b[n - 1] != 0x2f {
        lemma_last_slash(b, n - 1);
    }
}

/// A redirect `Location` resolved against the request URL: an absolute URL
/// (holding `://`) as is; one starting with `/` after the base's origin
/// (scheme and host); any other after the base's last `/` (but never
/// inside the origin).
pub open spec fn absolutize_spec(location: Seq<u8>, base: Seq<u8>) -> Seq<u8> {
    let sep = seq![0x3au8, 0x2f, 0x2f];
    if find_from(location, sep, 0) is Some {
        location
    } else {
        let origin_len = match find_from(base, sep, 0) {
            Some(i) => i + 3,
            None => 0,
        };
        let origin_end = match find_from(base, seq![0x2fu8], origin_len) {
            Some(i) => i,
            None => base.len() as int,
        };
        if location.len() > 0 && location[0] == 0x2f {
            base.subrange(0, origin_end) + location
        } else {
            let dir_end = match last_slash(base, base.len() as int) {
                Some(i) => i,
                None => base.len() as int,
            };
            let cut = if dir_end > origin_end {
                dir_end
            } else {
                origin_end
            };
            base.subrange(0, cut) + seq![0x2fu8] + location
        }
    }
}

proof fn lemma_literal_bytes()
    ensures
        "://".spec_bytes() == seq![0x3au8, 0x2f, 0x2f],
        "/".spec_bytes() == seq![0x2fu8],
{
    reveal_strlit("://");
    reveal_strlit("/");
    assert(is_ascii_chars("://"@));
    assert(is_ascii_chars("/"@));
    lemma_ascii_bytes("://"@);
    lemma_ascii_bytes("/"@);
    assert("://".spec_bytes() =~= seq![0x3au8, 0x2f, 0x2f]);
    assert("/".spec_bytes() =~= seq![0x2fu8]);
}

/// In valid UTF-8 an ASCII byte, and the first byte, start a char.
proof fn lemma_ascii_at_boundary(b: Seq<u8>, i: int)
    requires
        valid_utf8(b),
        0 <= i <= b.len(),
        i == b.len() || i == 0 || b[i] < 0x80,
    ensures
        at_boundary(b, i),
{
    if i == 0 && b.len() > 0 {
        assert(valid_first_scalar(b));
    }
}

/// The redirect target `location` resolved against `base`.
pub fn absolutize(location: &str, base: &str) -> (r: String)
    ensures
        bytes_of(r@) == absolutize_spec(location.spec_bytes(), base.spec_bytes()),
{
    let lb = location.as_bytes();
    let bb = base.as_bytes();
    let sep = "://".as_bytes();
    let slash = "/".as_bytes();
    proof {
        lemma_literal_bytes();
        encode_utf8_valid_utf8(base@);
    }
    if find_separator(lb, sep, 0).is_some() {
        return owned(location);
    }
    let n = bb.len();
    let origin_len = match find_separator(bb, sep, 0) {
        Some(i) => {
            proof {
                lemma_find_from(bb@, sep@, 0);
                assert(i + 3 <= n);
            }
            i + 3
        },
        None => 0,
    };
    let origin_end = match find_separator(bb, slash, origin_len) {
        Some(i) => {
            proof {
                lemma_find_from(bb@, slash@, origin_len as int);
                assert(bb@.subrange(i as int, i + 1)[0] == bb@[i as int]);
            }
            i
        },
        None => bb.len(),
    };
    proof {
        lemma_ascii_at_boundary(bb@, 0);
        lemma_ascii_at_boundary(bb@, origin_end as int);
    }
    let mut r = String::new();
    if lb.len() > 0 && lb[0] == 0x2f {
        push_str_range(&mut r, base, 0, origin_end);
        push_str(&mut r, location);
        proof {
            assert(bytes_of(Seq::<char>::empty()) =~= Seq::<u8>::empty());
            assert(bytes_of(r@) =~= bb@.subrange(0, origin_end as int) + lb@);
        }
        r
    } else {
        let mut k = bb.len();
        proof {
            lemma_last_slash(bb@, bb@.len() as int);
        }
        while k > 0 && bb[k - 1] != 0x2f
            invariant
                k <= bb@.len(),
                last_slash(bb@, bb@.len() as int) == last_slash(bb@, k as int),
            decreases k,
        {
            k -= 1;
        }
        let dir_end = if k > 0 {
            k - 1
        } else {
            bb.len()
        };
        let cut = if dir_end > origin_end {
            dir_end
        } else {
            origin_end
        };
        proof {
            lemma_ascii_at_boundary(bb@, cut as int);
        }
        push_str_range(&mut r, base, 0, cut);
        push_str(&mut r, "/");
        push_str(&mut r, location);
        proof {
            assert(bytes_of(Seq::<char>::empty()) =~= Seq::<u8>::empty());
            assert(bytes_of(r@) =~= bb@.subrange(0, cut as int) + seq![0x2fu8] + lb@);
        }
        r
    }
}

/// The length of `b[..n]` without its trailing `/`s.
pub open spec fn trim_slashes(b: Seq<u8>, n: int) -> int
    decreases n,
{
    if n <= 0 || n > b.len() {
        n
    } else if b[n - 1] == 0x2f {
        trim_slashes(b, n - 1)
    } else {
        n
    }
}

/// The download URL of a file: `<endpoint without trailing />/<type
/// prefix><repo id>/resolve/<revision>/<filename>`.
pub open spec fn resolve_url_spec(
    endpoint: Seq<u8>,
    repo_type: RepoType,
    repo_id: Seq<u8>,
    revision: Seq<u8>,
    filename: Seq<u8>,
) -> Seq<u8> {
    endpoint.subrange(0, trim_slashes(endpoint, endpoint.len() as int)) + "/".spec_bytes()
        + repo_type.url_prefix_spec() + repo_id + "/resolve/".spec_bytes() + revision + "/".spec_bytes()
        + filename
}

pub fn resolve_url(endpoint: &str, repo_type: RepoType, repo_id: &str, revision: &str, filename: &str) -> (r: String)
    ensures
        bytes_of(r@) == resolve_url_spec(
            endpoint.spec_bytes(),
            repo_type,
            repo_id.spec_bytes(),
            revision.spec_bytes(),
            filename.spec_bytes(),
        ),
{
    let eb = endpoint.as_bytes();
    let mut end = eb.len();
    while end > 0 && eb[end - 1] == 0x2f
        invariant
            end <= eb@.len(),
            trim_slashes(eb@, eb@.len() as int) == trim_slashes(eb@, end as int),
            forall|j: int| end <= j < eb@.len() ==> #[trigger] eb@[j] == 0x2f,
        decreases end,
    {
        end -= 1;
    }
    proof {
        encode_utf8_valid_utf8(endpoint@);
        if end < eb@.len() {
            assert(eb@[end as int] == 0x2f);
        }
        lemma_ascii_at_boundary(eb@, 0);
        lemma_ascii_at_boundary(eb@, end as int);
    }
    let mut r = String::new();
    push_str_range(&mut r, endpoint, 0, end);
    push_str(&mut r, "/");
    push_str(&mut r, repo_type.url_prefix());
    push_str(&mut r, repo_id);
    push_str(&mut r, "/resolve/");
    push_str(&mut r, revision);
    push_str(&mut r, "/");
    push_str(&mut r, filename);
    proof {
        assert(bytes_of(Seq::<char>::empty()) =~= Seq::<u8>::empty());
        assert(bytes_of(r@) =~= resolve_url_spec(
            endpoint.spec_bytes(),
            repo_type,
            repo_id.spec_bytes(),
            revision.spec_bytes(),
            filename.spec_bytes(),
        ));
    }
    r
}

/// The path of `filename` in the snapshot `commit` of a repo's cache.
pub open spec fn snapshot_spec(repo_dir: Seq<u8>, commit: Seq<u8>, filename: Seq<u8>) -> Seq<u8> {
    path_join(path_join(path_join(repo_dir, "snapshots".spec_bytes()), commit), filename)
}

/// The ref file of `revision` in a repo's cache.
pub open spec fn refs_spec(repo_dir: Seq<u8>, revision: Seq<u8>) -> Seq<u8> {
    path_join(path_join(repo_dir, "refs".spec_bytes()), revision)
}

pub fn snapshot_path(repo_dir: &str, commit: &str, filename: &str) -> (r: String)
    ensures
        bytes_of(r@) == snapshot_spec(repo_dir.spec_bytes(), commit.spec_bytes(), filename.spec_bytes()),
{
    let a = join(repo_dir, "snapshots");
    let b = join(a.as_str(), commit);
    join(b.as_str(), filename)
}

pub fn refs_path(repo_dir: &str, revision: &str) -> (r: String)
    ensures
        bytes_of(r@) == refs_spec(repo_dir.spec_bytes(), revision.spec_bytes()),
{
    let a = join(repo_dir, "refs");
    join(a.as_str(), revision)
}

/// `s` without its leading white space.
pub open spec fn trim_start_spec(s: Seq<char>) -> Seq<char>
    decreases s.len(),
{
    if s.len() > 0 && std_is_whitespace(s[0]) {
        trim_start_spec(s.drop_first())
    } else {
        s
    }
}

/// `s` without its trailing white space.
pub open spec fn trim_end_spec(s: Seq<char>) -> Seq<char>
    decreases s.len(),
{
    if s.len() > 0 && std_is_whitespace(s.last()) {
        trim_end_spec(s.drop_last())
    } else {
        s
    }
}

/// What `str::trim` leaves of a string: no leading or trailing white space
/// (the `White_Space` property).
pub open spec fn str_trim(s: Seq<char>) -> Seq<char> {
    trim_end_spec(trim_start_spec(s))
}

/// `s` without its leading and trailing white space, as `str::trim` leaves it.
fn trim(s: &str) -> (r: &str)
    ensures
        r@ == str_trim(s@),
{
    let b = s.as_bytes();
    proof {
        encode_utf8_valid_utf8(s@);
        encode_utf8_decode_utf8(s@);
    }
    let cs = crate::unicode::decode_chars(b);
    let n = cs.len();
    let ghost t = s@;
    proof {
        assert(t.subrange(0, n as int) =~= t);
    }
    let mut i: usize = 0;
    while i < n && char_is_whitespace(cs[i])
        invariant
            i <= n,
            n == t.len(),
            cs@ == t,
            trim_start_spec(t) == trim_start_spec(t.subrange(i as int, n as int)),
        decreases n - i,
    {
        proof {
            assert(t.subrange(i as int, n as int).drop_first() =~= t.subrange(i + 1, n as int));
        }
        i += 1;
    }
    proof {
        if i < n {
            assert(t.subrange(i as int, n as int)[0] == t[i as int]);
        }
        assert(trim_start_spec(t) == t.subrange(i as int, n as int));
    }
    let mut j: usize = n;
    while j > i && char_is_whitespace(cs[j - 1])
        invariant
            i <= j <= n,
            n == t.len(),
            cs@ == t,
            trim_end_spec(t.subrange(i as int, n as int)) == trim_end_spec(t.subrange(i as int, j as int)),
        decreases j,
    {
        proof {
            assert(t.subrange(i as int, j as int).drop_last() =~= t.subrange(i as int, j - 1));
        }
        j -= 1;
    }
    proof {
        if j > i {
            assert(t.subrange(i as int, j as int).last() == t[j - 1]);
        }
        assert(trim_end_spec(t.subrange(i as int, j as int)) == t.subrange(i as int, j as int));
    }
    s.substring_char(i, j)
}

/// The token from the values of `HF_TOKEN` and (when that is unset or
/// empty) `HUGGING_FACE_HUB_TOKEN`, trimmed; `None` when that leaves nothing.
pub fn token_from_env(hf_token: Option<&str>, legacy_token: Option<&str>) -> (r: Option<String>)
    ensures
        ({
            let chosen = if set_nonempty(hf_token) {
                hf_token
            } else if set_nonempty(legacy_token) {
                legacy_token
            } else {
                None
            };
            match chosen {
                None => r is None,
                Some(t) => if str_trim(t@).len() == 0 {
                    r is None
                } else {
                    r matches Some(x) && x@ == str_trim(t@)
                },
            }
        }),
{
    let chosen = match hf_token {
        Some(t) if t.as_bytes().len() > 0 => Some(t),
        _ => match legacy_token {
            Some(t) if t.as_bytes().len() > 0 => Some(t),
            _ => None,
        },
    };
    match chosen {
        None => None,
        Some(t) => {
            let x = trim(t);
            if x.as_bytes().len() == 0 {
                proof {
                    if x@.len() > 0 {
                        encode_utf8_first_scalar(x@);
                    }
                }
                None
            } else {
                proof {
                    if x@.len() == 0 {
                        assert(encode_utf8(x@) =~= Seq::<u8>::empty());
                    }
                }
                Some(owned(x))
            }
        },
    }
}

/// The token file: `$HF_TOKEN_PATH`, else `token` in the HuggingFace home.
pub fn token_path(hf_token_path: Option<&str>, hf_home_dir: &str) -> (r: String)
    ensures
        bytes_of(r@) == if set_nonempty(hf_token_path) {
            hf_token_path->0.spec_bytes()
        } else {
            path_join(hf_home_dir.spec_bytes(), "token".spec_bytes())
        },
{
    match hf_token_path {
        Some(p) if p.as_bytes().len() > 0 => owned(p),
        _ => join(hf_home_dir, "token"),
    }
}

/// The token in a token file's contents: trimmed, `None` when empty.
pub fn token_from_file(contents: &str) -> (r: Option<String>)
    ensures
        str_trim(contents@).len() == 0 ==> r is None,
        str_trim(contents@).len() > 0 ==> (r matches Some(x) && x@ == str_trim(contents@)),
{
    let x = trim(contents);
    if x.as_bytes().len() == 0 {
        proof {
            if x@.len() > 0 {
                encode_utf8_first_scalar(x@);
            }
        }
        None
    } else {
        proof {
            if x@.len() == 0 {
                assert(encode_utf8(x@) =~= Seq::<u8>::empty());
            }
        }
        Some(owned(x))
    }
}

/// Where a resolution stands.
#[derive(Clone, Copy, Debug, PartialEq, Eq, Structural)]
pub enum Phase {
    /// Waiting for the ref file of a branch or tag.
    LookupRef,
    /// Waiting to know whether the snapshot file exists.
    LookupFile,
    /// Waiting for the answer to the download request.
    Request,
    /// Waiting for the answer to a redirected request.
    Redirect,
    /// Waiting for the body to be stored.
    Store,
    /// Done.
    Finished,
}

/// What the caller is to do next.
#[derive(Debug)]
pub enum HubAction {
    /// Read the text file at `path`; answer with `HubEvent::RefRead`.
    ReadRef { path: String },
    /// Tell whether `path` is a file; answer with `HubEvent::FileExists`.
    CheckFile { path: String },
    /// GET `url`, with the access token as bearer when `auth`; answer with
    /// `HubEvent::Response`.
    Get { url: String, auth: bool },
    /// Write the response body to `target` (through a temporary sibling), and
    /// then `record_ref.1` to the file `record_ref.0` when there is one;
    /// answer with `HubEvent::Stored`.
    Store { target: String, record_ref: Option<(String, String)> },
    /// The resolution is over.
    Done(Result<String, HubError>),
}

/// What came of the last action.
#[derive(Debug)]
pub enum HubEvent {
    /// The ref file's text, `None` when it could not be read.
    RefRead(Option<String>),
    FileExists(bool),
    /// The status and the `x-repo-commit` and `Location` headers.
    Response { status: u16, commit: Option<String>, location: Option<String> },
    /// Whether storing succeeded.
    Stored(bool),
}

/// The state of one resolution.
pub struct HubFetch {
    /// Whether a cache miss is downloaded (else it ends the lookup).
    pub download: bool,
    /// The repo's cache directory.
    pub repo_dir: String,
    pub filename: String,
    pub revision: String,
    /// The download URL.
    pub url: String,
    /// Whether an access token is sent with the first request.
    pub had_token: bool,
    pub phase: Phase,
    /// The `x-repo-commit` header of the first response.
    pub commit: Option<String>,
    /// The snapshot path checked or written.
    pub target: String,
    /// Redirects followed so far.
    pub hops: u32,
}

/// A cache miss: download, or end the lookup.
pub open spec fn miss_spec(old_s: HubFetch, new_s: HubFetch, a: HubAction) -> bool {
    if old_s.download {
        a matches HubAction::Get { url, auth } && url@ == old_s.url@ && auth && new_s.phase == Phase::Request
            && new_s.hops == 0 && new_s.commit is None
    } else {
        a matches HubAction::Done(Err(HubError::NotCached)) && new_s.phase == Phase::Finished
    }
}

/// An event that does not answer the last action ends the resolution.
pub open spec fn unexpected_spec(new_s: HubFetch, a: HubAction) -> bool {
    a matches HubAction::Done(Err(HubError::UnexpectedEvent)) && new_s.phase == Phase::Finished
}

/// The commit a download is stored under: the header's, else the revision.
pub open spec fn commit_of(header: Option<String>, revision: Seq<u8>) -> Seq<u8> {
    match header {
        Some(c) => bytes_of(c@),
        None => revision,
    }
}

/// The state and first action of a resolution of `filename` in repo
/// `repo_id` at `revision`: a commit hash is looked up as a snapshot
/// directly, a branch or tag through its ref file first.
pub open spec fn begun(
    download: bool,
    cache_dir: &str,
    endpoint: &str,
    had_token: bool,
    repo_type: RepoType,
    repo_id: &str,
    filename: &str,
    revision: &str,
    r: (HubFetch, HubAction),
) -> bool {
    &&& r.0.download == download
    &&& r.0.had_token == had_token
    &&& r.0.commit is None
    &&& r.0.hops == 0
    &&& bytes_of(r.0.repo_dir@) == repo_cache_dir_spec(cache_dir.spec_bytes(), repo_type, repo_id.spec_bytes())
    &&& r.0.filename@ == filename@
    &&& r.0.revision@ == revision@
    &&& bytes_of(r.0.url@) == resolve_url_spec(
        endpoint.spec_bytes(),
        repo_type,
        repo_id.spec_bytes(),
        revision.spec_bytes(),
        filename.spec_bytes(),
    )
    &&& commit_hash_spec(revision.spec_bytes()) ==> (r.1 matches HubAction::CheckFile { path } && bytes_of(path@)
        == snapshot_spec(bytes_of(r.0.repo_dir@), revision.spec_bytes(), filename.spec_bytes()) && r.0.phase
        == Phase::LookupFile && r.0.target@ == path@)
    &&& !commit_hash_spec(revision.spec_bytes()) ==> (r.1 matches HubAction::ReadRef { path } && bytes_of(path@)
        == refs_spec(bytes_of(r.0.repo_dir@), revision.spec_bytes()) && r.0.phase == Phase::LookupRef
        && r.0.target@.len() == 0)
}

/// One step of a resolution: from state `old_s`, on `event`, to state
/// `new_s` with action `a`.
pub open spec fn stepped(old_s: HubFetch, event: HubEvent, new_s: HubFetch, a: HubAction) -> bool {
    &&& new_s.same_request(&old_s)
    &&& old_s.phase == Phase::LookupRef ==> match event {
            HubEvent::RefRead(Some(text)) => a matches HubAction::CheckFile { path } && bytes_of(path@)
                == snapshot_spec(bytes_of(old_s.repo_dir@), bytes_of(str_trim(text@)), bytes_of(old_s.filename@))
                && new_s.phase == Phase::LookupFile && new_s.target@ == path@,
            HubEvent::RefRead(None) => miss_spec(old_s, new_s, a),
            _ => unexpected_spec(new_s, a),
        }
    &&& old_s.phase == Phase::LookupFile ==> match event {
            HubEvent::FileExists(true) => a matches HubAction::Done(Ok(p)) && p@ == old_s.target@
                && new_s.phase == Phase::Finished,
            HubEvent::FileExists(false) => miss_spec(old_s, new_s, a),
            _ => unexpected_spec(new_s, a),
        }
    &&& (old_s.phase == Phase::Request || old_s.phase == Phase::Redirect) ==> match event {
            HubEvent::Response { status, commit, location } => {
                let header = if old_s.phase == Phase::Request {
                    commit
                } else {
                    old_s.commit
                };
                let hops = if old_s.hops < u32::MAX {
                    old_s.hops + 1
                } else {
                    old_s.hops as int
                };
                if 300 <= status <= 399 {
                    if hops > 10 {
                        a matches HubAction::Done(Err(HubError::TooManyRedirects { url: u })) && u@ == old_s.url@
                            && new_s.phase == Phase::Finished
                    } else {
                        match location {
                            None => a matches HubAction::Done(Err(HubError::NoLocation { url: u })) && u@
                                == old_s.url@ && new_s.phase == Phase::Finished,
                            Some(l) => a matches HubAction::Get { url, auth } && bytes_of(url@) == absolutize_spec(
                                bytes_of(l@),
                                bytes_of(old_s.url@),
                            ) && !auth && new_s.phase == Phase::Redirect && new_s.hops == hops
                                && new_s.commit == header,
                        }
                    }
                } else if !(200 <= status <= 399) {
                    a matches HubAction::Done(Err(e)) && status_error_spec(e, old_s.url@, status, old_s.had_token)
                        && new_s.phase == Phase::Finished
                } else {
                    let c = commit_of(header, bytes_of(old_s.revision@));
                    let rev = bytes_of(old_s.revision@);
                    &&& a matches HubAction::Store { target, record_ref }
                    &&& bytes_of(target@) == snapshot_spec(bytes_of(old_s.repo_dir@), c, bytes_of(old_s.filename@))
                    &&& new_s.target@ == target@
                    &&& (record_ref is Some <==> !commit_hash_spec(rev) && rev != c)
                    &&& (record_ref matches Some((p, v)) ==> bytes_of(p@) == refs_spec(bytes_of(old_s.repo_dir@), rev)
                        && bytes_of(v@) == c)
                    &&& new_s.phase == Phase::Store
                }
            },
            _ => unexpected_spec(new_s, a),
        }
    &&& old_s.phase == Phase::Store ==> match event {
            HubEvent::Stored(true) => a matches HubAction::Done(Ok(p)) && p@ == old_s.target@
                && new_s.phase == Phase::Finished,
            HubEvent::Stored(false) => a matches HubAction::Done(Err(HubError::Io)) && new_s.phase == Phase::Finished,
            _ => unexpected_spec(new_s, a),
        }
    &&& old_s.phase == Phase::Finished ==> unexpected_spec(new_s, a)
}

impl HubFetch {
    /// The fields a step never changes.
    pub open spec fn same_request(&self, other: &HubFetch) -> bool {
        &&& self.download == other.download
        &&& self.repo_dir@ == other.repo_dir@
        &&& self.filename@ == other.filename@
        &&& self.revision@ == other.revision@
        &&& self.url@ == other.url@
        &&& self.had_token == other.had_token
    }

    /// A resolution of `filename` in repo `repo_id` at `revision`, with the
    /// cache under `cache_dir` and downloads (when `download`) from
    /// `endpoint`: a commit hash is looked up as a snapshot directly, a
    /// branch or tag through its ref file first.
    pub fn begin(
        download: bool,
        cache_dir: &str,
        endpoint: &str,
        had_token: bool,
        repo_type: RepoType,
        repo_id: &str,
        filename: &str,
        revision: &str,
    ) -> (r: (HubFetch, HubAction))
        ensures
            begun(download, cache_dir, endpoint, had_token, repo_type, repo_id, filename, revision, r),
    {
        let repo_dir = repo_cache_dir(cache_dir, repo_type, repo_id);
        let url = resolve_url(endpoint, repo_type, repo_id, revision, filename);
        if is_commit_hash(revision) {
            let path = snapshot_path(repo_dir.as_str(), revision, filename);
            let target = owned(path.as_str());
            let s = HubFetch {
                download,
                repo_dir,
                filename: owned(filename),
                revision: owned(revision),
                url,
                had_token,
                phase: Phase::LookupFile,
                commit: None,
                target,
                hops: 0,
            };
            (s, HubAction::CheckFile { path })
        } else {
            let path = refs_path(repo_dir.as_str(), revision);
            let s = HubFetch {
                download,
                repo_dir,
                filename: owned(filename),
                revision: owned(revision),
                url,
                had_token,
                phase: Phase::LookupRef,
                commit: None,
                target: String::new(),
                hops: 0,
            };
            (s, HubAction::ReadRef { path })
        }
    }

    fn miss(&mut self) -> (a: HubAction)
        ensures
            final(self).same_request(old(self)),
            miss_spec(*old(self), *final(self), a),
    {
        if self.download {
            self.phase = Phase::Request;
            self.hops = 0;
            self.commit = None;
            HubAction::Get { url: owned(self.url.as_str()), auth: true }
        } else {
            self.phase = Phase::Finished;
            HubAction::Done(Err(HubError::NotCached))
        }
    }

    fn unexpected(&mut self) -> (a: HubAction)
        ensures
            final(self).same_request(old(self)),
            unexpected_spec(*final(self), a),
    {
        self.phase = Phase::Finished;
        HubAction::Done(Err(HubError::UnexpectedEvent))
    }

    /// The next action after `event`.
    pub fn step(&mut self, event: HubEvent) -> (a: HubAction)
        ensures
            stepped(*old(self), event, *final(self), a),
    {
        match self.phase {
            Phase::LookupRef => match event {
                HubEvent::RefRead(Some(text)) => {
                    let commit = trim(text.as_str());
                    let path = snapshot_path(self.repo_dir.as_str(), commit, self.filename.as_str());
                    self.target = owned(path.as_str());
                    self.phase = Phase::LookupFile;
                    HubAction::CheckFile { path }
                },
                HubEvent::RefRead(None) => self.miss(),
                _ => self.unexpected(),
            },
            Phase::LookupFile => match event {
                HubEvent::FileExists(true) => {
                    self.phase = Phase::Finished;
                    HubAction::Done(Ok(owned(self.target.as_str())))
                },
                HubEvent::FileExists(false) => self.miss(),
                _ => self.unexpected(),
            },
            Phase::Request | Phase::Redirect => match event {
                HubEvent::Response { status, commit, location } => {
                    if self.phase == Phase::Request {
                        self.commit = commit;
                    }
                    if 300 <= status && status <= 399 {
                        if self.hops < u32::MAX {
                            self.hops = self.hops + 1;
                        }
                        if self.hops > 10 {
                            self.phase = Phase::Finished;
                            return HubAction::Done(Err(HubError::TooManyRedirects { url: owned(self.url.as_str()) }));
                        }
                        match location {
                            None => {
                                self.phase = Phase::Finished;
                                HubAction::Done(Err(HubError::NoLocation { url: owned(self.url.as_str()) }))
                            },
                            Some(l) => {
                                self.phase = Phase::Redirect;
                                HubAction::Get { url: absolutize(l.as_str(), self.url.as_str()), auth: false }
                            },
                        }
                    } else {
                        match ensure_status(self.url.as_str(), status, self.had_token) {
                            Err(e) => {
                                self.phase = Phase::Finished;
                                HubAction::Done(Err(e))
                            },
                            Ok(()) => {
                                let c = match &self.commit {
                                    Some(c) => owned(c.as_str()),
                                    None => owned(self.revision.as_str()),
                                };
                                let target = snapshot_path(self.repo_dir.as_str(), c.as_str(), self.filename.as_str());
                                self.target = owned(target.as_str());
                                let record = if !is_commit_hash(self.revision.as_str()) && !bytes_eq(
                                    self.revision.as_str().as_bytes(),
                                    c.as_str().as_bytes(),
                                ) {
                                    Some((refs_path(self.repo_dir.as_str(), self.revision.as_str()), c))
                                } else {
                                    None
                                };
                                self.phase = Phase::Store;
                                HubAction::Store { target, record_ref: record }
                            },
                        }
                    }
                },
                _ => self.unexpected(),
            },
            Phase::Store => match event {
                HubEvent::Stored(true) => {
                    self.phase = Phase::Finished;
                    HubAction::Done(Ok(owned(self.target.as_str())))
                },
                HubEvent::Stored(false) => {
                    self.phase = Phase::Finished;
                    HubAction::Done(Err(HubError::Io))
                },
                _ => self.unexpected(),
            },
            Phase::Finished => self.unexpected(),
        }
    }
}

/// Resolution of `filename` from the cache only: a model repo.
pub fn cached_hub_file(cache_dir: &str, repo_id: &str, filename: &str, revision: &str) -> (r: (HubFetch, HubAction))
    ensures
        begun(false, cache_dir, "", false, RepoType::Model, repo_id, filename, revision, r),
{
    HubFetch::begin(false, cache_dir, "", false, RepoType::Model, repo_id, filename, revision)
}

/// Resolution of `filename` from the cache only.
pub fn cached_hub_file_in(cache_dir: &str, repo_type: RepoType, repo_id: &str, filename: &str, revision: &str) -> (r: (
    HubFetch,
    HubAction,
))
    ensures
        begun(false, cache_dir, "", false, repo_type, repo_id, filename, revision, r),
{
    HubFetch::begin(false, cache_dir, "", false, repo_type, repo_id, filename, revision)
}

/// Resolution of `filename` from the cache, downloading it on a miss: a
/// model repo.
pub fn hub_file(cache_dir: &str, endpoint: &str, had_token: bool, repo_id: &str, filename: &str, revision: &str) -> (r: (
    HubFetch,
    HubAction,
))
    ensures
        begun(true, cache_dir, endpoint, had_token, RepoType::Model, repo_id, filename, revision, r),
{
    HubFetch::begin(true, cache_dir, endpoint, had_token, RepoType::Model, repo_id, filename, revision)
}

/// Resolution of `filename` from the cache, downloading it on a miss.
pub fn hub_file_in(
    cache_dir: &str,
    endpoint: &str,
    had_token: bool,
    repo_type: RepoType,
    repo_id: &str,
    filename: &str,
    revision: &str,
) -> (r: (HubFetch, HubAction))
    ensures
        begun(true, cache_dir, endpoint, had_token, repo_type, repo_id, filename, revision, r),
{
    HubFetch::begin(true, cache_dir, endpoint, had_token, repo_type, repo_id, filename, revision)
}

proof fn lemma_bytes_of_injective(a: Seq<char>, b: Seq<char>)
    requires
        bytes_of(a) == bytes_of(b),
    ensures
        a == b,
{
    encode_utf8_decode_utf8(a);
    encode_utf8_decode_utf8(b);
}

/// Trimming leaves a string whose ends are not white space as it is.
proof fn lemma_trim_unchanged(c: Seq<char>)
    requires
        c.len() > 0,
        !std_is_whitespace(c[0]),
        !std_is_whitespace(c.last()),
    ensures
        str_trim(c) == c,
{
    assert(trim_start_spec(c) == c);
    assert(trim_end_spec(c) == c);
}

/// What a download stores in the cache, a later cache-only lookup of the
/// same file at the same revision finds: for a commit-hash revision it
/// checks the very path the body was stored at, and for a branch or tag it
/// reads the recorded ref, whose text leads it to that path. This holds when
/// the Hub reports the commit (with no white space at its ends), the same
/// commit for a commit-hash revision, and a commit other than the name of a
/// branch or tag.
pub proof fn law_stored_file_is_found(
    cache_dir: &str,
    endpoint: &str,
    had_token: bool,
    repo_type: RepoType,
    repo_id: &str,
    filename: &str,
    revision: &str,
    first: (HubFetch, HubAction),
    d: HubFetch,
    status: u16,
    c: String,
    location: Option<String>,
    d2: HubFetch,
    store: HubAction,
    lookup: (HubFetch, HubAction),
)
    requires
        begun(true, cache_dir, endpoint, had_token, repo_type, repo_id, filename, revision, first),
        d.same_request(&first.0),
        d.phase == Phase::Request,
        200 <= status < 300,
        stepped(d, HubEvent::Response { status, commit: Some(c), location }, d2, store),
        begun(false, cache_dir, "", false, repo_type, repo_id, filename, revision, lookup),
        c@.len() > 0,
        !std_is_whitespace(c@[0]),
        !std_is_whitespace(c@.last()),
        commit_hash_spec(revision.spec_bytes()) ==> c@ == revision@,
        !commit_hash_spec(revision.spec_bytes()) ==> c@ != revision@,
    ensures
        store matches HubAction::Store { target, record_ref } && {
            &&& commit_hash_spec(revision.spec_bytes()) ==> (lookup.1 matches HubAction::CheckFile { path }
                && path@ == target@)
            &&& !commit_hash_spec(revision.spec_bytes()) ==> (lookup.1 matches HubAction::ReadRef { path }
                && record_ref matches Some((p, v)) && p@ == path@ && forall|l2: HubFetch, check: HubAction|
                stepped(lookup.0, HubEvent::RefRead(Some(v)), l2, check) ==> (check matches HubAction::CheckFile {
                path: q } && q@ == target@))
        },
{
    let dir = bytes_of(d.repo_dir@);
    assert(bytes_of(lookup.0.repo_dir@) == dir);
    let rev = bytes_of(d.revision@);
    assert(rev == revision.spec_bytes());
    assert(commit_of(Some(c), rev) == bytes_of(c@));
    if let HubAction::Store { target, record_ref } = store {
        if commit_hash_spec(revision.spec_bytes()) {
            if let HubAction::CheckFile { path } = lookup.1 {
                lemma_bytes_of_injective(path@, target@);
            }
        } else {
            if c@ == d.revision@ {
                assert(c@ == revision@);
            }
            assert(bytes_of(c@) != rev) by {
                if bytes_of(c@) == rev {
                    lemma_bytes_of_injective(c@, d.revision@);
                }
            }
            if let HubAction::ReadRef { path } = lookup.1 {
                if let Some((p, v)) = record_ref {
                    lemma_bytes_of_injective(p@, path@);
                    lemma_bytes_of_injective(v@, c@);
                    lemma_trim_unchanged(c@);
                    assert forall|l2: HubFetch, check: HubAction|
                        stepped(lookup.0, HubEvent::RefRead(Some(v)), l2, check) implies (check matches HubAction::CheckFile {
                        path: q } && q@ == target@) by {
                        if let HubAction::CheckFile { path: q } = check {
                            lemma_bytes_of_injective(q@, target@);
                        }
                    }
                }
            }
        }
    }
}

/// A cache-only resolution never sends a request: it starts by reading a
/// ref file or checking a snapshot path, and each of its steps reads, checks
/// or ends, staying cache-only.
pub proof fn law_cache_lookup_sends_no_request(
    cache_dir: &str,
    repo_type: RepoType,
    repo_id: &str,
    filename: &str,
    revision: &str,
    start: (HubFetch, HubAction),
    s: HubFetch,
    event: HubEvent,
    s2: HubFetch,
    a: HubAction,
)
    requires
        begun(false, cache_dir, "", false, repo_type, repo_id, filename, revision, start),
        !s.download,
        s.phase == Phase::LookupRef || s.phase == Phase::LookupFile || s.phase == Phase::Finished,
        stepped(s, event, s2, a),
    ensures
        !start.0.download,
        start.1 is ReadRef || start.1 is CheckFile,
        start.0.phase == Phase::LookupRef || start.0.phase == Phase::LookupFile,
        !(a is Get) && !(a is Store),
        !s2.download,
        s2.phase == Phase::LookupFile || s2.phase == Phase::Finished,
{
}

/// What a failed download says it was downloading.
pub open spec fn download_context_spec(filename: Seq<char>, repo_id: Seq<char>, revision: Seq<char>) -> Seq<u8> {
    "downloading ".spec_bytes() + bytes_of(filename) + " from Hub repo ".spec_bytes() + bytes_of(repo_id)
        + " at revision ".spec_bytes() + bytes_of(revision)
}

/// `downloading {filename} from Hub repo {repo_id} at revision {revision}`.
pub fn download_context(filename: &str, repo_id: &str, revision: &str) -> (r: String)
    ensures
        bytes_of(r@) == download_context_spec(filename@, repo_id@, revision@),
{
    let mut out = owned("downloading ");
    push_str(&mut out, filename);
    push_str(&mut out, " from Hub repo ");
    push_str(&mut out, repo_id);
    push_str(&mut out, " at revision ");
    push_str(&mut out, revision);
    proof {
        assert(bytes_of(out@) =~= download_context_spec(filename@, repo_id@, revision@));
    }
    out
}

/// What a resolution of `s`'s file in repo `repo_id` ends with, given the
/// result of its last action: when it downloads on a miss, a failure (all
/// its failures come from the download) is wrapped with the file, repo and
/// revision; anything else is the result itself.
pub fn resolution_result(s: &HubFetch, repo_id: &str, done: Result<String, HubError>) -> (r: Result<String, HubError>)
    ensures
        !(s.download && done is Err) ==> r == done,
        s.download && done is Err ==> (r matches Err(HubError::Download { context, cause }) && bytes_of(context@)
            == download_context_spec(s.filename@, repo_id@, s.revision@) && done == Err::<String, HubError>(*cause)),
{
    if s.download {
        match done {
            Ok(p) => Ok(p),
            Err(e) => {
                let context = download_context(s.filename.as_str(), repo_id, s.revision.as_str());
                Err(HubError::Download { context, cause: Box::new(e) })
            },
        }
    } else {
        done
    }
}

/// A resolution's start is determined by its arguments: two starts of the
/// same lookup agree on every field of the state and on the first action.
/// So the cache-only lookup of a model repo (`cached_hub_file`) is the
/// cache-only lookup in a repo of type `Model` (`cached_hub_file_in`).
pub proof fn law_begun_determined(
    download: bool,
    cache_dir: &str,
    endpoint: &str,
    had_token: bool,
    repo_type: RepoType,
    repo_id: &str,
    filename: &str,
    revision: &str,
    r1: (HubFetch, HubAction),
    r2: (HubFetch, HubAction),
)
    requires
        begun(download, cache_dir, endpoint, had_token, repo_type, repo_id, filename, revision, r1),
        begun(download, cache_dir, endpoint, had_token, repo_type, repo_id, filename, revision, r2),
    ensures
        r1.0.same_request(&r2.0),
        r1.0.phase == r2.0.phase,
        r1.0.target@ == r2.0.target@,
        r1.0.commit is None && r2.0.commit is None,
        r1.0.hops == r2.0.hops,
        match (r1.1, r2.1) {
            (HubAction::ReadRef { path: p }, HubAction::ReadRef { path: q }) => p@ == q@,
            (HubAction::CheckFile { path: p }, HubAction::CheckFile { path: q }) => p@ == q@,
            _ => false,
        },
{
    lemma_bytes_of_injective(r1.0.repo_dir@, r2.0.repo_dir@);
    lemma_bytes_of_injective(r1.0.url@, r2.0.url@);
    match (r1.1, r2.1) {
        (HubAction::ReadRef { path: p }, HubAction::ReadRef { path: q }) => {
            lemma_bytes_of_injective(p@, q@);
        },
        (HubAction::CheckFile { path: p }, HubAction::CheckFile { path: q }) => {
            lemma_bytes_of_injective(p@, q@);
        },
        _ => {},
    }
}

/// A cache-only lookup never makes a request: it starts by reading a ref
/// file or checking a snapshot file, and from a state that is not waiting
/// for a response no step is a `Get` or leads to such a state; it stays
/// cache-only.
pub proof fn law_cache_only_never_requests(s: HubFetch, event: HubEvent, n: HubFetch, a: HubAction)
    requires
        !s.download,
        s.phase != Phase::Request,
        s.phase != Phase::Redirect,
        stepped(s, event, n, a),
    ensures
        !(a is Get),
        !n.download,
        n.phase != Phase::Request,
        n.phase != Phase::Redirect,
{
}

/// The start of a cache-only lookup is not waiting for a response and
/// makes no request.
pub proof fn law_cache_only_begins_without_request(
    cache_dir: &str,
    endpoint: &str,
    had_token: bool,
    repo_type: RepoType,
    repo_id: &str,
    filename: &str,
    revision: &str,
    r: (HubFetch, HubAction),
)
    requires
        begun(false, cache_dir, endpoint, had_token, repo_type, repo_id, filename, revision, r),
    ensures
        !(r.1 is Get),
        !r.0.download,
        r.0.phase != Phase::Request,
        r.0.phase != Phase::Redirect,
{
}

/// A cache hit does not depend on whether misses are downloaded: two
/// lookups of the same file that differ at most in that, answered by the
/// same ref file text or by the snapshot file's presence, take the same
/// next action (the same snapshot path to check, or the same path as the
/// result) and neither makes a request.
pub proof fn law_cache_hit_ignores_download(
    s1: HubFetch,
    s2: HubFetch,
    event: HubEvent,
    n1: HubFetch,
    a1: HubAction,
    n2: HubFetch,
    a2: HubAction,
)
    requires
        s1.phase == s2.phase,
        s1.repo_dir@ == s2.repo_dir@,
        s1.filename@ == s2.filename@,
        s1.target@ == s2.target@,
        (s1.phase == Phase::LookupFile && event matches HubEvent::FileExists(true)) || (s1.phase
            == Phase::LookupRef && event matches HubEvent::RefRead(Some(_))),
        stepped(s1, event, n1, a1),
        stepped(s2, event, n2, a2),
    ensures
        !(a1 is Get) && !(a2 is Get),
        n1.phase == n2.phase,
        match (a1, a2) {
            (HubAction::Done(Ok(p)), HubAction::Done(Ok(q))) => p@ == q@ && p@ == s1.target@,
            (HubAction::CheckFile { path: p }, HubAction::CheckFile { path: q }) => p@ == q@ && n1.target@
                == n2.target@,
            _ => false,
        },
{
    match (a1, a2) {
        (HubAction::CheckFile { path: p }, HubAction::CheckFile { path: q }) => {
            lemma_bytes_of_injective(p@, q@);
        },
        _ => {},
    }
}

} // verus!
