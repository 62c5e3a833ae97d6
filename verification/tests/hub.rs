use gigatoken::hub::text::join;
use gigatoken::hub::repo::{looks_like_repo_id, is_commit_hash, RepoType, hf_home, hf_hub_cache_dir, repo_cache_dir};
use gigatoken::hub::fetch::{
    absolutize, resolve_url, snapshot_path, refs_path, token_from_env, token_path, token_from_file, ensure_status,
    FetchError, HubError, HubAction, HubEvent, Phase, cached_hub_file, hub_file, hub_file_in, download_context,
    resolution_result,
};

#[test]
fn repo_id_shapes() {
    assert!(looks_like_repo_id("gpt2"));
    assert!(looks_like_repo_id("openai-community/gpt2"));
    assert!(looks_like_repo_id("Qwen/Qwen3.5-9B"));
    assert!(!looks_like_repo_id("data/tokenizers/gpt2.json"));
    assert!(!looks_like_repo_id("./gpt2"));
    assert!(!looks_like_repo_id("/abs/path"));
    assert!(!looks_like_repo_id("gpt2_tokenizer.json"));
    assert!(!looks_like_repo_id("subdir/tokenizer.model"));
    assert!(!looks_like_repo_id(""));
    assert!(!looks_like_repo_id("org/"));
}

#[test]
fn location_resolution() {
    assert_eq!(absolutize("https://cdn.example/x", "https://huggingface.co/a/b"), "https://cdn.example/x");
    assert_eq!(absolutize("/api/x", "https://huggingface.co/a/b"), "https://huggingface.co/api/x");
    assert_eq!(absolutize("y", "https://huggingface.co/a/b"), "https://huggingface.co/a/y");
}

#[test]
fn location_relative_to_bare_origin() {
    assert_eq!(absolutize("y", "https://huggingface.co"), "https://huggingface.co/y");
    assert_eq!(absolutize("/z", "https://huggingface.co"), "https://huggingface.co/z");
}

#[test]
fn repo_id_edge_shapes() {
    assert!(looks_like_repo_id("a_b.c-d"));
    assert!(!looks_like_repo_id("_a"));
    assert!(looks_like_repo_id("org/_a"));
    assert!(!looks_like_repo_id("a/b/c"));
    assert!(!looks_like_repo_id("a b"));
}

#[test]
fn commit_hashes() {
    assert!(is_commit_hash("0123456789abcdef0123456789abcdef01234567"));
    assert!(!is_commit_hash("0123456789ABCDEF0123456789abcdef01234567"));
    assert!(!is_commit_hash("main"));
    assert!(!is_commit_hash("0123456789abcdef0123456789abcdef0123456"));
}

#[test]
fn repo_types() {
    assert_eq!(RepoType::parse("model").ok(), Some(RepoType::Model));
    assert_eq!(RepoType::parse("dataset").ok(), Some(RepoType::Dataset));
    assert_eq!(RepoType::parse("space").ok(), Some(RepoType::Space));
    assert_eq!(RepoType::parse("models").err().map(|e| e.value), Some("models".to_string()));
    assert_eq!("space".parse::<RepoType>().ok(), Some(RepoType::Space));
    assert_eq!(RepoType::default(), RepoType::Model);
    assert_eq!(RepoType::Dataset.cache_prefix(), "datasets");
    assert_eq!(RepoType::Space.url_prefix(), "spaces/");
    assert_eq!(RepoType::Model.url_prefix(), "");
}

#[test]
fn cache_directories() {
    assert_eq!(hf_home(Some("/h"), Some("/x"), "/home/u"), "/h");
    assert_eq!(hf_home(Some(""), Some("/x"), "/home/u"), "/x/huggingface");
    assert_eq!(hf_home(None, None, "/home/u"), "/home/u/.cache/huggingface");
    assert_eq!(hf_hub_cache_dir(Some("/c"), None, None, "/home/u"), "/c");
    assert_eq!(hf_hub_cache_dir(None, Some("/h/"), None, "/home/u"), "/h/hub");
    assert_eq!(hf_hub_cache_dir(None, None, None, "/home/u"), "/home/u/.cache/huggingface/hub");
    assert_eq!(repo_cache_dir("/c", RepoType::Model, "org/name"), "/c/models--org--name");
    assert_eq!(repo_cache_dir("/c", RepoType::Dataset, "gpt2"), "/c/datasets--gpt2");
}

#[test]
fn urls_and_paths() {
    assert_eq!(
        resolve_url("https://huggingface.co/", RepoType::Model, "org/m", "main", "tokenizer.json"),
        "https://huggingface.co/org/m/resolve/main/tokenizer.json"
    );
    assert_eq!(
        resolve_url("https://hf.example", RepoType::Dataset, "d", "v1", "a/b.txt"),
        "https://hf.example/datasets/d/resolve/v1/a/b.txt"
    );
    assert_eq!(snapshot_path("/c/models--m", "abc", "t.json"), "/c/models--m/snapshots/abc/t.json");
    assert_eq!(refs_path("/c/models--m", "main"), "/c/models--m/refs/main");
}

#[test]
fn token_discovery() {
    assert_eq!(token_from_env(Some(" tok \n"), Some("old")), Some("tok".to_string()));
    assert_eq!(token_from_env(Some(""), Some("old")), Some("old".to_string()));
    assert_eq!(token_from_env(None, None), None);
    assert_eq!(token_from_env(Some("  "), None), None);
    assert_eq!(token_path(Some("/t"), "/h"), "/t");
    assert_eq!(token_path(None, "/h"), "/h/token");
    assert_eq!(token_from_file("  abc\n"), Some("abc".to_string()));
    assert_eq!(token_from_file(" \n"), None);
}

#[test]
fn status_errors() {
    assert!(ensure_status("u", 200, false).is_ok());
    assert!(ensure_status("u", 302, false).is_ok());
    assert!(matches!(ensure_status("u", 404, true), Err(HubError::Fetch(FetchError::NotFound { .. }))));
    match ensure_status("u", 403, true) {
        Err(HubError::Fetch(FetchError::Unauthorized { url, status, had_token })) => {
            assert_eq!(url, "u");
            assert_eq!(status, 403);
            assert!(had_token);
        }
        other => panic!("unexpected {:?}", other),
    }
    assert!(matches!(ensure_status("u", 500, false), Err(HubError::Status { status: 500, .. })));
}

#[test]
fn cached_lookup_follows_ref() {
    let (mut s, a) = cached_hub_file("/c", "org/m", "t.json", "main");
    match a {
        HubAction::ReadRef { path } => assert_eq!(path, "/c/models--org--m/refs/main"),
        other => panic!("unexpected {:?}", other),
    }
    match s.step(HubEvent::RefRead(Some("abc\n".to_string()))) {
        HubAction::CheckFile { path } => assert_eq!(path, "/c/models--org--m/snapshots/abc/t.json"),
        other => panic!("unexpected {:?}", other),
    }
    match s.step(HubEvent::FileExists(false)) {
        HubAction::Done(Err(HubError::NotCached)) => {}
        other => panic!("unexpected {:?}", other),
    }
    assert_eq!(s.phase, Phase::Finished);
}

#[test]
fn commit_revision_checks_snapshot_directly() {
    let rev = "0123456789abcdef0123456789abcdef01234567";
    let (mut s, a) = cached_hub_file("/c", "m", "t.json", rev);
    match a {
        HubAction::CheckFile { path } => assert_eq!(path, format!("/c/models--m/snapshots/{rev}/t.json")),
        other => panic!("unexpected {:?}", other),
    }
    match s.step(HubEvent::FileExists(true)) {
        HubAction::Done(Ok(p)) => assert_eq!(p, format!("/c/models--m/snapshots/{rev}/t.json")),
        other => panic!("unexpected {:?}", other),
    }
}

#[test]
fn download_with_redirect_and_ref() {
    let (mut s, _) = hub_file("/c", "https://hf.example", true, "org/m", "t.json", "main");
    match s.step(HubEvent::RefRead(None)) {
        HubAction::Get { url, auth } => {
            assert_eq!(url, "https://hf.example/org/m/resolve/main/t.json");
            assert!(auth);
        }
        other => panic!("unexpected {:?}", other),
    }
    let a = s.step(HubEvent::Response {
        status: 302,
        commit: Some("c0ffee".to_string()),
        location: Some("/cdn/blob".to_string()),
    });
    match a {
        HubAction::Get { url, auth } => {
            assert_eq!(url, "https://hf.example/cdn/blob");
            assert!(!auth);
        }
        other => panic!("unexpected {:?}", other),
    }
    match s.step(HubEvent::Response { status: 200, commit: None, location: None }) {
        HubAction::Store { target, record_ref } => {
            assert_eq!(target, "/c/models--org--m/snapshots/c0ffee/t.json");
            assert_eq!(record_ref, Some(("/c/models--org--m/refs/main".to_string(), "c0ffee".to_string())));
        }
        other => panic!("unexpected {:?}", other),
    }
    match s.step(HubEvent::Stored(true)) {
        HubAction::Done(Ok(p)) => assert_eq!(p, "/c/models--org--m/snapshots/c0ffee/t.json"),
        other => panic!("unexpected {:?}", other),
    }
    assert!(matches!(s.step(HubEvent::Stored(true)), HubAction::Done(Err(HubError::UnexpectedEvent))));
}

#[test]
fn download_errors() {
    let (mut s, _) = hub_file_in("/c", "https://hf.example", false, RepoType::Space, "s", "t.json", "main");
    let _ = s.step(HubEvent::RefRead(None));
    assert!(matches!(
        s.step(HubEvent::Response { status: 404, commit: None, location: None }),
        HubAction::Done(Err(HubError::Fetch(FetchError::NotFound { .. })))
    ));
    let (mut s, _) = hub_file("/c", "https://hf.example", false, "m", "t.json", "main");
    let _ = s.step(HubEvent::RefRead(None));
    assert!(matches!(
        s.step(HubEvent::Response { status: 301, commit: None, location: None }),
        HubAction::Done(Err(HubError::NoLocation { .. }))
    ));
    let (mut s, _) = hub_file("/c", "https://hf.example", false, "m", "t.json", "main");
    let _ = s.step(HubEvent::RefRead(None));
    let mut last = None;
    for _ in 0..11 {
        last = Some(s.step(HubEvent::Response { status: 302, commit: None, location: Some("x".to_string()) }));
    }
    assert!(matches!(last, Some(HubAction::Done(Err(HubError::TooManyRedirects { .. })))));
    let (mut s, _) = hub_file("/c", "https://hf.example", false, "m", "t.json", "main");
    let _ = s.step(HubEvent::RefRead(None));
    match s.step(HubEvent::Response { status: 200, commit: None, location: None }) {
        HubAction::Store { target, record_ref } => {
            assert_eq!(target, "/c/models--m/snapshots/main/t.json");
            assert_eq!(record_ref, None);
        }
        other => panic!("unexpected {:?}", other),
    }
    assert!(matches!(s.step(HubEvent::Stored(false)), HubAction::Done(Err(HubError::Io))));
}

#[test]
fn stored_file_is_found_by_a_later_lookup() {
    let (mut d, _) = hub_file("/c", "https://hf.example", false, "org/m", "t.json", "main");
    let _ = d.step(HubEvent::RefRead(None));
    let (target, record) = match d.step(HubEvent::Response {
        status: 200,
        commit: Some("0123456789abcdef0123456789abcdef01234567".to_string()),
        location: None,
    }) {
        HubAction::Store { target, record_ref } => (target, record_ref.unwrap()),
        other => panic!("unexpected {:?}", other),
    };
    let (mut lookup, first) = cached_hub_file("/c", "org/m", "t.json", "main");
    match first {
        HubAction::ReadRef { path } => assert_eq!(path, record.0),
        other => panic!("unexpected {:?}", other),
    }
    match lookup.step(HubEvent::RefRead(Some(record.1))) {
        HubAction::CheckFile { path } => assert_eq!(path, target),
        other => panic!("unexpected {:?}", other),
    }
}

#[test]
fn path_join_follows_path_join_rules() {
    assert_eq!(join("/a/b", "c"), "/a/b/c");
    assert_eq!(join("/a/b/", "c"), "/a/b/c");
    assert_eq!(join("", "c"), "c");
    assert_eq!(join("/a/b", "/etc/x"), "/etc/x");
}

#[test]
fn download_failures_carry_what_was_downloaded() {
    assert_eq!(
        download_context("tokenizer.json", "org/repo", "main"),
        "downloading tokenizer.json from Hub repo org/repo at revision main"
    );
    let (s, _) = hub_file_in("/cache", "https://huggingface.co", false, RepoType::Model, "org/repo", "tokenizer.json", "main");
    match resolution_result(&s, "org/repo", Err(HubError::Io)) {
        Err(HubError::Download { context, cause }) => {
            assert_eq!(context, "downloading tokenizer.json from Hub repo org/repo at revision main");
            assert!(matches!(*cause, HubError::Io));
        }
        other => panic!("unexpected {other:?}"),
    }
    assert_eq!(resolution_result(&s, "org/repo", Ok("p".to_string())).unwrap(), "p");
    let (c, _) = cached_hub_file("/cache", "org/repo", "tokenizer.json", "main");
    assert!(matches!(resolution_result(&c, "org/repo", Err(HubError::NotCached)), Err(HubError::NotCached)));
}
