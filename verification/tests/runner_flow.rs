use tinypng_cli::compress::{
    api_base_from, check_upload_size, download_reply, shrink_url, upload_reply, CompressOutcome,
    DEFAULT_API_BASE, MAX_UPLOAD_BYTES,
};
use tinypng_cli::error::{SerializedError, ShrinkError};
use tinypng_cli::keys::rotation::KeyPool;
use tinypng_cli::output::{file_report, FileReport};
use tinypng_cli::keys::{hash_key, Key, KeySource};
use tinypng_cli::runner::{
    checked_output_path, generate_compressed_name, output_path_for, tally, temporary_path_for, Attempt, AttemptStep,
    CompressResult, RunSummary, MAX_KEY_SWITCHES,
};
use tinypng_cli::scan::FileTask;

fn mk(values: &[&str]) -> Vec<Key> {
    values
        .iter()
        .enumerate()
        .map(|(i, v)| Key {
            value: v.to_string(),
            source: KeySource::Env,
            index: i,
            hash: hash_key(v),
        })
        .collect()
}

fn task(path: &str, size: u64) -> FileTask {
    FileTask {
        uuid: "u".into(),
        path: path.into(),
        original_size: size,
    }
}

fn success(path: &str, size: u64, compressed: u64, key: &str) -> CompressResult {
    CompressResult::Success {
        task: task(path, size),
        compressed_size: compressed,
        output_path: path.into(),
        key_hash: hash_key(key),
        duration_ms: 1,
    }
}

fn failure(path: &str, size: u64) -> CompressResult {
    CompressResult::Failure {
        task: task(path, size),
        error: SerializedError::from_error(&ShrinkError::InvalidImage("x".into())),
        attempted_keys: vec![],
        duration_ms: 1,
    }
}

#[test]
fn upload_statuses_map_to_errors() {
    assert_eq!(
        upload_reply(201, Some("https://x/output/xyz".into())).unwrap(),
        "https://x/output/xyz"
    );
    assert_eq!(upload_reply(201, None).unwrap_err().code(), "protocol_error");
    assert_eq!(upload_reply(401, None).unwrap_err().code(), "key_invalid");
    assert_eq!(upload_reply(429, None).unwrap_err().code(), "key_exhausted");
    let e = upload_reply(400, None).unwrap_err();
    assert_eq!(e.code(), "invalid_image");
    assert_eq!(e.to_string(), "invalid image: HTTP 400");
    assert_eq!(
        upload_reply(415, None).unwrap_err().to_string(),
        "unsupported image format: HTTP 415"
    );
    assert_eq!(upload_reply(503, None).unwrap_err().code(), "server_error");
    assert_eq!(
        upload_reply(500, None).unwrap_err().to_string(),
        "TinyPNG server error (HTTP 500)"
    );
    assert_eq!(upload_reply(599, None).unwrap_err().code(), "server_error");
    assert_eq!(upload_reply(200, None).unwrap_err().code(), "protocol_error");
    assert_eq!(upload_reply(600, None).unwrap_err().code(), "protocol_error");
    assert_eq!(upload_reply(404, None).unwrap_err().code(), "protocol_error");
}

#[test]
fn download_and_upload_limits() {
    match download_reply(true, vec![1, 2, 3]).unwrap() {
        CompressOutcome::Compressed(b) => assert_eq!(b, vec![1, 2, 3]),
    }
    assert_eq!(
        download_reply(false, vec![1]).unwrap_err().code(),
        "protocol_error"
    );
    assert!(check_upload_size(MAX_UPLOAD_BYTES).is_ok());
    assert!(check_upload_size(0).is_ok());
    let e = check_upload_size(MAX_UPLOAD_BYTES + 1).unwrap_err();
    assert_eq!(
        e.to_string(),
        "file too large: 5242881 bytes (TinyPNG limit is 5 MB)"
    );
}

#[test]
fn endpoint_urls() {
    assert_eq!(shrink_url("https://api.tinify.com"), "https://api.tinify.com/shrink");
    assert_eq!(shrink_url("http://127.0.0.1:9/"), "http://127.0.0.1:9/shrink");
    assert_eq!(shrink_url("http://h//"), "http://h/shrink");
    assert_eq!(shrink_url(""), "/shrink");
    assert_eq!(api_base_from(None), DEFAULT_API_BASE);
    assert_eq!(api_base_from(Some("http://mock".into())), "http://mock");
}

#[test]
fn exhausted_key_moves_the_file_to_the_next_key() {
    let mut pool = KeyPool::new(mk(&["k1", "k2"]));
    let mut attempt = Attempt::new();
    let first = match attempt.next_step(&mut pool) {
        AttemptStep::Call(k) => k,
        AttemptStep::GiveUp(e) => panic!("gave up: {}", e.code()),
    };
    assert_eq!(first.value, "k1");
    let e = upload_reply(429, None).unwrap_err();
    assert!(attempt.after_failure(&mut pool, &first, e).is_none());
    let second = match attempt.next_step(&mut pool) {
        AttemptStep::Call(k) => k,
        AttemptStep::GiveUp(e) => panic!("gave up: {}", e.code()),
    };
    assert_eq!(second.value, "k2");
    assert_eq!(upload_reply(201, Some("loc".into())).unwrap(), "loc");
    assert_eq!(attempt.attempted_keys, vec![hash_key("k1"), hash_key("k2")]);
    let snap = pool.snapshot();
    assert_eq!(snap.exhausted, 1);
    assert_eq!(snap.healthy, 1);
}

#[test]
fn invalid_image_gives_up_without_marking_the_key() {
    let mut pool = KeyPool::new(mk(&["k1", "k2"]));
    let mut attempt = Attempt::new();
    let key = match attempt.next_step(&mut pool) {
        AttemptStep::Call(k) => k,
        AttemptStep::GiveUp(e) => panic!("gave up: {}", e.code()),
    };
    let e = upload_reply(400, None).unwrap_err();
    let give_up = attempt.after_failure(&mut pool, &key, e).unwrap();
    assert_eq!(give_up.code(), "invalid_image");
    assert_eq!(attempt.attempted_keys.len(), 1);
    assert_eq!(pool.snapshot().healthy, 2);
}

#[test]
fn invalid_key_is_marked_and_transient_failures_retry() {
    let mut pool = KeyPool::new(mk(&["k1"]));
    let mut attempt = Attempt::new();
    let key = match attempt.next_step(&mut pool) {
        AttemptStep::Call(k) => k,
        AttemptStep::GiveUp(e) => panic!("gave up: {}", e.code()),
    };
    assert!(attempt
        .after_failure(&mut pool, &key, ShrinkError::NetworkTimeout)
        .is_none());
    assert_eq!(pool.snapshot().healthy, 1);
    assert!(attempt
        .after_failure(&mut pool, &key, ShrinkError::KeyInvalid)
        .is_none());
    assert_eq!(pool.snapshot().invalid, 1);
    match attempt.next_step(&mut pool) {
        AttemptStep::GiveUp(e) => assert_eq!(e.code(), "key_invalid"),
        AttemptStep::Call(k) => panic!("unexpected key {}", k.value),
    }
    let other = attempt.after_failure(&mut pool, &key, ShrinkError::ProtocolError);
    assert_eq!(other.unwrap().code(), "protocol_error");
}

#[test]
fn attempts_stop_after_max_key_switches() {
    let mut pool = KeyPool::new(mk(&["k1", "k2"]));
    let mut attempt = Attempt::new();
    for _ in 0..MAX_KEY_SWITCHES {
        let key = match attempt.next_step(&mut pool) {
            AttemptStep::Call(k) => k,
            AttemptStep::GiveUp(e) => panic!("gave up: {}", e.code()),
        };
        assert!(attempt
            .after_failure(&mut pool, &key, ShrinkError::ServerError(503))
            .is_none());
    }
    match attempt.next_step(&mut pool) {
        AttemptStep::GiveUp(e) => assert_eq!(e.code(), "max_retries_exceeded"),
        AttemptStep::Call(k) => panic!("unexpected key {}", k.value),
    }
    assert_eq!(attempt.attempted_keys.len(), MAX_KEY_SWITCHES);
    assert_eq!(attempt.draws, 5);
}

#[test]
fn empty_pool_gives_up_at_once() {
    let mut pool = KeyPool::new(vec![]);
    let mut attempt = Attempt::new();
    match attempt.next_step(&mut pool) {
        AttemptStep::GiveUp(e) => assert_eq!(e.code(), "no_keys_configured"),
        AttemptStep::Call(k) => panic!("unexpected key {}", k.value),
    }
    assert!(attempt.attempted_keys.is_empty());
}

#[test]
fn tally_sums_results() {
    let results = vec![
        success("a.png", 1000, 400, "k1"),
        failure("b.png", 500),
        success("c.png", 100, 150, "k2"),
    ];
    let s = tally(&results, 3, 42);
    assert_eq!(s.total, 3);
    assert_eq!(s.success, 2);
    assert_eq!(s.fail, 1);
    assert_eq!(s.skipped, 0);
    assert_eq!(s.original_total_bytes, 1600);
    assert_eq!(s.compressed_total_bytes, 1050);
    assert_eq!(s.saved_bytes, 550);
    assert_eq!(s.duration_ms, 42);
    assert_eq!(s.exit_code(), 1);

    let grown = tally(&[success("c.png", 100, 150, "k2")], 1, 0);
    assert_eq!(grown.saved_bytes, 0);
    assert_eq!(grown.exit_code(), 0);

    let failed = tally(&[failure("b.png", 500)], 1, 0);
    assert_eq!(failed.exit_code(), 4);
    assert_eq!(failed.saved_bytes, 0);
}

#[test]
fn summary_exit_codes() {
    let mut s = RunSummary::default();
    assert_eq!(s.exit_code(), 0);
    s.success = 3;
    assert_eq!(s.exit_code(), 0);
    s.fail = 1;
    assert_eq!(s.exit_code(), 1);
    s.success = 0;
    assert_eq!(s.exit_code(), 4);
}

#[test]
fn compressed_names() {
    assert_eq!(generate_compressed_name("./a.png"), "./compressed_a.png");
    assert_eq!(generate_compressed_name("/x/y/photo.jpeg"), "/x/y/compressed_photo.jpeg");
    assert_eq!(generate_compressed_name("dir/noext"), "dir/compressed_noext");
    assert_eq!(generate_compressed_name("a.png"), "compressed_a.png");
    assert_eq!(generate_compressed_name("/x/.hidden"), "/x/compressed_.hidden");
}

#[test]
fn output_paths() {
    assert_eq!(output_path_for("/x/a.png", Some("/out"), false), "/out/a.png");
    assert_eq!(output_path_for("/x/a.png", Some("/out"), true), "/out/a.png");
    assert_eq!(output_path_for("/x/a.png", None, true), "/x/a.png");
    assert_eq!(output_path_for("/x/a.png", None, false), "/x/compressed_a.png");
    assert_eq!(
        checked_output_path("/x/a.png", Some("/out"), false).as_deref(),
        Some("/out/a.png")
    );
    assert_eq!(checked_output_path("/", Some("/out"), false), None);
    assert_eq!(
        checked_output_path("/x/a.png", None, false).as_deref(),
        Some("/x/compressed_a.png")
    );
    assert_eq!(temporary_path_for("/x/a.png"), "/x/a.tinypng.tmp");
    assert_eq!(temporary_path_for("/x/noext"), "/x/noext.tinypng.tmp");
}

#[test]
fn results_are_reported_with_savings_and_codes() {
    match file_report(&success("a.png", 1000, 400, "k1")) {
        FileReport::Success {
            path,
            original_size,
            compressed_size,
            saved_bytes,
            key_hash,
            ..
        } => {
            assert_eq!(path, "a.png");
            assert_eq!((original_size, compressed_size, saved_bytes), (1000, 400, 600));
            assert_eq!(key_hash, hash_key("k1"));
        }
        other => panic!("unexpected {other:?}"),
    }
    match file_report(&success("c.png", 100, 150, "k2")) {
        FileReport::Success { saved_bytes, .. } => assert_eq!(saved_bytes, 0),
        other => panic!("unexpected {other:?}"),
    }
    let failed = CompressResult::Failure {
        task: task("bad.png", 50),
        error: SerializedError::from_error(&ShrinkError::InvalidImage("corrupt header".into())),
        attempted_keys: vec![hash_key("k1"), hash_key("k2")],
        duration_ms: 7,
    };
    match file_report(&failed) {
        FileReport::Fail {
            error,
            error_message,
            attempted_keys,
            original_size,
            duration_ms,
            ..
        } => {
            assert_eq!(error, "invalid_image");
            assert_eq!(error_message, "invalid image: corrupt header");
            assert_eq!(attempted_keys, vec![hash_key("k1"), hash_key("k2")]);
            assert_eq!((original_size, duration_ms), (50, 7));
        }
        other => panic!("unexpected {other:?}"),
    }
}

#[test]
fn all_keys_hitting_quota_during_a_file_is_key_exhausted() {
    let mut pool = KeyPool::new(mk(&["a", "b"]));
    let mut attempt = Attempt::new();
    let code = loop {
        match attempt.next_step(&mut pool) {
            AttemptStep::Call(key) => {
                let e = upload_reply(429, None).unwrap_err();
                assert!(attempt.after_failure(&mut pool, &key, e).is_none());
            }
            AttemptStep::GiveUp(e) => break e.code(),
        }
    };
    assert_eq!(code, "key_exhausted");
    assert_eq!(attempt.attempted_keys, vec![hash_key("a"), hash_key("b")]);

    // the next file finds no healthy key before it starts
    let mut next = Attempt::new();
    match next.next_step(&mut pool) {
        AttemptStep::GiveUp(e) => assert_eq!(e.code(), "all_keys_exhausted"),
        AttemptStep::Call(k) => panic!("unexpected key {}", k.value),
    }
}
