use std::collections::HashSet;
use tinypng_cli::config::Config;
use tinypng_cli::keys::rotation::KeyPool;
use tinypng_cli::keys::{hash_key, load_all_keys, Key, KeySource};

fn mk(values: &[&str]) -> Vec<Key> {
    values
        .iter()
        .enumerate()
        .map(|(i, v)| Key {
            value: v.to_string(),
            source: KeySource::Env,
            index: i,
            hash: hash_key(v),
        })
        .collect()
}

#[test]
fn hash_is_8_hex_chars() {
    let h = hash_key("mykey123");
    assert_eq!(h.len(), 8);
    assert!(h.chars().all(|c| c.is_ascii_hexdigit()));
}

#[test]
fn hash_is_deterministic() {
    assert_eq!(hash_key("same"), hash_key("same"));
    assert_ne!(hash_key("a"), hash_key("b"));
}

#[test]
fn hash_is_sha256_prefix() {
    // SHA-256("abc") = ba7816bf8f01cfea...
    assert_eq!(hash_key("abc"), "ba7816bf");
    // SHA-256("") = e3b0c44298fc1c14...
    assert_eq!(hash_key(""), "e3b0c442");
    assert!(hash_key("abc").chars().all(|c| !c.is_ascii_uppercase()));
}

#[test]
fn no_keys_returns_error() {
    let config = Config::default();
    let err = load_all_keys(None, None, &config).unwrap_err();
    assert_eq!(err.code(), "no_keys_configured");
}

#[test]
fn env_single_key_loads() {
    let config = Config::default();
    let keys = load_all_keys(Some("abc123"), None, &config).unwrap();
    assert_eq!(keys.len(), 1);
    assert_eq!(keys[0].value, "abc123");
    assert_eq!(keys[0].source, KeySource::Env);
}

#[test]
fn env_multi_keys_parsed() {
    let config = Config::default();
    let keys = load_all_keys(None, Some("a,b,c"), &config).unwrap();
    assert_eq!(keys.len(), 3);
    assert_eq!(keys[0].value, "a");
    assert_eq!(keys[2].value, "c");
}

#[test]
fn env_and_config_merge() {
    let mut config = Config::default();
    config.keys.values = vec!["config_key".into()];
    let keys = load_all_keys(Some("env_key"), None, &config).unwrap();
    assert_eq!(keys.len(), 2);
    assert_eq!(keys[0].source, KeySource::Env);
    assert_eq!(keys[1].source, KeySource::Config);
}

#[test]
fn dedup_removes_duplicates_across_sources() {
    let mut config = Config::default();
    config.keys.values = vec!["same_key".into()];
    let keys = load_all_keys(Some("same_key"), None, &config).unwrap();
    assert_eq!(keys.len(), 1, "duplicate key should be deduped to 1");
}

#[test]
fn loaded_keys_keep_order_and_first_positions() {
    let mut config = Config::default();
    config.keys.values = vec!["c1".into(), "".into(), "s".into(), "c2".into()];
    let keys = load_all_keys(Some("s"), Some(" m1, ,m2,s,"), &config).unwrap();
    let values: Vec<&str> = keys.iter().map(|k| k.value.as_str()).collect();
    assert_eq!(values, vec!["s", "m1", "m2", "c1", "c2"]);
    let sources: Vec<KeySource> = keys.iter().map(|k| k.source).collect();
    assert_eq!(
        sources,
        vec![
            KeySource::Env,
            KeySource::Env,
            KeySource::Env,
            KeySource::Config,
            KeySource::Config
        ]
    );
    let indices: Vec<usize> = keys.iter().map(|k| k.index).collect();
    assert_eq!(indices, vec![0, 1, 2, 4, 6]);
    for k in &keys {
        assert_eq!(k.hash, hash_key(&k.value));
    }
}

#[test]
fn only_the_key_list_is_trimmed() {
    let mut config = Config::default();
    config.keys.values = vec![" c ".into()];
    let keys = load_all_keys(Some(" s "), Some(" l "), &config).unwrap();
    let values: Vec<&str> = keys.iter().map(|k| k.value.as_str()).collect();
    assert_eq!(values, vec![" s ", "l", " c "]);
}

#[test]
fn empty_keys_count_as_none() {
    let mut config = Config::default();
    config.keys.values = vec!["".into()];
    let err = load_all_keys(Some(""), Some(" , ,"), &config).unwrap_err();
    assert_eq!(err.code(), "no_keys_configured");
}

#[test]
fn next_healthy_rotates() {
    let mut pool = KeyPool::new(mk(&["a", "b", "c"]));
    let mut seen = HashSet::new();
    for _ in 0..6 {
        seen.insert(pool.next_healthy().unwrap().value);
    }
    assert_eq!(seen.len(), 3);
}

#[test]
fn next_healthy_goes_round_in_order() {
    let mut pool = KeyPool::new(mk(&["a", "b", "c"]));
    let drawn: Vec<String> = (0..5).map(|_| pool.next_healthy().unwrap().value).collect();
    assert_eq!(drawn, vec!["a", "b", "c", "a", "b"]);
    assert_eq!(pool.total(), 3);
}

#[test]
fn marking_exhausted_skips_key() {
    let mut pool = KeyPool::new(mk(&["a", "b"]));
    let a_hash = hash_key("a");
    pool.mark_exhausted(&a_hash);
    for _ in 0..5 {
        let k = pool.next_healthy().unwrap();
        assert_eq!(k.value, "b");
    }
}

#[test]
fn all_dead_returns_error() {
    let mut pool = KeyPool::new(mk(&["a", "b"]));
    pool.mark_exhausted(&hash_key("a"));
    pool.mark_invalid(&hash_key("b"));
    let err = pool.next_healthy().unwrap_err();
    assert_eq!(err.code(), "all_keys_exhausted");
}

#[test]
fn snapshot_counts() {
    let mut pool = KeyPool::new(mk(&["a", "b", "c"]));
    pool.mark_exhausted(&hash_key("a"));
    pool.mark_invalid(&hash_key("b"));
    let snap = pool.snapshot();
    assert_eq!(snap.total, 3);
    assert_eq!(snap.healthy, 1);
    assert_eq!(snap.exhausted, 1);
    assert_eq!(snap.invalid, 1);
}

#[test]
fn empty_pool_errors() {
    let mut pool = KeyPool::new(vec![]);
    assert_eq!(
        pool.next_healthy().unwrap_err().code(),
        "no_keys_configured"
    );
}

#[test]
fn marking_an_unknown_hash_changes_nothing() {
    let mut pool = KeyPool::new(mk(&["a", "b"]));
    pool.mark_invalid("ffffffff");
    let snap = pool.snapshot();
    assert_eq!(snap.healthy, 2);
    assert_eq!(snap.exhausted + snap.invalid, 0);
}

#[test]
fn marking_twice_keeps_the_key_dead() {
    let mut pool = KeyPool::new(mk(&["a"]));
    pool.mark_invalid(&hash_key("a"));
    pool.mark_exhausted(&hash_key("a"));
    let snap = pool.snapshot();
    assert_eq!(snap.healthy, 0);
    assert_eq!(snap.exhausted, 1);
    assert_eq!(pool.next_healthy().unwrap_err().code(), "all_keys_exhausted");
}

#[test]
fn a_key_marked_invalid_is_never_drawn_again() {
    let mut pool = KeyPool::new(mk(&["a", "b", "c"]));
    pool.mark_invalid(&hash_key("b"));
    for round in 0..30 {
        if round == 10 {
            pool.mark_exhausted(&hash_key("c"));
        }
        if round == 20 {
            pool.mark_exhausted(&hash_key("zzz"));
        }
        let k = pool.next_healthy().unwrap();
        assert_ne!(k.value, "b");
    }
}
