use tinypng_cli::commands::config::{apply_setting, ConfigField};
use tinypng_cli::commands::keys::{
    add_key, key_listing, key_preview, looks_like_key, parse_unsigned, probe_status, probe_tally,
    remaining_quota, remove_exit_code, remove_keys, ProbeStatus,
};
use tinypng_cli::commands::run::{
    dry_run_estimate, dry_run_summary, keys_exhausted, keys_used, require_paths, run_exit_code,
    total_bytes,
};
use tinypng_cli::config::Config;
use tinypng_cli::error::{SerializedError, ShrinkError};
use tinypng_cli::keys::rotation::KeyPoolSnapshot;
use tinypng_cli::keys::{hash_key, Key, KeySource};
use tinypng_cli::output::{build, format_bytes};
use tinypng_cli::runner::{CompressResult, RunSummary};
use tinypng_cli::scan::FileTask;

fn task(path: &str, size: u64) -> FileTask {
    FileTask {
        uuid: "u".into(),
        path: path.into(),
        original_size: size,
    }
}

fn key(value: &str, source: KeySource, index: usize) -> Key {
    Key {
        value: value.into(),
        source,
        index,
        hash: hash_key(value),
    }
}

#[test]
fn run_needs_a_path() {
    assert!(require_paths(&["a".to_string()]).is_ok());
    let e = require_paths(&[]).unwrap_err();
    assert_eq!(e.code(), "bad_argument");
    assert_eq!(
        e.to_string(),
        "argument error: no path given; try `tinypng --help`"
    );
}

#[test]
fn dry_run_estimate_is_half_as_floating_point_gives_it() {
    for size in [0u64, 1, 7, 20_000, (1 << 53) + 1, (1 << 53) + 3, u64::MAX - 1, u64::MAX] {
        assert_eq!(dry_run_estimate(size), (size as f64 * 0.5) as u64, "{size}");
    }
    assert_eq!(dry_run_estimate(20_000), 10_000);
    assert_eq!(dry_run_estimate(7), 3);
    assert_eq!(dry_run_estimate(u64::MAX), 1 << 63);
}

#[test]
fn dry_run_summary_counts_estimates() {
    let tasks = vec![task("a.png", 20_000), task("b.png", 7)];
    assert_eq!(total_bytes(&tasks), 20_007);
    let (summary, estimates) = dry_run_summary(&tasks, 3, 5);
    assert_eq!(estimates, vec![10_000, 3]);
    assert_eq!(summary.total, 5);
    assert_eq!(summary.skipped, 3);
    assert_eq!(summary.success, 0);
    assert_eq!(summary.fail, 0);
    assert_eq!(summary.original_total_bytes, 20_007);
    assert_eq!(summary.saved_bytes, 10_003);
    assert_eq!(summary.compressed_total_bytes, 10_004);
    assert_eq!(run_exit_code(&summary, true), 0);
}

#[test]
fn keys_used_counts_distinct_success_hashes() {
    let ok = |k: &str| CompressResult::Success {
        task: task("a.png", 10),
        compressed_size: 5,
        output_path: "a.png".into(),
        key_hash: hash_key(k),
        duration_ms: 0,
    };
    let failed = CompressResult::Failure {
        task: task("b.png", 10),
        error: SerializedError::from_error(&ShrinkError::KeyInvalid),
        attempted_keys: vec![hash_key("k3")],
        duration_ms: 0,
    };
    assert_eq!(keys_used(&[]), 0);
    assert_eq!(keys_used(&[ok("k1"), failed.clone(), ok("k1"), ok("k2")]), 2);
    assert_eq!(keys_used(&[failed]), 0);
}

#[test]
fn run_exit_codes() {
    let snap = KeyPoolSnapshot {
        total: 4,
        healthy: 1,
        exhausted: 2,
        invalid: 1,
    };
    assert_eq!(keys_exhausted(&snap), 3);
    let mut s = RunSummary::default();
    s.fail = 2;
    assert_eq!(run_exit_code(&s, false), 4);
    assert_eq!(run_exit_code(&s, true), 0);
    s.success = 1;
    assert_eq!(run_exit_code(&s, false), 1);
}

#[test]
fn key_listing_counts_sources() {
    let keys = vec![
        key("a", KeySource::Env, 0),
        key("b", KeySource::Config, 1),
        key("c", KeySource::Config, 2),
    ];
    let l = key_listing(&keys);
    assert_eq!((l.env, l.config, l.total, l.exit_code), (1, 2, 3, 0));
    let empty = key_listing(&[]);
    assert_eq!((empty.total, empty.exit_code), (0, 3));
}

#[test]
fn probes_and_quota() {
    assert_eq!(probe_status(400), ProbeStatus::Alive);
    assert_eq!(probe_status(401), ProbeStatus::Invalid);
    assert_eq!(probe_status(429), ProbeStatus::Exhausted);
    assert_eq!(probe_status(500), ProbeStatus::Unknown);
    assert_eq!(ProbeStatus::Alive.as_str(), "ok");
    assert_eq!(ProbeStatus::NetworkError.as_str(), "network_error");
    assert_eq!(remaining_quota(Some(120)), Some(380));
    assert_eq!(remaining_quota(Some(700)), Some(0));
    assert_eq!(remaining_quota(None), None);
    assert_eq!(parse_unsigned("120", u32::MAX as u64), Some(120));
    assert_eq!(parse_unsigned("+7", 10), Some(7));
    assert_eq!(parse_unsigned("11", 10), None);
    assert_eq!(parse_unsigned("", 10), None);
    assert_eq!(parse_unsigned("+", 10), None);
    assert_eq!(parse_unsigned("-1", 10), None);
    assert_eq!(parse_unsigned("1 ", 10), None);

    let t = probe_tally(
        &[
            ProbeStatus::Alive,
            ProbeStatus::Exhausted,
            ProbeStatus::NetworkError,
            ProbeStatus::Invalid,
            ProbeStatus::Exhausted,
        ],
        5,
    );
    assert_eq!((t.alive, t.exhausted, t.invalid, t.total, t.exit_code), (1, 2, 1, 5, 0));
    let none_alive = probe_tally(&[ProbeStatus::Unknown], 1);
    assert_eq!(none_alive.exit_code, 4);
}

#[test]
fn editing_the_key_list() {
    assert!(looks_like_key("abcdefghijklmnopqrstuvwxyz012345"));
    assert!(!looks_like_key("abcdefghijklmnopqrstuvwxyz01234"));
    assert!(!looks_like_key("abcdefghijklmnopqrstuvwxyz01234-"));

    let mut values: Vec<String> = vec![];
    assert!(add_key(&mut values, "k1"));
    assert!(!add_key(&mut values, "k1"));
    assert!(add_key(&mut values, "k2"));
    assert_eq!(values, vec!["k1", "k2"]);

    assert_eq!(remove_keys(&mut values, "k1"), 1);
    assert_eq!(values, vec!["k2"]);
    assert_eq!(remove_keys(&mut values, "nope"), 0);
    assert_eq!(remove_exit_code(0), 1);

    let h = hash_key("k2");
    assert_eq!(remove_keys(&mut values, &h[..4]), 1);
    assert!(values.is_empty());
    assert_eq!(remove_exit_code(1), 0);

    let mut short = vec!["k3".to_string()];
    let h3 = hash_key("k3");
    assert_eq!(remove_keys(&mut short, &h3[..3]), 0);
    assert_eq!(short.len(), 1);
}

#[test]
fn key_preview_takes_characters_not_bytes() {
    assert_eq!(key_preview("aéééé"), "aéééé");
    assert_eq!(key_preview("abcdefghijkl"), "abcdefgh");
    assert_eq!(key_preview("ééééééééé"), "éééééééé");
    assert_eq!(key_preview(""), "");
    let mut values: Vec<String> = vec![];
    assert!(!looks_like_key("aéééé"));
    assert!(add_key(&mut values, "aéééé"));
    assert_eq!(values, vec!["aéééé"]);
}

#[test]
fn config_settings_are_applied() {
    let mut c = Config::default();
    apply_setting(&mut c, "concurrency", "8").unwrap();
    assert_eq!(c.concurrency, Some(8));
    apply_setting(&mut c, "overwrite", "true").unwrap();
    assert_eq!(c.overwrite, Some(true));
    apply_setting(&mut c, "skip_compressed", "false").unwrap();
    assert_eq!(c.skip_compressed, Some(false));
    apply_setting(&mut c, "min_size", "20k").unwrap();
    assert_eq!(c.min_size.as_deref(), Some("20k"));
    apply_setting(&mut c, "extensions", " PNG,jpg ,").unwrap();
    assert_eq!(
        c.extensions.clone().unwrap(),
        vec!["png".to_string(), "jpg".to_string(), "".to_string()]
    );

    let e = apply_setting(&mut c, "concurrency", "many").unwrap_err();
    assert_eq!(e.to_string(), "argument error: concurrency must be integer");
    assert_eq!(c.concurrency, Some(8));
    let e = apply_setting(&mut c, "overwrite", "yes").unwrap_err();
    assert_eq!(e.to_string(), "argument error: overwrite must be bool");
    let e = apply_setting(&mut c, "skip_compressed", "1").unwrap_err();
    assert_eq!(e.to_string(), "argument error: skip_compressed must be bool");
    let e = apply_setting(&mut c, "colour", "red").unwrap_err();
    assert_eq!(e.to_string(), "argument error: unknown key: colour");
}

#[test]
fn config_field_names() {
    assert_eq!(
        ConfigField::from_name("min_size").unwrap(),
        ConfigField::MinSize
    );
    assert_eq!(
        ConfigField::from_name("keys").unwrap_err().to_string(),
        "argument error: unknown key: keys"
    );
}

#[test]
fn build_label() {
    assert_eq!(build(), "internal");
}

/// How sizes are shown through `f64`.
fn reference_bytes(n: u64) -> String {
    const KB: u64 = 1024;
    const MB: u64 = KB * 1024;
    const GB: u64 = MB * 1024;
    if n >= GB {
        format!("{:.2} GB", n as f64 / GB as f64)
    } else if n >= MB {
        format!("{:.2} MB", n as f64 / MB as f64)
    } else if n >= KB {
        format!("{:.1} KB", n as f64 / KB as f64)
    } else {
        format!("{n} B")
    }
}

#[test]
fn byte_counts_are_shown_like_doubles() {
    assert_eq!(format_bytes(0), "0 B");
    assert_eq!(format_bytes(1023), "1023 B");
    assert_eq!(format_bytes(1024), "1.0 KB");
    assert_eq!(format_bytes(1075), "1.0 KB");
    assert_eq!(format_bytes(1127), "1.1 KB");
    assert_eq!(format_bytes(20_000), "19.5 KB");
    assert_eq!(format_bytes(1_048_576), "1.00 MB");
    assert_eq!(format_bytes(1_572_864), "1.50 MB");
    assert_eq!(format_bytes(1_073_741_824), "1.00 GB");
    assert_eq!(format_bytes(u64::MAX), "17179869184.00 GB");
    let mut edges = vec![u64::MAX, u64::MAX - 1, (1 << 53) + 1, (1 << 53) - 1];
    for k in 9..64 {
        let p = 1u64 << k;
        edges.extend([p - 1, p, p + 1, p + p / 2, p + p / 200, p + p / 20]);
    }
    // ties: the shown quotient lies exactly halfway between two decimals
    for k in 0..200_000u64 {
        for (unit, scale) in [(1u64 << 20, 100u64), (1u64 << 30, 100u64)] {
            let x = unit * k + unit / 2;
            if x % scale == 0 && x / scale >= unit {
                edges.push(x / scale);
            }
        }
    }
    for n in 1024..300_000u64 {
        edges.push(n);
    }
    for n in edges {
        assert_eq!(format_bytes(n), reference_bytes(n), "{n}");
    }
    let mut state: u64 = 0x9e37_79b9_7f4a_7c15;
    for _ in 0..20_000 {
        state ^= state << 13;
        state ^= state >> 7;
        state ^= state << 17;
        let n = state >> (state % 64);
        assert_eq!(format_bytes(n), reference_bytes(n), "{n}");
    }
}
