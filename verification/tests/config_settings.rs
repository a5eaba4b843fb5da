use tinypng_cli::cli::RunArgs;
use tinypng_cli::config::{config_path_for, config_path_from, parse_size, Config, KeysConfig, RunConfig};

fn plain_args() -> RunArgs {
    RunArgs {
        output: None,
        overwrite: false,
        ext: None,
        min_size: None,
        no_skip_compressed: false,
        concurrency: None,
        dry_run: false,
        json: false,
        quiet: false,
        verbose: false,
    }
}

#[test]
fn parse_size_ok() {
    assert_eq!(parse_size("500").unwrap(), 500);
    assert_eq!(parse_size("10k").unwrap(), 10 * 1024);
    assert_eq!(parse_size("1M").unwrap(), 1024 * 1024);
    assert_eq!(parse_size("2g").unwrap(), 2 * 1024 * 1024 * 1024);
    assert_eq!(parse_size("1.5m").unwrap(), (1.5 * 1024.0 * 1024.0) as u64);
}

#[test]
fn parse_size_invalid() {
    assert!(parse_size("").is_err());
    assert!(parse_size("abc").is_err());
    assert!(parse_size("-1k").is_err());
    assert!(parse_size("1x").is_err());
}

#[test]
fn parse_size_error_messages() {
    match parse_size("abc") {
        Err(e) => {
            assert_eq!(e.code(), "bad_argument");
            assert_eq!(e.to_string(), "argument error: invalid size: abc");
        }
        Ok(v) => panic!("unexpected size {v}"),
    }
    match parse_size("-1k") {
        Err(e) => assert_eq!(e.to_string(), "argument error: negative size: -1k"),
        Ok(v) => panic!("unexpected size {v}"),
    }
    match parse_size("1x") {
        Err(e) => assert_eq!(e.to_string(), "argument error: unknown size suffix: x"),
        Ok(v) => panic!("unexpected size {v}"),
    }
}

#[test]
fn parse_size_edge_cases() {
    assert_eq!(parse_size("  20K  ").unwrap(), 20 * 1024);
    assert_eq!(parse_size("7b").unwrap(), 7);
    assert_eq!(parse_size("0").unwrap(), 0);
    assert_eq!(parse_size("0.5k").unwrap(), 512);
    assert_eq!(parse_size("1.9").unwrap(), 1);
    assert_eq!(parse_size(".5k").unwrap(), 512);
    assert_eq!(parse_size("1e3").unwrap(), 1000);
    assert_eq!(parse_size("2.5e1k").unwrap(), 25 * 1024);
    assert_eq!(parse_size("+5").unwrap(), 5);
    assert_eq!(parse_size("99999999999999999999999").unwrap(), u64::MAX);
    assert_eq!(parse_size("infk").unwrap(), u64::MAX);
    assert_eq!(parse_size("nanb").unwrap(), 0);
    assert_eq!(parse_size("-0k").unwrap(), 0);
    assert!(parse_size("3kb").is_err());
    assert!(parse_size("inf").is_err());
    match parse_size("   ") {
        Err(e) => assert_eq!(e.to_string(), "argument error: empty size"),
        Ok(v) => panic!("unexpected size {v}"),
    }
    assert!(parse_size("k").is_err());
    assert!(parse_size("1.2.3").is_err());
}

#[test]
fn config_defaults_all_none() {
    let c = Config::default();
    assert!(c.concurrency.is_none());
    assert!(c.overwrite.is_none());
    assert!(c.keys.values.is_empty());
}

#[test]
fn resolve_cli_overrides_config() {
    let args = RunArgs {
        output: None,
        overwrite: true,
        ext: Some("png,jpg".into()),
        min_size: Some("50k".into()),
        no_skip_compressed: false,
        concurrency: Some(16),
        dry_run: false,
        json: true,
        quiet: false,
        verbose: false,
    };
    let config = Config {
        concurrency: Some(2),
        min_size: Some("5k".into()),
        ..Config::default()
    };

    let tmp = tempfile::tempdir().unwrap();
    let path = tmp.path().to_string_lossy().into_owned();
    let exists = tmp.path().exists();
    let r = RunConfig::resolve(&args, &[path], &[exists], &config).unwrap();
    assert_eq!(r.concurrency, 16);
    assert_eq!(r.min_size, 50 * 1024);
    assert!(r.overwrite);
    assert!(r.has_extension("png"));
    assert!(!r.has_extension("webp"));
}

#[test]
fn run_config_defaults() {
    let r = RunConfig::default();
    assert_eq!(r.concurrency, 4);
    assert_eq!(r.min_size, 10 * 1024);
    assert!(r.has_extension("png"));
    assert!(!r.has_extension("gif"));
}

#[test]
fn resolve_falls_back_to_config_then_defaults() {
    let config = Config {
        concurrency: Some(2),
        overwrite: Some(true),
        min_size: Some("5k".into()),
        extensions: Some(vec!["PNG".into(), "gif".into(), "png".into()]),
        skip_compressed: Some(false),
        keys: KeysConfig::default(),
    };
    let r = RunConfig::resolve(&plain_args(), &["a".to_string()], &[true], &config).unwrap();
    assert_eq!(r.concurrency, 2);
    assert!(r.overwrite);
    assert_eq!(r.min_size, 5 * 1024);
    assert!(r.has_extension("png"));
    assert!(r.has_extension("gif"));
    assert_eq!(r.extensions.len(), 2);
    assert!(!r.skip_compressed);

    let d = RunConfig::resolve(&plain_args(), &[], &[], &Config::default()).unwrap();
    assert_eq!(d.concurrency, 4);
    assert!(!d.overwrite);
    assert_eq!(d.min_size, 10 * 1024);
    assert!(d.skip_compressed);
    assert!(d.has_extension("jpeg"));
    assert!(d.output_dir.is_none());
}

#[test]
fn resolve_ext_flag_is_split_trimmed_and_lowercased_with_duplicates_dropped() {
    let args = RunArgs {
        ext: Some(" PNG , webp,,".into()),
        no_skip_compressed: true,
        output: Some("out".into()),
        ..plain_args()
    };
    let r = RunConfig::resolve(&args, &[], &[], &Config::default()).unwrap();
    assert!(r.has_extension("png"));
    assert!(r.has_extension("webp"));
    assert!(!r.has_extension("jpg"));
    // the empty pieces after the trailing commas count once, as the empty extension
    assert!(r.has_extension(""));
    assert_eq!(r.extensions.len(), 3);
    assert!(!r.skip_compressed);
    assert_eq!(r.output_dir.as_deref(), Some("out"));
}

#[test]
fn resolve_reports_missing_path_and_bad_size() {
    let paths = ["here".to_string(), "/nope".to_string(), "/gone".to_string()];
    let err = RunConfig::resolve(&plain_args(), &paths, &[true, false, false], &Config::default())
        .unwrap_err();
    assert_eq!(err.code(), "bad_argument");
    assert_eq!(err.to_string(), "argument error: path does not exist: /nope");

    let args = RunArgs {
        min_size: Some("lots".into()),
        ..plain_args()
    };
    let err = RunConfig::resolve(&args, &paths, &[true, false, false], &Config::default())
        .unwrap_err();
    assert_eq!(err.to_string(), "argument error: invalid size: lots");
}

#[test]
fn config_path_layout() {
    let p = config_path_for(Some("/home/u".to_string()));
    assert_eq!(p, "/home/u/.config/tinypng/config.toml");
    assert_eq!(config_path_for(None), "tinypng_config.toml");
    match Config::path() {
        Some(p) => assert!(p.ends_with("config.toml")),
        None => panic!("the test environment's home directory is not Unicode"),
    }
}

/// How the size is computed through `f64`: parse, check the sign, multiply
/// by the unit and convert with `as u64`.
fn reference_size(s: &str) -> Result<u64, String> {
    let s = s.trim().to_lowercase();
    if s.is_empty() {
        return Err("empty size".into());
    }
    let last = s.chars().last().unwrap();
    let (num_part, suffix): (&str, Option<char>) = if last.is_ascii_alphabetic() {
        (&s[..s.len() - 1], Some(last))
    } else {
        (&s[..], None)
    };
    let num: f64 = num_part
        .parse()
        .map_err(|_| format!("invalid size: {s}"))?;
    if num < 0.0 {
        return Err(format!("negative size: {s}"));
    }
    let mult: u64 = match suffix {
        None | Some('b') => 1,
        Some('k') => 1_024,
        Some('m') => 1_024 * 1_024,
        Some('g') => 1_024 * 1_024 * 1_024,
        Some(c) => return Err(format!("unknown size suffix: {c}")),
    };
    Ok((num * mult as f64) as u64)
}

fn library_size(s: &str) -> Result<u64, String> {
    parse_size(s).map_err(|e| {
        assert_eq!(e.code(), "bad_argument");
        e.to_string()
            .strip_prefix("argument error: ")
            .unwrap()
            .to_string()
    })
}

#[test]
fn parse_size_rounds_like_a_double() {
    let cases = [
        "9007199254740993",
        "9007199254740995",
        "18014398509481985",
        "18014398509481987",
        "18446744073709551615",
        "18446744073709550591",
        "18446744073709550592",
        "4.9999999999999999k",
        "4.999999999999999k",
        "0.49999999999999997",
        "0.5",
        "0.9999999999999999",
        "0.99999999999999999",
        "1.00000000000000011102230246251565404236316680908203125",
        "8.000000000000001g",
        "17179869183.99999999999g",
        "1e-5m",
        "123456789.123456789k",
        "0.1",
        "2.5e1k",
        "+.5k",
        "5.",
        "5.e1",
        "1.7976931348623157e308",
        "1e309",
        "1e308g",
        "-0",
        "-0.0k",
        "0e99999999999999999999999",
        "1e-99999999999999999999999",
        "12345678901234567890123456789e-20g",
        "3.0000000000000004440892098500626161694526672363281249999",
        "3.00000000000000044408920985006261616945266723632812500001",
        "\u{3000}10k\u{a0}",
        "\t\n 5m \r",
        "10\u{212A}",
        "\u{ff11}",
        "1\u{2009}k",
    ];
    for c in cases {
        assert_eq!(library_size(c), reference_size(c), "{c}");
    }
}

#[test]
fn parse_size_agrees_with_doubles_on_generated_texts() {
    let mut state: u64 = 0x2545_f491_4f6c_dd1d;
    let mut next = move |n: u64| {
        state ^= state << 13;
        state ^= state >> 7;
        state ^= state << 17;
        state % n
    };
    let units = ["", "b", "k", "m", "g", "K", "G"];
    for _ in 0..3000 {
        let mut s = String::new();
        match next(8) {
            0 => s.push('+'),
            1 | 2 => s.push('-'),
            _ => {}
        }
        let int_len = next(22);
        for _ in 0..int_len {
            s.push(char::from(b'0' + next(10) as u8));
        }
        if next(2) == 0 {
            s.push('.');
            for _ in 0..next(25) {
                s.push(char::from(b'0' + next(10) as u8));
            }
        }
        if next(4) == 0 {
            s.push('e');
            if next(2) == 0 {
                s.push('-');
            }
            let e = if next(3) == 0 { 300 + next(60) } else { next(40) };
            s.push_str(&e.to_string());
        }
        s.push_str(units[next(units.len() as u64) as usize]);
        assert_eq!(library_size(&s), reference_size(&s), "{s}");
    }
}

/// Half the least positive double, 2^-1075, written out in full.
const HALF_TINIEST: &str = "0.0000000000000000000000000000000000000000000000000000000000000000000000000000000000000000000000000000000000000000000000000000000000000000000000000000000000000000000000000000000000000000000000000000000000000000000000000000000000000000000000000000000000000000000000000000000000000000000000000000000000000000000000000000000000024703282292062327208828439643411068618252990130716238221279284125033775363510437593264991818081799618989828234772285886546332835517796989819938739800539093906315035659515570226392290858392449105184435931802849936536152500319370457678249219365623669863658480757001585769269903706311928279558551332927834338409351978015531246597263579574622766465272827220056374006485499977096599470454020828166226237857393450736339007967761930577506740176324673600968951340535537458516661134223766678604162159680461914467291840300530057530849048765391711386591646239524912623653881879636239373280423891018672348497668235089863388587925628302755995657524455507255189313690836254779186948667994968324049705821028513185451396213837722826145437693412532098591327667236328125";

#[test]
fn negative_sizes_that_round_to_zero_are_zero() {
    let above = format!("{HALF_TINIEST}1");
    let cases = [
        "-1e-400".to_string(),
        "-1e-400k".to_string(),
        "-2.4703282292062327e-324".to_string(),
        "-2.4703282292062328e-324".to_string(),
        "-1e-323".to_string(),
        "-0.000000000000000000000000000000001e-290".to_string(),
        "-99999999999999999999e-344".to_string(),
        "-99999999999999999999e-343".to_string(),
        format!("-{HALF_TINIEST}"),
        format!("-{HALF_TINIEST}g"),
        format!("-{above}"),
        format!("{above}g"),
    ];
    for c in &cases {
        assert_eq!(library_size(c), reference_size(c), "{c}");
    }
    assert_eq!(library_size("-1e-400").unwrap(), 0);
    assert_eq!(library_size(&format!("-{HALF_TINIEST}")).unwrap(), 0);
    assert!(library_size(&format!("-{above}")).is_err());
}

#[test]
fn config_path_for_each_kind_of_home() {
    assert_eq!(
        config_path_from(Some(Some("/home/u".to_string()))).as_deref(),
        Some("/home/u/.config/tinypng/config.toml")
    );
    assert_eq!(config_path_from(None).as_deref(), Some("tinypng_config.toml"));
    assert_eq!(config_path_from(Some(None)), None);
}
