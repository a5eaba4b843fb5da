use tinypng_cli::error::{error_report, exit_code_for_error, SerializedError, ShrinkError};

/// The list of stable error codes. Changing this list is a breaking change.
const STABLE_ERROR_CODES: &[&str] = &[
    "invalid_image",
    "unsupported_format",
    "file_too_large",
    "key_exhausted",
    "key_invalid",
    "no_keys_configured",
    "all_keys_exhausted",
    "network_timeout",
    "server_error",
    "io_error",
    "permission_denied",
    "max_retries_exceeded",
    "config_parse",
    "bad_argument",
    "protocol_error",
];

fn every_variant() -> Vec<ShrinkError> {
    vec![
        ShrinkError::InvalidImage("x".into()),
        ShrinkError::UnsupportedFormat("x".into()),
        ShrinkError::FileTooLarge { size: 1 },
        ShrinkError::KeyExhausted,
        ShrinkError::KeyInvalid,
        ShrinkError::NoKeysConfigured,
        ShrinkError::AllKeysExhausted,
        ShrinkError::NetworkTimeout,
        ShrinkError::ServerError(500),
        ShrinkError::IoError("x".into()),
        ShrinkError::PermissionDenied("x".into()),
        ShrinkError::MaxRetriesExceeded,
        ShrinkError::ConfigParse("x".into()),
        ShrinkError::BadArgument("x".into()),
        ShrinkError::ProtocolError,
    ]
}

#[test]
fn error_codes_are_stable_snake_case() {
    let cases = [
        (ShrinkError::InvalidImage("x".into()), "invalid_image"),
        (
            ShrinkError::UnsupportedFormat("gif".into()),
            "unsupported_format",
        ),
        (ShrinkError::FileTooLarge { size: 1 }, "file_too_large"),
        (ShrinkError::KeyExhausted, "key_exhausted"),
        (ShrinkError::KeyInvalid, "key_invalid"),
        (ShrinkError::NoKeysConfigured, "no_keys_configured"),
        (ShrinkError::AllKeysExhausted, "all_keys_exhausted"),
        (ShrinkError::NetworkTimeout, "network_timeout"),
        (ShrinkError::ServerError(500), "server_error"),
        (ShrinkError::IoError("x".into()), "io_error"),
        (
            ShrinkError::PermissionDenied("x".into()),
            "permission_denied",
        ),
        (ShrinkError::MaxRetriesExceeded, "max_retries_exceeded"),
        (ShrinkError::ConfigParse("x".into()), "config_parse"),
        (ShrinkError::BadArgument("x".into()), "bad_argument"),
        (ShrinkError::ProtocolError, "protocol_error"),
    ];
    for (err, code) in cases {
        assert_eq!(err.code(), code);
    }
}

#[test]
fn transient_classification() {
    assert!(ShrinkError::NetworkTimeout.is_transient());
    assert!(ShrinkError::ServerError(503).is_transient());
    assert!(!ShrinkError::KeyExhausted.is_transient());
    assert!(!ShrinkError::InvalidImage("x".into()).is_transient());
}

#[test]
fn key_dead_classification() {
    assert!(ShrinkError::KeyExhausted.is_key_dead());
    assert!(ShrinkError::KeyInvalid.is_key_dead());
    assert!(!ShrinkError::NetworkTimeout.is_key_dead());
}

#[test]
fn every_stable_code_is_reachable() {
    let cases: Vec<ShrinkError> = every_variant();
    let codes: Vec<&str> = cases.iter().map(|e| e.code()).collect();
    assert_eq!(codes.len(), STABLE_ERROR_CODES.len());
    for expected in STABLE_ERROR_CODES {
        assert!(codes.contains(expected), "missing stable code: {expected}");
    }
}

#[test]
fn codes_are_pairwise_distinct() {
    let codes: Vec<&str> = every_variant().iter().map(|e| e.code()).collect();
    for i in 0..codes.len() {
        for j in (i + 1)..codes.len() {
            assert_ne!(codes[i], codes[j]);
        }
    }
}

#[test]
fn no_error_is_both_transient_and_key_dead() {
    for e in every_variant() {
        assert!(!(e.is_transient() && e.is_key_dead()), "{}", e.code());
    }
}

#[test]
fn messages_match_the_documented_texts() {
    assert_eq!(
        ShrinkError::InvalidImage("corrupt header".into()).to_string(),
        "invalid image: corrupt header"
    );
    assert_eq!(
        ShrinkError::UnsupportedFormat("gif".into()).to_string(),
        "unsupported image format: gif"
    );
    assert_eq!(
        ShrinkError::FileTooLarge { size: 6000000 }.to_string(),
        "file too large: 6000000 bytes (TinyPNG limit is 5 MB)"
    );
    assert_eq!(
        ShrinkError::FileTooLarge { size: 0 }.to_string(),
        "file too large: 0 bytes (TinyPNG limit is 5 MB)"
    );
    assert_eq!(ShrinkError::KeyExhausted.to_string(), "TinyPNG API key exhausted");
    assert_eq!(ShrinkError::KeyInvalid.to_string(), "TinyPNG API key invalid");
    assert_eq!(
        ShrinkError::NoKeysConfigured.to_string(),
        "no TinyPNG API keys configured"
    );
    assert_eq!(
        ShrinkError::AllKeysExhausted.to_string(),
        "all configured keys are exhausted or invalid"
    );
    assert_eq!(ShrinkError::NetworkTimeout.to_string(), "network timeout");
    assert_eq!(
        ShrinkError::ServerError(503).to_string(),
        "TinyPNG server error (HTTP 503)"
    );
    assert_eq!(ShrinkError::IoError("disk".into()).to_string(), "I/O error: disk");
    assert_eq!(
        ShrinkError::PermissionDenied("/x".into()).to_string(),
        "permission denied: /x"
    );
    assert_eq!(
        ShrinkError::MaxRetriesExceeded.to_string(),
        "maximum retries exceeded"
    );
    assert_eq!(
        ShrinkError::ConfigParse("bad toml".into()).to_string(),
        "configuration error: bad toml"
    );
    assert_eq!(
        ShrinkError::BadArgument("no paths".into()).to_string(),
        "argument error: no paths"
    );
    assert_eq!(
        ShrinkError::ProtocolError.to_string(),
        "protocol error (unexpected TinyPNG response)"
    );
}

#[test]
fn serialized_error_carries_code_and_message() {
    let s = SerializedError::from_error(&ShrinkError::InvalidImage("corrupt header".into()));
    assert_eq!(s.code, "invalid_image");
    assert_eq!(s.message, "invalid image: corrupt header");
}

#[test]
fn io_and_transport_failures_map_to_errors() {
    assert_eq!(
        ShrinkError::from_io_failure(true, "/x".into()).code(),
        "permission_denied"
    );
    assert_eq!(ShrinkError::from_io_failure(false, "/x".into()).code(), "io_error");
    assert_eq!(
        ShrinkError::from_transport_failure(true, "t".into()).code(),
        "network_timeout"
    );
    assert_eq!(
        ShrinkError::from_transport_failure(false, "reset".into()).to_string(),
        "I/O error: reset"
    );
}

#[test]
fn exit_codes_of_errors() {
    assert_eq!(exit_code_for_error(&ShrinkError::BadArgument("x".into())), 2);
    assert_eq!(exit_code_for_error(&ShrinkError::NoKeysConfigured), 3);
    assert_eq!(exit_code_for_error(&ShrinkError::ConfigParse("x".into())), 3);
    assert_eq!(exit_code_for_error(&ShrinkError::AllKeysExhausted), 4);
    assert_eq!(exit_code_for_error(&ShrinkError::NetworkTimeout), 4);
    assert_eq!(exit_code_for_error(&ShrinkError::ServerError(502)), 4);
    assert_eq!(exit_code_for_error(&ShrinkError::IoError("x".into())), 1);
    assert_eq!(exit_code_for_error(&ShrinkError::KeyInvalid), 1);
}

#[test]
fn error_reports() {
    assert_eq!(
        error_report(&ShrinkError::BadArgument("path does not exist: /nope".into())),
        "error: path does not exist: /nope\n"
    );
    assert_eq!(
        error_report(&ShrinkError::NetworkTimeout),
        "error: network timeout\n"
    );
    let guidance = error_report(&ShrinkError::NoKeysConfigured);
    assert!(guidance.contains("No TinyPNG API keys configured"));
    assert!(guidance.contains("tinypng keys add <your-key>"));
    assert_eq!(guidance, error_report(&ShrinkError::ConfigParse("x".into())));
}

#[test]
fn cloned_error_is_equal() {
    let e = ShrinkError::ServerError(503);
    let c = e.clone_error();
    assert_eq!(c.to_string(), e.to_string());
    assert_eq!(c.code(), e.code());
}

#[test]
fn codes_are_snake_case_and_ignore_payloads() {
    for e in every_variant() {
        let code = e.code();
        assert!(!code.is_empty());
        assert!(code.chars().all(|c| c.is_ascii_lowercase() || c == '_'), "{code}");
        assert!(!code.starts_with('_') && !code.ends_with('_') && !code.contains("__"), "{code}");
    }
    assert_eq!(
        ShrinkError::InvalidImage("a".into()).code(),
        ShrinkError::InvalidImage("b".into()).code()
    );
    assert_eq!(ShrinkError::ServerError(500).code(), ShrinkError::ServerError(503).code());
    assert_eq!(
        ShrinkError::FileTooLarge { size: 1 }.code(),
        ShrinkError::FileTooLarge { size: 9 }.code()
    );
}
