//! The error type of the library, its stable machine-readable codes and
//! its human-readable messages.
use vstd::prelude::*;
use vstd::string::StringExecFns;

use crate::text::{decimal, push_decimal};

verus! {

/// Every failure the tool can report.
///
/// The snake_case codes returned by [`ShrinkError::code`] are a public
/// contract: they appear in the `error` field of NDJSON output.
#[derive(Debug, Clone)]
pub enum ShrinkError {
    InvalidImage(String),
    UnsupportedFormat(String),
    FileTooLarge { size: u64 },
    KeyExhausted,
    KeyInvalid,
    NoKeysConfigured,
    AllKeysExhausted,
    NetworkTimeout,
    ServerError(u16),
    IoError(String),
    PermissionDenied(String),
    MaxRetriesExceeded,
    ConfigParse(String),
    BadArgument(String),
    ProtocolError,
}

/// The stable code of each variant.
pub open spec fn error_code(e: ShrinkError) -> Seq<char> {
    match e {
        ShrinkError::InvalidImage(_) => "invalid_image"@,
        ShrinkError::UnsupportedFormat(_) => "unsupported_format"@,
        ShrinkError::FileTooLarge { .. } => "file_too_large"@,
        ShrinkError::KeyExhausted => "key_exhausted"@,
        ShrinkError::KeyInvalid => "key_invalid"@,
        ShrinkError::NoKeysConfigured => "no_keys_configured"@,
        ShrinkError::AllKeysExhausted => "all_keys_exhausted"@,
        ShrinkError::NetworkTimeout => "network_timeout"@,
        ShrinkError::ServerError(_) => "server_error"@,
        ShrinkError::IoError(_) => "io_error"@,
        ShrinkError::PermissionDenied(_) => "permission_denied"@,
        ShrinkError::MaxRetriesExceeded => "max_retries_exceeded"@,
        ShrinkError::ConfigParse(_) => "config_parse"@,
        ShrinkError::BadArgument(_) => "bad_argument"@,
        ShrinkError::ProtocolError => "protocol_error"@,
    }
}

/// The human-readable message of each variant.
pub open spec fn error_message(e: ShrinkError) -> Seq<char> {
    match e {
        ShrinkError::InvalidImage(s) => "invalid image: "@ + s@,
        ShrinkError::UnsupportedFormat(s) => "unsupported image format: "@ + s@,
        ShrinkError::FileTooLarge { size } => "file too large: "@ + decimal(size as nat)
            + " bytes (TinyPNG limit is 5 MB)"@,
        ShrinkError::KeyExhausted => "TinyPNG API key exhausted"@,
        ShrinkError::KeyInvalid => "TinyPNG API key invalid"@,
        ShrinkError::NoKeysConfigured => "no TinyPNG API keys configured"@,
        ShrinkError::AllKeysExhausted => "all configured keys are exhausted or invalid"@,
        ShrinkError::NetworkTimeout => "network timeout"@,
        ShrinkError::ServerError(status) => "TinyPNG server error (HTTP "@ + decimal(
            status as nat,
        ) + ")"@,
        ShrinkError::IoError(s) => "I/O error: "@ + s@,
        ShrinkError::PermissionDenied(s) => "permission denied: "@ + s@,
        ShrinkError::MaxRetriesExceeded => "maximum retries exceeded"@,
        ShrinkError::ConfigParse(s) => "configuration error: "@ + s@,
        ShrinkError::BadArgument(s) => "argument error: "@ + s@,
        ShrinkError::ProtocolError => "protocol error (unexpected TinyPNG response)"@,
    }
}

/// Errors worth retrying with the same key.
pub open spec fn error_is_transient(e: ShrinkError) -> bool {
    e is NetworkTimeout || e is ServerError
}

/// Errors that mean the key itself is unusable.
pub open spec fn error_is_key_dead(e: ShrinkError) -> bool {
    e is KeyExhausted || e is KeyInvalid
}

fn text_after(prefix: &str, rest: &str) -> (s: String)
    ensures
        s@ == prefix@ + rest@,
{
    let mut s = String::from_str(prefix);
    s.append(rest);
    s
}

impl ShrinkError {
    /// A copy of the error.
    pub fn clone_error(&self) -> (c: ShrinkError)
        ensures
            c == *self,
    {
        match self {
            ShrinkError::InvalidImage(m) => ShrinkError::InvalidImage(m.clone()),
            ShrinkError::UnsupportedFormat(m) => ShrinkError::UnsupportedFormat(m.clone()),
            ShrinkError::FileTooLarge { size } => ShrinkError::FileTooLarge { size: *size },
            ShrinkError::KeyExhausted => ShrinkError::KeyExhausted,
            ShrinkError::KeyInvalid => ShrinkError::KeyInvalid,
            ShrinkError::NoKeysConfigured => ShrinkError::NoKeysConfigured,
            ShrinkError::AllKeysExhausted => ShrinkError::AllKeysExhausted,
            ShrinkError::NetworkTimeout => ShrinkError::NetworkTimeout,
            ShrinkError::ServerError(c) => ShrinkError::ServerError(*c),
            ShrinkError::IoError(m) => ShrinkError::IoError(m.clone()),
            ShrinkError::PermissionDenied(m) => ShrinkError::PermissionDenied(m.clone()),
            ShrinkError::MaxRetriesExceeded => ShrinkError::MaxRetriesExceeded,
            ShrinkError::ConfigParse(m) => ShrinkError::ConfigParse(m.clone()),
            ShrinkError::BadArgument(m) => ShrinkError::BadArgument(m.clone()),
            ShrinkError::ProtocolError => ShrinkError::ProtocolError,
        }
    }

    /// Stable snake_case code used in the NDJSON `error` field.
    pub fn code(&self) -> (c: &'static str)
        ensures
            c@ == error_code(*self),
    {
        match self {
            ShrinkError::InvalidImage(_) => "invalid_image",
            ShrinkError::UnsupportedFormat(_) => "unsupported_format",
            ShrinkError::FileTooLarge { .. } => "file_too_large",
            ShrinkError::KeyExhausted => "key_exhausted",
            ShrinkError::KeyInvalid => "key_invalid",
            ShrinkError::NoKeysConfigured => "no_keys_configured",
            ShrinkError::AllKeysExhausted => "all_keys_exhausted",
            ShrinkError::NetworkTimeout => "network_timeout",
            ShrinkError::ServerError(_) => "server_error",
            ShrinkError::IoError(_) => "io_error",
            ShrinkError::PermissionDenied(_) => "permission_denied",
            ShrinkError::MaxRetriesExceeded => "max_retries_exceeded",
            ShrinkError::ConfigParse(_) => "config_parse",
            ShrinkError::BadArgument(_) => "bad_argument",
            ShrinkError::ProtocolError => "protocol_error",
        }
    }

    /// Whether the error is retryable with the same key.
    pub fn is_transient(&self) -> (b: bool)
        ensures
            b == error_is_transient(*self),
    {
        match self {
            ShrinkError::NetworkTimeout | ShrinkError::ServerError(_) => true,
            _ => false,
        }
    }

    /// Whether the error indicates the current key is dead (should rotate).
    pub fn is_key_dead(&self) -> (b: bool)
        ensures
            b == error_is_key_dead(*self),
    {
        match self {
            ShrinkError::KeyExhausted | ShrinkError::KeyInvalid => true,
            _ => false,
        }
    }

    /// The human-readable message of the error.
    pub fn to_string(&self) -> (s: String)
        ensures
            s@ == error_message(*self),
    {
        match self {
            ShrinkError::InvalidImage(m) => text_after("invalid image: ", m.as_str()),
            ShrinkError::UnsupportedFormat(m) => text_after("unsupported image format: ", m.as_str()),
            ShrinkError::FileTooLarge { size } => {
                let mut s = String::from_str("file too large: ");
                push_decimal(&mut s, *size);
                s.append(" bytes (TinyPNG limit is 5 MB)");
                s
            },
            ShrinkError::KeyExhausted => String::from_str("TinyPNG API key exhausted"),
            ShrinkError::KeyInvalid => String::from_str("TinyPNG API key invalid"),
            ShrinkError::NoKeysConfigured => String::from_str("no TinyPNG API keys configured"),
            ShrinkError::AllKeysExhausted => String::from_str(
                "all configured keys are exhausted or invalid",
            ),
            ShrinkError::NetworkTimeout => String::from_str("network timeout"),
            ShrinkError::ServerError(status) => {
                let mut s = String::from_str("TinyPNG server error (HTTP ");
                push_decimal(&mut s, *status as u64);
                s.append(")");
                s
            },
            ShrinkError::IoError(m) => text_after("I/O error: ", m.as_str()),
            ShrinkError::PermissionDenied(m) => text_after("permission denied: ", m.as_str()),
            ShrinkError::MaxRetriesExceeded => String::from_str("maximum retries exceeded"),
            ShrinkError::ConfigParse(m) => text_after("configuration error: ", m.as_str()),
            ShrinkError::BadArgument(m) => text_after("argument error: ", m.as_str()),
            ShrinkError::ProtocolError => String::from_str(
                "protocol error (unexpected TinyPNG response)",
            ),
        }
    }

    /// The error an I/O failure maps to: a denied permission is reported as
    /// such, anything else as a generic I/O error carrying `detail`.
    pub fn from_io_failure(permission_denied: bool, detail: String) -> (e: ShrinkError)
        ensures
            permission_denied ==> e == ShrinkError::PermissionDenied(detail),
            !permission_denied ==> e == ShrinkError::IoError(detail),
    {
        if permission_denied {
            ShrinkError::PermissionDenied(detail)
        } else {
            ShrinkError::IoError(detail)
        }
    }

    /// The error an HTTP transport failure maps to: a timeout is reported as
    /// `NetworkTimeout`, anything else as an I/O error carrying `detail`.
    pub fn from_transport_failure(timed_out: bool, detail: String) -> (e: ShrinkError)
        ensures
            timed_out ==> e == ShrinkError::NetworkTimeout,
            !timed_out ==> e == ShrinkError::IoError(detail),
    {
        if timed_out {
            ShrinkError::NetworkTimeout
        } else {
            ShrinkError::IoError(detail)
        }
    }
}

/// An error as it appears in machine-readable output.
#[derive(Debug, Clone)]
pub struct SerializedError {
    pub code: String,
    pub message: String,
}

impl SerializedError {
    /// The serialized form of `e`: its stable code and its message.
    pub fn from_error(e: &ShrinkError) -> (s: SerializedError)
        ensures
            s.code@ == error_code(*e),
            s.message@ == error_message(*e),
    {
        SerializedError { code: String::from_str(e.code()), message: e.to_string() }
    }
}

/// The process exit code for an error that ends a command: 2 for a bad
/// argument, 3 for missing or unreadable configuration, 4 when nothing can
/// be compressed at all, 1 otherwise.
pub open spec fn error_exit_code(e: ShrinkError) -> i32 {
    match e {
        ShrinkError::BadArgument(_) => 2,
        ShrinkError::NoKeysConfigured | ShrinkError::ConfigParse(_) => 3,
        ShrinkError::AllKeysExhausted | ShrinkError::NetworkTimeout | ShrinkError::ServerError(
            _,
        ) => 4,
        _ => 1,
    }
}

/// Exit code for an error that ends a command.
pub fn exit_code_for_error(e: &ShrinkError) -> (code: i32)
    ensures
        code == error_exit_code(*e),
{
    match e {
        ShrinkError::BadArgument(_) => 2,
        ShrinkError::NoKeysConfigured | ShrinkError::ConfigParse(_) => 3,
        ShrinkError::AllKeysExhausted | ShrinkError::NetworkTimeout | ShrinkError::ServerError(
            _,
        ) => 4,
        _ => 1,
    }
}

} // verus!

verus! {

/// The guidance shown when no key is configured or the configuration
/// cannot be read.
pub open spec fn no_keys_guidance() -> Seq<char> {
    "\n✗ No TinyPNG API keys configured.\n\nTo use tinypng, you need a free TinyPNG API key:\n  1. Get one at https://tinypng.com/developers\n  2. Run: tinypng keys add <your-key>\n     or set: export TINIFY_KEY=<your-key>\n     or edit: ~/.config/tinypng/config.toml\n\nRun 'tinypng keys --help' for more options.\n"@
}

/// What is written to the error stream when `e` ends a command: the bare
/// message of a bad argument, the guidance on keys for missing keys or an
/// unreadable configuration, the error's message otherwise, each after
/// `error: ` except the guidance.
pub open spec fn error_report_text(e: ShrinkError) -> Seq<char> {
    match e {
        ShrinkError::BadArgument(m) => "error: "@ + m@ + "\n"@,
        ShrinkError::NoKeysConfigured | ShrinkError::ConfigParse(_) => no_keys_guidance(),
        _ => "error: "@ + error_message(e) + "\n"@,
    }
}

/// The text written to the error stream when `e` ends a command.
pub fn error_report(e: &ShrinkError) -> (t: String)
    ensures
        t@ == error_report_text(*e),
{
    match e {
        ShrinkError::BadArgument(m) => {
            let mut t = String::from_str("error: ");
            t.append(m.as_str());
            t.append("\n");
            t
        },
        ShrinkError::NoKeysConfigured | ShrinkError::ConfigParse(_) => String::from_str(
            "\n✗ No TinyPNG API keys configured.\n\nTo use tinypng, you need a free TinyPNG API key:\n  1. Get one at https://tinypng.com/developers\n  2. Run: tinypng keys add <your-key>\n     or set: export TINIFY_KEY=<your-key>\n     or edit: ~/.config/tinypng/config.toml\n\nRun 'tinypng keys --help' for more options.\n",
        ),
        _ => {
            let mut t = String::from_str("error: ");
            let m = e.to_string();
            t.append(m.as_str());
            t.append("\n");
            t
        },
    }
}

} // verus!

verus! {

/// The position of an error's variant in the declaration.
pub open spec fn variant_index(e: ShrinkError) -> int {
    match e {
        ShrinkError::InvalidImage(_) => 0,
        ShrinkError::UnsupportedFormat(_) => 1,
        ShrinkError::FileTooLarge { .. } => 2,
        ShrinkError::KeyExhausted => 3,
        ShrinkError::KeyInvalid => 4,
        ShrinkError::NoKeysConfigured => 5,
        ShrinkError::AllKeysExhausted => 6,
        ShrinkError::NetworkTimeout => 7,
        ShrinkError::ServerError(_) => 8,
        ShrinkError::IoError(_) => 9,
        ShrinkError::PermissionDenied(_) => 10,
        ShrinkError::MaxRetriesExceeded => 11,
        ShrinkError::ConfigParse(_) => 12,
        ShrinkError::BadArgument(_) => 13,
        ShrinkError::ProtocolError => 14,
    }
}

/// Stable codes: each kind of error has its own code, so two errors share
/// a code exactly when they are of the same kind.
pub proof fn law_codes_identify_kinds(a: ShrinkError, b: ShrinkError)
    ensures
        (error_code(a) == error_code(b)) <==> (variant_index(a) == variant_index(b)),
{
    reveal_strlit("invalid_image");
    reveal_strlit("unsupported_format");
    reveal_strlit("file_too_large");
    reveal_strlit("key_exhausted");
    reveal_strlit("key_invalid");
    reveal_strlit("no_keys_configured");
    reveal_strlit("all_keys_exhausted");
    reveal_strlit("network_timeout");
    reveal_strlit("server_error");
    reveal_strlit("io_error");
    reveal_strlit("permission_denied");
    reveal_strlit("max_retries_exceeded");
    reveal_strlit("config_parse");
    reveal_strlit("bad_argument");
    reveal_strlit("protocol_error");
    if variant_index(a) != variant_index(b) {
        let ca = error_code(a);
        let cb = error_code(b);
        if ca.len() == cb.len() {
            assert(ca[0] != cb[0] || ca[1] != cb[1] || ca[2] != cb[2] || ca[3] != cb[3] || ca[4] != cb[4] || ca[5] != cb[5]);
        }
    }
}

/// No error is both worth retrying with the same key and a sign that the
/// key is dead.
pub proof fn law_transient_and_dead_key_disjoint(e: ShrinkError)
    ensures
        !(error_is_transient(e) && error_is_key_dead(e)),
{
}

/// Every error ends a command with exit code 1, 2, 3 or 4, and 0 is never
/// used for one.
pub proof fn law_error_exit_codes(e: ShrinkError)
    ensures
        1 <= error_exit_code(e) <= 4,
{
}

} // verus!

verus! {

/// The stable error codes, in the order of the variants.
pub open spec fn stable_codes() -> Seq<Seq<char>> {
    seq![
        "invalid_image"@,
        "unsupported_format"@,
        "file_too_large"@,
        "key_exhausted"@,
        "key_invalid"@,
        "no_keys_configured"@,
        "all_keys_exhausted"@,
        "network_timeout"@,
        "server_error"@,
        "io_error"@,
        "permission_denied"@,
        "max_retries_exceeded"@,
        "config_parse"@,
        "bad_argument"@,
        "protocol_error"@,
    ]
}

pub open spec fn is_lower_ascii(c: char) -> bool {
    'a' <= c && c <= 'z'
}

/// From position `i` on, `s` continues words of lowercase ASCII letters,
/// an underscore always followed by a letter.
pub open spec fn snake_from(s: Seq<char>, i: int) -> bool
    decreases s.len() - i,
{
    if i < 0 || i >= s.len() {
        true
    } else if is_lower_ascii(s[i]) {
        snake_from(s, i + 1)
    } else {
        s[i] == '_' && i + 1 < s.len() && is_lower_ascii(s[i + 1]) && snake_from(s, i + 1)
    }
}

/// `s` matches `^[a-z]+(_[a-z]+)*$`: lowercase ASCII words joined by
/// single underscores.
pub open spec fn is_snake_case(s: Seq<char>) -> bool {
    s.len() > 0 && is_lower_ascii(s[0]) && snake_from(s, 1)
}

/// One error of each kind, the ones with a payload carrying `text`, `n`
/// and `size`, in the order of the variants.
pub open spec fn one_of_each(text: String, n: u16, size: u64) -> Seq<ShrinkError> {
    seq![
        ShrinkError::InvalidImage(text),
        ShrinkError::UnsupportedFormat(text),
        ShrinkError::FileTooLarge { size },
        ShrinkError::KeyExhausted,
        ShrinkError::KeyInvalid,
        ShrinkError::NoKeysConfigured,
        ShrinkError::AllKeysExhausted,
        ShrinkError::NetworkTimeout,
        ShrinkError::ServerError(n),
        ShrinkError::IoError(text),
        ShrinkError::PermissionDenied(text),
        ShrinkError::MaxRetriesExceeded,
        ShrinkError::ConfigParse(text),
        ShrinkError::BadArgument(text),
        ShrinkError::ProtocolError,
    ]
}

/// The codes are exactly the fifteen stable ones: every error's code is one
/// of them and is snake_case, the fifteen are pairwise distinct, and each is
/// the code of its kind whatever the payload.
pub proof fn law_codes_are_the_stable_set(e: ShrinkError, text: String, n: u16, size: u64)
    ensures
        stable_codes().len() == 15,
        stable_codes().contains(error_code(e)),
        is_snake_case(error_code(e)),
        forall|i: int| 0 <= i < 15 ==> error_code(#[trigger] one_of_each(text, n, size)[i]) == stable_codes()[i],
        forall|i: int, j: int| 0 <= i < j < 15 ==> stable_codes()[i] != stable_codes()[j],
{
    reveal_strlit("invalid_image");
    reveal_strlit("unsupported_format");
    reveal_strlit("file_too_large");
    reveal_strlit("key_exhausted");
    reveal_strlit("key_invalid");
    reveal_strlit("no_keys_configured");
    reveal_strlit("all_keys_exhausted");
    reveal_strlit("network_timeout");
    reveal_strlit("server_error");
    reveal_strlit("io_error");
    reveal_strlit("permission_denied");
    reveal_strlit("max_retries_exceeded");
    reveal_strlit("config_parse");
    reveal_strlit("bad_argument");
    reveal_strlit("protocol_error");
    reveal_with_fuel(snake_from, 22);
    let all = one_of_each(text, n, size);
    assert(error_code(e) == stable_codes()[variant_index(e)]);
    assert(stable_codes()[variant_index(e)] == error_code(e));
    assert(0 <= variant_index(e) < 15);
    assert forall|i: int| 0 <= i < 15 implies error_code(#[trigger] all[i]) == stable_codes()[i]
        && variant_index(all[i]) == i by {
    }
    assert forall|i: int, j: int| 0 <= i < j < 15 implies stable_codes()[i] != stable_codes()[j] by {
        assert(error_code(all[i]) == stable_codes()[i] && variant_index(all[i]) == i);
        assert(error_code(all[j]) == stable_codes()[j] && variant_index(all[j]) == j);
        law_codes_identify_kinds(all[i], all[j]);
    }
}

} // verus!
