//! The decisions of one exchange with the compression service: what may
//! be uploaded, where, and what each reply means.
use vstd::prelude::*;
use vstd::string::StringExecFns;

use crate::error::ShrinkError;
use crate::text::chars_of;

verus! {

/// The compressed bytes of a file.
#[derive(Debug)]
pub enum CompressOutcome {
    Compressed(Vec<u8>),
}

/// The service used when no other base URL is configured.
pub const DEFAULT_API_BASE: &'static str = "https://api.tinify.com";

/// The largest upload the service accepts, in bytes (5 MiB).
pub const MAX_UPLOAD_BYTES: usize = 5 * 1024 * 1024;

/// The base URL in force: `configured` when given, else the default.
pub fn api_base_from(configured: Option<String>) -> (b: String)
    ensures
        match configured {
            Some(c) => b == c,
            None => b@ == DEFAULT_API_BASE@,
        },
{
    match configured {
        Some(c) => c,
        None => String::from_str(DEFAULT_API_BASE),
    }
}

/// Refuses an upload of more than `MAX_UPLOAD_BYTES` bytes.
pub fn check_upload_size(len: usize) -> (r: Result<(), ShrinkError>)
    ensures
        len <= MAX_UPLOAD_BYTES ==> r is Ok,
        len > MAX_UPLOAD_BYTES ==> r == Err::<(), ShrinkError>(ShrinkError::FileTooLarge { size: len as u64 }),
{
    if len > MAX_UPLOAD_BYTES {
        Err(ShrinkError::FileTooLarge { size: len as u64 })
    } else {
        Ok(())
    }
}

/// `s` without its trailing `c` characters.
pub open spec fn trim_trailing(s: Seq<char>, c: char) -> Seq<char>
    decreases s.len(),
{
    if s.len() > 0 && s.last() == c {
        trim_trailing(s.drop_last(), c)
    } else {
        s
    }
}

/// The upload endpoint under `base`: `base` without trailing slashes,
/// followed by `/shrink`.
pub fn shrink_url(base: &str) -> (u: String)
    ensures
        u@ == trim_trailing(base@, '/') + "/shrink"@,
{
    let v = chars_of(base);
    let mut end = v.len();
    proof {
        assert(v@.take(end as int) =~= v@);
    }
    while end > 0 && v[end - 1] == '/'
        invariant
            end <= v@.len(),
            v@ == base@,
            trim_trailing(base@, '/') == trim_trailing(v@.take(end as int), '/'),
        decreases end,
    {
        proof {
            assert(v@.take(end as int).drop_last() =~= v@.take(end - 1));
        }
        end = end - 1;
    }
    let mut u = crate::text::string_of_range(&v, 0, end);
    proof {
        assert(v@.subrange(0, end as int) =~= v@.take(end as int));
    }
    u.append("/shrink");
    u
}

/// `r` is what the reply to an upload means: the location of the
/// compressed file (status 201, which must name it), or the error the
/// status stands for: 400 an invalid image, 401 an invalid key, 415 an
/// unsupported format, 429 an exhausted key, 5xx a server error, anything
/// else a protocol error.
pub open spec fn upload_reply_is(
    r: Result<String, ShrinkError>,
    status: u16,
    location: Option<Seq<char>>,
) -> bool {
    if status == 201 {
        match location {
            Some(l) => r matches Ok(s) && s@ == l,
            None => r == Err::<String, ShrinkError>(ShrinkError::ProtocolError),
        }
    } else if status == 400 {
        r matches Err(ShrinkError::InvalidImage(m)) && m@ == "HTTP 400"@
    } else if status == 401 {
        r == Err::<String, ShrinkError>(ShrinkError::KeyInvalid)
    } else if status == 415 {
        r matches Err(ShrinkError::UnsupportedFormat(m)) && m@ == "HTTP 415"@
    } else if status == 429 {
        r == Err::<String, ShrinkError>(ShrinkError::KeyExhausted)
    } else if 500 <= status <= 599 {
        r == Err::<String, ShrinkError>(ShrinkError::ServerError(status))
    } else {
        r == Err::<String, ShrinkError>(ShrinkError::ProtocolError)
    }
}

/// What the reply to an upload means; `location` is the reply's
/// `location` header when it has a readable one.
pub fn upload_reply(status: u16, location: Option<String>) -> (r: Result<String, ShrinkError>)
    ensures
        upload_reply_is(
            r,
            status,
            match location {
                Some(l) => Some(l@),
                None => None,
            },
        ),
{
    if status == 201 {
        match location {
            Some(l) => Ok(l),
            None => Err(ShrinkError::ProtocolError),
        }
    } else if status == 400 {
        Err(ShrinkError::InvalidImage(String::from_str("HTTP 400")))
    } else if status == 401 {
        Err(ShrinkError::KeyInvalid)
    } else if status == 415 {
        Err(ShrinkError::UnsupportedFormat(String::from_str("HTTP 415")))
    } else if status == 429 {
        Err(ShrinkError::KeyExhausted)
    } else if 500 <= status && status <= 599 {
        Err(ShrinkError::ServerError(status))
    } else {
        Err(ShrinkError::ProtocolError)
    }
}

/// What the reply to the download of the compressed file means: its body
/// when the status is a success, a protocol error otherwise.
pub fn download_reply(success: bool, body: Vec<u8>) -> (r: Result<CompressOutcome, ShrinkError>)
    ensures
        success ==> r == Ok::<CompressOutcome, ShrinkError>(CompressOutcome::Compressed(body)),
        !success ==> r == Err::<CompressOutcome, ShrinkError>(ShrinkError::ProtocolError),
{
    if success {
        Ok(CompressOutcome::Compressed(body))
    } else {
        Err(ShrinkError::ProtocolError)
    }
}

} // verus!

verus! {

/// How the service's refusals steer the rotation of keys: 401 and 429
/// mean the key is dead, 5xx is worth retrying, 400 and 415 mean the
/// file itself is bad, and any other status besides 201 is a protocol
/// error that fails the file.
pub proof fn law_upload_status_classification(
    r: Result<String, ShrinkError>,
    status: u16,
    location: Option<Seq<char>>,
)
    requires
        upload_reply_is(r, status, location),
    ensures
        (status == 401 || status == 429) ==> (r matches Err(e) && crate::error::error_is_key_dead(e)),
        500 <= status <= 599 ==> (r matches Err(e) && crate::error::error_is_transient(e)),
        (status == 400 || status == 415) ==> (r matches Err(e) && crate::runner::error_is_fatal_for_file(e)),
        status == 201 ==> (r is Ok <==> location is Some),
{
}

} // verus!
