//! Facts shared by the output formats: the build flavour, what is
//! reported of each file's result, and how byte counts are shown to
//! people.
use vstd::prelude::*;
use vstd::string::StringExecFns;

use crate::runner::CompressResult;
use crate::size::{nearest_double, nearest_double_of};
use crate::text::{decimal, digit_char, push_decimal};

verus! {

/// The build flavour reported at the start of a run.
pub fn build() -> (b: &'static str)
    ensures
        b@ == "internal"@,
{
    "internal"
}

/// `x / d` rounded to the nearest whole number, ties to even.
pub open spec fn round_half_even(x: nat, d: nat) -> nat {
    let q = x / d;
    let r = x % d;
    if 2 * r > d || (2 * r == d && q % 2 == 1) {
        q + 1
    } else {
        q
    }
}

/// `t` tenths, written with one decimal.
pub open spec fn tenths_text(t: nat) -> Seq<char> {
    decimal(t / 10) + seq!['.', digit_char(t % 10)]
}

/// `t` hundredths, written with two decimals.
pub open spec fn hundredths_text(t: nat) -> Seq<char> {
    decimal(t / 100) + seq!['.', digit_char((t / 10) % 10), digit_char(t % 10)]
}

/// How `n` bytes are shown: in GB with two decimals from 2^30 bytes on, in
/// MB with two decimals from 2^20, in KB with one decimal from 2^10, and
/// as a plain count of bytes below that. The quotient is that of `n as
/// f64` by the unit, rounded to the decimals shown with ties to even, as
/// the `{:.2}` and `{:.1}` formats of a double do.
pub open spec fn bytes_text(n: u64) -> Seq<char> {
    if n >= 0x4000_0000 {
        hundredths_text(round_half_even(nearest_double(n as nat) * 100, 0x4000_0000)) + " GB"@
    } else if n >= 0x10_0000 {
        hundredths_text(round_half_even(n as nat * 100, 0x10_0000)) + " MB"@
    } else if n >= 1024 {
        tenths_text(round_half_even(n as nat * 10, 1024)) + " KB"@
    } else {
        decimal(n as nat) + " B"@
    }
}

fn rounded_quotient(x: u128, d: u128) -> (q: u128)
    requires
        1 <= d <= 0x4000_0000,
        x <= 0x1_0000_0000_0000_0000_0000,
    ensures
        q == round_half_even(x as nat, d as nat),
{
    let q = x / d;
    let r = x % d;
    if 2 * r > d || (2 * r == d && q % 2 == 1) {
        q + 1
    } else {
        q
    }
}

/// Appends `t` tenths with one decimal, then `unit`.
fn push_tenths(t: u64, unit: &str) -> (s: String)
    ensures
        s@ == tenths_text(t as nat) + unit@,
{
    let mut s = String::new();
    push_decimal(&mut s, t / 10);
    s.push('.');
    push_decimal(&mut s, t % 10);
    s.append(unit);
    proof {
        assert(decimal((t % 10) as nat) == seq![digit_char((t % 10) as nat)]);
        assert(s@ =~= tenths_text(t as nat) + unit@);
    }
    s
}

/// Appends `t` hundredths with two decimals, then `unit`.
fn push_hundredths(t: u64, unit: &str) -> (s: String)
    ensures
        s@ == hundredths_text(t as nat) + unit@,
{
    let mut s = String::new();
    push_decimal(&mut s, t / 100);
    s.push('.');
    push_decimal(&mut s, (t / 10) % 10);
    push_decimal(&mut s, t % 10);
    s.append(unit);
    proof {
        assert(decimal(((t / 10) % 10) as nat) == seq![digit_char(((t / 10) % 10) as nat)]);
        assert(decimal((t % 10) as nat) == seq![digit_char((t % 10) as nat)]);
        assert(s@ =~= hundredths_text(t as nat) + unit@);
    }
    s
}

/// How `n` bytes are shown to people.
pub fn format_bytes(n: u64) -> (s: String)
    ensures
        s@ == bytes_text(n),
{
    if n >= 0x4000_0000 {
        let v = nearest_double_of(n);
        let t = rounded_quotient(v * 100, 0x4000_0000);
        proof {
            assert(t <= (v * 100) / 0x4000_0000 + 1);
            assert((v * 100) / 0x4000_0000 <= 0x1_0000_0000_0000_0000);
        }
        push_hundredths(t as u64, " GB")
    } else if n >= 0x10_0000 {
        let t = rounded_quotient(n as u128 * 100, 0x10_0000);
        proof {
            assert(t <= (n as nat * 100) / 0x10_0000 + 1);
        }
        push_hundredths(t as u64, " MB")
    } else if n >= 1024 {
        let t = rounded_quotient(n as u128 * 10, 1024);
        proof {
            assert(t <= (n as nat * 10) / 1024 + 1);
        }
        push_tenths(t as u64, " KB")
    } else {
        let mut s = String::new();
        push_decimal(&mut s, n);
        s.append(" B");
        proof {
            assert(s@ =~= decimal(n as nat) + " B"@);
        }
        s
    }
}

/// What is reported of one file's result, besides the compression ratio
/// and the time of the report.
#[derive(Debug, Clone)]
pub enum FileReport {
    Success {
        uuid: String,
        path: String,
        original_size: u64,
        compressed_size: u64,
        saved_bytes: u64,
        output_path: String,
        key_hash: String,
        duration_ms: u64,
    },
    Fail {
        uuid: String,
        path: String,
        original_size: u64,
        error: String,
        error_message: String,
        attempted_keys: Vec<String>,
        duration_ms: u64,
    },
}

/// `f` reports the result `r`: a success with the bytes saved (none when
/// the compressed file is the larger), or a failure with the stable code
/// and message of its error and the hashes of the keys tried.
pub open spec fn reports(f: FileReport, r: CompressResult) -> bool {
    match r {
        CompressResult::Success { task, compressed_size, output_path, key_hash, duration_ms } => {
            &&& f matches FileReport::Success {
                uuid: u,
                path: p,
                original_size: o,
                compressed_size: c,
                saved_bytes: s,
                output_path: out,
                key_hash: h,
                duration_ms: d,
            }
            &&& u == task.uuid && p == task.path && o == task.original_size
            &&& c == compressed_size && out == output_path && h == key_hash && d == duration_ms
            &&& s == if task.original_size >= compressed_size {
                (task.original_size - compressed_size) as u64
            } else {
                0
            }
        },
        CompressResult::Failure { task, error, attempted_keys, duration_ms } => {
            &&& f matches FileReport::Fail {
                uuid: u,
                path: p,
                original_size: o,
                error: e,
                error_message: m,
                attempted_keys: k,
                duration_ms: d,
            }
            &&& u == task.uuid && p == task.path && o == task.original_size
            &&& e == error.code && m == error.message && k@ == attempted_keys@ && d == duration_ms
        },
    }
}

fn copy_texts(v: &Vec<String>) -> (c: Vec<String>)
    ensures
        c@ == v@,
{
    let mut c: Vec<String> = Vec::new();
    let mut i: usize = 0;
    while i < v.len()
        invariant
            i <= v@.len(),
            c@ == v@.take(i as int),
        decreases v@.len() - i,
    {
        c.push(v[i].clone());
        proof {
            assert(v@.take(i + 1) =~= v@.take(i as int).push(v@[i as int]));
        }
        i = i + 1;
    }
    proof {
        assert(v@.take(v@.len() as int) =~= v@);
    }
    c
}

/// The report of the result `r`.
pub fn file_report(r: &CompressResult) -> (f: FileReport)
    ensures
        reports(f, *r),
{
    match r {
        CompressResult::Success { task, compressed_size, output_path, key_hash, duration_ms } => {
            FileReport::Success {
                uuid: task.uuid.clone(),
                path: task.path.clone(),
                original_size: task.original_size,
                compressed_size: *compressed_size,
                saved_bytes: task.original_size.saturating_sub(*compressed_size),
                output_path: output_path.clone(),
                key_hash: key_hash.clone(),
                duration_ms: *duration_ms,
            }
        },
        CompressResult::Failure { task, error, attempted_keys, duration_ms } => FileReport::Fail {
            uuid: task.uuid.clone(),
            path: task.path.clone(),
            original_size: task.original_size,
            error: error.code.clone(),
            error_message: error.message.clone(),
            attempted_keys: copy_texts(attempted_keys),
            duration_ms: *duration_ms,
        },
    }
}

} // verus!
