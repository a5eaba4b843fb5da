//! The decisions of the `keys` subcommand: counting keys by source,
//! reading the service's answers to probes, and editing the configured
//! key list.
use vstd::prelude::*;
use vstd::string::{StringExecFns, StringSliceAdditionalSpecFns};

use crate::keys::{hash_key, key_hash_text, Key, KeySource};
use crate::size::{digits_between, digits_value, is_digit_char};
use crate::text::{chars_of, has_prefix, same_text, starts_with, text_in};

verus! {

/// The counts `keys list` shows, and its exit code.
#[derive(Debug, Clone, Copy)]
pub struct KeyListing {
    pub env: usize,
    pub config: usize,
    pub total: usize,
    pub exit_code: i32,
}

/// The number of keys in `keys` that come from `source`.
pub open spec fn count_source(keys: Seq<Key>, source: KeySource) -> nat
    decreases keys.len(),
{
    if keys.len() == 0 {
        0
    } else {
        count_source(keys.drop_last(), source) + if keys.last().source == source {
            1nat
        } else {
            0nat
        }
    }
}

/// The listing of `keys`: how many come from each source, how many in
/// all, and the exit code (3 when there is none).
pub fn key_listing(keys: &[Key]) -> (l: KeyListing)
    ensures
        l.env == count_source(keys@, KeySource::Env),
        l.config == count_source(keys@, KeySource::Config),
        l.total == keys@.len(),
        l.env + l.config == l.total,
        l.exit_code == if keys@.len() == 0 {
            3i32
        } else {
            0i32
        },
{
    let mut env: usize = 0;
    let mut config: usize = 0;
    let mut i: usize = 0;
    while i < keys.len()
        invariant
            i <= keys@.len(),
            env == count_source(keys@.take(i as int), KeySource::Env),
            config == count_source(keys@.take(i as int), KeySource::Config),
            env + config == i,
        decreases keys@.len() - i,
    {
        proof {
            assert(keys@.take(i + 1).drop_last() =~= keys@.take(i as int));
        }
        match keys[i].source {
            KeySource::Env => env = env + 1,
            KeySource::Config => config = config + 1,
        }
        i = i + 1;
    }
    proof {
        assert(keys@.take(keys@.len() as int) =~= keys@);
    }
    KeyListing { env, config, total: keys.len(), exit_code: if keys.len() == 0 { 3 } else { 0 } }
}

/// The health of a key as a probe reports it.
#[derive(Debug, Clone, Copy, PartialEq, Eq, Structural)]
pub enum ProbeStatus {
    Alive,
    Invalid,
    Exhausted,
    Unknown,
    NetworkError,
}

/// What the status of the reply to an empty upload says of the key: 400
/// (the empty body was refused, so the key was accepted) means alive, 401
/// invalid, 429 exhausted, anything else unknown.
pub open spec fn probe_status_of(status: u16) -> ProbeStatus {
    if status == 400 {
        ProbeStatus::Alive
    } else if status == 401 {
        ProbeStatus::Invalid
    } else if status == 429 {
        ProbeStatus::Exhausted
    } else {
        ProbeStatus::Unknown
    }
}

pub fn probe_status(status: u16) -> (s: ProbeStatus)
    ensures
        s == probe_status_of(status),
{
    if status == 400 {
        ProbeStatus::Alive
    } else if status == 401 {
        ProbeStatus::Invalid
    } else if status == 429 {
        ProbeStatus::Exhausted
    } else {
        ProbeStatus::Unknown
    }
}

impl ProbeStatus {
    /// The word under which the status is shown.
    pub fn as_str(&self) -> (s: &'static str)
        ensures
            s@ == match *self {
                ProbeStatus::Alive => "ok"@,
                ProbeStatus::Invalid => "invalid"@,
                ProbeStatus::Exhausted => "exhausted"@,
                ProbeStatus::Unknown => "unknown"@,
                ProbeStatus::NetworkError => "network_error"@,
            },
    {
        match self {
            ProbeStatus::Alive => "ok",
            ProbeStatus::Invalid => "invalid",
            ProbeStatus::Exhausted => "exhausted",
            ProbeStatus::Unknown => "unknown",
            ProbeStatus::NetworkError => "network_error",
        }
    }
}

/// The monthly quota of a free key.
pub const FREE_MONTHLY_QUOTA: u32 = 500;

/// The compressions left this month after `used` ones, when the count is
/// known (never below zero).
pub fn remaining_quota(used: Option<u32>) -> (r: Option<u32>)
    ensures
        match used {
            Some(u) => r == Some(if u >= 500 { 0u32 } else { (500 - u) as u32 }),
            None => r is None,
        },
{
    match used {
        Some(u) => Some(FREE_MONTHLY_QUOTA.saturating_sub(u)),
        None => None,
    }
}

/// The value of `s` read as an unsigned integer no larger than `max`, as
/// `str::parse` reads one: an optional `+` and at least one decimal digit.
pub open spec fn unsigned_text(s: Seq<char>, max: nat) -> Option<nat> {
    let start: int = if s.len() > 0 && s[0] == '+' {
        1
    } else {
        0
    };
    if start < s.len() && (forall|i: int| start <= i < s.len() ==> is_digit_char(#[trigger] s[i]))
        && digits_value(digits_between(s, start, s.len() as int)) <= max {
        Some(digits_value(digits_between(s, start, s.len() as int)))
    } else {
        None
    }
}

/// Reads `s` as an unsigned integer no larger than `max`.
pub fn parse_unsigned(s: &str, max: u64) -> (r: Option<u64>)
    ensures
        match unsigned_text(s@, max as nat) {
            Some(v) => r == Some(v as u64),
            None => r is None,
        },
{
    let v = chars_of(s);
    let n = v.len();
    let start: usize = if n > 0 && v[0] == '+' {
        1
    } else {
        0
    };
    if start >= n {
        return None;
    }
    let mut acc: u64 = 0;
    let mut i = start;
    proof {
        assert(digits_between(v@, start as int, start as int) =~= Seq::<u8>::empty());
    }
    while i < n
        invariant
            start <= i <= n == v@.len(),
            v@ == s@,
            start < n,
            start == (if v@.len() > 0 && v@[0] == '+' {
                1int
            } else {
                0int
            }),
            forall|k: int| start <= k < i ==> is_digit_char(#[trigger] v@[k]),
            acc == digits_value(digits_between(v@, start as int, i as int)),
            acc <= max,
        decreases n - i,
    {
        let c = v[i];
        if !('0' <= c && c <= '9') {
            proof {
                assert(!is_digit_char(s@[i as int]));
            }
            return None;
        }
        let d = ((c as u32) - ('0' as u32)) as u64;
        proof {
            let prev = digits_between(v@, start as int, i as int);
            let next = digits_between(v@, start as int, i + 1);
            assert(next.drop_last() =~= prev);
            assert(next.last() == crate::size::digit_value_of(v@[i as int]));
        }
        let next: u128 = (acc as u128) * 10 + (d as u128);
        if next > max as u128 {
            proof {
                let next_digits = digits_between(v@, start as int, i + 1);
                assert(digits_value(next_digits) == digits_value(next_digits.drop_last()) * 10
                    + next_digits.last() as nat);
                assert(digits_value(next_digits) == next);
                if forall|k: int| start <= k < n ==> is_digit_char(#[trigger] v@[k]) {
                    lemma_digits_prefix_grows(v@, start as int, i + 1, n as int);
                }
            }
            return None;
        }
        acc = next as u64;
        i = i + 1;
    }
    Some(acc)
}

proof fn lemma_digits_prefix_grows(s: Seq<char>, start: int, j: int, n: int)
    requires
        0 <= start <= j <= n == s.len(),
    ensures
        digits_value(digits_between(s, start, j)) <= digits_value(digits_between(s, start, n)),
{
    assert(digits_between(s, start, n) =~= digits_between(s, start, j) + digits_between(s, j, n));
    crate::size::lemma_digits_value_concat(digits_between(s, start, j), digits_between(s, j, n));
    crate::size::lemma_pow10_positive(digits_between(s, j, n).len());
    let a = digits_value(digits_between(s, start, j));
    let p = crate::size::pow10(digits_between(s, j, n).len());
    assert(a * p >= a) by (nonlinear_arith)
        requires
            p >= 1,
    ;
}

/// The probes' verdicts counted, and the exit code of `keys test`.
#[derive(Debug, Clone, Copy)]
pub struct ProbeTally {
    pub alive: usize,
    pub exhausted: usize,
    pub invalid: usize,
    pub total: usize,
    pub exit_code: i32,
}

/// The number of probes in `statuses` with verdict `s`.
pub open spec fn count_probe(statuses: Seq<ProbeStatus>, s: ProbeStatus) -> nat
    decreases statuses.len(),
{
    if statuses.len() == 0 {
        0
    } else {
        count_probe(statuses.drop_last(), s) + if statuses.last() == s {
            1nat
        } else {
            0nat
        }
    }
}

proof fn lemma_count_probe_bounded(statuses: Seq<ProbeStatus>)
    ensures
        count_probe(statuses, ProbeStatus::Alive) + count_probe(statuses, ProbeStatus::Exhausted)
            + count_probe(statuses, ProbeStatus::Invalid) <= statuses.len(),
    decreases statuses.len(),
{
    if statuses.len() > 0 {
        lemma_count_probe_bounded(statuses.drop_last());
    }
}

/// Counts the verdicts of the probes of `total` keys; the exit code is 4
/// when no key is alive, 0 otherwise.
pub fn probe_tally(statuses: &[ProbeStatus], total: usize) -> (t: ProbeTally)
    ensures
        t.alive == count_probe(statuses@, ProbeStatus::Alive),
        t.exhausted == count_probe(statuses@, ProbeStatus::Exhausted),
        t.invalid == count_probe(statuses@, ProbeStatus::Invalid),
        t.total == total,
        t.exit_code == if t.alive == 0 {
            4i32
        } else {
            0i32
        },
{
    let mut alive: usize = 0;
    let mut exhausted: usize = 0;
    let mut invalid: usize = 0;
    let mut i: usize = 0;
    while i < statuses.len()
        invariant
            i <= statuses@.len(),
            alive == count_probe(statuses@.take(i as int), ProbeStatus::Alive),
            exhausted == count_probe(statuses@.take(i as int), ProbeStatus::Exhausted),
            invalid == count_probe(statuses@.take(i as int), ProbeStatus::Invalid),
            alive + exhausted + invalid <= i,
        decreases statuses@.len() - i,
    {
        proof {
            assert(statuses@.take(i + 1).drop_last() =~= statuses@.take(i as int));
        }
        match statuses[i] {
            ProbeStatus::Alive => alive = alive + 1,
            ProbeStatus::Exhausted => exhausted = exhausted + 1,
            ProbeStatus::Invalid => invalid = invalid + 1,
            _ => {},
        }
        i = i + 1;
    }
    proof {
        assert(statuses@.take(statuses@.len() as int) =~= statuses@);
    }
    ProbeTally { alive, exhausted, invalid, total, exit_code: if alive == 0 { 4 } else { 0 } }
}

pub open spec fn is_ascii_alphanumeric(c: char) -> bool {
    ('0' <= c && c <= '9') || ('a' <= c && c <= 'z') || ('A' <= c && c <= 'Z')
}

/// Whether `key` has the shape of a TinyPNG key: 32 bytes, all of them
/// ASCII letters or digits.
pub fn looks_like_key(key: &str) -> (b: bool)
    ensures
        b == (key.len() == 32 && forall|i: int|
            0 <= i < key@.len() ==> is_ascii_alphanumeric(#[trigger] key@[i])),
{
    if key.len() != 32 {
        return false;
    }
    let v = chars_of(key);
    let mut i: usize = 0;
    while i < v.len()
        invariant
            i <= v@.len(),
            v@ == key@,
            key.len() == 32,
            forall|k: int| 0 <= k < i ==> is_ascii_alphanumeric(#[trigger] v@[k]),
        decreases v@.len() - i,
    {
        let c = v[i];
        if !(('0' <= c && c <= '9') || ('a' <= c && c <= 'z') || ('A' <= c && c <= 'Z')) {
            return false;
        }
        i = i + 1;
    }
    true
}

/// The part of `key` shown in the warning about its shape: its first eight
/// characters, or all of it when it is shorter.
pub fn key_preview(key: &str) -> (p: String)
    ensures
        p@ == key@.take(if key@.len() < 8 { key@.len() as int } else { 8 }),
{
    let v = chars_of(key);
    let end: usize = if v.len() < 8 {
        v.len()
    } else {
        8
    };
    let p = crate::text::string_of_range(&v, 0, end);
    proof {
        assert(v@.subrange(0, end as int) =~= key@.take(end as int));
    }
    p
}

/// Appends `key` to the configured keys unless it is already there;
/// returns whether it was added.
pub fn add_key(values: &mut Vec<String>, key: &str) -> (added: bool)
    ensures
        added == !text_in(old(values)@, key@),
        added ==> final(values)@.len() == old(values)@.len() + 1 && final(values)@.drop_last()
            == old(values)@ && final(values)@.last()@ == key@,
        !added ==> final(values)@ == old(values)@,
{
    if crate::text::contains_text(values, key) {
        return false;
    }
    values.push(String::from_str(key));
    proof {
        assert(values@.drop_last() =~= old(values)@);
    }
    true
}

/// Whether `remove` with `identifier` removes the key `value`: the key
/// itself, or a key whose shown hash starts with an identifier of at
/// least 4 bytes.
pub open spec fn removes(identifier: &str, value: Seq<char>) -> bool {
    value == identifier@ || (identifier.len() >= 4 && has_prefix(
        key_hash_text(value),
        identifier@,
    ))
}

/// The keys that `remove` with `identifier` keeps, in order.
pub open spec fn kept_keys(values: Seq<String>, identifier: &str) -> Seq<String>
    decreases values.len(),
{
    if values.len() == 0 {
        Seq::empty()
    } else {
        let rest = kept_keys(values.drop_last(), identifier);
        if removes(identifier, values.last()@) {
            rest
        } else {
            rest.push(values.last())
        }
    }
}

/// Removes the configured keys that `identifier` names; returns how many
/// were removed.
pub fn remove_keys(values: &mut Vec<String>, identifier: &str) -> (removed: usize)
    ensures
        final(values)@ == kept_keys(old(values)@, identifier),
        removed == old(values)@.len() - final(values)@.len(),
        forall|i: int|
            0 <= i < old(values)@.len() && old(values)@[i]@ != identifier@ && !(identifier.len() >= 4
                && has_prefix(key_hash_text(#[trigger] old(values)@[i]@), identifier@)) ==> text_in(
                final(values)@,
                old(values)@[i]@,
            ),
        forall|j: int|
            0 <= j < final(values)@.len() ==> #[trigger] final(values)@[j]@ != identifier@ && !(
            identifier.len() >= 4 && has_prefix(key_hash_text(final(values)@[j]@), identifier@)),
{
    let long_enough = identifier.len() >= 4;
    let mut kept: Vec<String> = Vec::new();
    let mut i: usize = 0;
    let ghost all = values@;
    while i < values.len()
        invariant
            i <= values@.len(),
            values@ == all,
            kept@ == kept_keys(all.take(i as int), identifier),
            kept@.len() <= i,
            long_enough == (identifier.len() >= 4),
        decreases values@.len() - i,
    {
        proof {
            assert(all.take(i + 1).drop_last() =~= all.take(i as int));
        }
        let v = &values[i];
        let matched = if same_text(v.as_str(), identifier) {
            true
        } else {
            let h = hash_key(v.as_str());
            long_enough && starts_with(h.as_str(), identifier)
        };
        if !matched {
            kept.push(v.clone());
        }
        i = i + 1;
    }
    proof {
        assert(all.take(all.len() as int) =~= all);
    }
    proof {
        law_remove_drops_only_named_keys(all, identifier);
    }
    let removed = values.len() - kept.len();
    *values = kept;
    removed
}

/// The exit code of `keys remove`: 1 when nothing was removed.
pub fn remove_exit_code(removed: usize) -> (c: i32)
    ensures
        c == if removed == 0 {
            1i32
        } else {
            0i32
        },
{
    if removed == 0 {
        1
    } else {
        0
    }
}

} // verus!

verus! {

/// Adding a key twice stores it once: after the first add the key is
/// present, and the second add reports that nothing was added and leaves
/// the list as the first left it, at most one entry longer than before.
/// `added1` and `added2` are what the two calls of [`add_key`] returned,
/// and the lists are the ones they left, as its contract describes them.
pub proof fn law_add_key_idempotent(
    before: Seq<String>,
    middle: Seq<String>,
    after: Seq<String>,
    key: Seq<char>,
    added1: bool,
    added2: bool,
)
    requires
        added1 == !text_in(before, key),
        added1 ==> middle.len() == before.len() + 1 && middle.drop_last() == before
            && middle.last()@ == key,
        !added1 ==> middle == before,
        added2 == !text_in(middle, key),
        added2 ==> after.len() == middle.len() + 1 && after.drop_last() == middle
            && after.last()@ == key,
        !added2 ==> after == middle,
    ensures
        text_in(middle, key),
        !added2,
        after == middle,
        after.len() <= before.len() + 1,
{
    if added1 {
        assert(middle[middle.len() - 1]@ == key);
    }
}

/// `remove` drops exactly the keys the identifier names: a key stays unless
/// its value is the identifier or its shown hash starts with an identifier
/// of at least 4 bytes, and no key left is named by it.
pub proof fn law_remove_drops_only_named_keys(values: Seq<String>, identifier: &str)
    ensures
        forall|i: int|
            0 <= i < values.len() && values[i]@ != identifier@ && !(identifier.len() >= 4 && has_prefix(
                key_hash_text(#[trigger] values[i]@),
                identifier@,
            )) ==> text_in(kept_keys(values, identifier), values[i]@),
        forall|j: int|
            0 <= j < kept_keys(values, identifier).len() ==> #[trigger] kept_keys(values, identifier)[j]@
                != identifier@ && !(identifier.len() >= 4 && has_prefix(
                key_hash_text(kept_keys(values, identifier)[j]@),
                identifier@,
            )),
    decreases values.len(),
{
    if values.len() > 0 {
        let p = values.drop_last();
        law_remove_drops_only_named_keys(p, identifier);
        let kp = kept_keys(p, identifier);
        let k = kept_keys(values, identifier);
        assert forall|i: int|
            0 <= i < values.len() && values[i]@ != identifier@ && !(identifier.len() >= 4 && has_prefix(
                key_hash_text(#[trigger] values[i]@),
                identifier@,
            )) implies text_in(k, values[i]@) by {
            if i < p.len() {
                assert(p[i] == values[i]);
                assert(text_in(kp, p[i]@));
                let j = choose|j: int| 0 <= j < kp.len() && #[trigger] kp[j]@ == p[i]@;
                assert(k[j] == kp[j]);
            } else {
                assert(values.last() == values[i]);
                assert(k[k.len() - 1] == values[i]);
            }
        }
        assert forall|j: int| 0 <= j < k.len() implies #[trigger] k[j]@ != identifier@ && !(
            identifier.len() >= 4 && has_prefix(key_hash_text(k[j]@), identifier@)) by {
            if j < kp.len() {
                assert(k[j] == kp[j]);
            }
        }
    }
}

/// Removing by value leaves no key with that value, and every key kept
/// was in the list before.
pub proof fn law_removed_key_is_gone(values: Seq<String>, identifier: &str)
    ensures
        !text_in(kept_keys(values, identifier), identifier@),
        forall|i: int|
            0 <= i < kept_keys(values, identifier).len() ==> text_in(values, #[trigger] kept_keys(
                values,
                identifier,
            )[i]@),
    decreases values.len(),
{
    if values.len() > 0 {
        let p = values.drop_last();
        law_removed_key_is_gone(p, identifier);
        let kp = kept_keys(p, identifier);
        let k = kept_keys(values, identifier);
        assert forall|i: int| 0 <= i < k.len() implies text_in(values, #[trigger] k[i]@) by {
            if i < kp.len() {
                assert(k[i] == kp[i]);
                let j = choose|j: int| 0 <= j < p.len() && #[trigger] p[j]@ == kp[i]@;
                assert(values[j] == p[j]);
            } else {
                assert(values[values.len() - 1]@ == k[i]@);
            }
        }
        if text_in(k, identifier@) {
            let j = choose|j: int| 0 <= j < k.len() && #[trigger] k[j]@ == identifier@;
            if j < kp.len() {
                assert(k[j] == kp[j]);
                assert(text_in(kp, identifier@));
            }
        }
    }
}

} // verus!
