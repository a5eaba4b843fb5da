//! API keys: where they come from, how they are identified without being
//! shown, and how the configured sources merge into one pool.
use vstd::prelude::*;
use vstd::utf8::encode_utf8;
use vstd::string::StringExecFns;
use sha2::Digest;

use crate::config::Config;
use crate::error::ShrinkError;
use crate::text::{split_on, split_text, trim, trimmed};

pub mod rotation;

verus! {

/// Where a key was configured.
#[derive(Debug, Clone, Copy, PartialEq, Eq, Structural)]
pub enum KeySource {
    Env,
    Config,
}

/// One API key, with its origin, its position among all configured keys,
/// and the short hash under which it is shown.
#[derive(Debug)]
pub struct Key {
    pub value: String,
    pub source: KeySource,
    pub index: usize,
    pub hash: String,
}

/// The SHA-256 digest of `data`, as the `sha2` crate computes it.
pub uninterp spec fn sha256_digest(data: Seq<u8>) -> Seq<u8>;

/// Calls `sha2::Sha256::digest`. Believed: the digest is `sha256_digest` of
/// the input and is 32 bytes long (the output size of SHA-256).
#[verifier::external_body]
fn sha256(data: &[u8]) -> (d: Vec<u8>)
    ensures
        d@ == sha256_digest(data@),
        d@.len() == 32,
{
    sha2::Sha256::digest(data).to_vec()
}

/// The lowercase hexadecimal digit for `d < 16`.
pub open spec fn hex_digit(d: nat) -> char {
    if d < 10 {
        crate::text::digit_char(d)
    } else if d == 10 {
        'a'
    } else if d == 11 {
        'b'
    } else if d == 12 {
        'c'
    } else if d == 13 {
        'd'
    } else if d == 14 {
        'e'
    } else {
        'f'
    }
}

/// Lowercase hexadecimal text of `bytes`: two digits per byte, high nibble
/// first.
pub open spec fn hex_lower(bytes: Seq<u8>) -> Seq<char>
    decreases bytes.len(),
{
    if bytes.len() == 0 {
        Seq::empty()
    } else {
        hex_lower(bytes.drop_last()) + seq![
            hex_digit((bytes.last() / 16) as nat),
            hex_digit((bytes.last() % 16) as nat),
        ]
    }
}

/// Calls `hex::encode`. Believed: the result is the lowercase hexadecimal
/// text of the input, two digits per byte, high nibble first (the crate's
/// `HEX_CHARS_LOWER` table indexed by `byte >> 4` and `byte & 0x0F`).
#[verifier::external_body]
fn hex_encode(data: &[u8]) -> (s: String)
    ensures
        s@ == hex_lower(data@),
{
    hex::encode(data)
}

/// The shown identity of a key: the hexadecimal text of the first four
/// bytes of the SHA-256 digest of its UTF-8 bytes.
pub open spec fn key_hash_text(value: Seq<char>) -> Seq<char> {
    hex_lower(sha256_digest(encode_utf8(value)).take(4))
}

/// Whether `c` is a lowercase hexadecimal digit.
pub open spec fn is_lower_hex_digit(c: char) -> bool {
    ('0' <= c && c <= '9') || ('a' <= c && c <= 'f')
}

pub proof fn lemma_hex_lower_shape(bytes: Seq<u8>)
    ensures
        hex_lower(bytes).len() == 2 * bytes.len(),
        forall|i: int| 0 <= i < hex_lower(bytes).len() ==> is_lower_hex_digit(#[trigger] hex_lower(bytes)[i]),
    decreases bytes.len(),
{
    if bytes.len() > 0 {
        lemma_hex_lower_shape(bytes.drop_last());
    }
}

/// The 8-character identity under which a key is shown.
pub fn hash_key(value: &str) -> (h: String)
    ensures
        h@ == key_hash_text(value@),
        h@.len() == 8,
        forall|i: int| 0 <= i < h@.len() ==> is_lower_hex_digit(#[trigger] h@[i]),
{
    let digest = sha256(value.as_bytes());
    let head: Vec<u8> = vec![digest[0], digest[1], digest[2], digest[3]];
    proof {
        assert(head@ =~= digest@.take(4));
        lemma_hex_lower_shape(head@);
    }
    hex_encode(head.as_slice())
}

} // verus!

verus! {

/// A copy of `k`.
pub fn copy_key(k: &Key) -> (c: Key)
    ensures
        c == *k,
{
    Key { value: k.value.clone(), source: k.source, index: k.index, hash: k.hash.clone() }
}

fn make_key(value: String, source: KeySource, index: usize) -> (k: Key)
    ensures
        k.value == value,
        k.source == source,
        k.index == index,
        k.hash@ == key_hash_text(value@),
{
    let hash = hash_key(value.as_str());
    Key { value, source, index, hash }
}

/// The positions of the first occurrence of each distinct value, in order.
pub open spec fn kept_positions(values: Seq<Seq<char>>) -> Seq<int>
    decreases values.len(),
{
    if values.len() == 0 {
        Seq::empty()
    } else {
        let kept = kept_positions(values.drop_last());
        if values.drop_last().contains(values.last()) {
            kept
        } else {
            kept.push(values.len() - 1)
        }
    }
}

/// The entries of `kept_positions` are increasing positions of `values`.
pub proof fn lemma_kept_positions_order(values: Seq<Seq<char>>)
    ensures
        forall|a: int|
            0 <= a < kept_positions(values).len() ==> 0 <= #[trigger] kept_positions(values)[a]
                < values.len(),
        forall|a: int, b: int|
            0 <= a < b < kept_positions(values).len() ==> #[trigger] kept_positions(values)[a]
                < #[trigger] kept_positions(values)[b],
    decreases values.len(),
{
    if values.len() > 0 {
        let prev = values.drop_last();
        lemma_kept_positions_order(prev);
        let kept = kept_positions(prev);
        let all = kept_positions(values);
        assert forall|a: int| 0 <= a < all.len() implies 0 <= #[trigger] all[a] < values.len() by {
            if a < kept.len() {
                assert(all[a] == kept[a]);
            }
        }
        assert forall|a: int, b: int| 0 <= a < b < all.len() implies #[trigger] all[a]
            < #[trigger] all[b] by {
            assert(all[a] == kept[a]);
            if b < kept.len() {
                assert(all[b] == kept[b]);
            }
        }
    }
}

/// The kept positions hold pairwise distinct values.
pub proof fn lemma_kept_positions_distinct(values: Seq<Seq<char>>)
    ensures
        forall|a: int, b: int|
            0 <= a < b < kept_positions(values).len() ==> values[#[trigger] kept_positions(
                values,
            )[a]] != values[#[trigger] kept_positions(values)[b]],
    decreases values.len(),
{
    if values.len() > 0 {
        let prev = values.drop_last();
        lemma_kept_positions_distinct(prev);
        lemma_kept_positions_order(prev);
        let kept = kept_positions(prev);
        if !prev.contains(values.last()) {
            assert forall|a: int|
                0 <= a < kept.len() implies values[#[trigger] kept[a]] != values.last() by {
                assert(prev[kept[a]] == values[kept[a]]);
            }
        }
        assert forall|a: int, b: int|
            0 <= a < b < kept_positions(values).len() implies values[#[trigger] kept_positions(
                values,
            )[a]] != values[#[trigger] kept_positions(values)[b]] by {
            if b < kept.len() {
                assert(prev[kept[a]] != prev[kept[b]]);
            }
        }
    }
}

/// The value at position `i` is held at one of the kept positions; the
/// result is the index of that kept position.
pub proof fn lemma_kept_position_of(values: Seq<Seq<char>>, i: int) -> (a: int)
    requires
        0 <= i < values.len(),
    ensures
        0 <= a < kept_positions(values).len(),
        values[kept_positions(values)[a]] == values[i],
    decreases values.len(),
{
    let prev = values.drop_last();
    lemma_kept_positions_order(prev);
    let kept = kept_positions(prev);
    if i < prev.len() {
        let a = lemma_kept_position_of(prev, i);
        assert(kept_positions(values)[a] == kept[a]);
        assert(values[kept[a]] == prev[kept[a]]);
        a
    } else if prev.contains(values.last()) {
        let j = choose|j: int| 0 <= j < prev.len() && prev[j] == values.last();
        let a = lemma_kept_position_of(prev, j);
        assert(kept_positions(values)[a] == kept[a]);
        assert(values[kept[a]] == prev[kept[a]]);
        a
    } else {
        kept.len() as int
    }
}

proof fn lemma_contains_push(s: Seq<Seq<char>>, x: Seq<char>, v: Seq<char>)
    ensures
        s.push(x).contains(v) <==> (s.contains(v) || v == x),
{
    if s.push(x).contains(v) {
        let p = choose|p: int| 0 <= p < s.push(x).len() && s.push(x)[p] == v;
        if p < s.len() {
            assert(s[p] == v);
        }
    }
    if s.contains(v) {
        let p = choose|p: int| 0 <= p < s.len() && s[p] == v;
        assert(s.push(x)[p] == v);
    }
    if v == x {
        assert(s.push(x)[s.len() as int] == v);
    }
}

/// Removes every key whose value already occurred earlier, keeping the
/// first occurrence of each value and the order of the kept keys.
fn dedup_by_value(keys: &mut Vec<Key>)
    ensures
        final(keys)@.len() == kept_positions(old(keys)@.map_values(|k: Key| k.value@)).len(),
        forall|a: int|
            0 <= a < final(keys)@.len() ==> #[trigger] final(keys)@[a] == old(keys)@[kept_positions(
                old(keys)@.map_values(|k: Key| k.value@),
            )[a]],
{
    let ghost values = keys@.map_values(|k: Key| k.value@);
    let mut out: Vec<Key> = Vec::new();
    let mut i: usize = 0;
    while i < keys.len()
        invariant
            i <= keys@.len(),
            values == keys@.map_values(|k: Key| k.value@),
            out@.len() == kept_positions(values.take(i as int)).len(),
            forall|a: int|
                0 <= a < out@.len() ==> #[trigger] out@[a] == keys@[kept_positions(
                    values.take(i as int),
                )[a]],
            forall|a: int|
                0 <= a < kept_positions(values.take(i as int)).len() ==> 0 <= #[trigger] kept_positions(
                    values.take(i as int),
                )[a] < i,
            forall|v: Seq<char>|
                values.take(i as int).contains(v) <==> exists|a: int|
                    0 <= a < out@.len() && #[trigger] out@[a].value@ == v,
        decreases keys@.len() - i,
    {
        let ghost prefix = values.take(i as int);
        let ghost next = values.take(i + 1);
        let ghost old_out = out@;
        proof {
            assert(next =~= prefix.push(keys@[i as int].value@));
            assert(next.drop_last() =~= prefix);
        }
        let mut found = false;
        let mut j: usize = 0;
        while j < out.len()
            invariant
                j <= out@.len(),
                i < keys@.len(),
                out@ == old_out,
                found == exists|a: int| 0 <= a < j && #[trigger] out@[a].value@ == keys@[i as int].value@,
            decreases out@.len() - j,
        {
            if out[j].value == keys[i].value {
                found = true;
            }
            j = j + 1;
        }
        proof {
            assert(found == prefix.contains(keys@[i as int].value@));
        }
        if !found {
            let k = copy_key(&keys[i]);
            out.push(k);
        }
        proof {
            assert forall|v: Seq<char>|
                next.contains(v) <==> exists|a: int|
                    0 <= a < out@.len() && #[trigger] out@[a].value@ == v by {
                lemma_contains_push(prefix, keys@[i as int].value@, v);
                if exists|a: int| 0 <= a < out@.len() && #[trigger] out@[a].value@ == v {
                    let a = choose|a: int| 0 <= a < out@.len() && #[trigger] out@[a].value@ == v;
                    if a < old_out.len() {
                        assert(old_out[a].value@ == v);
                    }
                }
                if prefix.contains(v) {
                    let a = choose|a: int| 0 <= a < old_out.len() && #[trigger] old_out[a].value@ == v;
                    assert(out@[a] == old_out[a]);
                }
                if v == keys@[i as int].value@ && !found {
                    assert(out@[out@.len() - 1].value@ == v);
                }
            }
        }
        i = i + 1;
    }
    proof {
        assert(values.take(keys@.len() as int) =~= values);
    }
    *keys = out;
}


} // verus!

verus! {

/// The trimmed pieces of `pieces` that are not empty after trimming.
pub open spec fn nonempty_trimmed(pieces: Seq<Seq<char>>) -> Seq<Seq<char>>
    decreases pieces.len(),
{
    if pieces.len() == 0 {
        Seq::empty()
    } else {
        let rest = nonempty_trimmed(pieces.drop_last());
        if trim(pieces.last()).len() > 0 {
            rest.push(trim(pieces.last()))
        } else {
            rest
        }
    }
}

/// The values of `values` that are not empty.
pub open spec fn nonempty_values(values: Seq<Seq<char>>) -> Seq<Seq<char>>
    decreases values.len(),
{
    if values.len() == 0 {
        Seq::empty()
    } else {
        let rest = nonempty_values(values.drop_last());
        if values.last().len() > 0 {
            rest.push(values.last())
        } else {
            rest
        }
    }
}

pub open spec fn text_of(s: Option<&str>) -> Option<Seq<char>> {
    match s {
        Some(t) => Some(t@),
        None => None,
    }
}

/// The keys the environment names: the single key if it is not empty,
/// then the trimmed, non-empty, comma-separated keys of the list.
pub open spec fn env_key_values(single: Option<Seq<char>>, list: Option<Seq<char>>) -> Seq<
    Seq<char>,
> {
    let first = match single {
        Some(s) => if s.len() > 0 {
            seq![s]
        } else {
            Seq::empty()
        },
        None => Seq::empty(),
    };
    let rest = match list {
        Some(l) => nonempty_trimmed(split_on(l, ',')),
        None => Seq::empty(),
    };
    first + rest
}

/// Every configured key in order, before duplicates are removed: the
/// environment's keys first, then the configuration file's non-empty keys.
pub open spec fn candidate_keys(
    single: Option<Seq<char>>,
    list: Option<Seq<char>>,
    config_values: Seq<Seq<char>>,
) -> Seq<(Seq<char>, KeySource)> {
    env_key_values(single, list).map_values(|v: Seq<char>| (v, KeySource::Env))
        + nonempty_values(config_values).map_values(|v: Seq<char>| (v, KeySource::Config))
}

/// `k` is the candidate `c` found at position `pos` of the candidates.
pub open spec fn key_is_candidate(k: Key, c: (Seq<char>, KeySource), pos: int) -> bool {
    &&& k.value@ == c.0
    &&& k.source == c.1
    &&& k.index == pos
    &&& k.hash@ == key_hash_text(c.0)
}

pub open spec fn candidate_texts(c: Seq<(Seq<char>, KeySource)>) -> Seq<Seq<char>> {
    c.map_values(|p: (Seq<char>, KeySource)| p.0)
}

pub open spec fn string_texts(v: Seq<String>) -> Seq<Seq<char>> {
    v.map_values(|s: String| s@)
}

fn push_candidate(
    keys: &mut Vec<Key>,
    value: String,
    source: KeySource,
    Ghost(cands): Ghost<Seq<(Seq<char>, KeySource)>>,
)
    requires
        old(keys)@.len() == cands.len(),
        forall|j: int|
            0 <= j < cands.len() ==> key_is_candidate(#[trigger] old(keys)@[j], cands[j], j),
    ensures
        final(keys)@.len() == cands.len() + 1,
        forall|j: int|
            0 <= j < cands.len() + 1 ==> key_is_candidate(
                #[trigger] final(keys)@[j],
                cands.push((value@, source))[j],
                j,
            ),
{
    let idx = keys.len();
    let k = make_key(value, source, idx);
    keys.push(k);
}

/// All configured keys, merged into one pool: the keys named by the
/// environment first (`env_key`, then the comma-separated `env_keys`),
/// then the non-empty keys of the configuration file. A value that occurs
/// more than once is kept only where it first occurs. Each key records its
/// position among all candidates before that removal.
pub fn load_all_keys(env_key: Option<&str>, env_keys: Option<&str>, config: &Config) -> (r: Result<
    Vec<Key>,
    ShrinkError,
>)
    ensures
        ({
            let c = candidate_keys(text_of(env_key), text_of(env_keys), string_texts(config.keys.values@));
            let kept = kept_positions(candidate_texts(c));
            &&& c.len() == 0 ==> r == Err::<Vec<Key>, ShrinkError>(ShrinkError::NoKeysConfigured)
            &&& c.len() > 0 ==> (r matches Ok(keys) && keys@.len() == kept.len() && forall|a: int|
                0 <= a < keys@.len() ==> key_is_candidate(#[trigger] keys@[a], c[kept[a]], kept[a]))
        }),
{
    let ghost single = text_of(env_key);
    let ghost list = text_of(env_keys);
    let ghost config_values = string_texts(config.keys.values@);
    let ghost env_tag = |v: Seq<char>| (v, KeySource::Env);
    let ghost config_tag = |v: Seq<char>| (v, KeySource::Config);
    let mut keys: Vec<Key> = Vec::new();
    let ghost mut cands: Seq<(Seq<char>, KeySource)> = Seq::empty();
    let ghost first: Seq<Seq<char>> = Seq::empty();
    if let Some(single_key) = env_key {
        if !single_key.is_empty() {
            push_candidate(&mut keys, String::from_str(single_key), KeySource::Env, Ghost(cands));
            proof {
                cands = cands.push((single_key@, KeySource::Env));
                first = seq![single_key@];
            }
        }
    }
    proof {
        assert(cands =~= first.map_values(env_tag));
    }
    let ghost env_pieces: Seq<Seq<char>> = Seq::empty();
    if let Some(list_text) = env_keys {
        let pieces = split_text(list_text, ',');
        proof {
            env_pieces = split_on(list_text@, ',');
            assert(string_texts(pieces@) =~= env_pieces);
        }
        let mut i: usize = 0;
        while i < pieces.len()
            invariant
                i <= pieces@.len(),
                string_texts(pieces@) == env_pieces,
                keys@.len() == cands.len(),
                forall|j: int| 0 <= j < cands.len() ==> key_is_candidate(#[trigger] keys@[j], cands[j], j),
                cands == (first + nonempty_trimmed(env_pieces.take(i as int))).map_values(env_tag),
                env_tag == (|v: Seq<char>| (v, KeySource::Env)),
            decreases pieces@.len() - i,
        {
            let t = trimmed(pieces[i].as_str());
            proof {
                assert(env_pieces.take(i + 1).drop_last() =~= env_pieces.take(i as int));
                assert(env_pieces.take(i + 1).last() == pieces@[i as int]@);
            }
            if !t.as_str().is_empty() {
                push_candidate(&mut keys, t, KeySource::Env, Ghost(cands));
                proof {
                    let before = first + nonempty_trimmed(env_pieces.take(i as int));
                    cands = cands.push(env_tag(t@));
                    assert(first + nonempty_trimmed(env_pieces.take(i + 1)) =~= before.push(t@));
                    assert(before.push(t@).map_values(env_tag) =~= before.map_values(env_tag).push(env_tag(t@)));
                }
            } else {
                proof {
                    assert(first + nonempty_trimmed(env_pieces.take(i + 1)) =~= first + nonempty_trimmed(env_pieces.take(i as int)));
                }
            }
            i = i + 1;
        }
        proof {
            assert(env_pieces.take(pieces@.len() as int) =~= env_pieces);
        }
    }
    proof {
        assert(first + nonempty_trimmed(env_pieces) =~= env_key_values(single, list));
        assert(cands =~= env_key_values(single, list).map_values(env_tag));
    }
    let ghost env_part = cands;
    let mut i: usize = 0;
    while i < config.keys.values.len()
        invariant
            i <= config.keys.values@.len(),
            config_values == string_texts(config.keys.values@),
            keys@.len() == cands.len(),
            forall|j: int| 0 <= j < cands.len() ==> key_is_candidate(#[trigger] keys@[j], cands[j], j),
            cands == env_part + nonempty_values(config_values.take(i as int)).map_values(config_tag),
            config_tag == (|v: Seq<char>| (v, KeySource::Config)),
        decreases config.keys.values@.len() - i,
    {
        proof {
            assert(config_values.take(i + 1).drop_last() =~= config_values.take(i as int));
            assert(config_values.take(i + 1).last() == config.keys.values@[i as int]@);
        }
        if !config.keys.values[i].as_str().is_empty() {
            let v = config.keys.values[i].clone();
            push_candidate(&mut keys, v, KeySource::Config, Ghost(cands));
            proof {
                let before = nonempty_values(config_values.take(i as int));
                cands = cands.push(config_tag(v@));
                assert(nonempty_values(config_values.take(i + 1)) =~= before.push(v@));
                assert(before.push(v@).map_values(config_tag) =~= before.map_values(config_tag).push(config_tag(v@)));
            }
        } else {
            proof {
                assert(nonempty_values(config_values.take(i + 1)) =~= nonempty_values(config_values.take(i as int)));
            }
        }
        i = i + 1;
    }
    proof {
        assert(config_values.take(config.keys.values@.len() as int) =~= config_values);
        assert(cands =~= candidate_keys(single, list, config_values));
        assert(keys@.map_values(|k: Key| k.value@) =~= candidate_texts(cands));
    }
    let ghost before = keys@;
    dedup_by_value(&mut keys);
    proof {
        lemma_kept_positions_order(candidate_texts(cands));
        if cands.len() > 0 {
            let a = lemma_kept_position_of(candidate_texts(cands), 0);
        }
    }
    if keys.len() == 0 {
        return Err(ShrinkError::NoKeysConfigured);
    }
    Ok(keys)
}

} // verus!

verus! {

/// Merging the key sources: the keys kept from the candidates `c` hold
/// pairwise distinct values, keep the candidates' order, and every
/// candidate's value is among them — so no configured key is lost and
/// none is used twice.
pub proof fn law_merged_keys_distinct_and_complete(c: Seq<(Seq<char>, KeySource)>)
    ensures
        forall|a: int, b: int|
            0 <= a < b < kept_positions(candidate_texts(c)).len() ==> #[trigger] kept_positions(
                candidate_texts(c),
            )[a] < #[trigger] kept_positions(candidate_texts(c))[b] && c[kept_positions(candidate_texts(c))[a]].0
                != c[kept_positions(candidate_texts(c))[b]].0,
        forall|i: int|
            0 <= i < c.len() ==> exists|a: int|
                0 <= a < kept_positions(candidate_texts(c)).len() && c[#[trigger] kept_positions(
                    candidate_texts(c),
                )[a]].0 == #[trigger] c[i].0,
        c.len() > 0 <==> kept_positions(candidate_texts(c)).len() > 0,
{
    let t = candidate_texts(c);
    lemma_kept_positions_order(t);
    lemma_kept_positions_distinct(t);
    let kept = kept_positions(t);
    assert forall|a: int, b: int| 0 <= a < b < kept.len() implies #[trigger] kept[a] < #[trigger] kept[b]
        && c[kept[a]].0 != c[kept[b]].0 by {
        assert(t[kept[a]] != t[kept[b]]);
    }
    assert forall|i: int| 0 <= i < c.len() implies exists|a: int|
        0 <= a < kept.len() && c[#[trigger] kept[a]].0 == #[trigger] c[i].0 by {
        let a = lemma_kept_position_of(t, i);
        assert(t[kept[a]] == t[i]);
    }
    if c.len() > 0 {
        let a = lemma_kept_position_of(t, 0);
    }
}

} // verus!
