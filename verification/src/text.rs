//! Text helpers shared by the rest of the library: decimal rendering of
//! integers, trimming and splitting, comparisons, and the calls into
//! `str` and `std::path` that the library makes on texts.
use vstd::prelude::*;

verus! {

/// `String::push` appends one character.
pub assume_specification[ String::push ](s: &mut String, ch: char)
    ensures
        final(s)@ == old(s)@.push(ch),
;

/// The decimal digit character for `d < 10`.
pub open spec fn digit_char(d: nat) -> char {
    if d == 0 { '0' }
    else if d == 1 { '1' }
    else if d == 2 { '2' }
    else if d == 3 { '3' }
    else if d == 4 { '4' }
    else if d == 5 { '5' }
    else if d == 6 { '6' }
    else if d == 7 { '7' }
    else if d == 8 { '8' }
    else { '9' }
}

/// Decimal rendering of a natural number, without sign or leading zeros.
pub open spec fn decimal(n: nat) -> Seq<char>
    decreases n,
{
    if n < 10 {
        seq![digit_char(n)]
    } else {
        decimal(n / 10).push(digit_char(n % 10))
    }
}

fn digit_of(d: u64) -> (c: char)
    requires
        d < 10,
    ensures
        c == digit_char(d as nat),
{
    if d == 0 { '0' }
    else if d == 1 { '1' }
    else if d == 2 { '2' }
    else if d == 3 { '3' }
    else if d == 4 { '4' }
    else if d == 5 { '5' }
    else if d == 6 { '6' }
    else if d == 7 { '7' }
    else if d == 8 { '8' }
    else { '9' }
}

/// Appends the decimal rendering of `n` to `s`.
pub fn push_decimal(s: &mut String, n: u64)
    ensures
        final(s)@ == old(s)@ + decimal(n as nat),
    decreases n,
{
    if n >= 10 {
        push_decimal(s, n / 10);
    }
    let c = digit_of(n % 10);
    s.push(c);
    proof {
        assert(old(s)@ + decimal(n as nat) =~= if n >= 10 {
            old(s)@ + decimal((n / 10) as nat) + seq![c]
        } else {
            old(s)@ + seq![c]
        });
    }
}

} // verus!

verus! {

/// The characters of `s`, in order.
pub fn chars_of(s: &str) -> (v: Vec<char>)
    ensures
        v@ == s@,
{
    let mut v: Vec<char> = Vec::new();
    for c in it: s.chars()
        invariant
            v@ == it.seq().take(it.index() as int),
            it.seq() == s@,
    {
        v.push(c);
    }
    v
}

} // verus!

verus! {

/// A string holding exactly the characters of `v[from..to]`.
pub fn string_of_range(v: &Vec<char>, from: usize, to: usize) -> (s: String)
    requires
        from <= to <= v@.len(),
    ensures
        s@ == v@.subrange(from as int, to as int),
{
    let mut s = String::new();
    let mut i = from;
    while i < to
        invariant
            from <= i <= to <= v@.len(),
            s@ == v@.subrange(from as int, i as int),
        decreases to - i,
    {
        s.push(v[i]);
        proof {
            assert(v@.subrange(from as int, i + 1) =~= v@.subrange(from as int, i as int).push(
                v@[i as int],
            ));
        }
        i = i + 1;
    }
    s
}

/// The Unicode `White_Space` property, the notion of whitespace that
/// `char::is_whitespace` and `str::trim` use.
pub open spec fn is_white_space(c: char) -> bool {
    ||| ('\u{9}' <= c && c <= '\u{d}')
    ||| c == ' '
    ||| c == '\u{85}'
    ||| c == '\u{a0}'
    ||| c == '\u{1680}'
    ||| ('\u{2000}' <= c && c <= '\u{200a}')
    ||| c == '\u{2028}'
    ||| c == '\u{2029}'
    ||| c == '\u{202f}'
    ||| c == '\u{205f}'
    ||| c == '\u{3000}'
}

pub fn white_space(c: char) -> (b: bool)
    ensures
        b == is_white_space(c),
{
    ('\u{9}' <= c && c <= '\u{d}') || c == ' ' || c == '\u{85}' || c == '\u{a0}' || c
        == '\u{1680}' || ('\u{2000}' <= c && c <= '\u{200a}') || c == '\u{2028}' || c == '\u{2029}'
        || c == '\u{202f}' || c == '\u{205f}' || c == '\u{3000}'
}

/// `s` without its leading whitespace.
pub open spec fn trim_start(s: Seq<char>) -> Seq<char>
    decreases s.len(),
{
    if s.len() > 0 && is_white_space(s[0]) {
        trim_start(s.drop_first())
    } else {
        s
    }
}

/// `s` without its trailing whitespace.
pub open spec fn trim_end(s: Seq<char>) -> Seq<char>
    decreases s.len(),
{
    if s.len() > 0 && is_white_space(s.last()) {
        trim_end(s.drop_last())
    } else {
        s
    }
}

/// `s` without leading and trailing whitespace, as `str::trim` computes it.
pub open spec fn trim(s: Seq<char>) -> Seq<char> {
    trim_end(trim_start(s))
}

proof fn lemma_trim_start_skip(s: Seq<char>, i: int)
    requires
        0 <= i <= s.len(),
        forall|j: int| 0 <= j < i ==> is_white_space(#[trigger] s[j]),
    ensures
        trim_start(s) == trim_start(s.subrange(i, s.len() as int)),
    decreases i,
{
    if i > 0 {
        assert(s.drop_first().subrange(i - 1, s.drop_first().len() as int) =~= s.subrange(
            i,
            s.len() as int,
        ));
        lemma_trim_start_skip(s.drop_first(), i - 1);
    } else {
        assert(s.subrange(0, s.len() as int) =~= s);
    }
}

proof fn lemma_trim_end_skip(s: Seq<char>, k: int)
    requires
        0 <= k <= s.len(),
        forall|j: int| k <= j < s.len() ==> is_white_space(#[trigger] s[j]),
    ensures
        trim_end(s) == trim_end(s.subrange(0, k)),
    decreases s.len() - k,
{
    if k < s.len() {
        assert(s.drop_last().subrange(0, k) =~= s.subrange(0, k));
        lemma_trim_end_skip(s.drop_last(), k);
    } else {
        assert(s.subrange(0, k) =~= s);
    }
}

/// Bounds `[a, b)` of the trimmed part of `v`.
pub fn trim_bounds(v: &Vec<char>) -> (r: (usize, usize))
    ensures
        r.0 <= r.1 <= v@.len(),
        v@.subrange(r.0 as int, r.1 as int) == trim(v@),
{
    let n = v.len();
    let mut a: usize = 0;
    while a < n && white_space(v[a])
        invariant
            a <= n == v@.len(),
            forall|j: int| 0 <= j < a ==> is_white_space(#[trigger] v@[j]),
        decreases n - a,
    {
        a = a + 1;
    }
    proof {
        lemma_trim_start_skip(v@, a as int);
    }
    let ghost rest = v@.subrange(a as int, n as int);
    assert(trim_start(rest) == rest);
    let mut b: usize = n;
    while b > a && white_space(v[b - 1])
        invariant
            a <= b <= n == v@.len(),
            rest == v@.subrange(a as int, n as int),
            forall|j: int| b <= j < n ==> is_white_space(#[trigger] v@[j]),
        decreases b,
    {
        b = b - 1;
    }
    proof {
        assert forall|j: int| (b - a) <= j < rest.len() implies is_white_space(
            #[trigger] rest[j],
        ) by {
            assert(rest[j] == v@[a + j]);
        }
        lemma_trim_end_skip(rest, (b - a) as int);
        let t = rest.subrange(0, (b - a) as int);
        assert(t =~= v@.subrange(a as int, b as int));
        if t.len() > 0 {
            assert(t.last() == v@[b - 1]);
        }
    }
    (a, b)
}

/// `str::trim`, as a new string.
pub fn trimmed(s: &str) -> (t: String)
    ensures
        t@ == trim(s@),
{
    let v = chars_of(s);
    let (a, b) = trim_bounds(&v);
    string_of_range(&v, a, b)
}

/// The pieces of `s` between occurrences of `sep`, as `str::split` yields
/// them: `n` separators give `n + 1` pieces, empty ones included.
pub open spec fn split_on(s: Seq<char>, sep: char) -> Seq<Seq<char>>
    decreases s.len(),
{
    if s.len() == 0 {
        seq![Seq::<char>::empty()]
    } else {
        let pieces = split_on(s.drop_last(), sep);
        if s.last() == sep {
            pieces.push(Seq::<char>::empty())
        } else {
            pieces.update(pieces.len() - 1, pieces.last().push(s.last()))
        }
    }
}

pub proof fn lemma_split_on_nonempty(s: Seq<char>, sep: char)
    ensures
        split_on(s, sep).len() >= 1,
    decreases s.len(),
{
    if s.len() > 0 {
        lemma_split_on_nonempty(s.drop_last(), sep);
    }
}

/// The pieces of `s` between commas-or-other separators, each as a string.
pub fn split_text(s: &str, sep: char) -> (pieces: Vec<String>)
    ensures
        pieces@.len() == split_on(s@, sep).len(),
        forall|i: int| 0 <= i < pieces@.len() ==> #[trigger] pieces@[i]@ == split_on(s@, sep)[i],
{
    let v = chars_of(s);
    let mut pieces: Vec<String> = Vec::new();
    let mut cur = String::new();
    let mut i: usize = 0;
    while i < v.len()
        invariant
            i <= v@.len(),
            v@ == s@,
            pieces@.len() + 1 == split_on(v@.take(i as int), sep).len(),
            forall|j: int|
                0 <= j < pieces@.len() ==> #[trigger] pieces@[j]@ == split_on(
                    v@.take(i as int),
                    sep,
                )[j],
            cur@ == split_on(v@.take(i as int), sep).last(),
        decreases v@.len() - i,
    {
        let c = v[i];
        proof {
            assert(v@.take(i + 1).drop_last() =~= v@.take(i as int));
            lemma_split_on_nonempty(v@.take(i as int), sep);
        }
        if c == sep {
            let done = cur;
            pieces.push(done);
            cur = String::new();
        } else {
            cur.push(c);
        }
        i = i + 1;
    }
    proof {
        assert(v@.take(v@.len() as int) =~= v@);
    }
    pieces.push(cur);
    pieces
}

/// Whether `p` is a prefix of `s`.
pub open spec fn has_prefix(s: Seq<char>, p: Seq<char>) -> bool {
    p.len() <= s.len() && s.subrange(0, p.len() as int) == p
}

pub fn starts_with(s: &str, p: &str) -> (b: bool)
    ensures
        b == has_prefix(s@, p@),
{
    let sv = chars_of(s);
    let pv = chars_of(p);
    if pv.len() > sv.len() {
        return false;
    }
    let mut i: usize = 0;
    while i < pv.len()
        invariant
            i <= pv@.len() <= sv@.len(),
            sv@ == s@,
            pv@ == p@,
            forall|j: int| 0 <= j < i ==> sv@[j] == pv@[j],
        decreases pv@.len() - i,
    {
        if sv[i] != pv[i] {
            proof {
                assert(sv@.subrange(0, pv@.len() as int)[i as int] != pv@[i as int]);
            }
            return false;
        }
        i = i + 1;
    }
    proof {
        assert(sv@.subrange(0, pv@.len() as int) =~= pv@);
    }
    true
}

/// Character-wise equality of two strings.
pub fn same_text(a: &str, b: &str) -> (r: bool)
    ensures
        r == (a@ == b@),
{
    let av = chars_of(a);
    let bv = chars_of(b);
    if av.len() != bv.len() {
        return false;
    }
    let mut i: usize = 0;
    while i < av.len()
        invariant
            i <= av@.len() == bv@.len(),
            av@ == a@,
            bv@ == b@,
            forall|j: int| 0 <= j < i ==> av@[j] == bv@[j],
        decreases av@.len() - i,
    {
        if av[i] != bv[i] {
            proof {
                assert(a@[i as int] != b@[i as int]);
            }
            return false;
        }
        i = i + 1;
    }
    proof {
        assert(av@ =~= bv@);
    }
    true
}

} // verus!

verus! {

/// The lowercase form of `s` under Unicode's case mapping, as
/// `str::to_lowercase` computes it.
pub uninterp spec fn unicode_lowercase(s: Seq<char>) -> Seq<char>;

/// ASCII lowercasing of one character.
pub open spec fn ascii_lowercase_char(c: char) -> char {
    if 'A' <= c && c <= 'Z' {
        ((c as u32) + 32) as char
    } else {
        c
    }
}

/// Calls `str::to_lowercase`. Believed: the result is `unicode_lowercase`
/// of the input, and on ASCII text it is the ASCII lowercasing of each
/// character (Unicode maps `A`..`Z` to `a`..`z` and leaves the other ASCII
/// characters alone).
#[verifier::external_body]
pub(crate) fn lowercase(s: &str) -> (r: String)
    ensures
        r@ == unicode_lowercase(s@),
        vstd::utf8::is_ascii_chars(s@) ==> r@ == s@.map_values(|c: char| ascii_lowercase_char(c)),
{
    s.to_lowercase()
}

/// `base` joined with the relative or absolute path `part`, as
/// `Path::join` computes it on the platform the library is built for.
pub uninterp spec fn path_join(base: Seq<char>, part: Seq<char>) -> Seq<char>;

/// Calls `std::path::Path::join`. Believed: the result is `path_join` of
/// the two texts (the join of two UTF-8 paths is UTF-8, so the conversion
/// back to text is exact).
#[verifier::external_body]
pub(crate) fn join_path(base: &str, part: &str) -> (r: String)
    ensures
        r@ == path_join(base@, part@),
{
    std::path::Path::new(base).join(part).to_string_lossy().into_owned()
}

/// The final component of a path, if it is a normal one, as
/// `Path::file_name` finds it on the platform the library is built for.
pub uninterp spec fn path_file_name(p: Seq<char>) -> Option<Seq<char>>;

/// Calls `std::path::Path::file_name`. Believed: the result is
/// `path_file_name` of the text.
#[verifier::external_body]
pub(crate) fn file_name_of(p: &str) -> (r: Option<String>)
    ensures
        match path_file_name(p@) {
            Some(n) => r matches Some(s) && s@ == n,
            None => r is None,
        },
{
    std::path::Path::new(p).file_name().map(|n| n.to_string_lossy().into_owned())
}

/// The extension of a path's file name, as `Path::extension` finds it on
/// the platform the library is built for.
pub uninterp spec fn path_extension(p: Seq<char>) -> Option<Seq<char>>;

/// Calls `std::path::Path::extension`. Believed: the result is
/// `path_extension` of the text.
#[verifier::external_body]
pub(crate) fn extension_of(p: &str) -> (r: Option<String>)
    ensures
        match path_extension(p@) {
            Some(n) => r matches Some(s) && s@ == n,
            None => r is None,
        },
{
    std::path::Path::new(p).extension().map(|n| n.to_string_lossy().into_owned())
}

/// The file name without its extension, as `Path::file_stem` finds it on
/// the platform the library is built for.
pub uninterp spec fn path_file_stem(p: Seq<char>) -> Option<Seq<char>>;

/// Calls `std::path::Path::file_stem`. Believed: the result is
/// `path_file_stem` of the text.
#[verifier::external_body]
pub(crate) fn file_stem_of(p: &str) -> (r: Option<String>)
    ensures
        match path_file_stem(p@) {
            Some(n) => r matches Some(s) && s@ == n,
            None => r is None,
        },
{
    std::path::Path::new(p).file_stem().map(|n| n.to_string_lossy().into_owned())
}

/// The path without its final component, as `Path::parent` finds it on
/// the platform the library is built for.
pub uninterp spec fn path_parent(p: Seq<char>) -> Option<Seq<char>>;

/// Calls `std::path::Path::parent`. Believed: the result is `path_parent`
/// of the text.
#[verifier::external_body]
pub(crate) fn parent_of(p: &str) -> (r: Option<String>)
    ensures
        match path_parent(p@) {
            Some(n) => r matches Some(s) && s@ == n,
            None => r is None,
        },
{
    std::path::Path::new(p).parent().map(|n| n.to_string_lossy().into_owned())
}

/// The path with its extension replaced by `ext`, as
/// `Path::with_extension` computes it on the platform the library is built
/// for.
pub uninterp spec fn path_with_extension(p: Seq<char>, ext: Seq<char>) -> Seq<char>;

/// A path separator on some platform: `/`, or `\\` on Windows.
pub open spec fn is_path_separator(c: char) -> bool {
    c == '/' || c == '\\'
}

/// Calls `std::path::Path::with_extension`, which panics when the
/// extension holds a path separator; `requires` leaves those out.
/// Believed: the result is `path_with_extension` of the texts.
#[verifier::external_body]
pub(crate) fn with_extension(p: &str, ext: &str) -> (r: String)
    requires
        forall|i: int| 0 <= i < ext@.len() ==> !is_path_separator(#[trigger] ext@[i]),
    ensures
        r@ == path_with_extension(p@, ext@),
{
    std::path::Path::new(p).with_extension(ext).to_string_lossy().into_owned()
}

} // verus!

verus! {

/// Some string of `v` holds the text `t`.
pub open spec fn text_in(v: Seq<String>, t: Seq<char>) -> bool {
    exists|i: int| 0 <= i < v.len() && #[trigger] v[i]@ == t
}

/// No two strings of `v` hold the same text.
pub open spec fn texts_distinct(v: Seq<String>) -> bool {
    forall|i: int, j: int| 0 <= i < j < v.len() ==> #[trigger] v[i]@ != #[trigger] v[j]@
}

/// Whether some string of `v` holds the text of `t`.
pub fn contains_text(v: &Vec<String>, t: &str) -> (b: bool)
    ensures
        b == text_in(v@, t@),
{
    let mut i: usize = 0;
    while i < v.len()
        invariant
            i <= v@.len(),
            forall|j: int| 0 <= j < i ==> v@[j]@ != t@,
        decreases v@.len() - i,
    {
        if same_text(v[i].as_str(), t) {
            return true;
        }
        i = i + 1;
    }
    false
}

/// The texts of `values`, each once, in order of first occurrence.
pub fn distinct_texts(values: Vec<String>) -> (out: Vec<String>)
    ensures
        texts_distinct(out@),
        forall|t: Seq<char>| text_in(out@, t) <==> text_in(values@, t),
{
    let mut out: Vec<String> = Vec::new();
    let mut i: usize = 0;
    while i < values.len()
        invariant
            i <= values@.len(),
            texts_distinct(out@),
            forall|t: Seq<char>| text_in(out@, t) <==> text_in(values@.take(i as int), t),
        decreases values@.len() - i,
    {
        let ghost before = out@;
        let ghost pre = values@.take(i as int);
        assert(forall|t: Seq<char>| text_in(before, t) <==> text_in(pre, t));
        let present = contains_text(&out, values[i].as_str());
        if !present {
            out.push(values[i].clone());
        }
        proof {
            let post = values@.take(i + 1);
            assert(present ==> out@ == before);
            assert(!present ==> out@ == before.push(values@[i as int]));
            assert(post =~= pre.push(values@[i as int]));
            assert forall|t: Seq<char>| text_in(out@, t) <==> text_in(post, t) by {
                if text_in(post, t) {
                    let k = choose|k: int| 0 <= k < post.len() && #[trigger] post[k]@ == t;
                    if k < i {
                        assert(pre[k]@ == t);
                        assert(text_in(pre, t));
                        assert(text_in(before, t));
                        let m = choose|m: int| 0 <= m < before.len() && #[trigger] before[m]@ == t;
                        assert(out@[m] == before[m]);
                        assert(out@[m]@ == t);
                    } else if present {
                        let m = choose|m: int| 0 <= m < before.len() && #[trigger] before[m]@ == values@[i as int]@;
                    } else {
                        assert(out@[before.len() as int]@ == t);
                    }
                }
                if text_in(out@, t) {
                    let m = choose|m: int| 0 <= m < out@.len() && #[trigger] out@[m]@ == t;
                    if m < before.len() {
                        assert(before[m]@ == t);
                        assert(text_in(before, t));
                        let k = choose|k: int| 0 <= k < pre.len() && #[trigger] pre[k]@ == t;
                        assert(post[k]@ == t);
                    } else {
                        assert(post[i as int]@ == t);
                    }
                }
            }
            if !present {
                assert forall|a: int, b: int| 0 <= a < b < out@.len() implies #[trigger] out@[a]@
                    != #[trigger] out@[b]@ by {
                    if b == before.len() {
                        assert(out@[a] == before[a]);
                    } else {
                        assert(out@[a] == before[a]);
                        assert(out@[b] == before[b]);
                    }
                }
            }
        }
        i = i + 1;
    }
    proof {
        assert(values@.take(values@.len() as int) =~= values@);
    }
    out
}

} // verus!
