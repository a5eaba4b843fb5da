//! Byte sizes written in decimal: how `str::parse::<f64>` reads the
//! number, and the value that rounding it to the nearest double, scaling
//! it by a unit and converting it to `u64` gives, computed exactly from
//! the digits.
use vstd::prelude::*;
use vstd::string::StringExecFns;
use crate::error::ShrinkError;
use vstd::arithmetic::div_mod::{
    lemma_breakdown, lemma_div_denominator, lemma_fundamental_div_mod, lemma_hoist_over_denominator,
    lemma_mod_multiples_vanish, lemma_multiply_divide_lt,
};

verus! {

/// Ten to the power `k`.
pub open spec fn pow10(k: nat) -> nat
    decreases k,
{
    if k == 0 {
        1
    } else {
        10 * pow10((k - 1) as nat)
    }
}

/// The integer written by the decimal digits `ds`, most significant first.
pub open spec fn digits_value(ds: Seq<u8>) -> nat
    decreases ds.len(),
{
    if ds.len() == 0 {
        0
    } else {
        digits_value(ds.drop_last()) * 10 + ds.last() as nat
    }
}

/// Every entry of `ds` is a decimal digit.
pub open spec fn all_digits(ds: Seq<u8>) -> bool {
    forall|i: int| 0 <= i < ds.len() ==> #[trigger] ds[i] < 10
}

/// `floor(0.ds × 10^point × unit)`: the number written by the digits `ds`
/// with the decimal point after the first `point` of them (a negative
/// `point` or one beyond the digits pads with zeros), times `unit`,
/// rounded down.
pub open spec fn scaled_floor(ds: Seq<u8>, point: int, unit: nat) -> nat {
    let n = ds.len() as int;
    if point >= n {
        digits_value(ds) * pow10((point - n) as nat) * unit
    } else {
        (digits_value(ds) * unit) / pow10((n - point) as nat)
    }
}

/// Two to the power `k`.
pub open spec fn two_pow(k: nat) -> nat
    decreases k,
{
    if k == 0 {
        1
    } else {
        2 * two_pow((k - 1) as nat)
    }
}

/// How many low bits of `n` lie beyond the 53 bits of a double's
/// significand.
pub open spec fn excess_bits(n: nat) -> nat
    decreases n,
{
    if n < 0x20_0000_0000_0000 {
        0
    } else {
        1 + excess_bits(n / 2)
    }
}

pub proof fn lemma_two_pow_div(n: nat, k: nat)
    ensures
        two_pow(k) > 0,
        (n / two_pow(k)) / 2 == n / two_pow(k + 1),
{
    lemma_two_pow_positive(k);
    lemma_div_denominator(n as int, two_pow(k) as int, 2);
    assert(two_pow(k + 1) == 2 * two_pow(k));
    assert(two_pow(k) * 2 == 2 * two_pow(k));
}

pub proof fn lemma_two_pow_monotone(a: nat, b: nat)
    requires
        a <= b,
    ensures
        two_pow(a) <= two_pow(b),
    decreases b,
{
    if a < b {
        lemma_two_pow_monotone(a, (b - 1) as nat);
        lemma_two_pow_positive((b - 1) as nat);
    }
}

pub proof fn lemma_two_pow_positive(k: nat)
    ensures
        two_pow(k) > 0,
    decreases k,
{
    if k > 0 {
        lemma_two_pow_positive((k - 1) as nat);
    }
}

/// `n` rounded to the nearest value with a 53-bit significand, ties to
/// even: the value of `n as f64`.
pub open spec fn nearest_double(n: nat) -> nat {
    let k = excess_bits(n);
    if k == 0 {
        n
    } else {
        let p = two_pow(k);
        let q = n / p;
        let r = n % p;
        let up = r > p / 2 || (r == p / 2 && q % 2 == 1);
        (if up {
            q + 1
        } else {
            q
        }) * p
    }
}

proof fn lemma_two_pow_small()
    ensures
        two_pow(10) == 1024,
        two_pow(11) == 2048,
{
    reveal_with_fuel(two_pow, 12);
}

/// `n as f64`, as a whole number.
pub fn nearest_double_of(n: u64) -> (r: u128)
    ensures
        r == nearest_double(n as nat),
        r <= n + 2048,
{
    if n < 0x20_0000_0000_0000 {
        return n as u128;
    }
    let mut t: u64 = n;
    let mut k: u32 = 0;
    let mut p: u64 = 1;
    proof {
        assert(n as nat / 1 == n as nat);
    }
    while t >= 0x20_0000_0000_0000
        invariant
            k <= 11,
            p == two_pow(k as nat),
            1 <= p <= 2048,
            t as nat == n as nat / (p as nat),
            excess_bits(n as nat) == k + excess_bits(t as nat),
            (p as nat) * (t as nat) <= n,
        decreases t,
    {
        proof {
            lemma_two_pow_div(n as nat, k as nat);
            assert(p * t >= p * 0x20_0000_0000_0000) by (nonlinear_arith)
                requires
                    t >= 0x20_0000_0000_0000,
                    p >= 1,
            ;
            assert(p < 2048) by (nonlinear_arith)
                requires
                    p * 0x20_0000_0000_0000 <= p * t,
                    p * t <= n,
                    n < 0x1_0000_0000_0000_0000,
            ;
            assert((p * 2) * (t / 2) <= p * t) by (nonlinear_arith)
                requires
                    p >= 1,
            ;
            lemma_two_pow_small();
            if k == 11 {
                assert(false);
            }
            lemma_two_pow_monotone(k as nat, 10);
        }
        t = t / 2;
        k = k + 1;
        p = p * 2;
        proof {
            assert(two_pow(k as nat) == 2 * two_pow((k - 1) as nat));
        }
    }
    proof {
        assert(k >= 1);
        vstd::arithmetic::div_mod::lemma_fundamental_div_mod(n as int, p as int);
    }
    let rem: u64 = n - p * t;
    let half: u64 = p / 2;
    let up = rem > half || (rem == half && t % 2 == 1);
    let q: u64 = if up {
        t + 1
    } else {
        t
    };
    proof {
        assert(rem == n as nat % (p as nat));
        assert(q * p <= 0x1_0000_0000_0000_0000) by (nonlinear_arith)
            requires
                q <= 0x20_0000_0000_0000,
                p <= 2048,
        ;
    }
    let v: u128 = (q as u128) * (p as u128);
    proof {
        assert(q * p <= (t + 1) * p) by (nonlinear_arith)
            requires
                q <= t + 1,
        ;
        assert((t + 1) * p == t * p + p) by (nonlinear_arith);
        assert(p <= 2048);
    }
    v
}


/// `x` capped at `u64::MAX`, as a saturating conversion to `u64` does it.
pub open spec fn saturate(x: nat) -> u64 {
    if x > u64::MAX {
        u64::MAX
    } else {
        x as u64
    }
}

pub open spec fn cap64(x: nat) -> nat {
    if x < 0x1_0000_0000_0000_0000 {
        x
    } else {
        0x1_0000_0000_0000_0000
    }
}

pub proof fn lemma_pow10_positive(k: nat)
    ensures
        pow10(k) >= 1,
    decreases k,
{
    if k > 0 {
        lemma_pow10_positive((k - 1) as nat);
    }
}

pub proof fn lemma_pow10_add(a: nat, b: nat)
    ensures
        pow10(a + b) == pow10(a) * pow10(b),
    decreases b,
{
    if b > 0 {
        let bm = (b - 1) as nat;
        lemma_pow10_add(a, bm);
        assert((a + b - 1) as nat == a + bm);
        assert(pow10(a + b) == 10 * pow10(a + bm));
        assert(pow10(b) == 10 * pow10(bm));
        let x = pow10(a);
        let y = pow10(bm);
        assert(x * (10 * y) == 10 * (x * y)) by (nonlinear_arith);
    } else {
        assert(a + b == a);
        assert(pow10(b) == 1);
        assert(pow10(a) * 1 == pow10(a));
    }
}

pub proof fn lemma_digits_value_bound(ds: Seq<u8>)
    requires
        all_digits(ds),
    ensures
        digits_value(ds) < pow10(ds.len()),
    decreases ds.len(),
{
    if ds.len() > 0 {
        let p = ds.drop_last();
        assert(all_digits(p)) by {
            assert forall|i: int| 0 <= i < p.len() implies #[trigger] p[i] < 10 by {
                assert(p[i] == ds[i]);
            }
        }
        lemma_digits_value_bound(p);
        let v = digits_value(p);
        let q = pow10(p.len());
        let d = ds.last() as nat;
        assert(ds.last() < 10) by {
            assert(ds[ds.len() - 1] < 10);
        }
        assert(v * 10 + d < 10 * q) by (nonlinear_arith)
            requires
                v < q,
                d < 10,
        ;
    }
}

pub proof fn lemma_digits_value_concat(a: Seq<u8>, b: Seq<u8>)
    ensures
        digits_value(a + b) == digits_value(a) * pow10(b.len()) + digits_value(b),
    decreases b.len(),
{
    if b.len() == 0 {
        assert(a + b =~= a);
        assert(pow10(0) == 1);
        assert(digits_value(b) == 0);
        assert(digits_value(a) * 1 == digits_value(a));
    } else {
        let b0 = b.drop_last();
        lemma_digits_value_concat(a, b0);
        assert((a + b).drop_last() =~= a + b0);
        assert((a + b).last() == b.last());
        let x = digits_value(a);
        let y = digits_value(b0);
        let q = pow10(b0.len());
        assert(b0.len() + 1 == b.len());
        assert(pow10(b.len()) == 10 * q);
        assert(digits_value(b) == y * 10 + b.last() as nat);
        assert(digits_value(a + b) == digits_value(a + b0) * 10 + b.last() as nat);
        assert((x * q + y) * 10 + b.last() as nat == x * (10 * q) + (y * 10 + b.last() as nat))
            by (nonlinear_arith);
    }
}

proof fn lemma_digits_subrange_step(ds: Seq<u8>, from: int, i: int)
    requires
        0 <= from <= i < ds.len(),
    ensures
        digits_value(ds.subrange(from, i + 1)) == digits_value(ds.subrange(from, i)) * 10
            + ds[i] as nat,
{
    assert(ds.subrange(from, i + 1).drop_last() =~= ds.subrange(from, i));
}

/// `digits_value(ds[from..to])`, capped at 2^64.
fn capped_value(ds: &Vec<u8>, from: usize, to: usize) -> (v: u128)
    requires
        from <= to <= ds@.len(),
        all_digits(ds@),
    ensures
        v == cap64(digits_value(ds@.subrange(from as int, to as int))),
{
    let mut v: u128 = 0;
    let mut i = from;
    proof {
        assert(ds@.subrange(from as int, from as int) =~= Seq::<u8>::empty());
    }
    while i < to
        invariant
            from <= i <= to <= ds@.len(),
            all_digits(ds@),
            v == cap64(digits_value(ds@.subrange(from as int, i as int))),
        decreases to - i,
    {
        let d = ds[i];
        proof {
            lemma_digits_subrange_step(ds@, from as int, i as int);
            assert(ds@[i as int] < 10);
        }
        let w = v * 10 + d as u128;
        v = if w >= 0x1_0000_0000_0000_0000 {
            0x1_0000_0000_0000_0000
        } else {
            w
        };
        i = i + 1;
    }
    v
}

/// `(digits_value(ds[from..]) × unit) / 10^(len - from)`: the fraction
/// written by the digits from `from` on, times `unit`, rounded down, and
/// whether that division leaves no remainder. It is computed from the last
/// digit backwards, one digit at a time.
fn fraction_carry(ds: &Vec<u8>, from: usize, unit: u128) -> (r: (u128, bool))
    requires
        from <= ds@.len(),
        all_digits(ds@),
        1 <= unit <= 0x10_0000_0000_0000_0000_0000,
    ensures
        r.0 == (digits_value(ds@.subrange(from as int, ds@.len() as int)) * (unit as nat)) / pow10(
            (ds@.len() - from) as nat,
        ),
        r.1 == ((digits_value(ds@.subrange(from as int, ds@.len() as int)) * (unit as nat)) % pow10(
            (ds@.len() - from) as nat,
        ) == 0),
        r.0 < unit,
{
    let n = ds.len();
    let mut c: u128 = 0;
    let mut exact = true;
    let mut i = n;
    proof {
        assert(ds@.subrange(n as int, n as int) =~= Seq::<u8>::empty());
        assert(pow10(0) == 1);
        assert(digits_value(ds@.subrange(n as int, n as int)) == 0);
        assert(0nat * (unit as nat) == 0);
    }
    while i > from
        invariant
            from <= i <= n == ds@.len(),
            all_digits(ds@),
            1 <= unit <= 0x10_0000_0000_0000_0000_0000,
            c == (digits_value(ds@.subrange(i as int, n as int)) * (unit as nat)) / pow10((n - i) as nat),
            exact == ((digits_value(ds@.subrange(i as int, n as int)) * (unit as nat)) % pow10(
                (n - i) as nat,
            ) == 0),
            c < unit,
        decreases i - from,
    {
        let d = ds[i - 1];
        let ghost tail = ds@.subrange(i as int, n as int);
        let ghost l = digits_value(tail);
        let ghost p = pow10((n - i) as nat);
        let ghost du = (d as nat) * (unit as nat);
        proof {
            assert(ds@.subrange(i - 1, n as int) =~= seq![d] + tail);
            lemma_digits_value_concat(seq![d], tail);
            assert(digits_value(seq![d]) == d as nat) by {
                assert(seq![d].drop_last() =~= Seq::<u8>::empty());
                assert(seq![d].last() == d);
                assert(digits_value(Seq::<u8>::empty()) == 0);
            }
            assert(d < 10) by {
                assert(ds@[i - 1] < 10);
            }
            lemma_pow10_positive((n - i) as nat);
            assert(pow10((n - (i - 1)) as nat) == 10 * p);
            let pi: int = p as int;
            let li: int = l as int;
            let ui: int = unit as int;
            let dui: int = du as int;
            let x: int = li * ui + dui * pi;
            assert(x == (d as int * pi + li) * ui) by (nonlinear_arith)
                requires
                    x == li * ui + dui * pi,
                    dui == (d as int) * ui,
            ;
            // x / p == du + c, and x % p == (l * unit) % p
            lemma_hoist_over_denominator(li * ui, dui, p);
            assert(pi * dui + li * ui == x) by (nonlinear_arith)
                requires
                    x == li * ui + dui * pi,
            ;
            lemma_mod_multiples_vanish(dui, li * ui, pi);
            // the quotient and remainder by 10p
            lemma_div_denominator(x, pi, 10);
            lemma_breakdown(x, pi, 10);
            assert(pi * 10 == 10 * pi);
            let m: int = dui + c as int;
            assert(x / pi == m);
            assert((x % (10 * pi) == 0) == (m % 10 == 0 && (li * ui) % pi == 0)) by (nonlinear_arith)
                requires
                    x % (pi * 10) == pi * (m % 10) + (li * ui) % pi,
                    pi * 10 == 10 * pi,
                    pi >= 1,
                    m % 10 >= 0,
                    (li * ui) % pi >= 0,
            ;
            assert(tail.len() == n - i);
            lemma_digits_value_bound(ds@.subrange(i - 1, n as int));
            assert(all_digits(ds@.subrange(i - 1, n as int))) by {
                assert forall|j: int| 0 <= j < ds@.subrange(i - 1, n as int).len() implies
                    #[trigger] ds@.subrange(i - 1, n as int)[j] < 10 by {
                    assert(ds@.subrange(i - 1, n as int)[j] == ds@[i - 1 + j]);
                }
            }
            let l2 = d as nat * p + l;
            assert(l2 * unit < (10 * p) * unit) by (nonlinear_arith)
                requires
                    l2 < 10 * p,
                    unit >= 1,
            ;
            lemma_multiply_divide_lt((l2 * unit) as int, (10 * p) as int, unit as int);
            assert(du <= 9 * 0x10_0000_0000_0000_0000_0000) by (nonlinear_arith)
                requires
                    du == (d as nat) * (unit as nat),
                    d < 10,
                    unit <= 0x10_0000_0000_0000_0000_0000,
            ;
        }
        let m = (d as u128) * unit + c;
        exact = exact && m % 10 == 0;
        c = m / 10;
        i = i - 1;
    }
    (c, exact)
}

pub open spec fn point_bound() -> int {
    0x1_0000_0000_0000_0000_0000_0000
}

/// 2^118, the cap of the scaled values below.
pub open spec fn big_cap() -> nat {
    0x40_0000_0000_0000_0000_0000_0000_0000
}

/// `x` capped at 2^118.
pub open spec fn cap118(x: nat) -> nat {
    if x < big_cap() {
        x
    } else {
        big_cap()
    }
}

/// `0.ds × 10^point × unit` is a whole number.
pub open spec fn scaled_exact(ds: Seq<u8>, point: int, unit: nat) -> bool {
    let n = ds.len() as int;
    point >= n || (digits_value(ds) * unit) % pow10((n - point) as nat) == 0
}

/// `cap118(hv × unit + c)`, from `h`, which is `hv` capped at 2^64.
fn scale_capped(h: u128, unit: u128, c: u128, Ghost(hv): Ghost<nat>) -> (a: u128)
    requires
        h == cap64(hv),
        0x40_0000_0000_0000 <= unit <= 0x10_0000_0000_0000_0000_0000,
        c < unit,
    ensures
        a == cap118((hv * unit + c) as nat),
{
    let limit: u128 = 0x40_0000_0000_0000_0000_0000_0000_0000 / unit;
    proof {
        lemma_fundamental_div_mod(big_cap() as int, unit as int);
        assert(hv >= h);
    }
    if h > limit {
        proof {
            assert(h * unit >= (limit + 1) * unit) by (nonlinear_arith)
                requires
                    h >= limit + 1,
            ;
            assert(hv * unit >= h * unit) by (nonlinear_arith)
                requires
                    hv >= h,
            ;
            assert((limit + 1) * unit == unit * limit + unit) by (nonlinear_arith);
        }
        0x40_0000_0000_0000_0000_0000_0000_0000
    } else {
        proof {
            assert(h * unit <= limit * unit) by (nonlinear_arith)
                requires
                    h <= limit,
            ;
            assert(limit * unit == unit * limit) by (nonlinear_arith);
        }
        let v = h * unit + c;
        proof {
            if h >= 0x1_0000_0000_0000_0000 {
                assert(hv * unit >= h * unit) by (nonlinear_arith)
                    requires
                        hv >= h,
                ;
                assert(h * unit >= 0x1_0000_0000_0000_0000 * 0x40_0000_0000_0000) by (nonlinear_arith)
                    requires
                        h >= 0x1_0000_0000_0000_0000,
                        unit >= 0x40_0000_0000_0000,
                ;
            } else {
                assert(h == hv);
            }
        }
        if v >= 0x40_0000_0000_0000_0000_0000_0000_0000 {
            0x40_0000_0000_0000_0000_0000_0000_0000
        } else {
            v
        }
    }
}

/// `floor(0.ds × 10^point × unit)` capped at 2^118, and whether
/// `0.ds × 10^point × unit` is a whole number.
fn scaled_parts(ds: &Vec<u8>, point: i128, unit: u128) -> (r: (u128, bool))
    requires
        all_digits(ds@),
        0x40_0000_0000_0000 <= unit <= 0x10_0000_0000_0000_0000_0000,
        -point_bound() <= point <= point_bound(),
    ensures
        r.0 == cap118(scaled_floor(ds@, point as int, unit as nat)),
        r.1 == scaled_exact(ds@, point as int, unit as nat),
{
    let n = ds.len();
    let ghost dv = digits_value(ds@);
    proof {
        assert(ds@.subrange(0, n as int) =~= ds@);
    }
    if point >= n as i128 {
        let mut v = capped_value(ds, 0, n);
        let total: i128 = point - n as i128;
        let mut e: i128 = total;
        proof {
            assert(pow10(0) == 1);
            assert(dv * pow10(0) == dv);
        }
        while e > 0 && v != 0 && v < 0x1_0000_0000_0000_0000
            invariant
                0 <= e <= total,
                v <= 0x1_0000_0000_0000_0000,
                v == cap64(dv * pow10((total - e) as nat)),
            decreases e,
        {
            proof {
                assert(pow10((total - (e - 1)) as nat) == 10 * pow10((total - e) as nat));
                assert(dv * (10 * pow10((total - e) as nat)) == 10 * (dv * pow10((total - e) as nat)))
                    by (nonlinear_arith);
            }
            let w = v * 10;
            v = if w >= 0x1_0000_0000_0000_0000 {
                0x1_0000_0000_0000_0000
            } else {
                w
            };
            e = e - 1;
        }
        let ghost full = dv * pow10(total as nat);
        proof {
            let done = (total - e) as nat;
            lemma_pow10_add(done, e as nat);
            lemma_pow10_positive(e as nat);
            lemma_pow10_positive(done);
            assert(total as nat == done + e as nat);
            assert(full == (dv * pow10(done)) * pow10(e as nat)) by (nonlinear_arith)
                requires
                    full == dv * pow10(total as nat),
                    pow10(total as nat) == pow10(done) * pow10(e as nat),
            ;
            if v == 0 {
                assert(dv * pow10(done) == 0);
                assert(full == 0) by (nonlinear_arith)
                    requires
                        full == (dv * pow10(done)) * pow10(e as nat),
                        dv * pow10(done) == 0,
                ;
            } else if v >= 0x1_0000_0000_0000_0000 {
                assert(full >= dv * pow10(done)) by (nonlinear_arith)
                    requires
                        full == (dv * pow10(done)) * pow10(e as nat),
                        pow10(e as nat) >= 1,
                ;
            } else {
                assert(e == 0);
                assert(full == dv * pow10(done));
            }
            assert(v == cap64(full));
            assert(scaled_floor(ds@, point as int, unit as nat) == full * unit);
        }
        let a = scale_capped(v, unit, 0, Ghost(full));
        (a, true)
    } else {
        let s: usize = if point >= 0 {
            point as usize
        } else {
            0
        };
        let h = capped_value(ds, 0, s);
        let (c0, ex0) = fraction_carry(ds, s, unit);
        let mut c = c0;
        let mut exact = ex0;
        let ghost hv = digits_value(ds@.subrange(0, s as int));
        let ghost tail = ds@.subrange(s as int, n as int);
        let ghost lv = digits_value(tail);
        let ghost fp = pow10((n - s) as nat);
        let ghost cfull = c0 as nat;
        proof {
            assert(ds@ =~= ds@.subrange(0, s as int) + tail);
            lemma_digits_value_concat(ds@.subrange(0, s as int), tail);
            assert(tail.len() == n - s);
            lemma_pow10_positive((n - s) as nat);
            lemma_hoist_over_denominator((lv * unit) as int, (hv * unit) as int, fp);
            assert(dv * unit == lv * unit + (hv * unit) * fp) by (nonlinear_arith)
                requires
                    dv == hv * fp + lv,
            ;
            assert(fp * (hv * unit) + lv * unit == dv * unit) by (nonlinear_arith)
                requires
                    dv * unit == lv * unit + (hv * unit) * fp,
            ;
            lemma_mod_multiples_vanish((hv * unit) as int, (lv * unit) as int, fp as int);
        }
        let z0: i128 = s as i128 - point;
        let mut z: i128 = z0;
        proof {
            assert(pow10(0) == 1);
            assert(cfull / 1 == cfull);
            assert(cfull % 1 == 0);
        }
        while z > 0 && c > 0
            invariant
                0 <= z <= z0,
                c as nat == cfull / pow10((z0 - z) as nat),
                exact == (ex0 && cfull % pow10((z0 - z) as nat) == 0),
                c <= c0,
            decreases z,
        {
            proof {
                let k = (z0 - z) as nat;
                lemma_pow10_positive(k);
                lemma_div_denominator(cfull as int, pow10(k) as int, 10);
                lemma_breakdown(cfull as int, pow10(k) as int, 10);
                assert(pow10((z0 - (z - 1)) as nat) == 10 * pow10(k));
                assert(pow10(k) * 10 == 10 * pow10(k));
                assert((cfull % (pow10(k) * 10) == 0) == (c % 10 == 0 && cfull % pow10(k) == 0))
                    by (nonlinear_arith)
                    requires
                        cfull % (pow10(k) * 10) == pow10(k) * ((cfull / pow10(k)) % 10) + cfull % pow10(k),
                        c == cfull / pow10(k),
                        pow10(k) >= 1,
                        cfull % pow10(k) >= 0,
                ;
            }
            exact = exact && c % 10 == 0;
            c = c / 10;
            z = z - 1;
        }
        proof {
            let k = (n as int - point) as nat;
            let done = (z0 - z) as nat;
            lemma_pow10_add((n - s) as nat, z0 as nat);
            assert(k == (n - s) as nat + z0 as nat);
            lemma_pow10_positive(z0 as nat);
            lemma_div_denominator((dv * unit) as int, fp as int, pow10(z0 as nat) as int);
            lemma_breakdown((dv * unit) as int, fp as int, pow10(z0 as nat) as int);
            if z0 > 0 {
                assert(s == 0);
                assert(ds@.subrange(0, 0) =~= Seq::<u8>::empty());
                assert(hv == 0);
                if z > 0 {
                    assert(c == 0);
                    lemma_pow10_add(done, (z0 - done) as nat);
                    lemma_pow10_positive(done);
                    lemma_pow10_positive((z0 - done) as nat);
                    lemma_div_denominator(cfull as int, pow10(done) as int, pow10((z0 - done) as nat) as int);
                    // cfull < 10^done <= 10^z0, so both remainders are cfull itself
                    lemma_fundamental_div_mod(cfull as int, pow10(done) as int);
                    assert(cfull < pow10(done)) by (nonlinear_arith)
                        requires
                            cfull / pow10(done) == 0,
                            pow10(done) >= 1,
                    ;
                    assert(pow10(done) <= pow10(z0 as nat)) by (nonlinear_arith)
                        requires
                            pow10(z0 as nat) == pow10(done) * pow10((z0 - done) as nat),
                            pow10((z0 - done) as nat) >= 1,
                            pow10(done) >= 1,
                    ;
                    vstd::arithmetic::div_mod::lemma_small_mod(cfull, pow10(done));
                    vstd::arithmetic::div_mod::lemma_small_mod(cfull, pow10(z0 as nat));
                }
                assert(fp * pow10(z0 as nat) == pow10(k));
                assert((pow10(k) > 0));
                let xi: int = (dv * unit) as int;
                let fpi: int = fp as int;
                let pz: int = pow10(z0 as nat) as int;
                assert((xi % (fpi * pz) == 0) == ((cfull as int) % pz == 0 && xi % fpi == 0)) by (nonlinear_arith)
                    requires
                        xi % (fpi * pz) == fpi * ((xi / fpi) % pz) + xi % fpi,
                        cfull as int == xi / fpi,
                        fpi >= 1,
                        xi % fpi >= 0,
                ;
            }
        }
        let a = scale_capped(h, unit, c, Ghost(hv));
        (a, exact)
    }
}

/// `a` rounded to a 53-bit significand, ties to even, where `a` is the
/// integer part of a real number that has a fractional part exactly when
/// `inexact` (for `a` of at least 2^53, whose last place is then a whole
/// power of two).
pub open spec fn round_significand(a: nat, inexact: bool) -> nat {
    let p = two_pow(excess_bits(a));
    let q = a / p;
    let r = a % p;
    let up = r > p / 2 || (r == p / 2 && (inexact || q % 2 == 1));
    (if up {
        q + 1
    } else {
        q
    }) * p
}

/// The bytes that `str::parse::<f64>` followed by `(num * unit as f64) as
/// u64` give for the non-negative number `0.ds × 10^point` and a
/// power-of-two `unit`: the number rounded to the nearest double (ties to
/// even), times the unit, rounded down and saturated. In units of 2^-54
/// of a byte the scaled number has the integer part `a`; below 2^53 units
/// it is under one half and gives 0, otherwise its last place is at least
/// two units and the rounding of `a` decides it.
pub open spec fn double_bytes(ds: Seq<u8>, point: int, unit: nat) -> u64 {
    let scale = unit * 0x40_0000_0000_0000;
    let a = scaled_floor(ds, point, scale);
    if a < 0x20_0000_0000_0000 {
        0
    } else {
        saturate(round_significand(a, !scaled_exact(ds, point, scale)) / 0x40_0000_0000_0000)
    }
}

/// Above 2^53, `n` divided by two to the power of its excess bits lies in
/// `[2^52, 2^53)`.
pub proof fn lemma_excess_bits_range(n: nat)
    requires
        n >= 0x20_0000_0000_0000,
    ensures
        excess_bits(n) >= 1,
        0x10_0000_0000_0000 <= n / two_pow(excess_bits(n)) < 0x20_0000_0000_0000,
    decreases n,
{
    let h = n / 2;
    if h >= 0x20_0000_0000_0000 {
        lemma_excess_bits_range(h);
        let k = excess_bits(h);
        lemma_two_pow_positive(k);
        lemma_div_denominator(n as int, 2, two_pow(k) as int);
        assert(two_pow(k + 1) == 2 * two_pow(k));
    } else {
        assert(excess_bits(h) == 0);
        assert(two_pow(1) == 2) by {
            assert(two_pow(0) == 1);
        }
    }
}

/// A scaled number of at least 2^118 units rounds to at least 2^118 units.
pub proof fn lemma_round_big(a: nat, inexact: bool)
    requires
        a >= big_cap(),
    ensures
        round_significand(a, inexact) >= big_cap(),
        round_significand(a, inexact) / 0x40_0000_0000_0000 > u64::MAX,
{
    lemma_excess_bits_range(a);
    let k = excess_bits(a);
    let p = two_pow(k);
    let q = a / p;
    lemma_two_pow_positive(k);
    lemma_fundamental_div_mod(a as int, p as int);
    lemma_two_pow_value_65_66();
    vstd::arithmetic::div_mod::lemma_mod_pos_bound(a as int, p as int);
    if k <= 65 {
        lemma_two_pow_monotone(k, 65);
        assert((q + 1) * p == p * q + p) by (nonlinear_arith);
        assert(a < (q + 1) * p);
        assert((q + 1) * p <= 0x20_0000_0000_0000 * 0x2_0000_0000_0000_0000) by (nonlinear_arith)
            requires
                q + 1 <= 0x20_0000_0000_0000,
                p <= 0x2_0000_0000_0000_0000,
        ;
        assert(false);
    }
    lemma_two_pow_monotone(66, k);
    assert(q * p >= 0x10_0000_0000_0000 * 0x4_0000_0000_0000_0000) by (nonlinear_arith)
        requires
            q >= 0x10_0000_0000_0000,
            p >= 0x4_0000_0000_0000_0000,
    ;
    let up = a % p > p / 2 || (a % p == p / 2 && (inexact || q % 2 == 1));
    assert(round_significand(a, inexact) == (if up { q + 1 } else { q }) * p);
    assert((if up { q + 1 } else { q }) * p >= q * p) by (nonlinear_arith);
    vstd::arithmetic::div_mod::lemma_div_is_ordered(
        big_cap() as int,
        round_significand(a, inexact) as int,
        0x40_0000_0000_0000,
    );
}

proof fn lemma_two_pow_value_65_66()
    ensures
        two_pow(65) == 0x2_0000_0000_0000_0000,
        two_pow(66) == 0x4_0000_0000_0000_0000,
{
    reveal_with_fuel(two_pow, 67);
}

/// `cap118`'d `x` rounded as [`double_bytes`] rounds it, when `exact` says
/// whether the scaled number is whole.
fn round_scaled(a: u128, exact: bool, Ghost(x): Ghost<nat>) -> (r: u64)
    requires
        a == cap118(x),
    ensures
        r == if x < 0x20_0000_0000_0000 {
            0
        } else {
            saturate(round_significand(x, !exact) / 0x40_0000_0000_0000)
        },
{
    if a < 0x20_0000_0000_0000 {
        return 0;
    }
    if a >= 0x40_0000_0000_0000_0000_0000_0000_0000 {
        proof {
            lemma_round_big(x, !exact);
        }
        return u64::MAX;
    }
    let mut t: u128 = a;
    let mut k: u32 = 0;
    let mut p: u128 = 1;
    proof {
        assert(a as nat / 1 == a as nat);
        assert(two_pow(0) == 1);
        lemma_two_pow_value_65_66();
    }
    while t >= 0x20_0000_0000_0000
        invariant
            x == a,
            0x20_0000_0000_0000 <= a < 0x40_0000_0000_0000_0000_0000_0000_0000,
            k <= 65,
            p == two_pow(k as nat),
            1 <= p <= 0x2_0000_0000_0000_0000,
            t as nat == a as nat / (p as nat),
            excess_bits(a as nat) == k + excess_bits(t as nat),
            (p as nat) * (t as nat) <= a,
            two_pow(65) == 0x2_0000_0000_0000_0000,
        decreases t,
    {
        proof {
            lemma_two_pow_div(a as nat, k as nat);
            assert(p * t >= p * 0x20_0000_0000_0000) by (nonlinear_arith)
                requires
                    t >= 0x20_0000_0000_0000,
                    p >= 1,
            ;
            assert(p < 0x2_0000_0000_0000_0000) by (nonlinear_arith)
                requires
                    p * 0x20_0000_0000_0000 <= p * t,
                    p * t <= a,
                    a < 0x40_0000_0000_0000_0000_0000_0000_0000,
            ;
            assert((p * 2) * (t / 2) <= p * t) by (nonlinear_arith)
                requires
                    p >= 1,
            ;
            if k == 65 {
                assert(false);
            }
            lemma_two_pow_monotone((k + 1) as nat, 65);
        }
        t = t / 2;
        k = k + 1;
        p = p * 2;
        proof {
            assert(two_pow(k as nat) == 2 * two_pow((k - 1) as nat));
        }
    }
    proof {
        assert(k >= 1);
        lemma_fundamental_div_mod(a as int, p as int);
        assert(excess_bits(t as nat) == 0);
    }
    let r: u128 = a - p * t;
    let half: u128 = p / 2;
    let up = r > half || (r == half && (!exact || t % 2 == 1));
    let q: u128 = if up {
        t + 1
    } else {
        t
    };
    proof {
        assert(r == a as nat % (p as nat));
        assert(q * p <= 0x20_0000_0000_0000 * 0x2_0000_0000_0000_0000) by (nonlinear_arith)
            requires
                q <= 0x20_0000_0000_0000,
                p <= 0x2_0000_0000_0000_0000,
        ;
    }
    let v: u128 = q * p;
    let w: u128 = v / 0x40_0000_0000_0000;
    if w > u64::MAX as u128 {
        u64::MAX
    } else {
        w as u64
    }
}

/// The bytes [`double_bytes`] gives for `0.ds × 10^point` and `unit`.
fn double_byte_count(ds: &Vec<u8>, point: i128, unit: u64) -> (r: u64)
    requires
        all_digits(ds@),
        1 <= unit <= 0x4000_0000,
        -point_bound() <= point <= point_bound(),
    ensures
        r == double_bytes(ds@, point as int, unit as nat),
{
    let scale: u128 = (unit as u128) * 0x40_0000_0000_0000;
    let (a, exact) = scaled_parts(ds, point, scale);
    round_scaled(a, exact, Ghost(scaled_floor(ds@, point as int, scale as nat)))
}

} // verus!

verus! {

/// A number written as `str::parse::<f64>` reads it, kept exactly.
pub enum NumberText {
    /// `±0.digits × 10^point`.
    Finite { negative: bool, digits: Seq<u8>, point: int },
    /// `inf` or `infinity`.
    Infinite { negative: bool },
    /// `nan`.
    NotANumber,
}

pub open spec fn is_digit_char(c: char) -> bool {
    '0' <= c && c <= '9'
}

pub open spec fn digit_value_of(c: char) -> u8 {
    (c as u32 - '0' as u32) as u8
}

/// The length of the run of decimal digits starting at position `i`.
pub open spec fn digit_run_from(s: Seq<char>, i: int) -> nat
    decreases s.len() - i,
{
    if 0 <= i < s.len() && is_digit_char(s[i]) {
        1 + digit_run_from(s, i + 1)
    } else {
        0
    }
}

/// The digit values of the characters `s[i..j]`.
pub open spec fn digits_between(s: Seq<char>, i: int, j: int) -> Seq<u8> {
    s.subrange(i, j).map_values(|c: char| digit_value_of(c))
}

/// The exponent written from position `m` to the end: an optional sign
/// and at least one digit.
pub open spec fn exponent_at(s: Seq<char>, m: int) -> Option<int> {
    let signed = m < s.len() && (s[m] == '-' || s[m] == '+');
    let q = if signed {
        m + 1
    } else {
        m
    };
    let c = digit_run_from(s, q);
    if c > 0 && q + c == s.len() {
        let v = digits_value(digits_between(s, q, s.len() as int)) as int;
        Some(
            if signed && s[m] == '-' {
                -v
            } else {
                v
            },
        )
    } else {
        None
    }
}

/// The decimal number written from position `start` to the end: digits,
/// optionally a point and more digits (at least one digit in all), and
/// optionally `e` or `E` with an exponent. Gives the digits, how many of
/// them come before the point, and the exponent.
pub open spec fn decimal_parts(s: Seq<char>, start: int) -> Option<(Seq<u8>, int, int)> {
    let a = digit_run_from(s, start);
    let j = start + a;
    let dotted = j < s.len() && s[j] == '.';
    let b = if dotted {
        digit_run_from(s, j + 1)
    } else {
        0
    };
    let k = if dotted {
        j + 1 + b
    } else {
        j
    };
    let ds = if dotted {
        digits_between(s, start, j) + digits_between(s, j + 1, j + 1 + b)
    } else {
        digits_between(s, start, j)
    };
    if a + b == 0 {
        None
    } else if k == s.len() {
        Some((ds, a as int, 0))
    } else if s[k] == 'e' || s[k] == 'E' {
        match exponent_at(s, k + 1) {
            Some(e) => Some((ds, a as int, e)),
            None => None,
        }
    } else {
        None
    }
}

pub open spec fn ascii_lower(c: char) -> char {
    if 'A' <= c && c <= 'Z' {
        ((c as u32) + 32) as char
    } else {
        c
    }
}

/// `s` spells `word` (given in lowercase), ignoring ASCII case.
pub open spec fn spells(s: Seq<char>, word: Seq<char>) -> bool {
    s.len() == word.len() && forall|i: int| 0 <= i < s.len() ==> ascii_lower(#[trigger] s[i]) == word[i]
}

/// How `str::parse::<f64>` reads `s`: an optional sign, then a decimal
/// number, or `inf`, `infinity` or `nan` in any case.
pub open spec fn number_text(s: Seq<char>) -> Option<NumberText> {
    if s.len() == 0 {
        None
    } else {
        let signed = s[0] == '-' || s[0] == '+';
        let negative = s[0] == '-';
        let start: int = if signed {
            1
        } else {
            0
        };
        if start == s.len() {
            None
        } else {
            match decimal_parts(s, start) {
                Some((ds, a, e)) => Some(NumberText::Finite { negative, digits: ds, point: a + e }),
                None => {
                    let body = s.subrange(start, s.len() as int);
                    if spells(body, "inf"@) || spells(body, "infinity"@) {
                        Some(NumberText::Infinite { negative })
                    } else if spells(body, "nan"@) {
                        Some(NumberText::NotANumber)
                    } else {
                        None
                    }
                },
            }
        }
    }
}

/// A parsed number; a finite one keeps its digits and the exponent capped
/// at `±EXPONENT_CAP`.
pub enum ParsedNumber {
    Finite { negative: bool, digits: Vec<u8>, int_len: usize, exponent: i128 },
    Infinite { negative: bool },
    NotANumber,
}

pub open spec fn exponent_cap() -> int {
    0x400_0000_0000_0000_0000_0000
}

pub open spec fn clamp_exponent(e: int) -> int {
    if e > exponent_cap() {
        exponent_cap()
    } else if e < -exponent_cap() {
        -exponent_cap()
    } else {
        e
    }
}

/// `p` is the reading of `text`, with the exponent capped.
pub open spec fn parsed_matches(p: ParsedNumber, text: NumberText) -> bool {
    match (p, text) {
        (
            ParsedNumber::Finite { negative, digits, int_len, exponent },
            NumberText::Finite { negative: n2, digits: d2, point },
        ) => exists|e: int|
            negative == n2 && digits@ == d2 && #[trigger] clamp_exponent(e) == exponent && point
                == int_len + e,
        (ParsedNumber::Infinite { negative }, NumberText::Infinite { negative: n2 }) => negative
            == n2,
        (ParsedNumber::NotANumber, NumberText::NotANumber) => true,
        _ => false,
    }
}

fn is_digit(c: char) -> (b: bool)
    ensures
        b == is_digit_char(c),
{
    '0' <= c && c <= '9'
}

/// Reads the run of digits of `s` from `i`: its end and the digit values.
fn read_digits(s: &Vec<char>, i: usize, ds: &mut Vec<u8>) -> (j: usize)
    requires
        i <= s@.len(),
        all_digits(old(ds)@),
    ensures
        all_digits(final(ds)@),
        j == i + digit_run_from(s@, i as int),
        j <= s@.len(),
        final(ds)@ == old(ds)@ + digits_between(s@, i as int, j as int),
{
    let mut j = i;
    let ghost start = old(ds)@;
    while j < s.len() && is_digit(s[j])
        invariant
            i <= j <= s@.len(),
            digit_run_from(s@, i as int) == (j - i) + digit_run_from(s@, j as int),
            ds@ == start + digits_between(s@, i as int, j as int),
            all_digits(ds@),
        decreases s@.len() - j,
    {
        let d = ((s[j] as u32) - ('0' as u32)) as u8;
        ds.push(d);
        proof {
            assert(digits_between(s@, i as int, j + 1) =~= digits_between(s@, i as int, j as int).push(
                digit_value_of(s@[j as int]),
            ));
        }
        j = j + 1;
    }
    j
}

/// The value of the digits `s[q..]`, capped at `EXPONENT_CAP`.
fn read_exponent_digits(s: &Vec<char>, q: usize) -> (v: i128)
    requires
        q <= s@.len(),
        forall|i: int| q <= i < s@.len() ==> is_digit_char(#[trigger] s@[i]),
    ensures
        v == clamp_exponent(digits_value(digits_between(s@, q as int, s@.len() as int)) as int),
{
    let mut v: i128 = 0;
    let mut j = q;
    proof {
        assert(digits_between(s@, q as int, q as int) =~= Seq::<u8>::empty());
    }
    while j < s.len()
        invariant
            q <= j <= s@.len(),
            forall|i: int| q <= i < s@.len() ==> is_digit_char(#[trigger] s@[i]),
            v == clamp_exponent(digits_value(digits_between(s@, q as int, j as int)) as int),
            0 <= v <= exponent_cap(),
        decreases s@.len() - j,
    {
        let d = ((s[j] as u32) - ('0' as u32)) as i128;
        proof {
            assert(is_digit_char(s@[j as int]));
            let prev = digits_between(s@, q as int, j as int);
            let next = digits_between(s@, q as int, j + 1);
            assert(next.drop_last() =~= prev);
            assert(next.last() == digit_value_of(s@[j as int]));
            assert(digits_value(next) == digits_value(prev) * 10 + next.last() as nat);
        }
        let w = v * 10 + d;
        v = if w > 0x400_0000_0000_0000_0000_0000 {
            0x400_0000_0000_0000_0000_0000
        } else {
            w
        };
        j = j + 1;
    }
    v
}

fn spells_word(s: &Vec<char>, start: usize, word: &str) -> (b: bool)
    requires
        start <= s@.len(),
    ensures
        b == spells(s@.subrange(start as int, s@.len() as int), word@),
{
    let w = crate::text::chars_of(word);
    let n = s.len();
    if n - start != w.len() {
        return false;
    }
    let mut i: usize = 0;
    while i < w.len()
        invariant
            i <= w@.len(),
            w@.len() + start == s@.len(),
            n == s@.len(),
            start <= s@.len(),
            w@ == word@,
            forall|k: int| 0 <= k < i ==> ascii_lower(s@[start + k]) == w@[k],
        decreases w@.len() - i,
    {
        let c = s[start + i];
        let lc = if 'A' <= c && c <= 'Z' {
            ((c as u32) + 32) as u8 as char
        } else {
            c
        };
        if lc != w[i] {
            proof {
                assert(s@.subrange(start as int, s@.len() as int)[i as int] == s@[start + i]);
            }
            return false;
        }
        i = i + 1;
    }
    proof {
        let body = s@.subrange(start as int, s@.len() as int);
        assert forall|k: int| 0 <= k < body.len() implies ascii_lower(#[trigger] body[k]) == word@[k] by {
            assert(body[k] == s@[start + k]);
        }
    }
    true
}

} // verus!

verus! {

/// Reads `s` as `str::parse::<f64>` does, keeping the number exact.
#[verifier::spinoff_prover]
#[verifier::rlimit(40)]
pub fn parse_number(s: &Vec<char>) -> (r: Option<ParsedNumber>)
    ensures
        r matches Some(ParsedNumber::Finite { digits, .. }) ==> all_digits(digits@),
        match number_text(s@) {
            None => r is None,
            Some(t) => r matches Some(p) && parsed_matches(p, t),
        },
{
    let n = s.len();
    if n == 0 {
        return None;
    }
    let negative = s[0] == '-';
    let start: usize = if s[0] == '-' || s[0] == '+' {
        1
    } else {
        0
    };
    if start == n {
        return None;
    }
    let mut ds: Vec<u8> = Vec::new();
    let j = read_digits(s, start, &mut ds);
    proof {
        assert(ds@ =~= digits_between(s@, start as int, j as int));
    }
    let mut k = j;
    let mut b: usize = 0;
    let dotted = j < n && s[j] == '.';
    if dotted {
        let j2 = read_digits(s, j + 1, &mut ds);
        b = j2 - (j + 1);
        k = j2;
    }
    let a = j - start;
    if a > 0 || b > 0 {
        if k == n {
            proof {
                assert(clamp_exponent(0) == 0);
            }
            return Some(ParsedNumber::Finite { negative, digits: ds, int_len: a, exponent: 0 });
        }
        if s[k] == 'e' || s[k] == 'E' {
            let m = k + 1;
            let mut q = m;
            let mut exp_negative = false;
            if m < n && (s[m] == '-' || s[m] == '+') {
                exp_negative = s[m] == '-';
                q = m + 1;
            }
            let mut scratch: Vec<u8> = Vec::new();
            let end = read_digits(s, q, &mut scratch);
            if end > q && end == n {
                proof {
                    assert forall|i: int| q <= i < s@.len() implies is_digit_char(#[trigger] s@[i]) by {
                        lemma_digit_run_all(s@, q as int, i);
                    }
                }
                let v = read_exponent_digits(s, q);
                let exponent = if exp_negative {
                    -v
                } else {
                    v
                };
                proof {
                    let tv = digits_value(digits_between(s@, q as int, s@.len() as int)) as int;
                    let e = if exp_negative {
                        -tv
                    } else {
                        tv
                    };
                    assert(clamp_exponent(e) == exponent);
                }
                return Some(ParsedNumber::Finite { negative, digits: ds, int_len: a, exponent });
            }
        }
    }
    if spells_word(s, start, "inf") || spells_word(s, start, "infinity") {
        Some(ParsedNumber::Infinite { negative })
    } else if spells_word(s, start, "nan") {
        Some(ParsedNumber::NotANumber)
    } else {
        None
    }
}

proof fn lemma_digit_run_all(s: Seq<char>, q: int, i: int)
    requires
        0 <= q <= i < s.len(),
        q + digit_run_from(s, q) == s.len(),
    ensures
        is_digit_char(s[i]),
    decreases i - q,
{
    if i > q {
        assert(is_digit_char(s[q]));
        lemma_digit_run_all(s, q + 1, i);
    }
}

} // verus!

verus! {

/// The multiplier of a size suffix: none or `b` for bytes, `k`, `m`, `g`
/// for binary kilo-, mega- and gigabytes.
pub open spec fn unit_of(suffix: Option<char>) -> Option<nat> {
    match suffix {
        None => Some(1),
        Some(c) => if c == 'b' {
            Some(1)
        } else if c == 'k' {
            Some(1024)
        } else if c == 'm' {
            Some(1048576)
        } else if c == 'g' {
            Some(1073741824)
        } else {
            None
        },
    }
}

/// The number reads as a double below zero: a negative number that does
/// not round to zero, or minus infinity.
pub open spec fn number_is_negative(x: NumberText) -> bool {
    match x {
        NumberText::Finite { negative, digits, point } => negative && !rounds_to_zero(digits, point),
        NumberText::Infinite { negative } => negative,
        NumberText::NotANumber => false,
    }
}

/// The byte count a number that is not below zero gives with the
/// power-of-two multiplier `unit`: the nearest double to it, times the
/// unit, rounded down and saturated at `u64::MAX` (a negative number that
/// rounds to zero gives 0); infinity gives `u64::MAX` and not-a-number
/// gives 0.
pub open spec fn number_bytes(x: NumberText, unit: nat) -> u64 {
    match x {
        NumberText::Finite { negative, digits, point } => double_bytes(digits, point, unit),
        NumberText::Infinite { .. } => u64::MAX,
        NumberText::NotANumber => 0,
    }
}

pub open spec fn is_ascii_letter(c: char) -> bool {
    ('a' <= c && c <= 'z') || ('A' <= c && c <= 'Z')
}

/// What a (trimmed, lowercased) size text `t` means: a number with an
/// optional one-letter unit suffix, or the message of the error it gives.
pub open spec fn size_outcome(t: Seq<char>) -> Result<u64, Seq<char>> {
    if t.len() == 0 {
        Err("empty size"@)
    } else {
        let has_suffix = is_ascii_letter(t.last());
        let num = if has_suffix {
            t.drop_last()
        } else {
            t
        };
        let suffix = if has_suffix {
            Some(t.last())
        } else {
            None
        };
        match number_text(num) {
            None => Err("invalid size: "@ + t),
            Some(x) => if number_is_negative(x) {
                Err("negative size: "@ + t)
            } else {
                match unit_of(suffix) {
                    None => Err("unknown size suffix: "@ + seq![t.last()]),
                    Some(u) => Ok(number_bytes(x, u)),
                }
            },
        }
    }
}

/// `r` is the outcome `o`, an error being a bad argument with that message.
pub open spec fn size_result_is(r: Result<u64, ShrinkError>, o: Result<u64, Seq<char>>) -> bool {
    match o {
        Ok(v) => r == Ok::<u64, ShrinkError>(v),
        Err(m) => match r {
            Err(ShrinkError::BadArgument(msg)) => msg@ == m,
            _ => false,
        },
    }
}

pub proof fn lemma_pow10_monotone(a: nat, b: nat)
    requires
        a <= b,
    ensures
        pow10(a) <= pow10(b),
    decreases b,
{
    if a < b {
        lemma_pow10_monotone(a, (b - 1) as nat);
        lemma_pow10_positive((b - 1) as nat);
    }
}

proof fn lemma_pow10_big()
    ensures
        pow10(36) > big_cap(),
        pow10(26) > 0x10_0000_0000_0000_0000_0000,
{
    reveal_with_fuel(pow10, 37);
}

/// The least positive double is 2^-1074; half of it lies between
/// 10^-324 and 10^-323.
proof fn lemma_half_tiniest_bounds()
    ensures
        pow10(323) < two_pow(1075),
        two_pow(1075) < pow10(324),
{
    reveal_with_fuel(two_pow, 11);
    reveal_with_fuel(pow10, 11);
    assert(two_pow(5) == 32);
    assert(two_pow(10) == 1024);
    lemma_two_pow_add(10, 10);
    assert(two_pow(20) == 1048576nat);
    lemma_two_pow_add(20, 5);
    assert(two_pow(25) == 33554432nat);
    lemma_two_pow_add(25, 25);
    assert(two_pow(50) == 1125899906842624nat);
    lemma_two_pow_add(50, 25);
    assert(two_pow(75) == 37778931862957161709568nat);
    lemma_two_pow_add(50, 50);
    assert(two_pow(100) == 1267650600228229401496703205376nat);
    lemma_two_pow_add(100, 100);
    assert(two_pow(200) == 1606938044258990275541962092341162602522202993782792835301376nat);
    lemma_two_pow_add(200, 200);
    assert(two_pow(400) == 2582249878086908589655919172003011874329705792829223512830659356540647622016841194629645353280137831435903171972747493376nat);
    lemma_two_pow_add(400, 400);
    assert(two_pow(800) == 6668014432879854274079851790721257797144758322315908160396257811764037237817632071521432200871554290742929910593433240445888801654119365080363356052330830046095157579514014558463078285911814024728965016135886601981690748037476461291163877376nat);
    lemma_two_pow_add(800, 200);
    assert(two_pow(1000) == 10715086071862673209484250490600018105614048117055336074437503883703510511249361224931983788156958581275946729175531468251871452856923140435984577574698574803934567774824230985421074605062371141877954182153046474983581941267398767559165543946077062914571196477686542167660429831652624386837205668069376nat);
    lemma_two_pow_add(1000, 75);
    assert(two_pow(1075) == 404804506614621236704990693437834614099113299528284236713802716054860679135990693783920767402874248990374155728633623822779617474771586953734026799881477019843034848553132722728933815484186432682479535356945490137124014966849385397236206711298319112681620113024717539104666829230461005064372655017292012526615415482186989568nat);
    assert(pow10(3) == 1000);
    assert(pow10(10) == 10000000000);
    lemma_pow10_add(10, 10);
    assert(pow10(20) == 100000000000000000000nat);
    lemma_pow10_add(20, 20);
    assert(pow10(40) == 10000000000000000000000000000000000000000nat);
    lemma_pow10_add(40, 40);
    assert(pow10(80) == 100000000000000000000000000000000000000000000000000000000000000000000000000000000nat);
    lemma_pow10_add(80, 80);
    assert(pow10(160) == 10000000000000000000000000000000000000000000000000000000000000000000000000000000000000000000000000000000000000000000000000000000000000000000000000000000000000000nat);
    lemma_pow10_add(160, 160);
    assert(pow10(320) == 100000000000000000000000000000000000000000000000000000000000000000000000000000000000000000000000000000000000000000000000000000000000000000000000000000000000000000000000000000000000000000000000000000000000000000000000000000000000000000000000000000000000000000000000000000000000000000000000000000000000000000000000000000000nat);
    lemma_pow10_add(320, 3);
    assert(pow10(323) == 100000000000000000000000000000000000000000000000000000000000000000000000000000000000000000000000000000000000000000000000000000000000000000000000000000000000000000000000000000000000000000000000000000000000000000000000000000000000000000000000000000000000000000000000000000000000000000000000000000000000000000000000000000000000nat);
    lemma_pow10_add(323, 1);
    assert(pow10(1) == 10);
    assert(pow10(324) == 1000000000000000000000000000000000000000000000000000000000000000000000000000000000000000000000000000000000000000000000000000000000000000000000000000000000000000000000000000000000000000000000000000000000000000000000000000000000000000000000000000000000000000000000000000000000000000000000000000000000000000000000000000000000000nat);
}

/// `0.ds × 10^point` is at most 2^-1075, half the least positive double,
/// so that it rounds to zero when read as a double.
pub open spec fn rounds_to_zero(ds: Seq<u8>, point: int) -> bool {
    let n = ds.len() as int;
    if point >= n {
        digits_value(ds) == 0
    } else {
        digits_value(ds) * two_pow(1075) <= pow10((n - point) as nat)
    }
}

proof fn lemma_digits_value_single(d: u8)
    ensures
        digits_value(seq![d]) == d as nat,
{
    assert(seq![d].drop_last() =~= Seq::<u8>::empty());
    assert(seq![d].last() == d);
    assert(digits_value(Seq::<u8>::empty()) == 0);
}

/// The decimal digits of twice the number `ds` writes, one digit longer.
fn double_digits(ds: &Vec<u8>) -> (r: Vec<u8>)
    requires
        all_digits(ds@),
    ensures
        all_digits(r@),
        r@.len() == ds@.len() + 1,
        digits_value(r@) == 2 * digits_value(ds@),
{
    let n = ds.len();
    let mut r: Vec<u8> = Vec::new();
    r.push(0);
    let mut i: usize = 0;
    while i < n
        invariant
            i <= n == ds@.len(),
            r@.len() == i + 1,
            forall|k: int| 0 <= k < r@.len() ==> r@[k] == 0,
        decreases n - i,
    {
        r.push(0);
        i = i + 1;
    }
    let mut carry: u8 = 0;
    let mut i: usize = n;
    proof {
        assert(r@.subrange(n + 1, n + 1) =~= Seq::<u8>::empty());
        assert(ds@.subrange(n as int, n as int) =~= Seq::<u8>::empty());
        assert(pow10(0) == 1);
    }
    while i > 0
        invariant
            i <= n == ds@.len(),
            r@.len() == n + 1,
            all_digits(ds@),
            all_digits(r@),
            carry <= 1,
            digits_value(r@.subrange(i + 1, n + 1)) + carry * pow10((n - i) as nat) == 2
                * digits_value(ds@.subrange(i as int, n as int)),
        decreases i,
    {
        let d = ds[i - 1];
        proof {
            assert(ds@[i - 1] < 10);
        }
        let v: u8 = 2 * d + carry;
        let ghost old_r = r@;
        r.set(i, v % 10);
        proof {
            let p = pow10((n - i) as nat);
            let rest = old_r.subrange(i + 1, n + 1);
            assert(r@.subrange(i as int, n + 1) =~= seq![v % 10] + rest);
            assert(r@.subrange(i + 1, n + 1) =~= rest);
            lemma_digits_value_concat(seq![v % 10], rest);
            lemma_digits_value_single(v % 10);
            let tail = ds@.subrange(i as int, n as int);
            assert(ds@.subrange(i - 1, n as int) =~= seq![d] + tail);
            lemma_digits_value_concat(seq![d], tail);
            lemma_digits_value_single(d);
            assert(rest.len() == n - i);
            assert(tail.len() == n - i);
            assert(pow10((n - (i - 1)) as nat) == 10 * p);
            assert((v % 10) as nat * p + (v / 10) as nat * (10 * p) == v as nat * p) by (nonlinear_arith)
                requires
                    v as nat == (v / 10) as nat * 10 + (v % 10) as nat,
            ;
            assert(v as nat * p == 2 * (d as nat * p) + carry * p) by (nonlinear_arith)
                requires
                    v as nat == 2 * d as nat + carry as nat,
            ;
            assert forall|k: int| 0 <= k < r@.len() implies #[trigger] r@[k] < 10 by {
                if k != i {
                    assert(r@[k] == old_r[k]);
                }
            }
        }
        carry = v / 10;
        i = i - 1;
    }
    let ghost old_r = r@;
    r.set(0, carry);
    proof {
        let rest = old_r.subrange(1, n + 1);
        assert(r@ =~= seq![carry] + rest);
        lemma_digits_value_concat(seq![carry], rest);
        lemma_digits_value_single(carry);
        assert(ds@.subrange(0, n as int) =~= ds@);
        assert forall|k: int| 0 <= k < r@.len() implies #[trigger] r@[k] < 10 by {
            if k != 0 {
                assert(r@[k] == old_r[k]);
            }
        }
    }
    r
}

/// The decimal digits of the number `ds` writes times `2^k`.
fn times_two_pow(ds: &Vec<u8>, k: usize) -> (m: Vec<u8>)
    requires
        all_digits(ds@),
        k >= 1,
    ensures
        all_digits(m@),
        digits_value(m@) == digits_value(ds@) * two_pow(k as nat),
{
    let mut m = double_digits(ds);
    let mut c: usize = 1;
    proof {
        assert(two_pow(1) == 2) by {
            assert(two_pow(0) == 1);
        }
    }
    while c < k
        invariant
            1 <= c <= k,
            all_digits(m@),
            digits_value(m@) == digits_value(ds@) * two_pow(c as nat),
        decreases k - c,
    {
        m = double_digits(&m);
        proof {
            assert(two_pow((c + 1) as nat) == 2 * two_pow(c as nat));
            assert(2 * (digits_value(ds@) * two_pow(c as nat)) == digits_value(ds@) * (2 * two_pow(
                c as nat,
            ))) by (nonlinear_arith);
        }
        c = c + 1;
    }
    m
}

proof fn lemma_leading_digit_bounds(ds: Seq<u8>)
    requires
        all_digits(ds),
        ds.len() >= 1,
        ds[0] >= 1,
    ensures
        pow10((ds.len() - 1) as nat) <= digits_value(ds) < pow10(ds.len()),
        digits_value(ds) == pow10((ds.len() - 1) as nat) <==> (ds[0] == 1 && forall|i: int|
            1 <= i < ds.len() ==> #[trigger] ds[i] == 0),
{
    let rest = ds.subrange(1, ds.len() as int);
    assert(ds =~= seq![ds[0]] + rest);
    lemma_digits_value_concat(seq![ds[0]], rest);
    lemma_digits_value_single(ds[0]);
    lemma_digits_value_bound(ds);
    assert(all_digits(rest)) by {
        assert forall|i: int| 0 <= i < rest.len() implies #[trigger] rest[i] < 10 by {
            assert(rest[i] == ds[i + 1]);
        }
    }
    lemma_digits_value_bound(rest);
    lemma_digits_value_zero(rest);
    let p = pow10(rest.len());
    let r = digits_value(rest);
    let d = ds[0] as nat;
    assert(d * p + r >= p) by (nonlinear_arith)
        requires
            d >= 1,
    ;
    if d >= 2 {
        assert(d * p + r >= 2 * p) by (nonlinear_arith)
            requires
                d >= 2,
        ;
        lemma_pow10_positive(rest.len());
    }
    let all_zero = forall|i: int| 1 <= i < ds.len() ==> #[trigger] ds[i] == 0;
    if all_zero {
        assert forall|i: int| 0 <= i < rest.len() implies #[trigger] rest[i] == 0 by {
            assert(rest[i] == ds[i + 1]);
        }
        assert(r == 0);
    }
    if r == 0 {
        assert forall|i: int| 1 <= i < ds.len() implies #[trigger] ds[i] == 0 by {
            assert(rest[i - 1] == ds[i]);
        }
    }
    assert(digits_value(ds) == d * p + r);
    if digits_value(ds) == p {
        assert(d == 1);
        assert(r == 0) by (nonlinear_arith)
            requires
                d * p + r == p,
                d == 1,
        ;
    }
    if d == 1 && all_zero {
        assert(d * p + r == p) by (nonlinear_arith)
            requires
                d == 1,
                r == 0,
        ;
    }
}

/// Whether the number `m` writes is at most `10^j`.
fn at_most_power_of_ten(m: &Vec<u8>, j: u128) -> (b: bool)
    requires
        all_digits(m@),
    ensures
        b == (digits_value(m@) <= pow10(j as nat)),
{
    let len = m.len();
    let mut f: usize = 0;
    while f < len && m[f] == 0
        invariant
            f <= len == m@.len(),
            forall|k: int| 0 <= k < f ==> m@[k] == 0,
        decreases len - f,
    {
        f = f + 1;
    }
    let ghost zeros = m@.subrange(0, f as int);
    let ghost sig = m@.subrange(f as int, len as int);
    proof {
        assert(m@ =~= zeros + sig);
        lemma_digits_value_concat(zeros, sig);
        lemma_digits_value_zero(zeros);
        assert forall|i: int| 0 <= i < zeros.len() implies #[trigger] zeros[i] == 0 by {
            assert(zeros[i] == m@[i]);
        }
        assert(digits_value(zeros) == 0);
        assert(digits_value(m@) == digits_value(sig));
        assert(all_digits(sig)) by {
            assert forall|i: int| 0 <= i < sig.len() implies #[trigger] sig[i] < 10 by {
                assert(sig[i] == m@[f + i]);
            }
        }
    }
    if f == len {
        proof {
            assert(sig =~= Seq::<u8>::empty());
            lemma_pow10_positive(j as nat);
        }
        return true;
    }
    let s: usize = len - f;
    proof {
        assert(sig[0] == m@[f as int]);
        lemma_leading_digit_bounds(sig);
        assert(sig.len() == s);
    }
    if (s as u128) <= j {
        proof {
            lemma_pow10_monotone(s as nat, j as nat);
        }
        return true;
    }
    if (s as u128) - 1 > j {
        proof {
            lemma_pow10_monotone((j + 1) as nat, (s - 1) as nat);
            assert(pow10((j + 1) as nat) == 10 * pow10(j as nat));
            lemma_pow10_positive(j as nat);
        }
        return false;
    }
    // exactly `j + 1` significant digits: at most 10^j only when it is 10^j
    if m[f] != 1 {
        return false;
    }
    let mut i: usize = f + 1;
    while i < len
        invariant
            f < i <= len == m@.len(),
            forall|k: int| f < k < i ==> m@[k] == 0,
            sig == m@.subrange(f as int, len as int),
            sig.len() == s,
            (s as u128) - 1 == j,
            all_digits(sig),
            sig[0] == 1,
            digits_value(m@) == digits_value(sig),
            pow10((sig.len() - 1) as nat) <= digits_value(sig),
            digits_value(sig) == pow10((sig.len() - 1) as nat) <==> (sig[0] == 1 && forall|k: int|
                1 <= k < sig.len() ==> #[trigger] sig[k] == 0),
        decreases len - i,
    {
        if m[i] != 0 {
            proof {
                assert(sig[i - f] == m@[i as int]);
            }
            return false;
        }
        i = i + 1;
    }
    proof {
        assert forall|k: int| 1 <= k < sig.len() implies #[trigger] sig[k] == 0 by {
            assert(sig[k] == m@[f + k]);
        }
        assert(sig[0] == 1);
    }
    true
}

/// Whether `0.ds × 10^point` rounds to zero as a double.
fn below_half_tiniest(ds: &Vec<u8>, point: i128) -> (b: bool)
    requires
        all_digits(ds@),
        -point_bound() <= point <= point_bound(),
    ensures
        b == rounds_to_zero(ds@, point as int),
{
    let n = ds.len();
    let nonzero = any_nonzero(ds);
    if point >= n as i128 {
        return !nonzero;
    }
    if !nonzero {
        proof {
            assert(digits_value(ds@) * two_pow(1075) == 0) by (nonlinear_arith)
                requires
                    digits_value(ds@) == 0,
            ;
        }
        return true;
    }
    let j: i128 = n as i128 - point;
    let ghost dv = digits_value(ds@);
    proof {
        lemma_half_tiniest_bounds();
        lemma_two_pow_positive(1075);
        assert(dv * two_pow(1075) >= two_pow(1075)) by (nonlinear_arith)
            requires
                dv >= 1,
        ;
    }
    if j <= 323 {
        proof {
            lemma_pow10_monotone(j as nat, 323);
        }
        return false;
    }
    if j >= n as i128 + 324 {
        proof {
            lemma_digits_value_bound(ds@);
            lemma_pow10_add(n as nat, 324);
            assert(dv * two_pow(1075) < pow10(n as nat) * pow10(324)) by (nonlinear_arith)
                requires
                    dv < pow10(n as nat),
                    two_pow(1075) < pow10(324),
                    two_pow(1075) >= 1,
            ;
            lemma_pow10_monotone((n + 324) as nat, j as nat);
        }
        return true;
    }
    let m = times_two_pow(ds, 1075);
    at_most_power_of_ten(&m, j as u128)
}

/// Capping the exponent does not change whether a number rounds to zero.
proof fn lemma_clamp_exponent_keeps_zero(ds: Seq<u8>, a: int, e: int)
    requires
        all_digits(ds),
        0 <= a <= usize::MAX,
        ds.len() <= usize::MAX,
    ensures
        rounds_to_zero(ds, a + e) == rounds_to_zero(ds, a + clamp_exponent(e)),
{
    let n = ds.len() as int;
    let dv = digits_value(ds);
    let cap = exponent_cap();
    if e < -cap {
        let p1 = a + e;
        let p2 = a - cap;
        lemma_half_tiniest_bounds();
        lemma_two_pow_positive(1075);
        lemma_digits_value_bound(ds);
        lemma_pow10_add(n as nat, 324);
        assert(dv * two_pow(1075) < pow10(n as nat) * pow10(324)) by (nonlinear_arith)
            requires
                dv < pow10(n as nat),
                two_pow(1075) < pow10(324),
                two_pow(1075) >= 1,
        ;
        lemma_pow10_monotone((n + 324) as nat, (n - p1) as nat);
        lemma_pow10_monotone((n + 324) as nat, (n - p2) as nat);
    }
}

/// Capping the exponent does not change the byte count.
proof fn lemma_clamp_exponent_harmless(ds: Seq<u8>, a: int, e: int, unit: nat)
    requires
        all_digits(ds),
        0 <= a <= usize::MAX,
        ds.len() <= usize::MAX,
        1 <= unit <= 0x4000_0000,
    ensures
        double_bytes(ds, a + e, unit) == double_bytes(ds, a + clamp_exponent(e), unit),
{
    let n = ds.len() as int;
    let dv = digits_value(ds);
    let cap = exponent_cap();
    let scale = unit * 0x40_0000_0000_0000;
    lemma_pow10_big();
    if e > cap {
        let p1 = a + e;
        let p2 = a + cap;
        if dv == 0 {
            let q1 = pow10((p1 - n) as nat);
            let q2 = pow10((p2 - n) as nat);
            assert(dv * q1 * scale == 0) by (nonlinear_arith)
                requires
                    dv == 0,
            ;
            assert(dv * q2 * scale == 0) by (nonlinear_arith)
                requires
                    dv == 0,
            ;
        } else {
            lemma_pow10_monotone(36, (p2 - n) as nat);
            lemma_pow10_monotone(36, (p1 - n) as nat);
            assert(dv * pow10((p1 - n) as nat) * scale >= pow10((p1 - n) as nat)) by (nonlinear_arith)
                requires
                    dv >= 1,
                    scale >= 1,
            ;
            assert(dv * pow10((p2 - n) as nat) * scale >= pow10((p2 - n) as nat)) by (nonlinear_arith)
                requires
                    dv >= 1,
                    scale >= 1,
            ;
            lemma_round_big(scaled_floor(ds, p1, scale), !scaled_exact(ds, p1, scale));
            lemma_round_big(scaled_floor(ds, p2, scale), !scaled_exact(ds, p2, scale));
        }
    } else if e < -cap {
        let p1 = a + e;
        let p2 = a - cap;
        lemma_digits_value_bound(ds);
        lemma_pow10_add(n as nat, 26);
        assert(dv * scale < pow10(n as nat) * pow10(26)) by (nonlinear_arith)
            requires
                dv < pow10(n as nat),
                scale < pow10(26),
                scale >= 1,
        ;
        lemma_pow10_monotone((n + 26) as nat, (n - p1) as nat);
        lemma_pow10_monotone((n + 26) as nat, (n - p2) as nat);
        lemma_pow10_positive((n - p1) as nat);
        lemma_pow10_positive((n - p2) as nat);
        lemma_small_div_zero((dv * scale) as int, pow10((n - p1) as nat) as int);
        lemma_small_div_zero((dv * scale) as int, pow10((n - p2) as nat) as int);
    }
}

proof fn lemma_small_div_zero(x: int, d: int)
    requires
        0 <= x < d,
    ensures
        x / d == 0,
{
    assert(x / d == 0) by (nonlinear_arith)
        requires
            0 <= x < d,
    ;
}

proof fn lemma_digits_value_zero(ds: Seq<u8>)
    ensures
        digits_value(ds) == 0 <==> forall|i: int| 0 <= i < ds.len() ==> #[trigger] ds[i] == 0,
    decreases ds.len(),
{
    if ds.len() > 0 {
        let p = ds.drop_last();
        lemma_digits_value_zero(p);
        if forall|i: int| 0 <= i < ds.len() ==> #[trigger] ds[i] == 0 {
            assert forall|i: int| 0 <= i < p.len() implies #[trigger] p[i] == 0 by {
                assert(p[i] == ds[i]);
            }
            assert(ds[ds.len() - 1] == 0);
        }
        if digits_value(ds) == 0 {
            assert forall|i: int| 0 <= i < ds.len() implies #[trigger] ds[i] == 0 by {
                if i < p.len() {
                    assert(p[i] == ds[i]);
                }
            }
        }
    }
}

fn any_nonzero(ds: &Vec<u8>) -> (b: bool)
    ensures
        b == (digits_value(ds@) > 0),
{
    proof {
        lemma_digits_value_zero(ds@);
    }
    let mut i: usize = 0;
    while i < ds.len()
        invariant
            i <= ds@.len(),
            forall|j: int| 0 <= j < i ==> ds@[j] == 0,
        decreases ds@.len() - i,
    {
        if ds[i] != 0 {
            proof {
                lemma_digits_value_zero(ds@);
            }
            return true;
        }
        i = i + 1;
    }
    false
}


} // verus!

verus! {

/// The text of a size without its unit letter, and that letter.
fn split_unit(t: &str) -> (r: (Vec<char>, Option<char>))
    requires
        t@.len() > 0,
    ensures
        is_ascii_letter(t@.last()) ==> r.0@ == t@.drop_last() && r.1 == Some(t@.last()),
        !is_ascii_letter(t@.last()) ==> r.0@ == t@ && r.1 is None,
{
    let v = crate::text::chars_of(t);
    let n = v.len();
    let last = v[n - 1];
    let has_suffix = ('a' <= last && last <= 'z') || ('A' <= last && last <= 'Z');
    let stop = if has_suffix {
        n - 1
    } else {
        n
    };
    let mut num: Vec<char> = Vec::new();
    let mut i: usize = 0;
    while i < stop
        invariant
            i <= stop <= n == v@.len(),
            num@ == v@.take(i as int),
        decreases stop - i,
    {
        num.push(v[i]);
        proof {
            assert(v@.take(i + 1) =~= v@.take(i as int).push(v@[i as int]));
        }
        i = i + 1;
    }
    proof {
        if has_suffix {
            assert(num@ =~= t@.drop_last());
        } else {
            assert(num@ =~= t@);
        }
    }
    (num, if has_suffix { Some(last) } else { None })
}

fn unit_for(suffix: Option<char>) -> (u: Option<u64>)
    ensures
        match unit_of(suffix) {
            Some(m) => u == Some(m as u64),
            None => u is None,
        },
{
    match suffix {
        None => Some(1),
        Some(c) => if c == 'b' {
            Some(1)
        } else if c == 'k' {
            Some(1024)
        } else if c == 'm' {
            Some(1048576)
        } else if c == 'g' {
            Some(1073741824)
        } else {
            None
        },
    }
}

fn number_negative(p: &ParsedNumber, Ghost(x): Ghost<NumberText>) -> (b: bool)
    requires
        parsed_matches(*p, x),
        p matches ParsedNumber::Finite { digits, .. } ==> all_digits(digits@),
    ensures
        b == number_is_negative(x),
{
    match p {
        ParsedNumber::Finite { negative, digits, int_len, exponent } => {
            let dlen = digits.len();
            proof {
                let e = choose|e: int|
                    *negative == x->Finite_negative && digits@ == x->Finite_digits && #[trigger] clamp_exponent(e)
                        == *exponent && x->Finite_point == *int_len + e;
                lemma_clamp_exponent_keeps_zero(digits@, *int_len as int, e);
            }
            *negative && !below_half_tiniest(digits, *int_len as i128 + *exponent)
        },
        ParsedNumber::Infinite { negative } => *negative,
        ParsedNumber::NotANumber => false,
    }
}

fn number_byte_count(p: ParsedNumber, unit: u64, Ghost(x): Ghost<NumberText>) -> (r: u64)
    requires
        parsed_matches(p, x),
        p matches ParsedNumber::Finite { digits, .. } ==> all_digits(digits@),
        1 <= unit <= 0x4000_0000,
    ensures
        r == number_bytes(x, unit as nat),
{
    match p {
        ParsedNumber::Finite { negative, digits, int_len, exponent } => {
            let dlen = digits.len();
            proof {
                let e = choose|e: int|
                    negative == x->Finite_negative && digits@ == x->Finite_digits && #[trigger] clamp_exponent(e)
                        == exponent && x->Finite_point == int_len + e;
                lemma_clamp_exponent_harmless(digits@, int_len as int, e, unit as nat);
            }
            double_byte_count(&digits, int_len as i128 + exponent, unit)
        },
        ParsedNumber::Infinite { .. } => u64::MAX,
        ParsedNumber::NotANumber => 0,
    }
}

/// Reads a size written as a trimmed, lowercased text: a number as
/// `str::parse::<f64>` reads it, optionally followed by one ASCII letter
/// naming the unit. The number is rounded to the nearest double, as the
/// parse does, multiplied by the unit, rounded down and capped at
/// `u64::MAX`.
pub fn parse_size_text(t: &str) -> (r: Result<u64, ShrinkError>)
    ensures
        size_result_is(r, size_outcome(t@)),
{
    if t.is_empty() {
        return Err(ShrinkError::BadArgument(String::from_str("empty size")));
    }
    let (num, suffix) = split_unit(t);
    let parsed = parse_number(&num);
    proof {
        assert(num@ == if is_ascii_letter(t@.last()) {
            t@.drop_last()
        } else {
            t@
        });
    }
    match parsed {
        None => {
            let mut m = String::from_str("invalid size: ");
            m.append(t);
            Err(ShrinkError::BadArgument(m))
        },
        Some(p) => {
            let ghost x = number_text(num@).unwrap();
            if number_negative(&p, Ghost(x)) {
                let mut m = String::from_str("negative size: ");
                m.append(t);
                return Err(ShrinkError::BadArgument(m));
            }
            match unit_for(suffix) {
                None => {
                    let mut m = String::from_str("unknown size suffix: ");
                    match suffix {
                        Some(c) => m.push(c),
                        None => {},
                    }
                    assert(m@ =~= "unknown size suffix: "@ + seq![t@.last()]);
                    Err(ShrinkError::BadArgument(m))
                },
                Some(unit) => {
                    Ok(number_byte_count(p, unit, Ghost(x)))
                },
            }
        },
    }
}

} // verus!

verus! {

proof fn lemma_digit_run_whole(s: Seq<char>, i: int)
    requires
        0 <= i <= s.len(),
        forall|k: int| 0 <= k < s.len() ==> is_digit_char(#[trigger] s[k]),
    ensures
        digit_run_from(s, i) == s.len() - i,
    decreases s.len() - i,
{
    if i < s.len() {
        lemma_digit_run_whole(s, i + 1);
    }
}

pub proof fn lemma_two_pow_add(a: nat, b: nat)
    ensures
        two_pow(a + b) == two_pow(a) * two_pow(b),
    decreases b,
{
    if b > 0 {
        lemma_two_pow_add(a, (b - 1) as nat);
        assert((a + b - 1) as nat == a + (b - 1) as nat);
        let x = two_pow(a);
        let y = two_pow((b - 1) as nat);
        assert(x * (2 * y) == 2 * (x * y)) by (nonlinear_arith);
    } else {
        assert(a + b == a);
        assert(two_pow(a) * 1 == two_pow(a));
    }
}

/// A whole number `v × 2^t` with `v` below 2^53 is a double: rounding it
/// to a 53-bit significand leaves it as it is.
pub proof fn lemma_round_whole(v: nat, t: nat, inexact: bool)
    requires
        1 <= v < 0x20_0000_0000_0000,
        v * two_pow(t) >= 0x20_0000_0000_0000,
    ensures
        round_significand(v * two_pow(t), inexact) == v * two_pow(t),
{
    let big_p = two_pow(t);
    let a = v * big_p;
    lemma_excess_bits_range(a);
    let k = excess_bits(a);
    let p = two_pow(k);
    lemma_two_pow_positive(k);
    lemma_two_pow_positive(t);
    if k > t {
        lemma_two_pow_monotone(t + 1, k);
        assert(two_pow(t + 1) == 2 * big_p);
        vstd::arithmetic::div_mod::lemma_div_is_ordered_by_denominator(a as int, (2 * big_p) as int, p as int);
        lemma_div_denominator(a as int, big_p as int, 2);
        assert(big_p * v == a) by (nonlinear_arith)
            requires
                a == v * big_p,
        ;
        vstd::arithmetic::div_mod::lemma_div_multiples_vanish(v as int, big_p as int);
        assert(big_p * 2 == 2 * big_p);
        assert(a / (2 * big_p) == v / 2);
        assert(false);
    }
    let j = (t - k) as nat;
    lemma_two_pow_add(j, k);
    assert(j + k == t);
    let w = v * two_pow(j);
    assert(a == w * p) by (nonlinear_arith)
        requires
            a == v * big_p,
            big_p == two_pow(j) * p,
            w == v * two_pow(j),
    ;
    vstd::arithmetic::div_mod::lemma_mod_multiples_basic(w as int, p as int);
    assert(p * w == a) by (nonlinear_arith)
        requires
            a == w * p,
    ;
    vstd::arithmetic::div_mod::lemma_div_multiples_vanish(w as int, p as int);
    assert(two_pow(1) == 2) by {
        assert(two_pow(0) == 1);
    }
    lemma_two_pow_monotone(1, k);
    assert(a % p == 0);
    assert(a / p == w);
    assert(round_significand(a, inexact) == w * p);
}

proof fn lemma_unit_powers()
    ensures
        two_pow(54) == 0x40_0000_0000_0000,
        two_pow(10) == 1024,
        two_pow(20) == 1048576,
        two_pow(30) == 1073741824,
        two_pow(64) == 0x1_0000_0000_0000_0000,
        two_pow(84) == 0x10_0000_0000_0000_0000_0000,
{
    reveal_with_fuel(two_pow, 11);
    assert(two_pow(4) == 16);
    assert(two_pow(10) == 1024);
    lemma_two_pow_add(10, 10);
    assert(two_pow(20) == 1048576);
    lemma_two_pow_add(20, 10);
    assert(two_pow(30) == 1073741824);
    lemma_two_pow_add(30, 20);
    assert(two_pow(50) == 0x4_0000_0000_0000);
    lemma_two_pow_add(50, 4);
    assert(two_pow(54) == 0x40_0000_0000_0000);
    lemma_two_pow_add(54, 10);
    assert(two_pow(64) == 0x1_0000_0000_0000_0000);
    lemma_two_pow_add(64, 20);
}

/// A whole number of bytes below 2^53, times a unit of `2^j` bytes with
/// `j` at most 30, is what [`double_bytes`] gives for it.
proof fn lemma_whole_double_bytes(ds: Seq<u8>, j: nat)
    requires
        digits_value(ds) < 0x20_0000_0000_0000,
        j <= 30,
    ensures
        double_bytes(ds, ds.len() as int, two_pow(j)) == saturate(digits_value(ds) * two_pow(j)),
{
    let v = digits_value(ds);
    let u = two_pow(j);
    lemma_unit_powers();
    lemma_two_pow_add(j, 54);
    lemma_two_pow_monotone(j, 30);
    lemma_two_pow_positive(j);
    let scale = u * 0x40_0000_0000_0000;
    assert(pow10(0) == 1);
    assert(scaled_floor(ds, ds.len() as int, scale) == v * 1 * scale);
    assert(v * 1 * scale == v * two_pow(j + 54)) by (nonlinear_arith)
        requires
            scale == u * 0x40_0000_0000_0000,
            two_pow(j + 54) == u * 0x40_0000_0000_0000,
    ;
    if v >= 1 {
        assert(v * two_pow(j + 54) >= two_pow(j + 54)) by (nonlinear_arith)
            requires
                v >= 1,
        ;
        lemma_two_pow_monotone(54, j + 54);
        lemma_round_whole(v, j + 54, !scaled_exact(ds, ds.len() as int, scale));
        assert(v * two_pow(j + 54) == (v * u) * 0x40_0000_0000_0000) by (nonlinear_arith)
            requires
                two_pow(j + 54) == u * 0x40_0000_0000_0000,
        ;
        vstd::arithmetic::div_mod::lemma_div_multiples_vanish((v * u) as int, 0x40_0000_0000_0000);
        assert(0x40_0000_0000_0000 * (v * u) == (v * u) * 0x40_0000_0000_0000) by (nonlinear_arith);
    } else {
        assert(v == 0);
        assert(v * two_pow(j + 54) == 0) by (nonlinear_arith)
            requires
                v == 0,
        ;
        assert(v * u == 0) by (nonlinear_arith)
            requires
                v == 0,
        ;
    }
}

/// Whole numbers: a size written with decimal digits only, below 2^53
/// (where every whole number is exactly a double), is that many bytes,
/// and the same digits followed by `b`, `k`, `m` or `g` are that many
/// bytes, kibibytes, mebibytes or gibibytes (capped at `u64::MAX`).
pub proof fn law_whole_number_sizes(d: Seq<char>, unit: char)
    requires
        d.len() > 0,
        forall|k: int| 0 <= k < d.len() ==> is_digit_char(#[trigger] d[k]),
        digits_value(digits_between(d, 0, d.len() as int)) < 0x20_0000_0000_0000,
        unit == 'b' || unit == 'k' || unit == 'm' || unit == 'g',
    ensures
        size_outcome(d) == Ok::<u64, Seq<char>>(saturate(digits_value(digits_between(d, 0, d.len() as int)))),
        size_outcome(d.push(unit)) == Ok::<u64, Seq<char>>(
            saturate(digits_value(digits_between(d, 0, d.len() as int)) * unit_of(Some(unit)).unwrap()),
        ),
{
    lemma_digit_run_whole(d, 0);
    let n = d.len() as int;
    let ds = digits_between(d, 0, n);
    assert(!is_ascii_letter(d.last())) by {
        assert(is_digit_char(d[n - 1]));
    }
    assert(d.push(unit).drop_last() =~= d);
    assert(is_digit_char(d[0]));
    assert(decimal_parts(d, 0) == Some((ds, n, 0int)));
    assert(number_text(d) == Some(NumberText::Finite { negative: false, digits: ds, point: n }));
    assert(ds.len() == n);
    let v = digits_value(ds);
    lemma_unit_powers();
    assert(two_pow(0) == 1);
    lemma_whole_double_bytes(ds, 0);
    assert(v * 1 == v);
    let j: nat = if unit == 'b' {
        0
    } else if unit == 'k' {
        10
    } else if unit == 'm' {
        20
    } else {
        30
    };
    lemma_whole_double_bytes(ds, j);
    assert(unit_of(Some(unit)).unwrap() == two_pow(j));
}

} // verus!
