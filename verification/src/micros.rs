//! Numbers of samples as double-precision microseconds and percentiles, in integers.

use vstd::prelude::*;

use crate::binary;
use crate::binary::{nearest_div, round_bits};

verus! {

/// Microseconds per sample, in double precision.
pub open spec fn micros_per_sample(rate: u64) -> binary::Binary {
    binary::ratio(1_000_000, binary::rounded(rate as nat, 53), 53)
}

/// A number of samples in double-precision microseconds, as a multiple of two to
/// the exponent of `micros_per_sample`.
pub open spec fn micros(samples: u64, rate: u64) -> nat {
    binary::rounded(binary::rounded(samples as nat, 53) * micros_per_sample(rate).mant, 53)
}

/// 95 percent in double precision, in units of 2^-53.
pub const P95: u128 = 8_556_839_292_003_942;

/// 99 percent in double precision, in units of 2^-53.
pub const P99: u128 = 8_917_127_262_193_582;

/// `P95` and `P99` are the shares rounded to double precision.
pub proof fn law_percentile_shares()
    ensures
        P95 == binary::nearest(95 * binary::two_to(53) as int, 100),
        P99 == binary::nearest(99 * binary::two_to(53) as int, 100),
        binary::two_to(52) <= P95 < P99 < binary::two_to(53),
{
    binary::lemma_two_to_values();
}

/// Whole part of a share of `n`, in double precision. The share is in units of 2^-53.
pub open spec fn share_of(n: nat, share: nat) -> nat {
    binary::rounded(binary::rounded(n, 53) * share, 53) / binary::two_to(53)
}

/// More samples are no fewer microseconds, and some samples are some microseconds.
pub proof fn law_micros_keep_order(a: u64, b: u64, rate: u64)
    requires
        rate > 0,
        a <= b,
    ensures
        micros(a, rate) <= micros(b, rate),
        micros(a, rate) == 0 <==> a == 0,
{
    let m = micros_per_sample(rate).mant;
    let x = binary::rounded(a as nat, 53);
    let y = binary::rounded(b as nat, 53);
    binary::lemma_rounded_monotone(a as nat, b as nat, 53);
    assert(x * m <= y * m) by (nonlinear_arith)
        requires
            x <= y,
    ;
    binary::lemma_rounded_monotone(x * m, y * m, 53);
    binary::lemma_two_to_values();
    if a == 0 {
        binary::lemma_short_numbers_stay(0, 53);
        assert(x * m == 0) by (nonlinear_arith)
            requires
                x == 0,
        ;
    } else {
        lemma_micros_mantissa(rate);
        binary::lemma_rounded_positive(a as nat, 53);
        assert(x * m > 0) by (nonlinear_arith)
            requires
                x > 0,
                m > 0,
        ;
        binary::lemma_rounded_positive(x * m, 53);
    }
}

/// Twice as many samples are twice as many microseconds.
pub proof fn law_micros_double(n: u64, rate: u64)
    requires
        2 * n <= u64::MAX,
    ensures
        micros((2 * n) as u64, rate) == 2 * micros(n, rate),
{
    let m = micros_per_sample(rate).mant;
    let x = binary::rounded(n as nat, 53);
    binary::lemma_rounded_doubles(n as nat, 53);
    assert((2 * x) * m == 2 * (x * m)) by (nonlinear_arith);
    binary::lemma_rounded_doubles(x * m, 53);
}

/// Of two numbers of samples below 2^50, the larger is more microseconds.
pub proof fn law_micros_tell_samples_apart(a: u64, b: u64, rate: u64)
    requires
        rate > 0,
        a < b < 0x4_0000_0000_0000,
    ensures
        micros(a, rate) < micros(b, rate),
{
    let m = micros_per_sample(rate).mant;
    let w: nat = 0x10_0000_0000_0000;
    binary::lemma_two_to_values();
    lemma_micros_mantissa(rate);
    binary::lemma_short_numbers_stay(a as nat, 53);
    binary::lemma_short_numbers_stay(b as nat, 53);
    let p = a as nat * m;
    let q = b as nat * m;
    binary::lemma_rounded_near(p, 53);
    binary::lemma_rounded_near(q, 53);
    assert(p + m <= q) by (nonlinear_arith)
        requires
            a + 1 <= b,
            p == a as nat * m,
            q == b as nat * m,
    ;
    assert(4 * (q / w) <= m) by (nonlinear_arith)
        requires
            q == b as nat * m,
            4 * b <= w,
            w > 0,
    ;
    assert(p / w <= q / w) by (nonlinear_arith)
        requires
            p <= q,
            w > 0,
    ;
}

/// A number that is short of a multiple of 2^53 by less than four tenths of its
/// own last digit is rounded up to it or beyond.
proof fn lemma_rounded_reaches(p: nat, whole: nat, n: nat)
    requires
        0 < n < 0x2000_0000_0000,
        10 * p + 4 * n >= 10 * (whole * 0x20_0000_0000_0000),
        10 * p >= 9 * (n * 0x20_0000_0000_0000),
        p <= n * 0x20_0000_0000_0000,
    ensures
        binary::rounded(p, 53) >= whole * 0x20_0000_0000_0000,
{
    let d: nat = 0x20_0000_0000_0000;
    let w: nat = 0x10_0000_0000_0000;
    binary::lemma_two_to_values();
    let r = binary::lemma_rounded_unit(p, 53);
    let unit = binary::two_to(r.0);
    let q = r.1;
    binary::lemma_two_to_pos(r.0);
    assert(10 * unit > 9 * n) by (nonlinear_arith)
        requires
            p < unit * d,
            10 * p >= 9 * (n * d),
            d > 0,
    ;
    if r.0 > 0 {
        assert(unit <= 2 * n) by (nonlinear_arith)
            requires
                unit * w <= p,
                p <= n * d,
                d == 2 * w,
                w > 0,
        ;
    }
    if r.0 >= 53 {
        binary::lemma_two_to_monotone(53, r.0);
        assert(false);
    }
    let rest = (53 - r.0) as nat;
    binary::lemma_two_to_add(r.0, rest);
    let c = whole * binary::two_to(rest);
    assert(whole * d == c * unit) by (nonlinear_arith)
        requires
            c == whole * binary::two_to(rest),
            d == unit * binary::two_to(rest),
    ;
    if q < c {
        assert(q * unit + unit <= c * unit) by (nonlinear_arith)
            requires
                q + 1 <= c,
                unit > 0,
        ;
        assert(false);
    }
    assert(c * unit <= q * unit) by (nonlinear_arith)
        requires
            c <= q,
            unit > 0,
    ;
}

/// A share in double precision that is no more than the share, and short of it
/// by no more than four tenths of its last digit, gives the whole part exactly.
proof fn lemma_share_is_exact(n: nat, share: nat, percent: nat)
    requires
        n < 0x2000_0000_0000,
        90 < percent < 100,
        100 * share <= percent * 0x20_0000_0000_0000,
        percent * 0x20_0000_0000_0000 <= 100 * share + 40,
    ensures
        share_of(n, share) == percent * n / 100,
{
    let d: nat = 0x20_0000_0000_0000;
    let w: nat = 0x10_0000_0000_0000;
    binary::lemma_two_to_values();
    binary::lemma_short_numbers_stay(n, 53);
    let p = n * share;
    let r = binary::rounded(p, 53);
    let x = percent * n;
    let whole = x / 100;
    assert(100 * p <= x * d && x * d <= 100 * p + 40 * n) by (nonlinear_arith)
        requires
            p == n * share,
            x == percent * n,
            100 * share <= percent * d,
            percent * d <= 100 * share + 40,
    ;
    assert(100 * whole <= x < 100 * whole + 100);
    if n == 0 {
        assert(p == 0 && x == 0) by (nonlinear_arith)
            requires
                n == 0,
                p == n * share,
                x == percent * n,
        ;
        binary::lemma_short_numbers_stay(0, 53);
    } else {
        assert(91 * n <= x <= 99 * n) by (nonlinear_arith)
            requires
                x == percent * n,
                91 <= percent <= 99,
        ;
        lemma_rounded_reaches(p, whole, n);
        binary::lemma_rounded_near(p, 53);
        assert(p / w <= 2 * n) by (nonlinear_arith)
            requires
                p <= n * d,
                d == 2 * w,
                w > 0,
        ;
        assert(r < whole * d + d);
    }
    assert(r / d == whole) by (nonlinear_arith)
        requires
            whole * d <= r < whole * d + d,
            d > 0,
    ;
}

/// The places of the 95th and the 99th percentile among fewer than 2^45 sorted
/// values are 95 and 99 percent of the way through, rounded down.
pub proof fn law_percentiles_are_exact(n: nat)
    requires
        n < 0x2000_0000_0000,
    ensures
        share_of(n, P95 as nat) == 95 * n / 100,
        share_of(n, P99 as nat) == 99 * n / 100,
{
    lemma_share_is_exact(n, P95 as nat, 95);
    lemma_share_is_exact(n, P99 as nat, 99);
}

/// The rate as a double-precision number is positive and not much larger.
proof fn lemma_rate_bounds(rate: u64)
    requires
        rate > 0,
    ensures
        0 < binary::rounded(rate as nat, 53) <= 0x1_0000_0000_0000_1000,
{
    binary::lemma_two_to_values();
    binary::lemma_rounded_positive(rate as nat, 53);
    binary::lemma_rounded_bounds(rate as nat);
}

/// The mantissa of the microseconds per sample has 53 digits, or is one more.
proof fn lemma_micros_mantissa(rate: u64)
    requires
        rate > 0,
    ensures
        0x10_0000_0000_0000 <= micros_per_sample(rate).mant <= 0x20_0000_0000_0000,
{
    lemma_rate_bounds(rate);
    binary::lemma_two_to_values();
    let b = binary::rounded(rate as nat, 53);
    binary::lemma_exponent_exists(1_000_000, b);
    let l = binary::exponent(1_000_000, b);
    if l >= 20 {
        binary::lemma_two_to_monotone(20, l as nat);
        reveal_with_fuel(binary::two_to, 21);
        let x = binary::two_to(l as nat);
        assert(x * b > 1_000_000) by (nonlinear_arith)
            requires
                x >= 1_048_576,
                b >= 1,
        ;
        assert(false);
    }
    let shift = (52 - l) as nat;
    let z = binary::two_to(shift);
    let a = 1_000_000 * z;
    if l >= 0 {
        let x = binary::two_to(l as nat);
        let y = binary::two_to((l + 1) as nat);
        binary::lemma_two_to_add(l as nat, shift);
        binary::lemma_two_to_pos(shift);
        assert(l as nat + shift == 52);
        assert(0x10_0000_0000_0000 * b <= a && a < 0x20_0000_0000_0000 * b) by (nonlinear_arith)
            requires
                x * b <= 1_000_000,
                1_000_000 < y * b,
                y == 2 * x,
                x * z == 0x10_0000_0000_0000,
                a == 1_000_000 * z,
                z > 0,
        ;
    } else {
        let x = binary::two_to((-l) as nat);
        binary::lemma_two_to_add((-l) as nat, 52);
        assert((-l) as nat + 52 == shift);
        assert(0x10_0000_0000_0000 * b <= a && a < 0x20_0000_0000_0000 * b) by (nonlinear_arith)
            requires
                b <= 1_000_000 * x,
                1_000_000 * x < 2 * b,
                z == x * 0x10_0000_0000_0000,
                a == 1_000_000 * z,
        ;
    }
    binary::lemma_nearest_bounds(a as int, b as int);
    let q = a as int / b as int;
    assert(0x10_0000_0000_0000 <= q && q < 0x20_0000_0000_0000) by (nonlinear_arith)
        requires
            q == a as int / b as int,
            0x10_0000_0000_0000 * b <= a,
            a < 0x20_0000_0000_0000 * b,
            b > 0,
    ;
}

/// Mantissa of the microseconds per sample.
pub fn micros_mantissa(rate: u64) -> (mant: u128)
    requires
        rate > 0,
    ensures
        mant == micros_per_sample(rate).mant,
        mant <= 0x20_0000_0000_0000,
{
    let b: u128 = round_bits(rate as u128, 53);
    proof {
        lemma_rate_bounds(rate);
    }
    let low: u128 = b * 0x10_0000_0000_0000;
    let mut a: u128 = 1_000_000;
    let ghost mut shift: nat = 0;
    proof {
        assert(binary::two_to(0) == 1);
    }
    while a < low
        invariant
            a == 1_000_000 * binary::two_to(shift),
            0 < b <= 0x1_0000_0000_0000_1000,
            low == b * 0x10_0000_0000_0000,
            a < 2 * low,
            a > 0,
        decreases 2 * low - a,
    {
        a = a * 2;
        proof {
            shift = shift + 1;
        }
    }
    proof {
        binary::lemma_scaled_exponent(1_000_000, b as nat, shift);
        binary::lemma_exponent(1_000_000, b as nat, 52 - shift);
        lemma_micros_mantissa(rate);
    }
    nearest_div(a, b)
}

/// A number of samples in microseconds, given the mantissa of the microseconds
/// per sample.
pub fn scaled_micros(samples: u64, mant: u128) -> (r: u128)
    requires
        mant <= 0x20_0000_0000_0000,
    ensures
        r == binary::rounded(binary::rounded(samples as nat, 53) * mant as nat, 53),
        r < 0x100_0000_0000_0000_0000_0000_0000_0000,
{
    let x: u128 = round_bits(samples as u128, 53);
    proof {
        binary::lemma_two_to_values();
        binary::lemma_rounded_bounds(samples as nat);
        assert(x * mant <= 0x1_0000_0000_0000_1000 * 0x20_0000_0000_0000) by (nonlinear_arith)
            requires
                0 <= x <= 0x1_0000_0000_0000_1000,
                0 <= mant <= 0x20_0000_0000_0000,
        ;
        binary::lemma_rounded_bounds(x as nat * mant as nat);
    }
    round_bits(x * mant, 53)
}

/// A share of up to 99 percent of `n` is less than `n`.
pub proof fn lemma_share_below(n: nat, share: nat)
    requires
        n > 0,
        share <= P99,
    ensures
        share_of(n, share) < n,
{
    binary::lemma_two_to_values();
    let w: int = 0x10_0000_0000_0000;
    let r = binary::rounded(n, 53);
    let p = r * share;
    let q = binary::rounded(p, 53);
    binary::lemma_rounded_bounds(n);
    binary::lemma_rounded_bounds(p);
    assert(w * r <= n * (w + 1)) by (nonlinear_arith)
        requires
            r <= n + n as int / w,
            w > 0,
    ;
    assert(w * q <= p * (w + 1)) by (nonlinear_arith)
        requires
            q <= p + p as int / w,
            w > 0,
    ;
    assert(w * p <= n * (w + 1) * share) by (nonlinear_arith)
        requires
            w * r <= n * (w + 1),
            p == r * share,
    ;
    assert(w * w * q <= n * (w + 1) * share * (w + 1)) by (nonlinear_arith)
        requires
            w * q <= p * (w + 1),
            w * p <= n * (w + 1) * share,
            w > 0,
    ;
    let c: int = (w + 1) * (w + 1) * P99 as int;
    assert(c < w * w * (2 * w));
    assert(n * (w + 1) * share * (w + 1) <= n * c) by (nonlinear_arith)
        requires
            share <= P99,
            c == (w + 1) * (w + 1) * P99 as int,
            w > 0,
            n > 0,
    ;
    assert(q < n * (2 * w)) by (nonlinear_arith)
        requires
            w * w * q <= n * c,
            c < w * w * (2 * w),
            n > 0,
            w > 0,
    ;
    let d: int = 2 * w;
    assert((q as int / d) < n) by (nonlinear_arith)
        requires
            q < n * d,
            d > 0,
    ;
}

/// Whole part of a share of up to 99 percent of `n`.
pub fn percentile_index(n: usize, share: u128) -> (i: usize)
    requires
        n > 0,
        share <= P99,
    ensures
        i == share_of(n as nat, share as nat),
        i < n,
{
    let x: u128 = round_bits(n as u128, 53);
    proof {
        binary::lemma_two_to_values();
        binary::lemma_rounded_bounds(n as nat);
        assert(x * share <= 0x1_0000_0000_0000_1000 * 0x20_0000_0000_0000) by (nonlinear_arith)
            requires
                0 <= x <= 0x1_0000_0000_0000_1000,
                0 <= share <= 0x20_0000_0000_0000,
        ;
        lemma_share_below(n as nat, share as nat);
    }
    let p: u128 = round_bits(x * share, 53);
    (p / 0x20_0000_0000_0000) as usize
}

/// The mantissa of the microseconds per sample stands for a million over the
/// rate, but for at most three of its units.
proof fn lemma_micros_per_sample_close(rate: u64)
    requires
        rate > 0,
    ensures
        micros_per_sample(rate).exp <= 0,
        ({
            let million = 1_000_000 * binary::two_to((-micros_per_sample(rate).exp) as nat);
            let m = micros_per_sample(rate).mant;
            &&& m * rate <= million + 3 * rate
            &&& million <= m * rate + 3 * rate
        }),
{
    let w: nat = 0x10_0000_0000_0000;
    let b = binary::rounded(rate as nat, 53);
    let m = micros_per_sample(rate).mant;
    binary::lemma_two_to_values();
    lemma_rate_bounds(rate);
    lemma_micros_mantissa(rate);
    let shift = binary::lemma_ratio_close(1_000_000, b);
    let million = 1_000_000 * binary::two_to(shift);
    binary::lemma_rounded_near(rate as nat, 53);
    let e = rate as nat / w;
    assert(w * e <= rate) by (nonlinear_arith)
        requires
            e == rate as nat / w,
            w > 0,
    ;
    assert(m * b <= m * rate + m * e && m * rate <= m * b + m * e) by (nonlinear_arith)
        requires
            b <= rate + e,
            b + e >= rate,
    ;
    assert(m * e <= 2 * rate) by (nonlinear_arith)
        requires
            m <= 2 * w,
            w * e <= rate,
    ;
}

/// Numbers of microseconds are a million times the samples over the rate, but
/// for at most nine units for each sample, where a sample takes more than 2^51
/// units.
pub proof fn law_micros_are_close(n: u64, rate: u64)
    requires
        rate > 0,
    ensures
        ({
            let million = 1_000_000 * binary::two_to((-micros_per_sample(rate).exp) as nat);
            &&& micros(n, rate) * rate <= n * million + 9 * (n * rate)
            &&& n * million <= micros(n, rate) * rate + 9 * (n * rate)
            &&& million > 0x8_0000_0000_0000 * rate
        }),
{
    let w: nat = 0x10_0000_0000_0000;
    let m = micros_per_sample(rate).mant;
    let million = 1_000_000 * binary::two_to((-micros_per_sample(rate).exp) as nat);
    let x = binary::rounded(n as nat, 53);
    let p = x * m;
    let r = micros(n, rate);
    binary::lemma_two_to_values();
    lemma_micros_mantissa(rate);
    lemma_micros_per_sample_close(rate);
    binary::lemma_rounded_near(n as nat, 53);
    binary::lemma_rounded_near(p, 53);
    let e = n as nat / w;
    assert(w * e <= n && e <= n) by (nonlinear_arith)
        requires
            e == n as nat / w,
            w > 0,
    ;
    assert(p <= n * m + e * m && n * m <= p + e * m) by (nonlinear_arith)
        requires
            p == x * m,
            x <= n + e,
            x + e >= n,
    ;
    assert(e * m <= 2 * n) by (nonlinear_arith)
        requires
            m <= 2 * w,
            w * e <= n,
    ;
    assert(p / w <= 2 * x) by (nonlinear_arith)
        requires
            p == x * m,
            m <= 2 * w,
            w > 0,
    ;
    assert(r <= n * m + 6 * n && n * m <= r + 6 * n);
    assert(r * rate <= n * (m * rate) + 6 * (n * rate) && n * (m * rate) <= r * rate + 6 * (n
        * rate)) by (nonlinear_arith)
        requires
            r <= n * m + 6 * n,
            n * m <= r + 6 * n,
    ;
    let q = m * rate;
    assert(n * q <= n * million + 3 * (n * rate) && n * million <= n * q + 3 * (n * rate))
        by (nonlinear_arith)
        requires
            q <= million + 3 * rate,
            million <= q + 3 * rate,
    ;
    assert(q >= w * rate) by (nonlinear_arith)
        requires
            q == m * rate,
            m >= w,
    ;
}

} // verus!
