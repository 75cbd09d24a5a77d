//! Rounding to binary floating point, in integers.
//!
//! A binary number is a mantissa times a power of two. Rounding is to the
//! nearest such number with a given count of significant digits, to the even
//! mantissa where two are equally near.

use vstd::prelude::*;

verus! {

/// Two to the power `n`.
pub open spec fn two_to(n: nat) -> nat
    decreases n,
{
    if n == 0 {
        1
    } else {
        2 * two_to((n - 1) as nat)
    }
}

/// Ten to the power `n`.
pub open spec fn ten_to(n: nat) -> nat
    decreases n,
{
    if n == 0 {
        1
    } else {
        10 * ten_to((n - 1) as nat)
    }
}

/// The integer nearest to `a / b`, the even one where two are equally near.
pub open spec fn nearest(a: int, b: int) -> int {
    let q = a / b;
    let r = a % b;
    if 2 * r < b || (2 * r == b && q % 2 == 0) {
        q
    } else {
        q + 1
    }
}

/// How many low binary digits `n` has beyond the first `p`.
pub open spec fn excess_bits(n: nat, p: nat) -> nat
    decreases n,
{
    if n < two_to(p) || n == 0 {
        0
    } else {
        1 + excess_bits(n / 2, p)
    }
}

/// `n` rounded to `p` significant binary digits.
pub open spec fn rounded(n: nat, p: nat) -> nat {
    let unit = two_to(excess_bits(n, p));
    (nearest(n as int, unit as int) * unit) as nat
}

/// A mantissa times a power of two.
pub struct Binary {
    pub mant: nat,
    pub exp: int,
}

/// Whether `l` is the exponent of `a / b`: 2^l <= a / b < 2^(l + 1).
pub open spec fn is_exponent(a: nat, b: nat, l: int) -> bool {
    if l >= 0 {
        two_to(l as nat) * b <= a < two_to((l + 1) as nat) * b
    } else {
        b <= a * two_to((-l) as nat) < 2 * b
    }
}

/// The exponent of `a / b`.
pub open spec fn exponent(a: nat, b: nat) -> int {
    choose|l: int| is_exponent(a, b, l)
}

/// `a / b` rounded to `p` significant binary digits.
pub open spec fn ratio(a: nat, b: nat, p: nat) -> Binary {
    let shift = p - 1 - exponent(a, b);
    Binary {
        mant: if shift >= 0 {
            nearest((a * two_to(shift as nat)) as int, b as int)
        } else {
            nearest(a as int, (b * two_to((-shift) as nat)) as int)
        } as nat,
        exp: -shift,
    }
}

/// Whole part of `x.mant * factor * 2^x.exp`, the product rounded to `p`
/// significant binary digits.
pub open spec fn scaled_floor(x: Binary, factor: nat, p: nat) -> nat {
    let mant = rounded(x.mant * factor, p);
    if x.exp >= 0 {
        mant * two_to(x.exp as nat)
    } else {
        mant / two_to((-x.exp) as nat)
    }
}

pub proof fn lemma_two_to_pos(n: nat)
    ensures
        two_to(n) > 0,
    decreases n,
{
    if n > 0 {
        lemma_two_to_pos((n - 1) as nat);
    }
}

pub proof fn lemma_two_to_add(a: nat, b: nat)
    ensures
        two_to(a + b) == two_to(a) * two_to(b),
    decreases a,
{
    if a > 0 {
        lemma_two_to_add((a - 1) as nat, b);
        let x = two_to((a - 1) as nat);
        let y = two_to(b);
        let z = two_to(a);
        assert(z * y == 2 * (x * y)) by (nonlinear_arith)
            requires
                z == 2 * x,
        ;
        assert((a - 1) as nat + b == (a + b - 1) as nat);
    } else {
        let z = two_to(a);
        let y = two_to(b);
        assert(z * y == y) by (nonlinear_arith)
            requires
                z == 1,
        ;
    }
}

pub proof fn lemma_two_to_monotone(a: nat, b: nat)
    requires
        a <= b,
    ensures
        two_to(a) <= two_to(b),
    decreases b,
{
    if a < b {
        lemma_two_to_monotone(a, (b - 1) as nat);
    }
}

pub proof fn lemma_two_to_values()
    ensures
        two_to(1) == 2,
        two_to(24) == 0x100_0000,
        two_to(28) == 0x1000_0000,
        two_to(30) == 0x4000_0000,
        two_to(52) == 0x10_0000_0000_0000,
        two_to(53) == 0x20_0000_0000_0000,
        two_to(64) == 0x1_0000_0000_0000_0000,
        two_to(83) == 0x8_0000_0000_0000_0000_0000,
{
    reveal_with_fuel(two_to, 84);
}

pub proof fn lemma_ten_to_pos(n: nat)
    ensures
        ten_to(n) > 0,
    decreases n,
{
    if n > 0 {
        lemma_ten_to_pos((n - 1) as nat);
    }
}

pub proof fn lemma_ten_to_add(a: nat, b: nat)
    ensures
        ten_to(a + b) == ten_to(a) * ten_to(b),
    decreases a,
{
    if a > 0 {
        lemma_ten_to_add((a - 1) as nat, b);
        let x = ten_to((a - 1) as nat);
        let y = ten_to(b);
        let z = ten_to(a);
        assert(z * y == 10 * (x * y)) by (nonlinear_arith)
            requires
                z == 10 * x,
        ;
        assert((a - 1) as nat + b == (a + b - 1) as nat);
    } else {
        let z = ten_to(a);
        let y = ten_to(b);
        assert(z * y == y) by (nonlinear_arith)
            requires
                z == 1,
        ;
    }
}

pub proof fn lemma_ten_to_monotone(a: nat, b: nat)
    requires
        a <= b,
    ensures
        ten_to(a) <= ten_to(b),
    decreases b,
{
    if a < b {
        lemma_ten_to_monotone(a, (b - 1) as nat);
        lemma_ten_to_pos((b - 1) as nat);
    }
}

/// A ratio has at most one exponent.
pub proof fn lemma_exponent_unique(a: nat, b: nat, l: int, m: int)
    requires
        b > 0,
        is_exponent(a, b, l),
        is_exponent(a, b, m),
    ensures
        l == m,
{
    if l < m {
        lemma_exponent_order(a, b, l, m);
    } else if m < l {
        lemma_exponent_order(a, b, m, l);
    }
}

/// A ratio below 2^(l + 1) is not at or above 2^m for a larger m.
proof fn lemma_exponent_order(a: nat, b: nat, l: int, m: int)
    requires
        b > 0,
        l < m,
        is_exponent(a, b, l),
    ensures
        !is_exponent(a, b, m),
{
    if l >= 0 {
        lemma_two_to_monotone((l + 1) as nat, m as nat);
        let x = two_to((l + 1) as nat);
        let y = two_to(m as nat);
        assert(x * b <= y * b) by (nonlinear_arith)
            requires
                x <= y,
        ;
    } else if m >= 0 {
        lemma_two_to_monotone(1, (-l) as nat);
        lemma_two_to_monotone(0, m as nat);
        let x = two_to((-l) as nat);
        let y = two_to(m as nat);
        assert(two_to(1) == 2) by {
            reveal_with_fuel(two_to, 2);
        }
        assert(a * 2 <= a * x) by (nonlinear_arith)
            requires
                2 <= x,
        ;
        assert(b <= y * b) by (nonlinear_arith)
            requires
                1 <= y,
                b > 0,
        ;
    } else {
        lemma_two_to_monotone((-m + 1) as nat, (-l) as nat);
        let x = two_to((-l) as nat);
        let y = two_to((-m) as nat);
        assert(x >= 2 * y);
        assert(a * x >= 2 * (a * y)) by (nonlinear_arith)
            requires
                x >= 2 * y,
        ;
    }
}

/// A number that has an exponent has that one.
pub proof fn lemma_exponent(a: nat, b: nat, l: int)
    requires
        b > 0,
        is_exponent(a, b, l),
    ensures
        exponent(a, b) == l,
{
    let m = exponent(a, b);
    assert(is_exponent(a, b, m));
    lemma_exponent_unique(a, b, l, m);
}

/// Nearest integer to `a / b`, ties to even.
pub fn nearest_div(a: u128, b: u128) -> (n: u128)
    requires
        b > 0,
        a < u128::MAX,
    ensures
        n == nearest(a as int, b as int),
        n <= a / b + 1,
{
    let q: u128 = a / b;
    let r: u128 = a % b;
    proof {
        assert(q <= a) by (nonlinear_arith)
            requires
                q == a / b,
                b > 0,
        ;
    }
    if r < b - r || (r == b - r && q % 2 == 0) {
        q
    } else {
        q + 1
    }
}

/// Rounds `n` to `p` significant binary digits.
pub fn round_bits(n: u128, p: u32) -> (r: u128)
    requires
        0 < p <= 64,
        n < 0x100_0000_0000_0000_0000_0000_0000_0000,
    ensures
        r == rounded(n as nat, p as nat),
{
    let limit: u128 = power_of_two(p);
    let mut t: u128 = n;
    let mut unit: u128 = 1;
    let ghost mut k: nat = 0;
    proof {
        lemma_two_to_monotone(1, p as nat);
        lemma_two_to_values();
        assert(n as int / 1 == n as int);
    }
    while t >= limit
        invariant
            limit == two_to(p as nat),
            limit >= 2,
            unit == two_to(k),
            unit > 0,
            t == n as int / unit as int,
            unit <= n || unit == 1,
            n < 0x100_0000_0000_0000_0000_0000_0000_0000,
            k + excess_bits(t as nat, p as nat) == excess_bits(n as nat, p as nat),
        decreases t,
    {
        proof {
            assert(n as int / (unit * 2) == (n as int / unit as int) / 2) by (nonlinear_arith)
                requires
                    unit > 0,
            ;
            assert(unit * 2 <= n) by (nonlinear_arith)
                requires
                    t == n as int / unit as int,
                    t >= 2,
                    unit > 0,
            ;
            k = k + 1;
        }
        t = t / 2;
        unit = unit * 2;
    }
    let m: u128 = nearest_div(n, unit);
    proof {
        assert(excess_bits(t as nat, p as nat) == 0);
        assert(m * unit <= 2 * n + 1) by (nonlinear_arith)
            requires
                m <= n as int / unit as int + 1,
                unit > 0,
                unit <= n || unit == 1,
        ;
        assert(m * unit >= 0) by (nonlinear_arith)
            requires
                m >= 0,
                unit > 0,
        ;
    }
    m * unit
}

/// Two to the power `n`.
pub fn power_of_two(n: u32) -> (r: u128)
    requires
        n < 100,
    ensures
        r == two_to(n as nat),
        r > 0,
{
    let mut r: u128 = 1;
    let mut i: u32 = 0;
    proof {
        lemma_two_to_bound(n as nat);
    }
    while i < n
        invariant
            i <= n < 100,
            r == two_to(i as nat),
            r > 0,
            two_to(n as nat) < 0x100_0000_0000_0000_0000_0000_0000_0000,
        decreases n - i,
    {
        proof {
            lemma_two_to_monotone((i + 1) as nat, n as nat);
        }
        r = r * 2;
        i = i + 1;
    }
    r
}

/// Powers below 2^100 fit in 128 bits.
proof fn lemma_two_to_bound(n: nat)
    requires
        n < 100,
    ensures
        two_to(n) < 0x100_0000_0000_0000_0000_0000_0000_0000,
{
    lemma_two_to_values();
    lemma_two_to_add(52, 52);
    lemma_two_to_monotone(n, 104);
}

/// A positive ratio has an exponent.
pub proof fn lemma_exponent_exists(a: nat, b: nat)
    requires
        a > 0,
        b > 0,
    ensures
        is_exponent(a, b, exponent(a, b)),
{
    if a >= b {
        let l = lemma_exponent_from_one(a, b);
        assert(is_exponent(a, b, l));
    } else {
        let l = lemma_exponent_below_one(a, b);
        assert(is_exponent(a, b, l));
    }
}

/// Exponent of a ratio of at least one.
proof fn lemma_exponent_from_one(a: nat, b: nat) -> (l: int)
    requires
        0 < b <= a,
    ensures
        l >= 0,
        is_exponent(a, b, l),
    decreases a - b,
{
    reveal_with_fuel(two_to, 2);
    if a < 2 * b {
        let x = two_to(0);
        let y = two_to(1);
        assert(x * b == b && y * b == 2 * b) by (nonlinear_arith)
            requires
                x == 1,
                y == 2,
        ;
        0
    } else {
        let l = lemma_exponent_from_one(a, 2 * b);
        let x = two_to(l as nat);
        let y = two_to((l + 1) as nat);
        let z = two_to((l + 2) as nat);
        assert(x * (2 * b) == y * b) by (nonlinear_arith)
            requires
                y == 2 * x,
        ;
        assert(y * (2 * b) == z * b) by (nonlinear_arith)
            requires
                z == 2 * y,
        ;
        l + 1
    }
}

/// Exponent of a ratio below one.
proof fn lemma_exponent_below_one(a: nat, b: nat) -> (l: int)
    requires
        0 < a < b,
    ensures
        l < 0,
        is_exponent(a, b, l),
    decreases b - a,
{
    reveal_with_fuel(two_to, 2);
    if 2 * a >= b {
        let y = two_to(1);
        assert(a * y == 2 * a) by (nonlinear_arith)
            requires
                y == 2,
        ;
        -1
    } else {
        let l = lemma_exponent_below_one(2 * a, b);
        let x = two_to((-l) as nat);
        let y = two_to((-l + 1) as nat);
        assert((2 * a) * x == a * y) by (nonlinear_arith)
            requires
                y == 2 * x,
        ;
        assert(-(l - 1) == -l + 1);
        l - 1
    }
}

/// The nearest integer is the quotient or one more.
pub proof fn lemma_nearest_bounds(a: int, b: int)
    requires
        a >= 0,
        b > 0,
    ensures
        0 <= a / b <= nearest(a, b) <= a / b + 1,
{
    assert(a / b >= 0) by (nonlinear_arith)
        requires
            a >= 0,
            b > 0,
    ;
}

/// Dropping the excess digits leaves exactly `p` of them.
pub proof fn lemma_excess_bits(n: nat, p: nat)
    requires
        p > 0,
    ensures
        excess_bits(n, p) > 0 ==> two_to(excess_bits(n, p)) * two_to((p - 1) as nat) <= n,
    decreases n,
{
    if n >= two_to(p) && n > 0 {
        let h = n / 2;
        lemma_excess_bits(h, p);
        let k = excess_bits(h, p);
        let x = two_to(k);
        let y = two_to((k + 1) as nat);
        let w = two_to((p - 1) as nat);
        if k > 0 {
            assert(y * w == 2 * (x * w)) by (nonlinear_arith)
                requires
                    y == 2 * x,
            ;
        } else {
            reveal_with_fuel(two_to, 2);
            assert(y * w == 2 * w) by (nonlinear_arith)
                requires
                    y == 2,
            ;
            assert(two_to(p) == 2 * w);
        }
    }
}

/// Rounding to 53 digits adds at most one part in 2^52.
pub proof fn lemma_rounded_bounds(n: nat)
    ensures
        rounded(n, 53) <= n + n / two_to(52),
        n >= two_to(52) ==> rounded(n, 53) >= two_to(52),
{
    lemma_two_to_values();
    let k = excess_bits(n, 53);
    let unit = two_to(k);
    lemma_two_to_pos(k);
    lemma_excess_bits(n, 53);
    lemma_nearest_bounds(n as int, unit as int);
    let m = nearest(n as int, unit as int);
    if k == 0 {
        assert(n as int / 1 == n as int);
        assert(n as int % 1 == 0);
        assert(m == n);
        assert(m * unit == n) by (nonlinear_arith)
            requires
                m == n,
                unit == 1,
        ;
    } else {
        let w = two_to(52);
        assert(unit <= n / w) by (nonlinear_arith)
            requires
                unit * w <= n,
                w > 0,
        ;
        assert(m * unit <= n + unit) by (nonlinear_arith)
            requires
                m <= n as int / unit as int + 1,
                unit > 0,
        ;
        assert(w * unit <= m * unit && w <= w * unit) by (nonlinear_arith)
            requires
                unit * w <= n,
                unit > 0,
                m >= n as int / unit as int,
        ;
    }
}

/// A ratio of at least 2^64 stays at least 2^64 when scaled up.
pub proof fn lemma_large_ratio(a: nat, b: nat, factor: nat)
    requires
        b > 0,
        factor > 0,
        a >= two_to(64) * b,
    ensures
        scaled_floor(ratio(a, b, 53), factor, 53) >= two_to(64),
{
    lemma_two_to_values();
    assert(a > 0) by (nonlinear_arith)
        requires
            a >= two_to(64) * b,
            two_to(64) > 0,
            b > 0,
    ;
    lemma_exponent_exists(a, b);
    let l = exponent(a, b);
    if l < 64 {
        if l >= 0 {
            lemma_two_to_monotone((l + 1) as nat, 64);
            let x = two_to((l + 1) as nat);
            assert(x * b <= two_to(64) * b) by (nonlinear_arith)
                requires
                    x <= two_to(64),
            ;
        } else {
            lemma_two_to_monotone(1, (-l) as nat);
            let x = two_to((-l) as nat);
            assert(a * x >= 2 * b) by (nonlinear_arith)
                requires
                    x >= 2,
                    a >= two_to(64) * b,
                    two_to(64) >= 1,
            ;
        }
        assert(false);
    }
    let e = (l - 52) as nat;
    let unit = two_to(e);
    lemma_two_to_pos(e);
    lemma_two_to_add(52, e);
    assert(52 + e == l as nat);
    let d = b * unit;
    assert(d > 0) by (nonlinear_arith)
        requires
            d == b * unit,
            b > 0,
            unit > 0,
    ;
    let mant = nearest(a as int, d as int);
    lemma_nearest_bounds(a as int, d as int);
    assert(a as int / d as int >= two_to(52)) by (nonlinear_arith)
        requires
            d == b * unit,
            d > 0,
            a >= two_to(l as nat) * b,
            two_to(l as nat) == two_to(52) * unit,
    ;
    let n = mant as nat * factor;
    assert(n >= two_to(52)) by (nonlinear_arith)
        requires
            n == mant * factor,
            mant >= two_to(52),
            factor >= 1,
    ;
    lemma_rounded_bounds(n);
    let r = rounded(n, 53);
    lemma_two_to_monotone(64, l as nat);
    assert(r * unit >= two_to(64)) by (nonlinear_arith)
        requires
            r >= two_to(52),
            unit > 0,
            two_to(52) * unit >= two_to(64),
    ;
}

/// A ratio below 2^-30 stays below one when scaled by up to a thousand million.
pub proof fn lemma_small_ratio(a: nat, b: nat, factor: nat)
    requires
        a > 0,
        factor <= 1_000_000_000,
        a * two_to(30) < b,
    ensures
        scaled_floor(ratio(a, b, 53), factor, 53) == 0,
{
    lemma_two_to_values();
    lemma_exponent_exists(a, b);
    let l = exponent(a, b);
    if l > -31 {
        if l >= 0 {
            lemma_two_to_pos(l as nat);
            let x = two_to(l as nat);
            assert(x * b > a) by (nonlinear_arith)
                requires
                    x >= 1,
                    a * two_to(30) < b,
                    two_to(30) >= 1,
            ;
        } else {
            lemma_two_to_monotone((-l) as nat, 30);
            let x = two_to((-l) as nat);
            assert(a * x < b) by (nonlinear_arith)
                requires
                    x <= two_to(30),
                    a * two_to(30) < b,
            ;
        }
        assert(false);
    }
    let up = (-l) as nat;
    let shift = (52 - l) as nat;
    lemma_two_to_add(up, 52);
    assert(up + 52 == shift);
    let x = a * two_to(up);
    let y = a * two_to(shift);
    assert(y == x * two_to(52)) by (nonlinear_arith)
        requires
            y == a * two_to(shift),
            x == a * two_to(up),
            two_to(shift) == two_to(up) * two_to(52),
    ;
    lemma_nearest_bounds(y as int, b as int);
    let mant = nearest(y as int, b as int);
    let limit = two_to(53);
    assert(y < limit * b) by (nonlinear_arith)
        requires
            y == x * two_to(52),
            x < 2 * b,
            limit == 2 * two_to(52),
            two_to(52) > 0,
    ;
    assert(y as int / b as int <= limit - 1) by (nonlinear_arith)
        requires
            b > 0,
            y < limit * b,
    ;
    let n = mant as nat * factor;
    assert(n <= two_to(53) * 1_000_000_000) by (nonlinear_arith)
        requires
            n == mant * factor,
            0 <= mant <= two_to(53),
            factor <= 1_000_000_000,
    ;
    lemma_rounded_bounds(n);
    lemma_two_to_monotone(83, shift);
    let r = rounded(n, 53);
    let d = two_to(shift);
    assert(r < d);
    assert(r as int / d as int == 0) by (nonlinear_arith)
        requires
            0 <= r < d,
    ;
}

/// Doubling a number `k` times makes it at most `k` digits longer.
proof fn lemma_excess_of_doubled(n: nat, k: nat, p: nat)
    requires
        n < two_to(p),
    ensures
        excess_bits(n * two_to(k), p) <= k,
    decreases k,
{
    if k == 0 {
        assert(n * two_to(0) == n) by (nonlinear_arith)
            requires
                two_to(0) == 1,
        ;
    } else {
        lemma_excess_of_doubled(n, (k - 1) as nat, p);
        let half = n * two_to((k - 1) as nat);
        let whole = n * two_to(k);
        assert(whole == 2 * half) by (nonlinear_arith)
            requires
                whole == n * two_to(k),
                half == n * two_to((k - 1) as nat),
                two_to(k) == 2 * two_to((k - 1) as nat),
        ;
        assert(whole / 2 == half);
    }
}

/// A number of at most `p` digits stays as it is, however often it is doubled first.
proof fn lemma_rounded_exact(n: nat, k: nat, p: nat)
    requires
        n < two_to(p),
    ensures
        rounded(n * two_to(k), p) == n * two_to(k),
{
    let whole = n * two_to(k);
    let e = excess_bits(whole, p);
    lemma_excess_of_doubled(n, k, p);
    let unit = two_to(e);
    let rest = two_to((k - e) as nat);
    lemma_two_to_pos(e);
    lemma_two_to_add((k - e) as nat, e);
    assert((k - e) as nat + e == k);
    let q = n * rest;
    assert(whole == q * unit) by (nonlinear_arith)
        requires
            whole == n * two_to(k),
            two_to(k) == rest * unit,
            q == n * rest,
    ;
    assert(whole as int / unit as int == q && whole as int % unit as int == 0) by (nonlinear_arith)
        requires
            whole == q * unit,
            unit > 0,
    ;
    assert(nearest(whole as int, unit as int) == q);
}

/// What is left of `n` without its excess digits has at most `p` digits.
proof fn lemma_excess_quotient(n: nat, p: nat)
    ensures
        n / two_to(excess_bits(n, p)) < two_to(p),
    decreases n,
{
    lemma_two_to_pos(p);
    if n < two_to(p) || n == 0 {
        assert(n / 1 == n);
    } else {
        let k = excess_bits(n / 2, p);
        let x = two_to(k);
        lemma_two_to_pos(k);
        lemma_excess_quotient(n / 2, p);
        assert(two_to((k + 1) as nat) == 2 * x);
        assert(n / (2 * x) == (n / 2) / x) by (nonlinear_arith)
            requires
                x > 0,
        ;
    }
}

/// A number that rounding leaves alone is one of at most `p` digits, doubled
/// some times.
proof fn lemma_representable(n: nat, p: nat) -> (r: (nat, nat))
    requires
        rounded(n, p) == n,
    ensures
        r.0 < two_to(p),
        n == r.0 * two_to(r.1),
{
    let k = excess_bits(n, p);
    let unit = two_to(k);
    lemma_two_to_pos(k);
    lemma_excess_quotient(n, p);
    lemma_nearest_bounds(n as int, unit as int);
    let m = nearest(n as int, unit as int);
    assert(m * unit == n);
    assert(n as int / unit as int == m) by (nonlinear_arith)
        requires
            m * unit == n,
            unit > 0,
    ;
    (m as nat, k)
}

/// A whole number of at most 53 digits is its own quotient by one.
pub proof fn lemma_whole_ratio(n: nat) -> (shift: nat)
    requires
        0 < n < two_to(53),
    ensures
        ratio(n, 1, 53) == (Binary { mant: n * two_to(shift), exp: -(shift as int) }),
{
    lemma_two_to_values();
    lemma_exponent_exists(n, 1);
    let l = exponent(n, 1);
    if l < 0 {
        lemma_two_to_monotone(1, (-l) as nat);
        let x = two_to((-l) as nat);
        assert(n * x >= 2) by (nonlinear_arith)
            requires
                n >= 1,
                x >= 2,
        ;
        assert(false);
    }
    if l >= 53 {
        lemma_two_to_monotone(53, l as nat);
        assert(false);
    }
    let shift = (52 - l) as nat;
    let a = n * two_to(shift);
    assert(a as int / 1 == a as int);
    assert(a as int % 1 == 0);
    assert(nearest(a as int, 1) == a);
    shift
}

/// A whole number of at most 53 digits is scaled exactly, as long as the
/// product is a number that rounding leaves alone.
pub proof fn lemma_whole_scales_exactly(n: nat, factor: nat)
    requires
        0 < n < two_to(53),
        rounded(n * factor, 53) == n * factor,
    ensures
        scaled_floor(ratio(n, 1, 53), factor, 53) == n * factor,
{
    let shift = lemma_whole_ratio(n);
    let t = two_to(shift);
    lemma_two_to_pos(shift);
    let a = n * t;
    let product = n * factor;
    assert(a * factor == product * t) by (nonlinear_arith)
        requires
            a == n * t,
            product == n * factor,
    ;
    let (m, k) = lemma_representable(product, 53);
    lemma_two_to_add(k, shift);
    assert(product * t == m * two_to(k + shift)) by (nonlinear_arith)
        requires
            product == m * two_to(k),
            two_to(k + shift) == two_to(k) * t,
    ;
    lemma_rounded_exact(m, k + shift, 53);
    assert((product * t) as int / t as int == product) by (nonlinear_arith)
        requires
            t > 0,
    ;
    if shift == 0 {
        assert(product * t == product) by (nonlinear_arith)
            requires
                t == 1,
        ;
    }
}

/// A number of at most `p` digits is left alone by rounding.
pub proof fn lemma_short_numbers_stay(n: nat, p: nat)
    requires
        n < two_to(p),
    ensures
        rounded(n, p) == n,
{
    assert(n * two_to(0) == n) by (nonlinear_arith)
        requires
            two_to(0) == 1,
    ;
    lemma_rounded_exact(n, 0, p);
}

/// Cancelling a factor does not change the nearest integer.
proof fn lemma_nearest_cancel(a: int, b: int, c: int)
    requires
        a >= 0,
        b > 0,
        c > 0,
    ensures
        nearest(a * c, b * c) == nearest(a, b),
{
    let q = a / b;
    let r = a % b;
    assert(a == b * q + r && 0 <= r < b) by (nonlinear_arith)
        requires
            b > 0,
            q == a / b,
            r == a % b,
    ;
    assert(a * c == q * (b * c) + r * c && 0 <= r * c < b * c && b * c > 0) by (nonlinear_arith)
        requires
            a == b * q + r,
            0 <= r < b,
            c > 0,
    ;
    vstd::arithmetic::div_mod::lemma_fundamental_div_mod_converse(a * c, b * c, q, r * c);
    assert((2 * r < b <==> 2 * (r * c) < b * c) && (2 * r == b <==> 2 * (r * c) == b * c))
        by (nonlinear_arith)
        requires
            c > 0,
    ;
}

/// Cancelling a factor does not change the exponent.
proof fn lemma_exponent_cancel(a: nat, b: nat, c: nat)
    requires
        a > 0,
        b > 0,
        c > 0,
    ensures
        exponent(a * c, b * c) == exponent(a, b),
{
    lemma_exponent_exists(a, b);
    let l = exponent(a, b);
    assert(b * c > 0) by (nonlinear_arith)
        requires
            b > 0,
            c > 0,
    ;
    if l >= 0 {
        let x = two_to(l as nat);
        let y = two_to((l + 1) as nat);
        assert(x * (b * c) <= a * c && a * c < y * (b * c)) by (nonlinear_arith)
            requires
                x * b <= a,
                a < y * b,
                c > 0,
        ;
    } else {
        let x = two_to((-l) as nat);
        assert(b * c <= (a * c) * x && (a * c) * x < 2 * (b * c)) by (nonlinear_arith)
            requires
                b <= a * x,
                a * x < 2 * b,
                c > 0,
        ;
    }
    lemma_exponent(a * c, b * c, l);
}

/// Cancelling a factor does not change a quotient.
pub proof fn lemma_ratio_cancel(a: nat, b: nat, c: nat, p: nat)
    requires
        a > 0,
        b > 0,
        c > 0,
    ensures
        ratio(a * c, b * c, p) == ratio(a, b, p),
{
    lemma_exponent_cancel(a, b, c);
    let shift = p - 1 - exponent(a, b);
    if shift >= 0 {
        let t = two_to(shift as nat);
        assert((a * c) * t == (a * t) * c && a * t >= 0) by (nonlinear_arith)
            requires
                a >= 0,
                t >= 0,
        ;
        lemma_nearest_cancel((a * t) as int, b as int, c as int);
    } else {
        let t = two_to((-shift) as nat);
        lemma_two_to_pos((-shift) as nat);
        assert((b * c) * t == (b * t) * c && b * t > 0) by (nonlinear_arith)
            requires
                b > 0,
                t > 0,
        ;
        lemma_nearest_cancel(a as int, (b * t) as int, c as int);
    }
}

/// A ratio that reaches 53 digits after `shift` doublings has exponent 52 - shift.
pub proof fn lemma_scaled_exponent(a: nat, b: nat, shift: nat)
    requires
        b > 0,
        0x10_0000_0000_0000 * b <= a * two_to(shift) < 0x20_0000_0000_0000 * b,
    ensures
        is_exponent(a, b, 52 - shift),
{
    lemma_two_to_values();
    let z = two_to(shift);
    if shift <= 52 {
        let l = (52 - shift) as nat;
        let x = two_to(l);
        let y = two_to((l + 1) as nat);
        lemma_two_to_add(l, shift);
        lemma_two_to_pos(shift);
        assert(x * b <= a) by (nonlinear_arith)
            requires
                0x10_0000_0000_0000 * b <= a * z,
                x * z == 0x10_0000_0000_0000,
                z > 0,
        ;
        assert(a < y * b) by (nonlinear_arith)
            requires
                a * z < 0x20_0000_0000_0000 * b,
                x * z == 0x10_0000_0000_0000,
                y == 2 * x,
                z > 0,
        ;
    } else {
        let k = (shift - 52) as nat;
        let x = two_to(k);
        lemma_two_to_add(k, 52);
        assert(a * z == 0x10_0000_0000_0000 * (a * x)) by (nonlinear_arith)
            requires
                z == x * 0x10_0000_0000_0000,
        ;
    }
}

/// A larger number has at least as many excess digits.
proof fn lemma_excess_monotone(a: nat, b: nat, p: nat)
    requires
        a <= b,
    ensures
        excess_bits(a, p) <= excess_bits(b, p),
    decreases b,
{
    if a >= two_to(p) && a > 0 {
        lemma_excess_monotone(a / 2, b / 2, p);
    }
}

/// The nearest integer grows with the numerator.
proof fn lemma_nearest_monotone(a: int, b: int, d: int)
    requires
        0 <= a <= b,
        d > 0,
    ensures
        nearest(a, d) <= nearest(b, d),
{
    let (q, r) = (a / d, a % d);
    let (s, t) = (b / d, b % d);
    assert(a == d * q + r && 0 <= r < d && b == d * s + t && 0 <= t < d) by (nonlinear_arith)
        requires
            d > 0,
            q == a / d,
            r == a % d,
            s == b / d,
            t == b % d,
    ;
    assert(q <= s) by (nonlinear_arith)
        requires
            a <= b,
            a == d * q + r,
            b == d * s + t,
            0 <= r,
            t < d,
            d > 0,
    ;
    if q == s {
        assert(r <= t);
    }
}

/// Rounding keeps the order of numbers.
pub proof fn lemma_rounded_monotone(a: nat, b: nat, p: nat)
    requires
        a <= b,
        p > 0,
    ensures
        rounded(a, p) <= rounded(b, p),
{
    let k = excess_bits(a, p);
    let l = excess_bits(b, p);
    let x = two_to(k);
    let y = two_to(l);
    let m = nearest(a as int, x as int);
    let n = nearest(b as int, y as int);
    lemma_two_to_pos(k);
    lemma_two_to_pos(l);
    lemma_excess_monotone(a, b, p);
    lemma_nearest_bounds(a as int, x as int);
    lemma_nearest_bounds(b as int, y as int);
    if k == l {
        lemma_nearest_monotone(a as int, b as int, x as int);
        assert(m * x <= n * x) by (nonlinear_arith)
            requires
                m <= n,
                x > 0,
        ;
    } else {
        let w = two_to((p - 1) as nat);
        lemma_excess_quotient(a, p);
        lemma_excess_bits(b, p);
        lemma_two_to_monotone((k + 1) as nat, l);
        assert(two_to(p) == 2 * w);
        assert(b as int / y as int >= w) by (nonlinear_arith)
            requires
                y * w <= b,
                y > 0,
        ;
        assert(m * x <= (2 * w) * x) by (nonlinear_arith)
            requires
                m <= 2 * w,
                x > 0,
        ;
        assert((2 * w) * x <= w * y) by (nonlinear_arith)
            requires
                2 * x <= y,
                w >= 0,
        ;
        assert(w * y <= n * y) by (nonlinear_arith)
            requires
                w <= n,
                y > 0,
        ;
    }
}

/// Rounding a positive number does not make it zero.
pub proof fn lemma_rounded_positive(n: nat, p: nat)
    requires
        n > 0,
        p > 0,
    ensures
        rounded(n, p) > 0,
{
    lemma_two_to_pos((p - 1) as nat);
    reveal_with_fuel(two_to, 2);
    lemma_two_to_monotone(1, p);
    lemma_short_numbers_stay(1, p);
    lemma_rounded_monotone(1, n, p);
}

/// Rounding to `p` digits moves a number down by less than its last digit.
pub proof fn lemma_rounded_near(n: nat, p: nat)
    requires
        p > 0,
    ensures
        rounded(n, p) + n / two_to((p - 1) as nat) >= n,
        rounded(n, p) <= n + n / two_to((p - 1) as nat),
{
    let k = excess_bits(n, p);
    let unit = two_to(k);
    let w = two_to((p - 1) as nat);
    lemma_two_to_pos(k);
    lemma_two_to_pos((p - 1) as nat);
    lemma_excess_bits(n, p);
    lemma_nearest_bounds(n as int, unit as int);
    let m = nearest(n as int, unit as int);
    assert(n / w >= 0) by (nonlinear_arith)
        requires
            w > 0,
    ;
    if k == 0 {
        assert(n as int / 1 == n as int);
        assert(n as int % 1 == 0);
        assert(m * unit == n) by (nonlinear_arith)
            requires
                m == n,
                unit == 1,
        ;
    } else {
        assert(unit <= n / w) by (nonlinear_arith)
            requires
                unit * w <= n,
                w > 0,
        ;
        assert(m * unit + unit >= n && m * unit <= n + unit) by (nonlinear_arith)
            requires
                n as int / unit as int <= m <= n as int / unit as int + 1,
                unit > 0,
        ;
    }
}

/// Doubling a number doubles its rounding.
pub proof fn lemma_rounded_doubles(n: nat, p: nat)
    requires
        p > 0,
    ensures
        rounded(2 * n, p) == 2 * rounded(n, p),
{
    let k = excess_bits(n, p);
    let x = two_to(k);
    lemma_two_to_pos(k);
    if n < two_to(p) {
        lemma_short_numbers_stay(n, p);
        if 2 * n < two_to(p) {
            lemma_short_numbers_stay(2 * n, p);
        } else {
            lemma_two_to_pos(p);
            assert((2 * n) / 2 == n);
            assert(excess_bits(2 * n, p) == 1);
            reveal_with_fuel(two_to, 2);
            assert(two_to(1) == 2);
            assert((2 * n) as int / 2 == n && (2 * n) as int % 2 == 0);
        }
    } else {
        lemma_two_to_pos(p);
        assert((2 * n) / 2 == n);
        assert(excess_bits(2 * n, p) == k + 1);
        let y = two_to((k + 1) as nat);
        assert(y == 2 * x);
        let m = nearest(n as int, x as int);
        lemma_nearest_cancel(n as int, x as int, 2);
        assert(x * 2 == y && n * 2 == 2 * n);
        assert(nearest((2 * n) as int, y as int) == m);
        lemma_nearest_bounds(n as int, x as int);
        assert(m * y == 2 * (m * x)) by (nonlinear_arith)
            requires
                y == 2 * x,
        ;
        assert(m * x >= 0) by (nonlinear_arith)
            requires
                m >= 0,
        ;
    }
}

/// The nearest integer is no further away than half of the denominator.
pub proof fn lemma_nearest_close(a: int, b: int)
    requires
        a >= 0,
        b > 0,
    ensures
        2 * (nearest(a, b) * b) <= 2 * a + b,
        2 * a <= 2 * (nearest(a, b) * b) + b,
{
    let q = a / b;
    let r = a % b;
    assert(a == b * q + r && 0 <= r < b) by (nonlinear_arith)
        requires
            b > 0,
            q == a / b,
            r == a % b,
    ;
    assert(q * b == b * q && (q + 1) * b == b * q + b) by (nonlinear_arith);
}

/// A ratio below 2^52 has its digits behind the point, and its mantissa is the
/// nearest to it.
pub proof fn lemma_ratio_close(a: nat, b: nat) -> (shift: nat)
    requires
        0 < a < 0x10_0000_0000_0000 * b,
        b > 0,
    ensures
        ratio(a, b, 53).exp == -(shift as int),
        two_to(shift) > 0,
        2 * (ratio(a, b, 53).mant * b) <= 2 * (a * two_to(shift)) + b,
        2 * (a * two_to(shift)) <= 2 * (ratio(a, b, 53).mant * b) + b,
        0x10_0000_0000_0000 * b <= a * two_to(shift),
{
    lemma_two_to_values();
    lemma_exponent_exists(a, b);
    let l = exponent(a, b);
    if l > 52 {
        lemma_two_to_monotone(52, l as nat);
        let x = two_to(l as nat);
        assert(x * b >= 0x10_0000_0000_0000 * b) by (nonlinear_arith)
            requires
                x >= 0x10_0000_0000_0000,
        ;
        assert(false);
    }
    let shift = (52 - l) as nat;
    let z = two_to(shift);
    lemma_two_to_pos(shift);
    lemma_nearest_close((a * z) as int, b as int);
    lemma_nearest_bounds((a * z) as int, b as int);
    if l >= 0 {
        let x = two_to(l as nat);
        lemma_two_to_add(l as nat, shift);
        assert(l as nat + shift == 52);
        assert(0x10_0000_0000_0000 * b <= a * z) by (nonlinear_arith)
            requires
                x * b <= a,
                x * z == 0x10_0000_0000_0000,
        ;
    } else {
        let x = two_to((-l) as nat);
        lemma_two_to_add((-l) as nat, 52);
        assert((-l) as nat + 52 == shift);
        assert(0x10_0000_0000_0000 * b <= a * z) by (nonlinear_arith)
            requires
                b <= a * x,
                z == x * 0x10_0000_0000_0000,
        ;
    }
    shift
}

/// A ratio that is scaled comes out as the product, but for less than one and
/// for a share of 2^-50 of it.
pub proof fn lemma_scaled_close(a: nat, b: nat, factor: nat)
    requires
        0 < a < 0x10_0000_0000_0000 * b,
        b > 0,
    ensures
        0x4_0000_0000_0000 * (scaled_floor(ratio(a, b, 53), factor, 53) * b)
            <= 0x4_0000_0000_0001 * (a * factor),
        0x3_FFFF_FFFF_FFFF * (a * factor) <= 0x4_0000_0000_0000 * ((scaled_floor(
            ratio(a, b, 53),
            factor,
            53,
        ) + 1) * b),
{
    lemma_two_to_values();
    let w: int = 0x10_0000_0000_0000;
    let shift = lemma_ratio_close(a, b);
    let z = two_to(shift) as int;
    let m = ratio(a, b, 53).mant as int;
    let f = factor as int;
    let p = m * f;
    assert(p >= 0) by (nonlinear_arith)
        requires
            p == m * f,
            m >= 0,
            f >= 0,
    ;
    let q = rounded(p as nat, 53) as int;
    lemma_rounded_near(p as nat, 53);
    let r = scaled_floor(ratio(a, b, 53), factor, 53) as int;
    assert(r * z <= q < r * z + z) by {
        if shift == 0 {
            assert(z == 1);
            assert(r * z == q) by (nonlinear_arith)
                requires
                    z == 1,
                    r == q * 1,
            ;
        } else {
            assert(r == q / z);
            assert(r * z <= q < r * z + z) by (nonlinear_arith)
                requires
                    r == q / z,
                    z > 0,
            ;
        }
    }
    let (x, y) = (a as int, b as int);
    let g = x * f;
    // The product of the mantissa, told in units of `b`.
    assert(2 * (p * y) <= 2 * (g * z) + y * f && 2 * (g * z) <= 2 * (p * y) + y * f)
        by (nonlinear_arith)
        requires
            2 * (m * y) <= 2 * (x * z) + y,
            2 * (x * z) <= 2 * (m * y) + y,
            p == m * f,
            g == x * f,
            f >= 0,
    ;
    assert(w * (y * f) <= g * z) by (nonlinear_arith)
        requires
            w * y <= x * z,
            g == x * f,
            f >= 0,
    ;
    let gz = g * z;
    let py = p * y;
    let yf = y * f;
    assert(py >= 0 && gz >= 0 && yf >= 0) by (nonlinear_arith)
        requires
            py == p * y,
            gz == g * z,
            yf == y * f,
            g == x * f,
            p >= 0,
            y > 0,
            z > 0,
            f >= 0,
            x >= 0,
    ;
    let d = p / w;
    assert(w * (d * y) <= py) by (nonlinear_arith)
        requires
            d == p / w,
            py == p * y,
            w > 0,
            y > 0,
    ;
    let qy = q * y;
    let dy = d * y;
    assert(qy <= py + dy && py <= qy + dy) by (nonlinear_arith)
        requires
            q <= p + d,
            p <= q + d,
            qy == q * y,
            py == p * y,
            dy == d * y,
            y > 0,
    ;
    // Both errors together are below a share of 2^-50.
    let k: int = 0x4_0000_0000_0000;
    assert(k * qy <= (k + 1) * gz && (k - 1) * gz <= k * qy);
    let ry = r * y;
    assert(ry * z <= qy && qy <= ry * z + y * z) by (nonlinear_arith)
        requires
            r * z <= q < r * z + z,
            qy == q * y,
            ry == r * y,
            y > 0,
    ;
    assert(k * ry <= (k + 1) * g) by (nonlinear_arith)
        requires
            k * qy <= (k + 1) * gz,
            ry * z <= qy,
            gz == g * z,
            z > 0,
            k > 0,
    ;
    assert((k - 1) * g <= k * (ry + y)) by (nonlinear_arith)
        requires
            (k - 1) * gz <= k * qy,
            qy <= ry * z + y * z,
            gz == g * z,
            z > 0,
            k > 0,
    ;
    assert((r + 1) * y == ry + y) by (nonlinear_arith)
        requires
            ry == r * y,
    ;
}

/// Rounding to `p` digits gives a multiple of the last digit, and moves a
/// number by no more than half of that digit.
pub proof fn lemma_rounded_unit(n: nat, p: nat) -> (r: (nat, int))
    requires
        p > 0,
    ensures
        rounded(n, p) == r.1 * two_to(r.0),
        2 * rounded(n, p) <= 2 * n + two_to(r.0),
        2 * n <= 2 * rounded(n, p) + two_to(r.0),
        r.0 > 0 ==> two_to(r.0) * two_to((p - 1) as nat) <= n,
        n < two_to(r.0) * two_to(p),
{
    let k = excess_bits(n, p);
    let unit = two_to(k);
    lemma_two_to_pos(k);
    lemma_excess_bits(n, p);
    lemma_excess_quotient(n, p);
    let m = nearest(n as int, unit as int);
    lemma_nearest_bounds(n as int, unit as int);
    lemma_nearest_close(n as int, unit as int);
    assert(m * unit >= 0) by (nonlinear_arith)
        requires
            m >= 0,
            unit > 0,
    ;
    let w = two_to(p);
    assert(n < unit * w) by (nonlinear_arith)
        requires
            n / unit < w,
            unit > 0,
    ;
    (k, m)
}

} // verus!
