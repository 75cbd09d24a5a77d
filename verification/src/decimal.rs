//! Decimal numbers of any length, scaled and brought to whole numbers by way
//! of double precision.

use vstd::prelude::*;

use crate::binary;
use crate::binary::{nearest_div, power_of_two, round_bits};

verus! {

/// Value of a sequence of decimal digits.
pub open spec fn value(digits: Seq<u8>) -> nat
    decreases digits.len(),
{
    if digits.len() == 0 {
        0
    } else {
        10 * value(digits.drop_last()) + digits.last() as nat
    }
}

/// Whether all entries are decimal digits.
pub open spec fn well_formed(digits: Seq<u8>) -> bool {
    forall|i: int| 0 <= i < digits.len() ==> #[trigger] digits[i] < 10
}

/// Whole part of `(a / b) * factor`, with `a / b` and the product rounded to
/// double precision, at most the largest 64-bit number.
pub open spec fn scaled(a: nat, b: nat, factor: nat) -> u64 {
    if a == 0 {
        0
    } else {
        let n = binary::scaled_floor(binary::ratio(a, b, 53), factor, 53);
        if n > u64::MAX {
            u64::MAX
        } else {
            n as u64
        }
    }
}

/// `scaled` of `mantissa * 10^exponent`.
pub open spec fn scaled_decimal(mantissa: nat, exponent: int, factor: nat) -> u64 {
    if exponent >= 0 {
        scaled(mantissa * binary::ten_to(exponent as nat), 1, factor)
    } else {
        scaled(mantissa, binary::ten_to((-exponent) as nat), factor)
    }
}

/// Digits put together count as their parts do.
pub proof fn lemma_value_concat(a: Seq<u8>, b: Seq<u8>)
    ensures
        value(a + b) == value(a) * binary::ten_to(b.len()) + value(b),
    decreases b.len(),
{
    if b.len() == 0 {
        assert(a + b =~= a);
        let t = binary::ten_to(0);
        assert(value(a) * t == value(a)) by (nonlinear_arith)
            requires
                t == 1,
        ;
    } else {
        let c = b.drop_last();
        lemma_value_concat(a, c);
        assert((a + b).drop_last() =~= a + c);
        let x = value(a);
        let t = binary::ten_to(c.len());
        let u = binary::ten_to(b.len());
        assert(x * u == 10 * (x * t)) by (nonlinear_arith)
            requires
                u == 10 * t,
        ;
    }
}

/// A number of `n` digits is below 10^n, and at least 10^(n - 1) where the
/// first digit is not zero.
pub proof fn lemma_value_bounds(digits: Seq<u8>)
    requires
        well_formed(digits),
    ensures
        value(digits) < binary::ten_to(digits.len()),
        digits.len() > 0 && digits[0] > 0 ==> value(digits) >= binary::ten_to(
            (digits.len() - 1) as nat,
        ),
    decreases digits.len(),
{
    if digits.len() > 0 {
        let shorter = digits.drop_last();
        assert(forall|i: int| 0 <= i < shorter.len() ==> shorter[i] == digits[i]);
        lemma_value_bounds(shorter);
        if shorter.len() == 0 {
            assert(digits.last() == digits[0]);
        }
    }
}

/// Zeros in front do not count.
proof fn lemma_value_leading_zeros(zeros: Seq<u8>, digits: Seq<u8>)
    requires
        forall|i: int| 0 <= i < zeros.len() ==> zeros[i] == 0,
    ensures
        value(zeros + digits) == value(digits),
{
    lemma_value_concat(zeros, digits);
    lemma_value_zeros(zeros);
    let t = binary::ten_to(digits.len());
    let z = value(zeros);
    assert(z * t == 0) by (nonlinear_arith)
        requires
            z == 0,
    ;
}

proof fn lemma_value_zeros(zeros: Seq<u8>)
    requires
        forall|i: int| 0 <= i < zeros.len() ==> zeros[i] == 0,
    ensures
        value(zeros) == 0,
    decreases zeros.len(),
{
    if zeros.len() > 0 {
        lemma_value_zeros(zeros.drop_last());
    }
}

/// Doubles a decimal fraction in place and returns the digit that left it.
fn double(fraction: &mut Vec<u8>) -> (carry: u8)
    requires
        well_formed(old(fraction)@),
    ensures
        carry <= 1,
        well_formed(final(fraction)@),
        final(fraction)@.len() == old(fraction)@.len(),
        2 * value(old(fraction)@) == carry * binary::ten_to(old(fraction)@.len()) + value(
            final(fraction)@,
        ),
{
    let ghost before = fraction@;
    let mut carry: u8 = 0;
    let mut i: usize = fraction.len();
    proof {
        assert(before.take(i as int) =~= before);
        assert(fraction@.skip(i as int) =~= Seq::<u8>::empty());
        let t = binary::ten_to(0);
        let x = 2 * value(before);
        assert(x * t == x) by (nonlinear_arith)
            requires
                t == 1,
        ;
    }
    while i > 0
        invariant
            i <= fraction@.len() == before.len(),
            carry <= 1,
            well_formed(before),
            well_formed(fraction@),
            forall|k: int| 0 <= k < i ==> fraction@[k] == before[k],
            2 * value(before) == (2 * value(before.take(i as int)) + carry) * binary::ten_to(
                (before.len() - i) as nat,
            ) + value(fraction@.skip(i as int)),
        decreases i,
    {
        let ghost tail = fraction@.skip(i as int);
        let ghost head = before.take(i as int);
        let ghost c0 = carry;
        i = i - 1;
        assert(before[i as int] < 10);
        let d: u8 = 2 * fraction[i] + carry;
        fraction[i] = d % 10;
        carry = d / 10;
        proof {
            assert(head.drop_last() =~= before.take(i as int));
            assert(head.last() == before[i as int]);
            let low = (d % 10) as u8;
            assert(fraction@.skip(i as int) =~= seq![low] + tail);
            lemma_value_concat(seq![low], tail);
            assert(seq![low].drop_last() =~= Seq::<u8>::empty());
            reveal_with_fuel(value, 2);
            assert(value(seq![low]) == low);
            let h = value(before.take(i as int));
            let t = binary::ten_to(tail.len());
            let u = binary::ten_to(tail.len() + 1);
            assert(value(head) == 10 * h + before[i as int]);
            assert((2 * value(head) + c0) * t == (2 * h + carry) * u + low * t)
                by (nonlinear_arith)
                requires
                    value(head) == 10 * h + before[i as int],
                    u == 10 * t,
                    2 * before[i as int] + c0 == 10 * carry + low,
            ;
            assert(tail.len() + 1 == (before.len() - i) as nat);
            assert(tail.len() == (before.len() - (i + 1)) as nat);
        }
    }
    proof {
        assert(fraction@.skip(0) =~= fraction@);
        assert(before.take(0) =~= Seq::<u8>::empty());
    }
    carry
}

/// Whether all digits are zero.
fn is_zero(digits: &Vec<u8>) -> (b: bool)
    requires
        well_formed(digits@),
    ensures
        b == (value(digits@) == 0),
{
    let mut i: usize = 0;
    while i < digits.len()
        invariant
            i <= digits@.len(),
            well_formed(digits@),
            forall|k: int| 0 <= k < i ==> digits@[k] == 0,
        decreases digits@.len() - i,
    {
        if digits[i] != 0 {
            proof {
                let zeros = digits@.take(i as int);
                let rest = digits@.skip(i as int);
                assert(digits@ =~= zeros + rest);
                lemma_value_leading_zeros(zeros, rest);
                assert(rest[0] > 0);
                lemma_value_bounds(rest);
                binary::lemma_ten_to_pos((rest.len() - 1) as nat);
            }
            return false;
        }
        i = i + 1;
    }
    proof {
        lemma_value_zeros(digits@);
    }
    true
}

/// The nearest multiple of a power of two is the same for every fraction
/// between zero and one.
proof fn lemma_sticky(whole: int, part: int, b: int, half: int)
    requires
        whole >= 0,
        0 <= part < b,
        half > 0,
    ensures
        binary::nearest(whole * b + part, b * (2 * half)) == binary::nearest(
            2 * whole + (if part > 0 {
                1int
            } else {
                0
            }),
            4 * half,
        ),
{
    let unit = 2 * half;
    let q = whole / unit;
    let t = whole % unit;
    let sticky: int = if part > 0 {
        1
    } else {
        0
    };
    let n = whole * b + part;
    let d = b * unit;
    let r = t * b + part;
    assert(whole == q * unit + t) by (nonlinear_arith)
        requires
            q == whole / unit,
            t == whole % unit,
            unit > 0,
    ;
    assert(0 <= t < unit);
    assert(d > 0) by (nonlinear_arith)
        requires
            d == b * unit,
            b > 0,
            unit > 0,
    ;
    assert(n == q * d + r) by (nonlinear_arith)
        requires
            n == whole * b + part,
            d == b * unit,
            r == t * b + part,
            whole == q * unit + t,
    ;
    assert(0 <= r < d) by (nonlinear_arith)
        requires
            r == t * b + part,
            d == b * unit,
            0 <= t < unit,
            0 <= part < b,
    ;
    assert(n / d == q && n % d == r) by (nonlinear_arith)
        requires
            n == q * d + r,
            0 <= r < d,
    ;
    let m = 2 * whole + sticky;
    assert(q * (2 * unit) == 2 * (q * unit)) by (nonlinear_arith);
    assert(m / (2 * unit) == q && m % (2 * unit) == 2 * t + sticky) by (nonlinear_arith)
        requires
            m == q * (2 * unit) + (2 * t + sticky),
            0 <= 2 * t + sticky < 2 * unit,
    ;
    if t < half {
        assert((t + 1) * b <= half * b) by (nonlinear_arith)
            requires
                t + 1 <= half,
                b > 0,
        ;
        assert(2 * r < d) by (nonlinear_arith)
            requires
                r == t * b + part,
                d == b * (2 * half),
                (t + 1) * b <= half * b,
                part < b,
        ;
    } else if t == half {
        assert(2 * r == d + 2 * part) by (nonlinear_arith)
            requires
                r == t * b + part,
                d == b * (2 * half),
                t == half,
        ;
    } else {
        assert(2 * r > d) by (nonlinear_arith)
            requires
                r == t * b + part,
                d == b * (2 * half),
                t >= half + 1,
                part >= 0,
                b > 0,
        ;
    }
}

/// Scales a number of at least 2^53 and below 2^64.
fn scale_large(whole: u128, fraction: &Vec<u8>, factor: u64) -> (r: u64)
    requires
        well_formed(fraction@),
        0x20_0000_0000_0000 <= whole < 0x1_0000_0000_0000_0000,
        0 < factor <= 1_000_000_000,
    ensures
        r == scaled(
            whole as nat * binary::ten_to(fraction@.len()) + value(fraction@),
            binary::ten_to(fraction@.len()),
            factor as nat,
        ),
{
    let ghost b = binary::ten_to(fraction@.len());
    let ghost part = value(fraction@);
    let ghost a = whole as nat * b + part;
    proof {
        binary::lemma_ten_to_pos(fraction@.len());
        lemma_value_bounds(fraction@);
        binary::lemma_two_to_values();
        reveal_with_fuel(binary::two_to, 12);
    }
    let mut j: u32 = 1;
    let mut unit: u128 = 2;
    while whole >= unit * 0x20_0000_0000_0000
        invariant
            unit == binary::two_to(j as nat),
            1 <= j <= 11,
            2 <= unit <= 0x800,
            whole < 0x1_0000_0000_0000_0000,
            whole >= unit * 0x10_0000_0000_0000,
            binary::two_to(11) == 0x800,
        decreases 12 - j,
    {
        proof {
            if j >= 11 {
                assert(unit == 0x800);
            }
            binary::lemma_two_to_monotone((j + 1) as nat, 11);
        }
        unit = unit * 2;
        j = j + 1;
    }
    let sticky: u128 = if is_zero(fraction) {
        0
    } else {
        1
    };
    let m: u128 = nearest_div(2 * whole + sticky, 2 * unit);
    proof {
        lemma_sticky(whole as int, part as int, b as int, unit as int / 2);
        assert(unit as int == 2 * (unit as int / 2)) by {
            assert(binary::two_to(j as nat) == 2 * binary::two_to((j - 1) as nat));
        }
        let l: int = 52 + j;
        let x = binary::two_to(l as nat);
        let y = binary::two_to((l + 1) as nat);
        binary::lemma_two_to_add(52, j as nat);
        assert(52 + j as nat == l as nat);
        assert(x * b <= a) by (nonlinear_arith)
            requires
                x == 0x10_0000_0000_0000 * unit,
                whole >= unit * 0x10_0000_0000_0000,
                a == whole as nat * b + part,
                b > 0,
        ;
        assert(a < y * b) by (nonlinear_arith)
            requires
                y == 2 * x,
                x == 0x10_0000_0000_0000 * unit,
                whole < unit * 0x20_0000_0000_0000,
                a == whole as nat * b + part,
                part < b,
        ;
        assert(binary::is_exponent(a, b, l));
        binary::lemma_exponent(a, b, l);
        assert(binary::ratio(a, b, 53).mant == m);
        assert(binary::ratio(a, b, 53).exp == j);
        assert(a > 0) by (nonlinear_arith)
            requires
                a == whole as nat * b + part,
                whole > 0,
                b > 0,
        ;
        let w = 2 * whole + sticky;
        let u = 2 * unit;
        assert(w as int / u as int <= 0x20_0000_0000_0000) by (nonlinear_arith)
            requires
                w <= u * 0x20_0000_0000_0000,
                u > 0,
        ;
        assert(m * factor <= 0x20_0000_0000_0001 * 1_000_000_000) by (nonlinear_arith)
            requires
                m <= 0x20_0000_0000_0001,
                factor <= 1_000_000_000,
        ;
        assert(m * factor == m as nat * factor as nat);
        binary::lemma_rounded_bounds(m as nat * factor as nat);
    }
    let p: u128 = round_bits(m * factor as u128, 53);
    proof {
        assert(p * unit <= 0x100_0000_0000_0000_0000_0000 * 0x800) by (nonlinear_arith)
            requires
                p <= 0x100_0000_0000_0000_0000_0000,
                unit <= 0x800,
        ;
    }
    let n: u128 = p * unit;
    if n > u64::MAX as u128 {
        u64::MAX
    } else {
        n as u64
    }
}

/// Scales a number of less than 2^53.
fn scale_small(whole: u128, fraction: Vec<u8>, factor: u64) -> (r: u64)
    requires
        well_formed(fraction@),
        whole < 0x20_0000_0000_0000,
        0 < factor <= 1_000_000_000,
    ensures
        r == scaled(
            whole as nat * binary::ten_to(fraction@.len()) + value(fraction@),
            binary::ten_to(fraction@.len()),
            factor as nat,
        ),
{
    let mut fraction: Vec<u8> = fraction;
    let ghost b = binary::ten_to(fraction@.len());
    let ghost a = whole as nat * b + value(fraction@);
    let mut acc: u128 = whole;
    let mut d: u32 = 0;
    proof {
        binary::lemma_ten_to_pos(fraction@.len());
        lemma_value_bounds(fraction@);
        binary::lemma_two_to_values();
        let one = binary::two_to(0);
        assert(a * one == a) by (nonlinear_arith)
            requires
                one == 1,
        ;
    }
    while acc < 0x10_0000_0000_0000 && d < 82
        invariant
            well_formed(fraction@),
            b == binary::ten_to(fraction@.len()),
            b > 0,
            value(fraction@) < b,
            acc < 0x20_0000_0000_0000,
            d <= 82,
            a * binary::two_to(d as nat) == acc * b + value(fraction@),
        decreases 82 - d,
    {
        let ghost f0 = value(fraction@);
        let ghost acc0 = acc;
        let carry: u8 = double(&mut fraction);
        acc = 2 * acc + carry as u128;
        proof {
            lemma_value_bounds(fraction@);
            let x = binary::two_to(d as nat);
            let y = binary::two_to((d + 1) as nat);
            let f1 = value(fraction@);
            assert(a * y == acc * b + f1) by (nonlinear_arith)
                requires
                    y == 2 * x,
                    a * x == acc0 * b + f0,
                    2 * f0 == carry * b + f1,
                    acc == 2 * acc0 + carry,
            ;
        }
        d = d + 1;
    }
    let ghost shift = d as nat;
    if acc < 0x10_0000_0000_0000 {
        proof {
            if a > 0 {
                binary::lemma_two_to_add(30, 52);
                let x = binary::two_to(82);
                let f = value(fraction@);
                assert(a * x < 0x10_0000_0000_0000 * b) by (nonlinear_arith)
                    requires
                        a * x == acc * b + f,
                        acc + 1 <= 0x10_0000_0000_0000,
                        f < b,
                ;
                let y = binary::two_to(30);
                assert(a * y < b) by (nonlinear_arith)
                    requires
                        a * x < 0x10_0000_0000_0000 * b,
                        x == y * 0x10_0000_0000_0000,
                ;
                binary::lemma_small_ratio(a, b, factor as nat);
            }
        }
        return 0;
    }
    let ghost f = value(fraction@);
    let carry: u8 = double(&mut fraction);
    let up: bool = carry == 1 && (!is_zero(&fraction) || acc % 2 == 1);
    let m: u128 = if up {
        acc + 1
    } else {
        acc
    };
    proof {
        lemma_value_bounds(fraction@);
        let z = binary::two_to(shift);
        binary::lemma_two_to_pos(shift);
        let n = a * z;
        assert(n as int / b as int == acc && n as int % b as int == f) by (nonlinear_arith)
            requires
                n == acc * b + f,
                0 <= f < b,
        ;
        let rest = value(fraction@);
        assert(2 * f == carry * b + rest);
        assert(carry == 0 ==> 2 * f == rest) by (nonlinear_arith)
            requires
                2 * f == carry * b + rest,
        ;
        assert(carry == 1 ==> 2 * f == b + rest) by (nonlinear_arith)
            requires
                2 * f == carry * b + rest,
        ;
        assert(m == binary::nearest(n as int, b as int));
        assert(acc * b >= 0x10_0000_0000_0000 * b) by (nonlinear_arith)
            requires
                acc >= 0x10_0000_0000_0000,
        ;
        assert(n < 0x20_0000_0000_0000 * b) by (nonlinear_arith)
            requires
                n == acc * b + f,
                acc + 1 <= 0x20_0000_0000_0000,
                f < b,
        ;
        let l: int = 52 - shift;
        binary::lemma_scaled_exponent(a, b, shift);
        binary::lemma_exponent(a, b, l);
        assert(binary::ratio(a, b, 53).mant == m);
        assert(binary::ratio(a, b, 53).exp == -(shift as int));
        assert(a > 0) by (nonlinear_arith)
            requires
                a * z >= 0x10_0000_0000_0000 * b,
                b > 0,
        ;
        assert(m * factor <= 0x20_0000_0000_0001 * 1_000_000_000) by (nonlinear_arith)
            requires
                m <= 0x20_0000_0000_0001,
                factor <= 1_000_000_000,
        ;
        assert(m * factor == m as nat * factor as nat);
    }
    let p: u128 = round_bits(m * factor as u128, 53);
    let n: u128 = p / power_of_two(d);
    proof {
        if shift == 0 {
            let q = binary::two_to(0);
            assert(p as int / q as int == p * q) by {
                assert(p as int / 1 == p as int);
                assert(p * q == p) by (nonlinear_arith)
                    requires
                        q == 1,
                ;
            }
        }
    }
    if n > u64::MAX as u128 {
        u64::MAX
    } else {
        n as u64
    }
}

/// Scales `whole` and a decimal fraction.
fn scale(whole: u128, fraction: Vec<u8>, factor: u64) -> (r: u64)
    requires
        well_formed(fraction@),
        0 < factor <= 1_000_000_000,
    ensures
        r == scaled(
            whole as nat * binary::ten_to(fraction@.len()) + value(fraction@),
            binary::ten_to(fraction@.len()),
            factor as nat,
        ),
{
    if whole < 0x20_0000_0000_0000 {
        scale_small(whole, fraction, factor)
    } else if whole < 0x1_0000_0000_0000_0000 {
        scale_large(whole, &fraction, factor)
    } else {
        proof {
            let b = binary::ten_to(fraction@.len());
            binary::lemma_ten_to_pos(fraction@.len());
            binary::lemma_two_to_values();
            let a = whole as nat * b + value(fraction@);
            assert(a >= binary::two_to(64) * b) by (nonlinear_arith)
                requires
                    whole >= 0x1_0000_0000_0000_0000,
                    a == whole as nat * b + value(fraction@),
                    binary::two_to(64) == 0x1_0000_0000_0000_0000,
            ;
            assert(a > 0) by (nonlinear_arith)
                requires
                    a >= binary::two_to(64) * b,
                    binary::two_to(64) > 0,
                    b > 0,
            ;
            binary::lemma_large_ratio(a, b, factor as nat);
        }
        u64::MAX
    }
}

/// A number of `n` digits whose point stands beyond the twentieth is too large.
pub proof fn lemma_scaled_huge(mantissa: nat, n: nat, exponent: int, factor: nat)
    requires
        n > 0,
        mantissa >= binary::ten_to((n - 1) as nat),
        n + exponent > 20,
        factor > 0,
    ensures
        scaled_decimal(mantissa, exponent, factor) == u64::MAX,
{
    binary::lemma_two_to_values();
    reveal_with_fuel(binary::ten_to, 21);
    assert(binary::ten_to(20) == 100_000_000_000_000_000_000);
    let low = binary::ten_to((n - 1) as nat);
    binary::lemma_ten_to_pos((n - 1) as nat);
    if exponent >= 0 {
        let t = binary::ten_to(exponent as nat);
        binary::lemma_ten_to_add((n - 1) as nat, exponent as nat);
        binary::lemma_ten_to_monotone(20, (n - 1 + exponent) as nat);
        assert((n - 1) as nat + exponent as nat == (n - 1 + exponent) as nat);
        let a = mantissa * t;
        assert(a >= low * t) by (nonlinear_arith)
            requires
                mantissa >= low,
                a == mantissa * t,
        ;
        binary::lemma_large_ratio(a, 1, factor);
    } else {
        let b = binary::ten_to((-exponent) as nat);
        binary::lemma_ten_to_pos((-exponent) as nat);
        let k = (n - 1 + exponent) as nat;
        binary::lemma_ten_to_add(k, (-exponent) as nat);
        assert(k + (-exponent) as nat == (n - 1) as nat);
        binary::lemma_ten_to_monotone(20, k);
        let t = binary::ten_to(k);
        let w = binary::two_to(64);
        assert(mantissa >= w * b) by (nonlinear_arith)
            requires
                mantissa >= t * b,
                t >= w,
        ;
        assert(mantissa > 0);
        binary::lemma_large_ratio(mantissa, b, factor);
    }
}

/// A number of `n` digits whose point stands more than nine places before the
/// first is too small to count.
pub proof fn lemma_scaled_tiny(mantissa: nat, n: nat, exponent: int, factor: nat)
    requires
        mantissa < binary::ten_to(n),
        n + exponent < -9,
        factor <= 1_000_000_000,
    ensures
        scaled_decimal(mantissa, exponent, factor) == 0,
{
    if mantissa > 0 {
        binary::lemma_two_to_values();
        reveal_with_fuel(binary::ten_to, 11);
        assert(binary::ten_to(10) == 10_000_000_000);
        let b = binary::ten_to((-exponent) as nat);
        binary::lemma_ten_to_monotone((n + 10) as nat, (-exponent) as nat);
        binary::lemma_ten_to_add(n, 10);
        let t = binary::ten_to(n);
        let w = binary::two_to(30);
        assert(mantissa * w < b) by (nonlinear_arith)
            requires
                mantissa < t,
                w <= 10_000_000_000,
                t * 10_000_000_000 <= b,
        ;
        binary::lemma_small_ratio(mantissa, b, factor);
    }
}

proof fn lemma_ten_to_twenty()
    ensures
        binary::ten_to(0) == 1,
        binary::ten_to(20) == 100_000_000_000_000_000_000,
{
    reveal_with_fuel(binary::ten_to, 21);
}

/// Value of the first `count` digits.
fn leading_value(digits: &Vec<u8>, count: usize) -> (whole: u128)
    requires
        well_formed(digits@),
        count <= 20,
        count <= digits@.len(),
    ensures
        whole == value(digits@.take(count as int)),
        whole < binary::ten_to(count as nat),
{
    let mut whole: u128 = 0;
    let mut taken: usize = 0;
    proof {
        lemma_ten_to_twenty();
        assert(digits@.take(0) =~= Seq::<u8>::empty());
    }
    while taken < count
        invariant
            taken <= count <= digits@.len(),
            count <= 20,
            well_formed(digits@),
            whole == value(digits@.take(taken as int)),
            whole < binary::ten_to(taken as nat),
            binary::ten_to(20) == 100_000_000_000_000_000_000,
        decreases count - taken,
    {
        proof {
            assert(digits@.take(taken + 1).drop_last() =~= digits@.take(taken as int));
            assert(digits@[taken as int] < 10);
            binary::lemma_ten_to_monotone((taken + 1) as nat, 20);
        }
        whole = whole * 10 + digits[taken] as u128;
        taken = taken + 1;
    }
    whole
}

/// `v * 10^e`, where `v` has at most `n` digits.
fn times_ten_to(v: u128, n: usize, e: usize) -> (r: u128)
    requires
        v < binary::ten_to(n as nat),
        n + e <= 20,
    ensures
        r == v as nat * binary::ten_to(e as nat),
{
    let mut r: u128 = v;
    let mut i: usize = 0;
    proof {
        lemma_ten_to_twenty();
        let t = binary::ten_to(0);
        assert(v as nat * t == v) by (nonlinear_arith)
            requires
                t == 1,
        ;
    }
    while i < e
        invariant
            i <= e,
            n + e <= 20,
            r == v as nat * binary::ten_to(i as nat),
            r < binary::ten_to((n + i) as nat),
            binary::ten_to(20) == 100_000_000_000_000_000_000,
        decreases e - i,
    {
        proof {
            binary::lemma_ten_to_monotone((n + i + 1) as nat, 20);
            let x = binary::ten_to(i as nat);
            let y = binary::ten_to((i + 1) as nat);
            assert(v as nat * y == 10 * (v as nat * x)) by (nonlinear_arith)
                requires
                    y == 10 * x,
            ;
        }
        r = r * 10;
        i = i + 1;
    }
    r
}

/// The digits from `taken` on, behind some zeros.
fn fraction_digits(digits: &Vec<u8>, taken: usize, zeros: usize) -> (fraction: Vec<u8>)
    requires
        well_formed(digits@),
        taken <= digits@.len(),
    ensures
        well_formed(fraction@),
        fraction@.len() == zeros + digits@.len() - taken,
        value(fraction@) == value(digits@.skip(taken as int)),
{
    let mut fraction: Vec<u8> = Vec::new();
    let mut z: usize = 0;
    while z < zeros
        invariant
            z <= zeros,
            fraction@.len() == z,
            forall|k: int| 0 <= k < fraction@.len() ==> fraction@[k] == 0,
        decreases zeros - z,
    {
        fraction.push(0);
        z = z + 1;
    }
    let ghost front = fraction@;
    let mut i: usize = taken;
    assert(digits@.subrange(taken as int, i as int) =~= Seq::<u8>::empty());
    assert(front + Seq::<u8>::empty() =~= front);
    while i < digits.len()
        invariant
            taken <= i <= digits@.len(),
            fraction@ == front + digits@.subrange(taken as int, i as int),
        decreases digits@.len() - i,
    {
        fraction.push(digits[i]);
        i = i + 1;
        assert(fraction@ =~= front + digits@.subrange(taken as int, i as int));
    }
    proof {
        let tail = digits@.skip(taken as int);
        assert(digits@.subrange(taken as int, i as int) =~= tail);
        lemma_value_leading_zeros(front, tail);
        assert forall|k: int| 0 <= k < fraction@.len() implies #[trigger] fraction@[k] < 10 by {
            if k >= front.len() {
                assert(fraction@[k] == digits@[taken + k - front.len()]);
            }
        }
    }
    fraction
}

/// Scales `digits * 10^exponent`. The first digit must not be zero.
pub fn scale_decimal(digits: &Vec<u8>, exponent: i128, factor: u64) -> (r: u64)
    requires
        well_formed(digits@),
        digits@.len() > 0 ==> digits@[0] > 0,
        -1_000_000_000_000_000_000_000_000_000_000 <= exponent
            <= 1_000_000_000_000_000_000_000_000_000_000,
        0 < factor <= 1_000_000_000,
    ensures
        r == scaled_decimal(value(digits@), exponent as int, factor as nat),
{
    let n: usize = digits.len();
    proof {
        lemma_value_bounds(digits@);
    }
    if n == 0 {
        proof {
            let t = binary::ten_to(exponent as nat);
            assert(0 * t == 0) by (nonlinear_arith);
        }
        return 0;
    }
    let point: i128 = n as i128 + exponent;
    if point > 20 {
        proof {
            lemma_scaled_huge(value(digits@), n as nat, exponent as int, factor as nat);
        }
        return u64::MAX;
    }
    if point < -9 {
        proof {
            lemma_scaled_tiny(value(digits@), n as nat, exponent as int, factor as nat);
        }
        return 0;
    }
    proof {
        lemma_ten_to_twenty();
    }
    if exponent >= 0 {
        let v: u128 = leading_value(digits, n);
        assert(digits@.take(n as int) =~= digits@);
        let whole: u128 = times_ten_to(v, n, exponent as usize);
        proof {
            let t = binary::ten_to(0);
            assert(whole as nat * t == whole) by (nonlinear_arith)
                requires
                    t == 1,
            ;
        }
        scale(whole, Vec::new(), factor)
    } else {
        let taken: usize = if point > 0 {
            point as usize
        } else {
            0
        };
        let zeros: usize = if point < 0 {
            (-point) as usize
        } else {
            0
        };
        let whole: u128 = leading_value(digits, taken);
        let fraction: Vec<u8> = fraction_digits(digits, taken, zeros);
        proof {
            let tail = digits@.skip(taken as int);
            assert(digits@ =~= digits@.take(taken as int) + tail);
            lemma_value_concat(digits@.take(taken as int), tail);
            assert(fraction@.len() == -exponent);
            if taken == 0 {
                let x = binary::ten_to(tail.len());
                let y = binary::ten_to(fraction@.len());
                assert(whole == 0);
                assert(whole as nat * x == 0 && whole as nat * y == 0) by (nonlinear_arith)
                    requires
                        whole == 0,
                ;
            }
        }
        scale(whole, fraction, factor)
    }
}

} // verus!
