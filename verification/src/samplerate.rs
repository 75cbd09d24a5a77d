//! Sample rates as text. Rates are read and shown as double-precision
//! numbers; the arithmetic here gives the same digits in integers.

use vstd::prelude::*;
use vstd::string::StringExecFns;

use crate::binary;
use crate::binary::{nearest_div, power_of_two, round_bits};
use crate::decimal;
use crate::decimal::scale_decimal;
use crate::text;
use crate::text::{characters, find, is_literal, push_decimal, push_digit};

verus! {

/// Significant binary digits of a double-precision number.
pub const DOUBLE_DIGITS: u32 = 53;

/// A number of thousandths with three digits behind the point.
pub open spec fn fixed_point(thousandths: nat) -> Seq<char> {
    text::decimal(thousandths / 1000) + seq![
        '.',
        text::digit_char(thousandths / 100 % 10),
        text::digit_char(thousandths / 10 % 10),
        text::digit_char(thousandths % 10),
    ]
}

/// `hz / unit` in thousandths: the double-precision quotient of the
/// double-precision `hz`, to the nearest thousandth.
pub open spec fn thousandths(hz: u64, unit: nat) -> nat {
    let q = binary::ratio(binary::rounded(hz as nat, 53), unit, 53);
    binary::nearest((1000 * q.mant) as int, binary::two_to((-q.exp) as nat) as int) as nat
}

/// How a sample rate is shown.
pub open spec fn samplerate_text(hz: u64) -> Seq<char> {
    if hz >= 1_000_000_000 {
        fixed_point(thousandths(hz, 1_000_000_000)) + " GHz"@
    } else if hz >= 1_000_000 {
        fixed_point(thousandths(hz, 1_000_000)) + " MHz"@
    } else if hz >= 1_000 {
        fixed_point(thousandths(hz, 1_000)) + " kHz"@
    } else {
        text::decimal(hz as nat) + " Hz"@
    }
}

/// Double-precision quotient of at least one, as a mantissa and the number of
/// binary digits behind the point.
fn divide(n: u128, unit: u128) -> (r: (u128, u32))
    requires
        0 < unit <= n,
        unit <= 1_000_000_000,
        n < 0x10_0000_0000_0000 * unit,
    ensures
        binary::ratio(n as nat, unit as nat, 53) == (binary::Binary {
            mant: r.0 as nat,
            exp: -(r.1 as int),
        }),
        r.0 <= 0x20_0000_0000_0000,
        r.1 <= 52,
{
    let mut scaled: u128 = n;
    let mut shift: u32 = 0;
    let floor: u128 = 0x10_0000_0000_0000 * unit;
    proof {
        binary::lemma_two_to_values();
        assert(n * binary::two_to(0) == n) by (nonlinear_arith)
            requires
                binary::two_to(0) == 1,
        ;
    }
    while scaled < floor
        invariant
            scaled == n * binary::two_to(shift as nat),
            floor == 0x10_0000_0000_0000 * unit,
            0 < unit <= n,
            unit <= 1_000_000_000,
            n < floor,
            scaled < 2 * floor,
            binary::two_to(52) == 0x10_0000_0000_0000,
            shift <= 52,
        decreases 53 - shift,
    {
        proof {
            let x = binary::two_to(shift as nat);
            let y = binary::two_to((shift + 1) as nat);
            assert(n * y == 2 * (n * x)) by (nonlinear_arith)
                requires
                    y == 2 * x,
            ;
            binary::lemma_two_to_pos(shift as nat);
            assert(n * x > 0) by (nonlinear_arith)
                requires
                    n > 0,
                    x > 0,
            ;
            if shift == 52 {
                assert(n * x >= floor) by (nonlinear_arith)
                    requires
                        x == 0x10_0000_0000_0000,
                        floor == 0x10_0000_0000_0000 * unit,
                        n >= unit,
                ;
            }
        }
        scaled = scaled * 2;
        shift = shift + 1;
    }
    let m: u128 = nearest_div(scaled, unit);
    proof {
        let l: int = 52 - shift;
        let x = binary::two_to(l as nat);
        let y = binary::two_to((l + 1) as nat);
        let z = binary::two_to(shift as nat);
        binary::lemma_two_to_pos(shift as nat);
        binary::lemma_two_to_add(l as nat, shift as nat);
        assert(x * unit <= n) by (nonlinear_arith)
            requires
                n * z >= 0x10_0000_0000_0000 * unit,
                x * z == 0x10_0000_0000_0000,
                z > 0,
        ;
        assert(n < y * unit) by (nonlinear_arith)
            requires
                n * z < 2 * (0x10_0000_0000_0000 * unit),
                x * z == 0x10_0000_0000_0000,
                y == 2 * x,
                z > 0,
        ;
        assert(binary::is_exponent(n as nat, unit as nat, l));
        binary::lemma_exponent(n as nat, unit as nat, l);
        assert(scaled as int / unit as int <= 0x20_0000_0000_0000 - 1) by (nonlinear_arith)
            requires
                scaled < 0x20_0000_0000_0000 * unit,
                unit > 0,
        ;
    }
    (m, shift)
}

/// Appends `hz / unit` with three digits behind the point.
fn push_quotient(out: &mut String, hz: u64, unit: u64)
    requires
        unit <= hz,
        hz < 1000 * unit || unit == 1_000_000_000,
        1_000 <= unit <= 1_000_000_000,
    ensures
        final(out)@ == old(out)@ + fixed_point(thousandths(hz, unit as nat)),
{
    let n: u128 = round_bits(hz as u128, DOUBLE_DIGITS);
    proof {
        binary::lemma_two_to_values();
        binary::lemma_rounded_bounds(hz as nat);
        lemma_rounded_small(hz as nat);
    }
    let (m, shift) = divide(n, unit as u128);
    let t: u128 = nearest_div(1000 * m, power_of_two(shift));
    proof {
        let d = binary::two_to(shift as nat);
        binary::lemma_two_to_pos(shift as nat);
        assert((1000 * m) as int / d as int <= 1000 * m) by (nonlinear_arith)
            requires
                d > 0,
                m >= 0,
        ;
    }
    let t: u64 = t as u64;
    push_decimal(out, t / 1000);
    out.append(".");
    push_digit(out, (t / 100 % 10) as u8);
    push_digit(out, (t / 10 % 10) as u8);
    push_digit(out, (t % 10) as u8);
    proof {
        reveal_strlit(".");
        assert(out@ =~= old(out)@ + fixed_point(t as nat));
    }
}

/// A number of at most 53 digits is its own rounding.
proof fn lemma_rounded_small(n: nat)
    ensures
        n < binary::two_to(53) ==> binary::rounded(n, 53) == n,
        n >= 1_000_000_000 ==> binary::rounded(n, 53) >= 1_000_000_000,
{
    binary::lemma_two_to_values();
    if n < binary::two_to(53) {
        assert(binary::excess_bits(n, 53) == 0);
        let unit = binary::two_to(0);
        assert(unit == 1);
        assert(n as int / 1 == n as int);
        assert(n as int % 1 == 0);
        let m = binary::nearest(n as int, unit as int);
        assert(m == n);
        assert(m * unit == n) by (nonlinear_arith)
            requires
                m == n,
                unit == 1,
        ;
    } else {
        binary::lemma_rounded_bounds(n);
    }
}

pub fn format_samplerate(hz: u64) -> (s: String)
    ensures
        s@ == samplerate_text(hz),
{
    let mut out: String = String::new();
    if hz >= 1_000_000_000 {
        push_quotient(&mut out, hz, 1_000_000_000);
        out.append(" GHz");
    } else if hz >= 1_000_000 {
        push_quotient(&mut out, hz, 1_000_000);
        out.append(" MHz");
    } else if hz >= 1_000 {
        push_quotient(&mut out, hz, 1_000);
        out.append(" kHz");
    } else {
        push_decimal(&mut out, hz);
        out.append(" Hz");
    }
    assert(out@ =~= samplerate_text(hz));
    out
}

/// Factor that a unit stands for, in any case of its letters; another text
/// stands for one.
pub open spec fn factor_of(unit: Seq<char>) -> nat {
    let u = text::uppercase(unit);
    if u == "GHZ"@ {
        1_000_000_000
    } else if u == "MHZ"@ {
        1_000_000
    } else if u == "KHZ"@ {
        1_000
    } else {
        1
    }
}

/// Digits with an optional sign before them.
pub open spec fn signed_of(s: Seq<char>) -> Option<int> {
    let signed = s.len() > 0 && (s[0] == '+' || s[0] == '-');
    let digits = if signed {
        s.skip(1)
    } else {
        s
    };
    if digits.len() > 0 && text::all_digits(digits) {
        if signed && s[0] == '-' {
            Some(-(text::digits_value(digits) as int))
        } else {
            Some(text::digits_value(digits) as int)
        }
    } else {
        None
    }
}

/// Where the exponent of a number starts: at its first `e`, in either case.
pub open spec fn exponent_at(s: Seq<char>) -> int {
    let lower = text::find_from(s, 'e', 0);
    let upper = text::find_from(s, 'E', 0);
    if lower < upper {
        lower
    } else {
        upper
    }
}

/// Mantissa and power of ten of an unsigned decimal number: digits around an
/// optional point, with at least one digit, and an optional exponent.
pub open spec fn number_of(s: Seq<char>) -> Option<(nat, int)> {
    let x = exponent_at(s);
    let mantissa = s.take(x);
    let exponent = if x < s.len() {
        signed_of(s.skip(x + 1))
    } else {
        Some(0)
    };
    let dot = text::find_from(mantissa, '.', 0);
    let whole = mantissa.take(dot);
    let fraction = if dot < mantissa.len() {
        mantissa.skip(dot + 1)
    } else {
        Seq::empty()
    };
    if text::all_digits(whole) && text::all_digits(fraction) && whole.len() + fraction.len() > 0
        && exponent is Some {
        Some(
            (
                text::digits_value(whole) * binary::ten_to(fraction.len()) + text::digits_value(
                    fraction,
                ),
                exponent.unwrap() - fraction.len(),
            ),
        )
    } else {
        None
    }
}

/// A number times a factor, as a whole number of hertz. What is no number, or
/// is negative, counts as zero.
pub open spec fn rate_of(number: Seq<char>, factor: nat) -> u64 {
    let signed = number.len() > 0 && (number[0] == '+' || number[0] == '-');
    let body = if signed {
        number.skip(1)
    } else {
        number
    };
    if signed && number[0] == '-' {
        0
    } else if text::uppercase(body) == "INF"@ || text::uppercase(body) == "INFINITY"@ {
        u64::MAX
    } else {
        match number_of(body) {
            Some((mantissa, exponent)) => decimal::scaled_decimal(mantissa, exponent, factor),
            None => 0,
        }
    }
}

/// Sample rate in hertz that a text gives: a number and, behind the first
/// space, a unit.
pub open spec fn samplerate_of(s: Seq<char>) -> u64 {
    let sp = text::find_from(s, ' ', 0);
    let factor = if sp < s.len() {
        factor_of(s.skip(sp + 1))
    } else {
        1
    };
    rate_of(s.take(sp), factor)
}

/// Exponents beyond this are out of every range that matters.
const EXPONENT_CAP: u128 = 100_000_000_000_000_000_000_000_000;

/// Whether the text, with its ASCII letters in upper case, is the literal.
fn is_uppercase_literal(s: &[char], literal: &str) -> (b: bool)
    ensures
        b == (text::uppercase(s@) == literal@),
{
    let mut upper: Vec<char> = Vec::new();
    let mut i: usize = 0;
    while i < s.len()
        invariant
            i <= s@.len(),
            upper@ == text::uppercase(s@).take(i as int),
        decreases s@.len() - i,
    {
        upper.push(text::to_upper(s[i]));
        i = i + 1;
        assert(upper@ =~= text::uppercase(s@).take(i as int));
    }
    assert(upper@ =~= text::uppercase(s@));
    is_literal(upper.as_slice(), literal)
}

/// Appends digits to a mantissa without leading zeros. Returns whether the
/// text holds digits only.
fn push_digits(mantissa: &mut Vec<u8>, s: &[char]) -> (ok: bool)
    requires
        decimal::well_formed(old(mantissa)@),
        old(mantissa)@.len() > 0 ==> old(mantissa)@[0] > 0,
    ensures
        ok == text::all_digits(s@),
        decimal::well_formed(final(mantissa)@),
        final(mantissa)@.len() > 0 ==> final(mantissa)@[0] > 0,
        ok ==> decimal::value(final(mantissa)@) == decimal::value(old(mantissa)@)
            * binary::ten_to(s@.len()) + text::digits_value(s@),
{
    let mut i: usize = 0;
    proof {
        let t = binary::ten_to(0);
        let v = decimal::value(mantissa@);
        assert(v * t == v) by (nonlinear_arith)
            requires
                t == 1,
        ;
        assert(s@.take(0) =~= Seq::<char>::empty());
    }
    while i < s.len()
        invariant
            i <= s@.len(),
            decimal::well_formed(mantissa@),
            mantissa@.len() > 0 ==> mantissa@[0] > 0,
            forall|k: int| 0 <= k < i ==> text::is_digit(#[trigger] s@[k]),
            decimal::value(mantissa@) == decimal::value(old(mantissa)@) * binary::ten_to(i as nat)
                + text::digits_value(s@.take(i as int)),
        decreases s@.len() - i,
    {
        let c: char = s[i];
        if !('0' <= c && c <= '9') {
            return false;
        }
        let d: u8 = (c as u32 - '0' as u32) as u8;
        let ghost before = mantissa@;
        if mantissa.len() > 0 || d > 0 {
            mantissa.push(d);
            assert(mantissa@.drop_last() =~= before);
        }
        proof {
            assert(s@.take(i + 1).drop_last() =~= s@.take(i as int));
            let v = decimal::value(old(mantissa)@);
            let x = binary::ten_to(i as nat);
            let y = binary::ten_to((i + 1) as nat);
            assert(v * y == 10 * (v * x)) by (nonlinear_arith)
                requires
                    y == 10 * x,
            ;
        }
        i = i + 1;
    }
    assert(s@.take(i as int) =~= s@);
    true
}

/// Value of a run of digits, if the text is one. A value beyond the cap is only
/// known to be beyond it.
fn parse_capped(digits: &[char]) -> (r: Option<u128>)
    ensures
        r is Some <==> digits@.len() > 0 && text::all_digits(digits@),
        match r {
            None => true,
            Some(v) => {
                &&& v <= 10 * EXPONENT_CAP + 9
                &&& v <= EXPONENT_CAP ==> v == text::digits_value(digits@)
                &&& v > EXPONENT_CAP ==> text::digits_value(digits@) > EXPONENT_CAP
            },
        },
{
    let mut v: u128 = 0;
    let mut i: usize = 0;
    assert(digits@.take(0) =~= Seq::<char>::empty());
    while i < digits.len()
        invariant
            i <= digits@.len(),
            forall|k: int| 0 <= k < i ==> text::is_digit(#[trigger] digits@[k]),
            v <= 10 * EXPONENT_CAP + 9,
            v <= EXPONENT_CAP ==> v == text::digits_value(digits@.take(i as int)),
            v > EXPONENT_CAP ==> text::digits_value(digits@.take(i as int)) > EXPONENT_CAP,
        decreases digits@.len() - i,
    {
        let c: char = digits[i];
        if !('0' <= c && c <= '9') {
            assert(!text::is_digit(digits@[i as int]));
            return None;
        }
        assert(digits@.take(i + 1).drop_last() =~= digits@.take(i as int));
        if v <= EXPONENT_CAP {
            v = v * 10 + (c as u128 - '0' as u128);
        }
        i = i + 1;
    }
    assert(digits@.take(i as int) =~= digits@);
    if digits.len() == 0 {
        None
    } else {
        Some(v)
    }
}

/// Whether a sign and a capped magnitude stand for the exponent `e`.
spec fn capped(negative: bool, magnitude: u128, e: int) -> bool {
    let signed = if negative {
        -(magnitude as int)
    } else {
        magnitude as int
    };
    &&& magnitude <= 10 * EXPONENT_CAP + 9
    &&& magnitude <= EXPONENT_CAP ==> e == signed
    &&& magnitude > EXPONENT_CAP && negative ==> e < -(EXPONENT_CAP as int)
    &&& magnitude > EXPONENT_CAP && !negative ==> e > EXPONENT_CAP
}

/// Sign and capped magnitude of an exponent.
fn parse_exponent(s: &[char]) -> (r: Option<(bool, u128)>)
    ensures
        r is Some <==> signed_of(s@) is Some,
        r is Some ==> capped(r.unwrap().0, r.unwrap().1, signed_of(s@).unwrap()),
{
    if s.len() > 0 && (s[0] == '+' || s[0] == '-') {
        let digits: &[char] = &s[1..s.len()];
        assert(digits@ =~= s@.skip(1));
        match parse_capped(digits) {
            Some(v) => Some((s[0] == '-', v)),
            None => None,
        }
    } else {
        match parse_capped(s) {
            Some(v) => Some((false, v)),
            None => None,
        }
    }
}

/// Beyond the cap the exact exponent does not matter.
proof fn lemma_capped(
    digits: Seq<u8>,
    negative: bool,
    magnitude: u128,
    e: int,
    places: int,
    factor: nat,
)
    requires
        decimal::well_formed(digits),
        digits.len() > 0 ==> digits[0] > 0,
        digits.len() <= u64::MAX,
        0 <= places <= u64::MAX,
        capped(negative, magnitude, e),
        0 < factor <= 1_000_000_000,
    ensures
        decimal::scaled_decimal(decimal::value(digits), e - places, factor)
            == decimal::scaled_decimal(
            decimal::value(digits),
            (if negative {
                -(magnitude as int)
            } else {
                magnitude as int
            }) - places,
            factor,
        ),
{
    let v = decimal::value(digits);
    let n = digits.len();
    let f: int = if negative {
        -(magnitude as int)
    } else {
        magnitude as int
    };
    decimal::lemma_value_bounds(digits);
    if magnitude > EXPONENT_CAP {
        if n == 0 {
            let a = binary::ten_to((e - places) as nat);
            let b = binary::ten_to((f - places) as nat);
            assert(0 * a == 0 && 0 * b == 0) by (nonlinear_arith);
        } else if negative {
            decimal::lemma_scaled_tiny(v, n, e - places, factor);
            decimal::lemma_scaled_tiny(v, n, f - places, factor);
        } else {
            decimal::lemma_scaled_huge(v, n, e - places, factor);
            decimal::lemma_scaled_huge(v, n, f - places, factor);
        }
    }
}

/// Scales an unsigned decimal number; what is none counts as zero.
fn scale_number(s: &[char], factor: u64) -> (r: u64)
    requires
        0 < factor <= 1_000_000_000,
    ensures
        r == match number_of(s@) {
            Some((mantissa, exponent)) => decimal::scaled_decimal(
                mantissa,
                exponent,
                factor as nat,
            ),
            None => 0,
        },
{
    let lower: usize = find(s, 'e', 0);
    let upper: usize = find(s, 'E', 0);
    let x: usize = if lower < upper {
        lower
    } else {
        upper
    };
    let mantissa: &[char] = &s[0..x];
    assert(mantissa@ =~= s@.take(x as int));
    let dot: usize = find(mantissa, '.', 0);
    let mut digits: Vec<u8> = Vec::new();
    let whole: &[char] = &mantissa[0..dot];
    assert(whole@ =~= mantissa@.take(dot as int));
    if !push_digits(&mut digits, whole) {
        return 0;
    }
    let ghost v0 = text::digits_value(whole@);
    proof {
        let t = binary::ten_to(whole@.len());
        assert(0 * t == 0) by (nonlinear_arith);
        assert(decimal::value(digits@) == v0);
    }
    let fraction_len: usize = if dot < mantissa.len() {
        mantissa.len() - dot - 1
    } else {
        0
    };
    let fraction: &[char] = &mantissa[mantissa.len() - fraction_len..mantissa.len()];
    assert(dot < mantissa@.len() ==> fraction@ =~= mantissa@.skip(dot + 1));
    assert(dot >= mantissa@.len() ==> fraction@ =~= Seq::<char>::empty());
    if !push_digits(&mut digits, fraction) {
        return 0;
    }
    if dot + fraction_len == 0 {
        return 0;
    }
    let (negative, magnitude) = if x < s.len() {
        let tail: &[char] = &s[x + 1..s.len()];
        assert(tail@ =~= s@.skip(x + 1));
        match parse_exponent(tail) {
            Some(e) => e,
            None => return 0,
        }
    } else {
        (false, 0)
    };
    let exponent: i128 = if negative {
        0 - (magnitude as i128) - (fraction_len as i128)
    } else {
        magnitude as i128 - fraction_len as i128
    };
    let n: usize = digits.len();
    proof {
        let e = if x < s@.len() {
            signed_of(s@.skip(x + 1)).unwrap()
        } else {
            0
        };
        assert(number_of(s@) == Some((decimal::value(digits@), e - fraction_len)));
        assert(n <= u64::MAX);
        lemma_capped(
            digits@,
            negative,
            magnitude,
            e,
            fraction_len as int,
            factor as nat,
        );
    }
    scale_decimal(&digits, exponent, factor)
}

/// Sample rate in hertz that the characters give.
pub fn parse_rate(s: &[char]) -> (hz: u64)
    ensures
        hz == samplerate_of(s@),
{
    let sp: usize = find(s, ' ', 0);
    let factor: u64 = if sp < s.len() {
        let unit: &[char] = &s[sp + 1..s.len()];
        assert(unit@ =~= s@.skip(sp + 1));
        if is_uppercase_literal(unit, "GHZ") {
            1_000_000_000
        } else if is_uppercase_literal(unit, "MHZ") {
            1_000_000
        } else if is_uppercase_literal(unit, "KHZ") {
            1_000
        } else {
            1
        }
    } else {
        1
    };
    let signed: bool = sp > 0 && (s[0] == '+' || s[0] == '-');
    if signed && s[0] == '-' {
        return 0;
    }
    let start: usize = if signed {
        1
    } else {
        0
    };
    let body: &[char] = &s[start..sp];
    proof {
        let number = s@.take(sp as int);
        assert(signed ==> body@ =~= number.skip(1));
        assert(!signed ==> body@ =~= number);
    }
    if is_uppercase_literal(body, "INF") || is_uppercase_literal(body, "INFINITY") {
        return u64::MAX;
    }
    scale_number(body, factor)
}

/// Sample rate in hertz that a text such as `100 MHz` gives.
pub fn parse_samplerate(s: &str) -> (hz: u64)
    ensures
        hz == samplerate_of(s@),
{
    let chars: Vec<char> = characters(s);
    parse_rate(chars.as_slice())
}

/// Digits alone are a number without fraction and exponent.
proof fn lemma_digits_are_a_number(s: Seq<char>)
    requires
        s.len() > 0,
        text::all_digits(s),
    ensures
        number_of(s) == Some((text::digits_value(s), 0int)),
{
    let empty = Seq::<char>::empty();
    assert(s + empty =~= s);
    assert forall|k: int| 0 <= k < s.len() implies s[k] != 'e' && s[k] != 'E' && s[k] != '.' by {
        assert(text::is_digit(s[k]));
    }
    text::lemma_find_from_concat(s, empty, 'e', 0);
    text::lemma_find_from_concat(s, empty, 'E', 0);
    text::lemma_find_from_concat(s, empty, '.', 0);
    assert(s.take(s.len() as int) =~= s);
    let n = text::digits_value(s);
    let t = binary::ten_to(0);
    assert(n * t == n) by (nonlinear_arith)
        requires
            t == 1,
    ;
}

/// What is read of a number whose first character is a digit, up to the first
/// space, with the unit behind it.
proof fn lemma_rate_of_digits(number: Seq<char>, unit: Seq<char>)
    requires
        number.len() > 0,
        text::is_digit(number[0]),
        forall|k: int| 0 <= k < number.len() ==> number[k] != ' ',
    ensures
        samplerate_of(number + " "@ + unit) == match number_of(number) {
            Some((mantissa, exponent)) => decimal::scaled_decimal(
                mantissa,
                exponent,
                factor_of(unit),
            ),
            None => 0,
        },
{
    let s = number + " "@ + unit;
    reveal_strlit(" ");
    reveal_strlit("INF");
    reveal_strlit("INFINITY");
    assert(s =~= number + (" "@ + unit));
    text::lemma_find_from_concat(number, " "@ + unit, ' ', 0);
    assert((" "@ + unit)[0] == ' ');
    assert(s.take(number.len() as int) =~= number);
    assert(s.skip(number.len() as int + 1) =~= unit);
    assert(text::uppercase(number)[0] == number[0]);
    assert("INF"@[0] == 'I');
    assert("INFINITY"@[0] == 'I');
}

/// A whole number of at most 53 binary digits is read exactly, with its unit,
/// as long as the rate is a double-precision number.
pub proof fn law_whole_rates_are_exact(n: nat, unit: Seq<char>)
    requires
        n < 0x20_0000_0000_0000,
        n * factor_of(unit) <= u64::MAX,
        binary::rounded(n * factor_of(unit), 53) == n * factor_of(unit),
    ensures
        samplerate_of(text::decimal(n) + " "@ + unit) == n * factor_of(unit),
{
    let number = text::decimal(n);
    let factor = factor_of(unit);
    text::law_decimal_reads_back(n);
    assert forall|k: int| 0 <= k < number.len() implies number[k] != ' ' by {
        assert(text::is_digit(number[k]));
    }
    assert(text::is_digit(number[0]));
    lemma_rate_of_digits(number, unit);
    lemma_digits_are_a_number(number);
    let t = binary::ten_to(0);
    assert(n * t == n) by (nonlinear_arith)
        requires
            t == 1,
    ;
    if n > 0 {
        binary::lemma_two_to_values();
        binary::lemma_whole_scales_exactly(n, factor);
    } else {
        assert(n * factor == 0) by (nonlinear_arith)
            requires
                n == 0,
        ;
    }
}

/// Rates below a kilohertz read back as they are shown.
pub proof fn law_small_rates_read_back(hz: u64)
    requires
        hz < 1_000,
    ensures
        samplerate_of(samplerate_text(hz)) == hz,
{
    reveal_strlit(" Hz");
    reveal_strlit("Hz");
    reveal_strlit(" ");
    reveal_strlit("GHZ");
    reveal_strlit("MHZ");
    reveal_strlit("KHZ");
    assert(" Hz"@ =~= " "@ + "Hz"@);
    let unit = text::uppercase("Hz"@);
    assert(unit.len() == 2);
    assert(factor_of("Hz"@) == 1);
    let n = hz as nat;
    assert(n * factor_of("Hz"@) == n) by (nonlinear_arith)
        requires
            factor_of("Hz"@) == 1,
    ;
    binary::lemma_two_to_values();
    binary::lemma_short_numbers_stay(n, 53);
    law_whole_rates_are_exact(n, "Hz"@);
    assert(samplerate_text(hz) =~= text::decimal(n) + " "@ + "Hz"@);
}

/// Digits with three zeros behind the point.
spec fn with_zeros(n: nat) -> Seq<char> {
    text::decimal(n) + seq!['.', '0', '0', '0']
}

/// A whole number of units has three zeros behind the point.
proof fn lemma_whole_thousandths(n: nat, unit: nat, hz: u64)
    requires
        0 < n < 0x20_0000_0000_0000,
        unit > 0,
        hz == n * unit,
        binary::rounded(hz as nat, 53) == hz,
    ensures
        fixed_point(thousandths(hz, unit)) == with_zeros(n),
{
    binary::lemma_two_to_values();
    assert(1 * unit == unit);
    binary::lemma_ratio_cancel(n, 1, unit, 53);
    let shift = binary::lemma_whole_ratio(n);
    let t = binary::two_to(shift);
    binary::lemma_two_to_pos(shift);
    let m = 1000 * n;
    let mant = n * t;
    assert(1000 * mant == m * t) by (nonlinear_arith)
        requires
            mant == n * t,
            m == 1000 * n,
    ;
    assert((m * t) as int / t as int == m && (m * t) as int % t as int == 0) by (nonlinear_arith)
        requires
            t > 0,
    ;
    assert(thousandths(hz, unit) == m);
    assert(m / 1000 == n);
    assert(m / 100 % 10 == 0);
    assert(m / 10 % 10 == 0);
    assert(m % 10 == 0);
    assert(text::digit_char(0) == '0');
    assert(fixed_point(m) =~= with_zeros(n));
}

/// Digits with three zeros behind the point are so many thousandths.
proof fn lemma_with_zeros_is_a_number(n: nat)
    ensures
        number_of(with_zeros(n)) == Some((1000 * n, -3int)),
{
    let digits = text::decimal(n);
    let zeros = seq!['0', '0', '0'];
    let tail = seq!['.', '0', '0', '0'];
    let s = with_zeros(n);
    let empty = Seq::<char>::empty();
    text::law_decimal_reads_back(n);
    assert forall|k: int| 0 <= k < s.len() implies s[k] != 'e' && s[k] != 'E' by {
        if k < digits.len() {
            assert(s[k] == digits[k]);
            assert(text::is_digit(digits[k]));
        } else {
            assert(s[k] == tail[k - digits.len()]);
        }
    }
    assert(s + empty =~= s);
    text::lemma_find_from_concat(s, empty, 'e', 0);
    text::lemma_find_from_concat(s, empty, 'E', 0);
    assert(s.take(s.len() as int) =~= s);
    assert forall|k: int| 0 <= k < digits.len() implies digits[k] != '.' by {
        assert(text::is_digit(digits[k]));
    }
    text::lemma_find_from_concat(digits, tail, '.', 0);
    assert(tail[0] == '.');
    assert(text::find_from(tail, '.', 0) == 0);
    assert(s.take(digits.len() as int) =~= digits);
    assert(s.skip(digits.len() as int + 1) =~= zeros);
    assert(text::all_digits(zeros));
    reveal_with_fuel(text::digits_value, 4);
    assert(zeros.drop_last() =~= seq!['0', '0']);
    assert(seq!['0', '0'].drop_last() =~= seq!['0']);
    assert(seq!['0'].drop_last() =~= empty);
    assert(text::digits_value(zeros) == 0);
    reveal_with_fuel(binary::ten_to, 4);
    assert(binary::ten_to(3) == 1000);
    assert(n * 1000 == 1000 * n) by (nonlinear_arith);
}

/// A whole number of units that is shown in that unit reads back.
proof fn lemma_shown_rate_reads_back(n: nat, unit: Seq<char>, hz: u64)
    requires
        0 < n < 0x20_0000_0000_0000,
        hz == n * factor_of(unit),
        binary::rounded(hz as nat, 53) == hz,
    ensures
        samplerate_of(with_zeros(n) + " "@ + unit) == hz,
{
    let number = with_zeros(n);
    let digits = text::decimal(n);
    let tail = seq!['.', '0', '0', '0'];
    let factor = factor_of(unit);
    text::law_decimal_reads_back(n);
    assert forall|k: int| 0 <= k < number.len() implies number[k] != ' ' by {
        if k < digits.len() {
            assert(number[k] == digits[k]);
            assert(text::is_digit(digits[k]));
        } else {
            assert(number[k] == tail[k - digits.len()]);
        }
    }
    assert(text::is_digit(digits[0]));
    assert(number[0] == digits[0]);
    lemma_rate_of_digits(number, unit);
    lemma_with_zeros_is_a_number(n);
    reveal_with_fuel(binary::ten_to, 4);
    assert(binary::ten_to(3) == 1000);
    binary::lemma_two_to_values();
    assert(n * 1000 == 1000 * n) by (nonlinear_arith);
    binary::lemma_ratio_cancel(n, 1, 1000, 53);
    binary::lemma_whole_scales_exactly(n, factor);
}

/// Whole kilohertz and megahertz below a thousand, and whole gigahertz, read
/// back as they are shown, as long as they are double-precision numbers.
pub proof fn law_whole_rates_read_back(n: nat, unit: nat, hz: u64)
    requires
        n > 0,
        unit == 1_000 || unit == 1_000_000 || unit == 1_000_000_000,
        unit < 1_000_000_000 ==> n < 1_000,
        hz == n * unit,
        binary::rounded(hz as nat, 53) == hz,
    ensures
        samplerate_of(samplerate_text(hz)) == hz,
{
    reveal_strlit(" ");
    reveal_strlit(" GHz");
    reveal_strlit(" MHz");
    reveal_strlit(" kHz");
    reveal_strlit("GHz");
    reveal_strlit("MHz");
    reveal_strlit("kHz");
    reveal_strlit("GHZ");
    reveal_strlit("MHZ");
    reveal_strlit("KHZ");
    assert(n <= hz) by (nonlinear_arith)
        requires
            hz == n * unit,
            unit >= 1,
    ;
    assert(n < 0x20_0000_0000_0000) by (nonlinear_arith)
        requires
            hz == n * unit,
            hz <= 0xFFFF_FFFF_FFFF_FFFF,
            n < 1_000 || unit == 1_000_000_000,
    ;
    lemma_whole_thousandths(n, unit, hz);
    if unit == 1_000 {
        assert(text::uppercase("kHz"@) =~= "KHZ"@);
        assert("KHZ"@[0] == 'K' && "GHZ"@[0] == 'G' && "MHZ"@[0] == 'M');
        assert(" kHz"@ =~= " "@ + "kHz"@);
        lemma_shown_rate_reads_back(n, "kHz"@, hz);
        assert(samplerate_text(hz) =~= with_zeros(n) + " "@ + "kHz"@);
    } else if unit == 1_000_000 {
        assert(text::uppercase("MHz"@) =~= "MHZ"@);
        assert("GHZ"@[0] == 'G' && "MHZ"@[0] == 'M');
        assert(" MHz"@ =~= " "@ + "MHz"@);
        lemma_shown_rate_reads_back(n, "MHz"@, hz);
        assert(samplerate_text(hz) =~= with_zeros(n) + " "@ + "MHz"@);
    } else {
        assert(text::uppercase("GHz"@) =~= "GHZ"@);
        assert(" GHz"@ =~= " "@ + "GHz"@);
        lemma_shown_rate_reads_back(n, "GHz"@, hz);
        assert(samplerate_text(hz) =~= with_zeros(n) + " "@ + "GHz"@);
    }
}

/// Digits around a point are a number with so many places behind the point.
proof fn lemma_fraction_is_a_number(whole: Seq<char>, fraction: Seq<char>)
    requires
        whole.len() > 0,
        text::all_digits(whole),
        text::all_digits(fraction),
    ensures
        number_of(whole + seq!['.'] + fraction) == Some(
            (
                text::digits_value(whole) * binary::ten_to(fraction.len()) + text::digits_value(
                    fraction,
                ),
                -(fraction.len() as int),
            ),
        ),
{
    let s = whole + seq!['.'] + fraction;
    let empty = Seq::<char>::empty();
    let tail = seq!['.'] + fraction;
    assert forall|k: int| 0 <= k < s.len() implies s[k] != 'e' && s[k] != 'E' by {
        if k < whole.len() {
            assert(s[k] == whole[k]);
            assert(text::is_digit(whole[k]));
        } else if k > whole.len() {
            assert(s[k] == fraction[k - whole.len() - 1]);
            assert(text::is_digit(fraction[k - whole.len() - 1]));
        }
    }
    assert(s + empty =~= s);
    text::lemma_find_from_concat(s, empty, 'e', 0);
    text::lemma_find_from_concat(s, empty, 'E', 0);
    assert(s.take(s.len() as int) =~= s);
    assert forall|k: int| 0 <= k < whole.len() implies whole[k] != '.' by {
        assert(text::is_digit(whole[k]));
    }
    assert(s =~= whole + tail);
    text::lemma_find_from_concat(whole, tail, '.', 0);
    assert(tail[0] == '.');
    assert(text::find_from(tail, '.', 0) == 0);
    assert(s.take(whole.len() as int) =~= whole);
    assert(s.skip(whole.len() as int + 1) =~= fraction);
}

/// A rate with places behind the point is read as that number of units, but for
/// less than one hertz and for a share of 2^-50.
pub proof fn law_rates_are_read_closely(whole: Seq<char>, fraction: Seq<char>, unit: Seq<char>)
    requires
        whole.len() > 0,
        text::all_digits(whole),
        text::all_digits(fraction),
        text::digits_value(whole) < 0x8_0000_0000_0000,
    ensures
        ({
            let hz = samplerate_of(whole + seq!['.'] + fraction + " "@ + unit);
            let places = binary::ten_to(fraction.len());
            let exact = (text::digits_value(whole) * places + text::digits_value(fraction))
                * factor_of(unit);
            hz < u64::MAX ==> {
                &&& 0x4_0000_0000_0000 * (hz * places) <= 0x4_0000_0000_0001 * exact
                &&& 0x3_FFFF_FFFF_FFFF * exact <= 0x4_0000_0000_0000 * ((hz + 1) * places)
            }
        }),
{
    let number = whole + seq!['.'] + fraction;
    let places = binary::ten_to(fraction.len());
    let a = text::digits_value(whole) * places + text::digits_value(fraction);
    let f = factor_of(unit);
    assert forall|k: int| 0 <= k < number.len() implies number[k] != ' ' by {
        if k < whole.len() {
            assert(number[k] == whole[k]);
            assert(text::is_digit(whole[k]));
        } else if k > whole.len() {
            assert(number[k] == fraction[k - whole.len() - 1]);
            assert(text::is_digit(fraction[k - whole.len() - 1]));
        }
    }
    assert(text::is_digit(whole[0]));
    assert(number[0] == whole[0]);
    lemma_rate_of_digits(number, unit);
    lemma_fraction_is_a_number(whole, fraction);
    binary::lemma_ten_to_pos(fraction.len());
    lemma_digits_value_below(fraction);
    let v = text::digits_value(whole);
    assert(a < 0x10_0000_0000_0000 * places) by (nonlinear_arith)
        requires
            v < 0x8_0000_0000_0000,
            a < v * places + places,
            places > 0,
    ;
    let hz = samplerate_of(whole + seq!['.'] + fraction + " "@ + unit);
    if fraction.len() == 0 {
        assert(places == 1);
        assert(a * places == a) by (nonlinear_arith)
            requires
                places == 1,
        ;
    }
    assert(hz == decimal::scaled(a, places, f));
    if a == 0 {
        assert(0 * f == 0 && hz * places == 0 && (hz + 1) * places >= 0) by (nonlinear_arith)
            requires
                hz == 0,
                places > 0,
        ;
    } else {
        binary::lemma_scaled_close(a, places, f);
    }
}

/// So many digits make less than that power of ten.
proof fn lemma_digits_value_below(s: Seq<char>)
    requires
        text::all_digits(s),
    ensures
        text::digits_value(s) < binary::ten_to(s.len()),
    decreases s.len(),
{
    if s.len() > 0 {
        let shorter = s.drop_last();
        assert forall|i: int| 0 <= i < shorter.len() implies text::is_digit(
            #[trigger] shorter[i],
        ) by {
            assert(shorter[i] == s[i]);
        }
        lemma_digits_value_below(shorter);
        assert(text::is_digit(s[s.len() - 1]));
    }
}

/// Units count whatever the case of their letters.
pub proof fn law_case_of_units_does_not_matter(unit: Seq<char>)
    ensures
        factor_of(text::uppercase(unit)) == factor_of(unit),
{
    assert(text::uppercase(text::uppercase(unit)) =~= text::uppercase(unit));
}

/// Three digits make hundreds, tens and ones.
proof fn lemma_three_digits(a: nat, b: nat, c: nat)
    requires
        a < 10,
        b < 10,
        c < 10,
    ensures
        text::all_digits(seq![text::digit_char(a), text::digit_char(b), text::digit_char(c)]),
        text::digits_value(
            seq![text::digit_char(a), text::digit_char(b), text::digit_char(c)],
        ) == 100 * a + 10 * b + c,
{
    let (x, y, z) = (text::digit_char(a), text::digit_char(b), text::digit_char(c));
    let none = Seq::<char>::empty();
    assert(seq![x, y, z] =~= none.push(x).push(y).push(z));
    text::lemma_push_digit(none, a);
    text::lemma_push_digit(none.push(x), b);
    text::lemma_push_digit(none.push(x).push(y), c);
}

/// A number of thousandths is shown with three places behind the point, and
/// these digits spell it.
proof fn lemma_fixed_point_is_a_number(thousandths: nat)
    ensures
        number_of(fixed_point(thousandths)) == Some((thousandths, -3int)),
{
    let whole = text::decimal(thousandths / 1000);
    let (a, b, c) = (thousandths / 100 % 10, thousandths / 10 % 10, thousandths % 10);
    let fraction = seq![text::digit_char(a), text::digit_char(b), text::digit_char(c)];
    text::law_decimal_reads_back(thousandths / 1000);
    lemma_three_digits(a, b, c);
    assert(fixed_point(thousandths) =~= whole + seq!['.'] + fraction);
    lemma_fraction_is_a_number(whole, fraction);
    lemma_thousandths_parts(thousandths);
    assert(binary::ten_to(3) == 1000) by {
        reveal_with_fuel(binary::ten_to, 4);
    }
}

/// A number of thousandths is made up of its whole part and its three places.
proof fn lemma_thousandths_parts(n: nat)
    ensures
        (n / 1000) * 1000 + (100 * (n / 100 % 10) + 10 * (n / 10 % 10) + n % 10) == n,
{
    assert(n / 100 == 10 * (n / 1000) + n / 100 % 10);
    assert(n / 10 == 10 * (n / 100) + n / 10 % 10);
    assert(n == 10 * (n / 10) + n % 10);
}

/// The thousandths of a unit are within half of one of the rate, but for a share
/// of 2^-38 of the rate and what is lost in whole numbers.
proof fn lemma_thousandths_close(hz: u64, unit: nat)
    requires
        0 < unit <= hz,
        unit <= 1_000_000_000,
        hz < 0x4_0000_0000_0000 * unit,
    ensures
        2 * (thousandths(hz, unit) * unit) <= 2000 * hz + unit + hz as int / 0x40_0000_0000 + 3,
        2000 * hz <= 2 * (thousandths(hz, unit) * unit) + unit + hz as int / 0x40_0000_0000 + 3,
{
    binary::lemma_two_to_values();
    let w: int = 0x10_0000_0000_0000;
    let n = binary::rounded(hz as nat, 53);
    binary::lemma_rounded_near(hz as nat, 53);
    binary::lemma_rounded_positive(hz as nat, 53);
    let d = hz as int / w;
    let shift = binary::lemma_ratio_close(n, unit);
    let z = binary::two_to(shift) as int;
    let q = binary::ratio(n, unit, 53);
    let m = q.mant as int;
    let (u, r) = (unit as int, n as int);
    binary::lemma_nearest_close(1000 * m, z);
    binary::lemma_nearest_bounds(1000 * m, z);
    let t = binary::nearest(1000 * m, z);
    assert(t == thousandths(hz, unit));
    let tu = t * u;
    let tz = t * z;
    // Everything in units of the last digit of the quotient.
    assert(2 * (tu * z) <= 2000 * (m * u) + z * u && 2000 * (m * u) <= 2 * (tu * z) + z * u)
        by (nonlinear_arith)
        requires
            2 * tz <= 2 * (1000 * m) + z,
            2 * (1000 * m) <= 2 * tz + z,
            tz == t * z,
            tu == t * u,
            u > 0,
    ;
    let rz = r * z;
    let zu = z * u;
    let tuz = tu * z;
    assert(2 * tuz <= 2000 * rz + 1000 * u + zu && 2000 * rz <= 2 * tuz + 1000 * u + zu);
    assert(w * u <= rz);
    let e = (1000 * r) / w;
    assert(1000 * u <= (e + 1) * z) by (nonlinear_arith)
        requires
            w * u <= rz,
            rz == r * z,
            e == (1000 * r) / w,
            z > 0,
            w > 0,
            u > 0,
    ;
    assert(2 * tu <= 2000 * r + u + e + 1 && 2000 * r <= 2 * tu + u + e + 1) by (nonlinear_arith)
        requires
            2 * tuz <= 2000 * rz + 1000 * u + zu,
            2000 * rz <= 2 * tuz + 1000 * u + zu,
            1000 * u <= (e + 1) * z,
            rz == r * z,
            zu == z * u,
            tuz == tu * z,
            z > 0,
    ;
}

/// The unit that a rate of at least a kilohertz is shown in, and how it is written.
pub open spec fn shown_in(hz: u64, unit: nat, name: Seq<char>) -> bool {
    ||| hz >= 1_000_000_000 && unit == 1_000_000_000 && name == " GHz"@
    ||| 1_000_000 <= hz < 1_000_000_000 && unit == 1_000_000 && name == " MHz"@
    ||| 1_000 <= hz < 1_000_000 && unit == 1_000 && name == " kHz"@
}

/// A rate of at least a kilohertz is shown in its unit with three places behind
/// the point: the digits before the name of the unit spell a number of
/// thousandths that is within half of one of the rate, but for a share of 2^-38
/// of it. A lower rate is shown as it is.
pub proof fn law_shown_rates_are_close(hz: u64, unit: nat, name: Seq<char>) -> (number: Seq<char>)
    ensures
        hz < 1_000 ==> number == text::decimal(hz as nat) && samplerate_text(hz) == number + " Hz"@,
        shown_in(hz, unit, name) ==> {
            &&& samplerate_text(hz) == number + name
            &&& number_of(number) matches Some((mantissa, exponent)) && exponent == -3 && 2 * (
            mantissa * unit) <= 2000 * hz + unit + hz as int / 0x40_0000_0000 + 3 && 2000 * hz <= 2
                * (mantissa * unit) + unit + hz as int / 0x40_0000_0000 + 3
        },
{
    if shown_in(hz, unit, name) {
        lemma_thousandths_close(hz, unit);
        lemma_fixed_point_is_a_number(thousandths(hz, unit));
        fixed_point(thousandths(hz, unit))
    } else {
        text::decimal(hz as nat)
    }
}

} // verus!
