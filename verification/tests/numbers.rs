use visor::binary::{nearest_div, power_of_two, round_bits};
use visor::micros::{micros_mantissa, percentile_index, scaled_micros, P95, P99};
use visor::order::sorted_copy;
use visor::text::{
    characters, find, is_literal, parse_unsigned, push_decimal, space, to_upper, trim,
};

#[test]
fn trimming_agrees_with_unicode() {
    for c in (0..0x11_0000u32).filter_map(char::from_u32) {
        assert_eq!(space(c), c.is_whitespace(), "{c:?}");
    }
    for s in ["", " ", " a ", "\t\u{2003}x y\u{85}\n", "\u{feff}a"] {
        let chars = characters(s);
        let (lo, hi) = trim(&chars, 0, chars.len());
        let trimmed: String = chars[lo..hi].iter().collect();
        assert_eq!(trimmed, s.trim());
        let again = characters(&trimmed);
        assert_eq!(trim(&again, 0, again.len()), (0, again.len()));
    }
}

#[test]
fn unsigned_numbers_are_parsed_like_integers() {
    let texts = [
        "", "+", "-", "0", "7", "+7", "-0", "007", "18446744073709551615", "18446744073709551616",
        "99999999999999999999999999999999999999999999999999", "4294967295", "4294967296", "1 ",
        " 1", "1a", "++1", "+-1", "１",
    ];
    for s in texts {
        let chars = characters(s);
        assert_eq!(parse_unsigned(&chars, u64::MAX), s.parse::<u64>().ok(), "{s}");
        assert_eq!(
            parse_unsigned(&chars, u32::MAX as u64),
            s.parse::<u32>().ok().map(|n| n as u64),
            "{s}"
        );
    }
}

#[test]
fn decimal_numbers_read_back() {
    for n in [0u64, 1, 9, 10, 99, 100, 12_345, u32::MAX as u64, u64::MAX] {
        let mut s = String::new();
        push_decimal(&mut s, n);
        assert_eq!(s, n.to_string());
        assert_eq!(parse_unsigned(&characters(&s), u64::MAX), Some(n));
    }
}

#[test]
fn characters_are_found_and_compared() {
    let s = characters("a=b=c");
    assert_eq!(find(&s, '=', 0), 1);
    assert_eq!(find(&s, '=', 2), 3);
    assert_eq!(find(&s, '=', 4), 5);
    assert!(is_literal(&s, "a=b=c"));
    assert!(!is_literal(&s, "a=b="));
    assert!(!is_literal(&s, "a=b=d"));
    let upper: String = "aZ1é".chars().map(to_upper).collect();
    assert_eq!(upper, "AZ1é");
}

#[test]
fn rounding_agrees_with_floating_point() {
    assert_eq!(nearest_div(5, 2), 2);
    assert_eq!(nearest_div(7, 2), 4);
    assert_eq!(nearest_div(8, 3), 3);
    assert_eq!(nearest_div(7, 3), 2);
    assert_eq!(power_of_two(0), 1);
    assert_eq!(power_of_two(64), 1 << 64);
    let mut x: u64 = 1;
    for _ in 0..20_000 {
        x = x.wrapping_mul(6364136223846793005).wrapping_add(1442695040888963407);
        let n = x >> (x % 60);
        assert_eq!(round_bits(n as u128, 53), n as f64 as u128);
        assert_eq!(round_bits(n as u128, 24), n as f32 as u128);
    }
}

#[test]
fn sorting_keeps_every_value() {
    let v = vec![5u64, 1, 4, 1, u64::MAX, 0, 5];
    let mut expected = v.clone();
    expected.sort();
    assert_eq!(sorted_copy(&v), expected);
    assert!(sorted_copy(&[]).is_empty());
    assert_eq!(sorted_copy(&[3]), vec![3]);
}

#[test]
fn microseconds_per_sample_agree_with_double_precision() {
    for rate in [1u64, 2, 3, 7, 1_000, 48_000, 1_000_000, 400_000_000, 1 << 60, u64::MAX] {
        let us = 1_000_000.0 / rate as f64;
        let mant = micros_mantissa(rate);
        let scale = us / mant as f64;
        // The mantissa has 53 digits, so what is left is a power of two.
        assert_eq!(scale.to_bits() & 0xF_FFFF_FFFF_FFFF, 0, "{rate}");
        for samples in [0u64, 1, 5, 999, (1 << 53) + 1, (1 << 54) - 1, u64::MAX] {
            let exact = scaled_micros(samples, mant);
            assert_eq!(exact as f64 * scale, samples as f64 * us, "{samples} at {rate}");
        }
    }
}

#[test]
fn microseconds_keep_the_order_of_samples() {
    let mant = micros_mantissa(1_000_003);
    assert_eq!(scaled_micros(0, mant), 0);
    let mut last = 0;
    for samples in [1u64, 2, 3, 1 << 52, (1 << 53) - 1, 1 << 53, (1 << 53) + 1, u64::MAX] {
        let next = scaled_micros(samples, mant);
        assert!(next > 0 && next >= last);
        last = next;
    }
}

#[test]
fn percentiles_are_truncated_like_doubles() {
    assert_eq!((0.95f64 * 2f64.powi(53)) as u128, P95);
    assert_eq!((0.99f64 * 2f64.powi(53)) as u128, P99);
    for n in (1..3_000usize).chain([100_000_000, (1 << 53) + 1, usize::MAX]) {
        assert_eq!(percentile_index(n, P95), (n as f64 * 0.95) as usize, "{n}");
        assert_eq!(percentile_index(n, P99), (n as f64 * 0.99) as usize, "{n}");
    }
}
