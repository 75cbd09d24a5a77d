use visor::parser::{format_samplerate, parse_samplerate};
use visor::waveform::summary::outlier_threshold;

struct Lcg(u64);

impl Lcg {
    fn next(&mut self) -> u64 {
        self.0 = self.0.wrapping_mul(6364136223846793005).wrapping_add(1442695040888963407);
        self.0 ^ (self.0 >> 29)
    }

    fn scaled(&mut self) -> u64 {
        let bits = self.next() % 64;
        self.next() >> bits
    }
}

fn formatted_by_double(hz: u64) -> String {
    if hz >= 1_000_000_000 {
        format!("{:.3} GHz", hz as f64 / 1_000_000_000.0)
    } else if hz >= 1_000_000 {
        format!("{:.3} MHz", hz as f64 / 1_000_000.0)
    } else if hz >= 1_000 {
        format!("{:.3} kHz", hz as f64 / 1_000.0)
    } else {
        format!("{} Hz", hz)
    }
}

fn parsed_by_double(s: &str) -> u64 {
    let parts: Vec<&str> = s.splitn(2, ' ').collect();
    let value: f64 = parts[0].parse().unwrap_or(0.0);
    let multiplier = if parts.len() > 1 {
        match parts[1].to_uppercase().as_str() {
            "GHZ" => 1_000_000_000.0,
            "MHZ" => 1_000_000.0,
            "KHZ" => 1_000.0,
            _ => 1.0,
        }
    } else {
        1.0
    };
    (value * multiplier) as u64
}

#[test]
fn rates_are_formatted_in_the_largest_unit() {
    assert_eq!(format_samplerate(0), "0 Hz");
    assert_eq!(format_samplerate(999), "999 Hz");
    assert_eq!(format_samplerate(1_000), "1.000 kHz");
    assert_eq!(format_samplerate(1_500), "1.500 kHz");
    assert_eq!(format_samplerate(999_999), "999.999 kHz");
    assert_eq!(format_samplerate(25_000_000), "25.000 MHz");
    assert_eq!(format_samplerate(1_000_000_000), "1.000 GHz");
    assert_eq!(format_samplerate(1_234_567_890), "1.235 GHz");
    assert_eq!(format_samplerate(u64::MAX), "18446744073.710 GHz");
}

#[test]
fn formatted_rates_agree_with_double_precision() {
    let mut rng = Lcg(7);
    for _ in 0..20_000 {
        let hz = rng.scaled();
        assert_eq!(format_samplerate(hz), formatted_by_double(hz), "{hz}");
    }
    // Values that stand half way between two thousandths.
    for k in 0..4_000u64 {
        for hz in [
            1_000_500 + 1_000 * k,
            1_000_000_000 + 500_000 + 1_000_000 * k,
            1_000_000_000 + 62_500_000 * k,
            1_000_000 + 125 * k,
        ] {
            assert_eq!(format_samplerate(hz), formatted_by_double(hz), "{hz}");
        }
    }
}

#[test]
fn rates_are_parsed_with_their_unit() {
    assert_eq!(parse_samplerate("100 MHz"), 100_000_000);
    assert_eq!(parse_samplerate("1.5 GHz"), 1_500_000_000);
    assert_eq!(parse_samplerate("2 kHz"), 2_000);
    assert_eq!(parse_samplerate("2 KHZ"), 2_000);
    assert_eq!(parse_samplerate("44100"), 44_100);
    assert_eq!(parse_samplerate("44100 Hz"), 44_100);
    assert_eq!(parse_samplerate("12 parsecs"), 12);
    assert_eq!(parse_samplerate(""), 0);
    assert_eq!(parse_samplerate("fast"), 0);
    assert_eq!(parse_samplerate("-5 MHz"), 0);
    assert_eq!(parse_samplerate("nan"), 0);
    assert_eq!(parse_samplerate("inf MHz"), u64::MAX);
    assert_eq!(parse_samplerate("-inf MHz"), 0);
    assert_eq!(parse_samplerate("1e30"), u64::MAX);
    assert_eq!(parse_samplerate("1e-30 GHz"), 0);
    assert_eq!(parse_samplerate("1 MHz "), 1);
}

#[test]
fn parsed_rates_agree_with_double_precision() {
    let units = ["", " Hz", " kHz", " MHz", " GHz", " ghz", " mHZ", " KHz", "  MHz", " THz"];
    let mut rng = Lcg(11);
    for _ in 0..6_000 {
        let whole = rng.scaled();
        let digits = rng.next() % 22;
        let fraction = rng.scaled();
        let exponent = (rng.next() % 60) as i64 - 30;
        let texts = [
            format!("{whole}"),
            format!("+{whole}"),
            format!("-{whole}"),
            format!("{whole}.{fraction}"),
            format!("{}.{}", whole % 1000, fraction),
            format!(".{fraction}"),
            format!("{whole}."),
            format!("{whole}e{exponent}"),
            format!("{}.{}E{:+}", whole % 10, fraction, exponent),
            format!("0.{}{}", "0".repeat(digits as usize), fraction),
        ];
        for text in &texts {
            let unit = units[(rng.next() % units.len() as u64) as usize];
            let s = format!("{text}{unit}");
            assert_eq!(parse_samplerate(&s), parsed_by_double(&s), "{s}");
        }
    }
}

#[test]
fn odd_spellings_agree_with_double_precision() {
    let spellings = [
        "", " ", ".", "+", "-", "e5", "1e", "1e+", "1e-", "1.e3", ".e3", "1_000", "0x10", "1,5",
        "infinity", "INF", "Infinity", "+inf", "-inf", "NaN", "+nan", "-NAN", "infinit", "in",
        "1e400", "-1e400", "1e-400", "0e999999999999999999999", "1e99999999999999999999999",
        "1e-99999999999999999999999", "00000000000000000000000000000000000001",
        "0.000000000000000000000000000000000000000000000001", "4.9e-324", "2.2250738585072014e-308",
        "18446744073709551615", "18446744073709551616", "18446744073709549568", "9007199254740993",
        "1.7976931348623157e308", "\u{a0}1", "1\u{a0}", "１", "1 MHz extra", "1\tMHz", "0.001 kHz",
        "1.0005 kHz", "1.001 MHz", "2.675 kHz", "1e1e1", "++1", "1+", "1.2.3", "-0", "-0.5 GHz",
        "0.9999999999999999 GHz", "0.99999999999999999999 GHz", "123456789.987654321 kHz",
    ];
    for s in spellings {
        assert_eq!(parse_samplerate(s), parsed_by_double(s), "{s:?}");
        for unit in [" kHz", " MHz", " GHz", " ghz", " Hz"] {
            let t = format!("{s}{unit}");
            assert_eq!(parse_samplerate(&t), parsed_by_double(&t), "{t:?}");
        }
    }
}

#[test]
fn rare_groups_are_below_six_percent() {
    assert_eq!(outlier_threshold(0), 1);
    assert_eq!(outlier_threshold(16), 1);
    assert_eq!(outlier_threshold(33), 1);
    assert_eq!(outlier_threshold(34), 2);
    assert_eq!(outlier_threshold(50), 3);
    assert_eq!(outlier_threshold(100), 6);
    assert_eq!(outlier_threshold(1_000_000), 60_000);
}

#[test]
fn rare_group_limit_agrees_with_single_precision() {
    let by_single = |total: usize| ((total as f32 * 0.06) as usize).max(1);
    for total in 0..200_000usize {
        assert_eq!(outlier_threshold(total), by_single(total), "{total}");
    }
    let mut rng = Lcg(3);
    for _ in 0..20_000 {
        let total = rng.scaled() as usize;
        assert_eq!(outlier_threshold(total), by_single(total), "{total}");
    }
    assert_eq!(outlier_threshold(usize::MAX), by_single(usize::MAX));
}

#[test]
fn whole_rates_are_exact() {
    for n in [0u64, 1, 7, 250, 9_007_199] {
        assert_eq!(parse_samplerate(&format!("{n} GHz")), n * 1_000_000_000);
        assert_eq!(parse_samplerate(&format!("{n} mhz")), n * 1_000_000);
        assert_eq!(parse_samplerate(&format!("{n} kHz")), n * 1_000);
        assert_eq!(parse_samplerate(&format!("{n} Hz")), n);
    }
    for hz in 0..1_000u64 {
        assert_eq!(parse_samplerate(&format_samplerate(hz)), hz);
        for unit in [1_000u64, 1_000_000, 1_000_000_000] {
            let rate = (hz + 1) * unit;
            if hz + 1 < 1_000 || unit == 1_000_000_000 {
                assert_eq!(parse_samplerate(&format_samplerate(rate)), rate);
            }
        }
    }
    // The largest odd number of gigahertz that is a double-precision number.
    let rate = 4_611_686_017 * 1_000_000_000u64;
    assert_eq!(parse_samplerate(&format_samplerate(rate)), rate);
}
