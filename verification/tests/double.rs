use hilmon::decimal::{display_text, fixed_text, literal, parse_double, parse_i64, parse_whole};
use hilmon::double::Double;

fn d(x: f64) -> Double {
    Double { bits: x.to_bits() }
}

fn f(x: Double) -> f64 {
    f64::from_bits(x.bits)
}

fn chars(s: &str) -> Vec<char> {
    s.chars().collect()
}

/// Bits of all kinds: specials, neighbours of powers of two, short and long fractions.
fn values() -> Vec<f64> {
    let mut v = vec![
        0.0,
        0.5,
        1.0,
        1.5,
        2.0,
        2.5,
        3.0,
        0.1,
        0.2,
        0.3,
        1.0 / 3.0,
        249.46,
        1e-9,
        1e15,
        1e16,
        123_456_789.123,
        4_503_599_627_370_495.5,
        4_503_599_627_370_496.5,
        9_007_199_254_740_993.0,
        1.844_674_407_370_955_2e19,
        1e22,
        1e300,
        f64::MIN_POSITIVE,
        f64::MIN_POSITIVE / 2.0,
        f64::from_bits(1),
        f64::from_bits(0x000f_ffff_ffff_ffff),
        f64::MAX,
        f64::EPSILON,
        1.0 + f64::EPSILON,
        1.0 - f64::EPSILON / 2.0,
        f64::INFINITY,
        f64::NAN,
    ];
    let mut x: u64 = 0x9e37_79b9_7f4a_7c15;
    for _ in 0..12 {
        x ^= x << 13;
        x ^= x >> 7;
        x ^= x << 17;
        v.push(f64::from_bits(x));
        v.push((x >> 20) as f64 / 1000.0);
    }
    let n = v.len();
    for i in 0..n {
        v.push(-v[i]);
    }
    v
}

fn agrees(a: Double, b: f64) -> bool {
    (b.is_nan() && f(a).is_nan()) || a.bits == b.to_bits()
}

#[test]
fn sums_and_differences_are_those_of_the_hardware() {
    for &a in &values() {
        for &b in &values() {
            assert!(agrees(d(a).plus(d(b)), a + b), "{:e} + {:e}", a, b);
            assert!(agrees(d(a).minus(d(b)), a - b), "{:e} - {:e}", a, b);
        }
    }
}

#[test]
fn products_are_those_of_the_hardware() {
    for &a in &values() {
        for &b in &values() {
            assert!(agrees(d(a).times(d(b)), a * b), "{:e} * {:e}", a, b);
        }
    }
}

#[test]
fn quotients_are_those_of_the_hardware() {
    for &a in &values() {
        for &b in &values() {
            assert!(agrees(d(a).over(d(b)), a / b), "{:e} / {:e}", a, b);
        }
    }
}

#[test]
fn comparisons_are_those_of_the_hardware() {
    for &a in &values() {
        for &b in &values() {
            assert_eq!(d(a).lt(d(b)), a < b);
            assert_eq!(d(a).le(d(b)), a <= b);
            let m = f(d(a).max(d(b)));
            let n = f(d(a).min(d(b)));
            assert!(m == a.max(b) || (m.is_nan() && a.max(b).is_nan()));
            assert!(n == a.min(b) || (n.is_nan() && a.min(b).is_nan()));
        }
    }
}

#[test]
fn rounding_and_casts_are_those_of_the_hardware() {
    for &a in &values() {
        assert!(agrees(d(a).round(), a.round()), "{:e}", a);
        assert_eq!(d(a).whole(), a.fract() == 0.0, "{:e}", a);
        assert_eq!(d(a).to_range(i64::MIN as i128, i64::MAX as i128), (a as i64) as i128);
        assert_eq!(d(a).to_range(0, u64::MAX as i128), (a as u64) as i128);
        assert_eq!(d(a).to_range(0, u32::MAX as i128), (a as u32) as i128);
        assert!(agrees(d(a).clamp(d(0.0), d(100.0)), a.clamp(0.0, 100.0)), "{:e}", a);
        assert!(agrees(d(a).negate(), -a));
    }
    for n in [0u64, 1, 2, 1 << 53, (1 << 53) + 1, (1 << 53) + 3, u64::MAX, 1_789_000_000] {
        assert!(agrees(Double::from_u64(n), n as f64), "{}", n);
    }
    for n in [0u128, 1, 1 << 64, u128::MAX, 0xffff_ffff_ffff_ffff_ffff] {
        assert!(agrees(Double::from_u128(n), n as f64), "{}", n);
    }
}

#[test]
fn a_sum_starts_from_what_changes_nothing() {
    let none: Vec<f64> = Vec::new();
    assert!(agrees(Double::no_sum(), none.iter().sum()));
    for &a in &values() {
        assert!(agrees(Double::no_sum().plus(d(a)), a));
    }
}

#[test]
fn decimal_texts_read_as_the_standard_library_reads_them() {
    for s in [
        "0", "-0", "+0", "1", "-1", "+1.5", "1.", ".5", ".", "", "-", "+", "1e3", "1E3", "1e+3",
        "1e-3", "1e", "1e+", "e5", "0x10", "1_000", " 1", "1 ", "inf", "-inf", "+infinity", "NaN",
        "nan", "InFiNiTy", "infi", "249.46", "0.1", "123456789012345678901234567890",
        "0.000000000000000000000000000000000000001", "1e309", "-1e309", "1e-400", "4.9e-324",
        "2.4703282292062327e-324", "2.4703282292062328e-324", "2.2250738585072011e-308",
        "2.2250738585072014e-308", "1.7976931348623157e308", "1.7976931348623159e308",
        "9007199254740993", "9007199254740992.5", "9007199254740993.0000000000000001",
        "1e99999999999999999999", "1e-99999999999999999999", "0e99999999999999999999",
        "1.00000000000000011102230246251565", "1.00000000000000011102230246251566", "١",
        "8.5e15", "3.14159265358979323846264338327950288",
    ] {
        let want = s.parse::<f64>().ok();
        let got = parse_double(&chars(s));
        match (want, got) {
            (Some(w), Some(g)) => assert!(agrees(g, w), "{:?}: {:e} {:e}", s, w, f(g)),
            (None, None) => {}
            _ => panic!("{:?}", s),
        }
    }
}

#[test]
fn fixed_texts_are_those_of_the_standard_library() {
    for &a in &values() {
        if a.abs() > 1e40 && a.is_finite() {
            continue;
        }
        assert_eq!(fixed_text(d(a), 0), format!("{:.0}", a));
        assert_eq!(fixed_text(d(a), 1), format!("{:.1}", a));
        assert_eq!(fixed_text(d(a), 2), format!("{:.2}", a));
        assert_eq!(fixed_text(d(a), 3), format!("{:.3}", a));
    }
    for a in [0.25, 0.35, 0.05, 0.125, 2.5, 3.5, 0.0005, 0.0015, 999.9995, -0.5, -0.04] {
        assert_eq!(fixed_text(d(a), 0), format!("{:.0}", a));
        assert_eq!(fixed_text(d(a), 1), format!("{:.1}", a));
        assert_eq!(fixed_text(d(a), 3), format!("{:.3}", a));
    }
}

#[test]
fn shortest_texts_are_those_of_the_standard_library() {
    for &a in &values() {
        assert_eq!(display_text(d(a)), format!("{}", a));
    }
    for a in [1_125_899_906_842_624.25, 9_007_199_254_740_993.0, 5e-324, 0.3, 1e21, 1e-7, 2e22] {
        assert_eq!(display_text(d(a)), format!("{}", a));
    }
}

#[test]
fn shortest_texts_read_back() {
    for &a in &values() {
        if !a.is_nan() {
            let t = display_text(d(a));
            assert_eq!(parse_double(&chars(&t)), Some(d(a)), "{}", t);
        }
    }
}

#[test]
fn literals_are_the_nearest_numbers() {
    assert!(agrees(literal(1, -9), 1e-9));
    assert!(agrees(literal(5, -1), 0.5));
    assert!(agrees(literal(92, -2), 0.92));
    assert!(agrees(literal(25, -1), 2.5));
    assert!(agrees(literal(1, -2), 0.01));
}

#[test]
fn integers_read_as_the_standard_library_reads_them() {
    for s in [
        "0", "7", "+7", "-7", "-0", "+", "-", "", "007", "65535", "65536", "4294967295",
        "4294967296", "18446744073709551615", "18446744073709551616", "9223372036854775807",
        "9223372036854775808", "-9223372036854775808", "-9223372036854775809", "1a", " 1", "+-1",
        "-+1", "++1", "99999999999999999999999",
    ] {
        let c = chars(s);
        assert_eq!(parse_whole(&c, 0xffff), s.parse::<u16>().ok().map(|n| n as u64), "{:?}", s);
        assert_eq!(parse_whole(&c, u32::MAX as u64), s.parse::<u32>().ok().map(|n| n as u64));
        if !s.starts_with('-') {
            assert_eq!(parse_whole(&c, u64::MAX), s.parse::<u64>().ok(), "{:?}", s);
        }
        assert_eq!(parse_i64(&c), s.parse::<i64>().ok(), "{:?}", s);
    }
}
