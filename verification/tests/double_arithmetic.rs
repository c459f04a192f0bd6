use gemma_trading::decimal::{fixed_signed_text, fixed_text, integer_text, numeral_text};
use gemma_trading::decimal_reader::{parse_double, parse_double_or};
use gemma_trading::double::Double;

fn d(x: f64) -> Double {
    Double { bits: x.to_bits() }
}

fn next(state: &mut u64) -> u64 {
    *state ^= *state << 13;
    *state ^= *state >> 7;
    *state ^= *state << 17;
    *state
}

/// Patterns of every kind: special values, subnormals, neighbours of powers of two, and random
/// ones with exponents that are close enough to interact.
fn samples() -> Vec<f64> {
    let mut v = vec![
        0.0, -0.0, 1.0, -1.0, 0.5, 1.5, 2.0, 3.0, 10.0, 100.0, 0.1, 0.2, 0.3, 0.0005, 1e-300, 1e300,
        f64::MAX, -f64::MAX, f64::MIN_POSITIVE, f64::INFINITY, f64::NEG_INFINITY, f64::NAN,
        5e-324, -5e-324, 1.7976931348623155e308, 2.2250738585072011e-308, 9007199254740993.0,
    ];
    let mut s: u64 = 0x9E37_79B9_7F4A_7C15;
    for _ in 0..60 {
        v.push(f64::from_bits(next(&mut s)));
    }
    for _ in 0..60 {
        let e = 1000 + next(&mut s) % 60;
        v.push(f64::from_bits((next(&mut s) & 0x800F_FFFF_FFFF_FFFF) | (e << 52)));
    }
    for _ in 0..20 {
        v.push(f64::from_bits(next(&mut s) & 0x801F_FFFF_FFFF_FFFF));
    }
    for e in [1u64, 2, 500, 1022, 1023, 1024, 2045, 2046] {
        v.push(f64::from_bits(e << 52));
        v.push(f64::from_bits((e << 52) + 1));
        v.push(f64::from_bits((e << 52) - 1));
    }
    v
}

fn same(a: Double, b: f64) -> bool {
    let x = f64::from_bits(a.bits);
    (x.is_nan() && b.is_nan()) || a.bits == b.to_bits()
}

#[test]
fn arithmetic_agrees_with_the_machine() {
    let v = samples();
    for &a in &v {
        for &b in &v {
            assert!(same(d(a).add(d(b)), a + b), "{:e} + {:e}", a, b);
            assert!(same(d(a).sub(d(b)), a - b), "{:e} - {:e}", a, b);
            assert!(same(d(a).mul(d(b)), a * b), "{:e} * {:e}", a, b);
            assert!(same(d(a).div(d(b)), a / b), "{:e} / {:e}", a, b);
            assert_eq!(d(a).lt(d(b)), a < b);
            assert_eq!(d(a).le(d(b)), a <= b);
            assert_eq!(d(a).eq_value(d(b)), a == b);
        }
        assert!(same(d(a).sqrt(), a.sqrt()), "sqrt {:e}", a);
        assert!(same(d(a).neg(), -a));
        assert!(same(d(a).abs(), a.abs()));
        assert_eq!(d(a).to_i64(), a as i64);
        assert_eq!(d(a).to_u32(), a as u32);
    }
}

#[test]
fn larger_and_smaller_pass_over_nan() {
    assert_eq!(d(1.0).max(d(2.0)), d(2.0));
    assert_eq!(d(1.0).min(d(2.0)), d(1.0));
    assert_eq!(d(f64::NAN).max(d(2.0)), d(2.0));
    assert_eq!(d(2.0).max(d(f64::NAN)), d(2.0));
    assert_eq!(d(f64::NAN).min(d(2.0)), d(2.0));
    assert_eq!(d(2.0).min(d(f64::NAN)), d(2.0));
}

#[test]
fn integers_and_ratios_are_rounded_once() {
    let mut s: u64 = 7;
    for _ in 0..2000 {
        let n = next(&mut s) >> (next(&mut s) % 64);
        let m = next(&mut s) >> (12 + next(&mut s) % 50);
        assert_eq!(Double::from_u64(n).bits, (n as f64).to_bits());
        assert_eq!(Double::from_i64(n as i64).bits, (n as i64 as f64).to_bits());
        if m > 0 {
            let n53 = n >> 11;
            assert_eq!(Double::ratio(n53, m).bits, (n53 as f64 / m as f64).to_bits());
        }
    }
    assert_eq!(Double::ratio(5, 10000), d(0.0005));
    assert_eq!(Double::ratio(45, 1000), d(0.045));
    assert_eq!(Double::ratio(0, 3), d(0.0));
    assert_eq!(Double::from_i64(i64::MIN), d(i64::MIN as f64));
}

#[test]
fn fixed_decimals_agree_with_formatting() {
    let mut v = samples();
    v.extend([0.25, 0.75, 0.35, 2.5, 3.5, 0.125, 0.375, 1e22, 123456.789, 99.995, -0.004, 0.0005, 0.05]);
    for &a in &v {
        for p in 0..=6usize {
            assert_eq!(fixed_text(d(a), p as u32), format!("{:.*}", p, a), "{:e} with {}", a, p);
            assert_eq!(fixed_signed_text(d(a), p as u32), format!("{:+.*}", p, a));
        }
    }
}

#[test]
fn integers_as_text() {
    assert_eq!(integer_text(0), "0");
    assert_eq!(integer_text(-17), "-17");
    assert_eq!(integer_text(i128::MIN), i128::MIN.to_string());
    assert_eq!(numeral_text(u128::MAX), u128::MAX.to_string());
}

#[test]
fn numerals_are_read_as_the_nearest_number() {
    let texts = [
        "0", "-0", "1", "+1", "1.", ".5", "0.1", "65000.12", "1e5", "1E5", "1e-5", "1e+5", "1e400",
        "-1e400", "1e-400", "4.9e-324", "2.4703282292062327e-324", "2.4703282292062328e-324",
        "2.2250738585072011e-308", "1.7976931348623157e308", "1.7976931348623159e308",
        "9007199254740993", "9007199254740992.999999999999999999", "123456789012345678901234567890",
        "0.000000000000000000000000000000000000000000001", "inf", "-inf", "Infinity", "NaN", "nan",
        "1e99999999999999999999999999", "1e-99999999999999999999999999", "0e99999999999999999999999",
        "179769313486231580793728971405303415079934132710037826936173778980444968292764750946649017977587207096330286416692887910946555547851940402630657488671505820681908902000708383676273854845817711531764475730270069855571366959622842914819860834936475292719074168444365510704342711559699508093042880",
    ];
    for t in texts {
        let x: f64 = t.parse().unwrap();
        let r = parse_double(t);
        assert!(r.is_some(), "{}", t);
        assert!(same(r.unwrap(), x), "{}", t);
    }
    for t in ["", "-", "+", ".", "e5", "1e", "1e+", "abc", "1 ", " 1", "0x10", "1.2.3", "--1", "infin", "1_000"] {
        assert!(t.parse::<f64>().is_err());
        assert!(parse_double(t).is_none(), "{}", t);
    }
    assert_eq!(parse_double_or("x", d(10.0)), d(10.0));
    assert_eq!(parse_double_or("2.5", d(10.0)), d(2.5));
}

#[test]
fn printed_numbers_are_read_back() {
    for &a in &samples() {
        let t = format!("{}", a);
        assert!(same(parse_double(&t).unwrap(), a), "{}", t);
        let e = format!("{:e}", a);
        assert!(same(parse_double(&e).unwrap(), a), "{}", e);
    }
}
