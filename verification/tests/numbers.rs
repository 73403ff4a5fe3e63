use coinbath::double::Double;
use coinbath::single::Single;
use coinbath::wording;
use coinbath::wording::NumberError;

fn d(x: f64) -> Double {
    Double { bits: x.to_bits() }
}

fn f(x: Double) -> f64 {
    f64::from_bits(x.bits)
}

fn s(x: f32) -> Single {
    Single { bits: x.to_bits() }
}

/// Equal bits, or both not a number.
fn same(got: Double, want: f64) -> bool {
    (f(got).is_nan() && want.is_nan()) || got.bits == want.to_bits()
}

fn same_single(got: Single, want: f32) -> bool {
    let x = f32::from_bits(got.bits);
    (x.is_nan() && want.is_nan()) || got.bits == want.to_bits()
}

/// A fixed stream of bits.
fn stream(n: usize) -> Vec<u64> {
    let mut x: u64 = 0x9e37_79b9_7f4a_7c15;
    let mut out = Vec::new();
    for _ in 0..n {
        x ^= x << 13;
        x ^= x >> 7;
        x ^= x << 17;
        out.push(x);
    }
    out
}

fn corners() -> Vec<f64> {
    vec![
        0.0,
        -0.0,
        1.0,
        -1.0,
        0.1,
        0.3,
        2.5,
        1e-308,
        5e-324,
        -5e-324,
        2.2250738585072014e-308,
        2.225073858507201e-308,
        1e300,
        f64::MAX,
        f64::MIN,
        f64::INFINITY,
        f64::NEG_INFINITY,
        f64::NAN,
        273.15,
        1e-300,
        9007199254740993.0,
        4503599627370497.5,
    ]
}

#[test]
fn double_arithmetic_is_ieee() {
    let mut xs = corners();
    for b in stream(300) {
        xs.push(f64::from_bits(b));
    }
    for (i, &a) in xs.iter().enumerate() {
        for &b in xs.iter().skip(i % 7).step_by(5) {
            assert!(same(d(a).plus(d(b)), a + b), "{a} + {b}");
            assert!(same(d(a).minus(d(b)), a - b), "{a} - {b}");
            assert!(same(d(a).times(d(b)), a * b), "{a} * {b}");
            assert!(same(d(a).over(d(b)), a / b), "{a} / {b}");
        }
    }
    for &a in &corners() {
        for &b in &corners() {
            assert!(same(d(a).plus(d(b)), a + b), "{a} + {b}");
            assert!(same(d(a).minus(d(b)), a - b), "{a} - {b}");
            assert!(same(d(a).times(d(b)), a * b), "{a} * {b}");
            assert!(same(d(a).over(d(b)), a / b), "{a} / {b}");
            assert_eq!(d(a).below(d(b)), a < b);
            assert_eq!(d(a).at_most(d(b)), a <= b);
            assert_eq!(d(a).equals(d(b)), a == b);
        }
    }
}

#[test]
fn close_doubles_cancel_exactly() {
    for b in stream(200) {
        let a = f64::from_bits((b >> 12) | 0x3ff0_0000_0000_0000);
        let near = f64::from_bits(a.to_bits() ^ 1);
        assert!(same(d(a).minus(d(near)), a - near));
        assert!(same(d(a).plus(d(-near)), a - near));
    }
}

#[test]
fn double_extremes_and_clamps() {
    assert_eq!(f(d(1.0).lesser(d(2.0))), 1.0);
    assert_eq!(f(d(f64::NAN).lesser(d(2.0))), 2.0);
    assert_eq!(f(d(1.0).greater(d(f64::NAN))), 1.0);
    assert_eq!(f(d(3.0).greater(d(2.0))), 3.0);
    assert_eq!(f(d(1.5).held_to(d(0.0), d(1.0))), 1.0);
    assert_eq!(f(d(-1.5).held_to(d(0.0), d(1.0))), 0.0);
    assert_eq!(f(d(0.5).held_to(d(0.0), d(1.0))), 0.5);
    assert!(f(d(f64::NAN).held_to(d(0.0), d(1.0))).is_nan());
    assert_eq!(f(d(-2.5).magnitude()), 2.5);
    assert_eq!(f(d(2.5).negated()), -2.5);
    assert!(d(f64::NAN).is_nan());
    assert!(!d(f64::INFINITY).is_finite());
    assert!(d(f64::MAX).is_finite());
}

#[test]
fn doubles_from_and_to_integers() {
    for n in [0, 1, -1, 2047, -2048, i64::MAX, i64::MIN, 9007199254740993] {
        assert!(same(Double::of(n), n as f64), "{n}");
    }
    for n in [0usize, 5, usize::MAX] {
        assert!(same(Double::count(n), n as f64), "{n}");
    }
    for x in corners() {
        let want = x as i32 as i64;
        assert_eq!(d(x).truncated(i32::MIN as i64, i32::MAX as i64), want, "{x}");
    }
    assert_eq!(d(-1.99).truncated(-100, 100), -1);
    assert_eq!(d(1e19).truncated(i64::MIN, i64::MAX), i64::MAX);
}

#[test]
fn single_arithmetic_is_ieee() {
    let mut xs: Vec<f32> = vec![
        0.0,
        -0.0,
        1.0,
        280.0,
        0.1,
        3.5,
        1e-45,
        f32::MIN_POSITIVE,
        f32::MAX,
        f32::INFINITY,
        f32::NAN,
        16777217.0,
    ];
    for b in stream(200) {
        xs.push(f32::from_bits(b as u32));
    }
    for &a in &xs {
        for &b in xs.iter().step_by(3) {
            assert!(same_single(s(a).plus(s(b)), a + b), "{a} + {b}");
            assert!(same_single(s(a).minus(s(b)), a - b), "{a} - {b}");
            assert!(same_single(s(a).times(s(b)), a * b), "{a} * {b}");
            assert!(same_single(s(a).over(s(b)), a / b), "{a} / {b}");
        }
        let (low, high) = (i32::MIN as i64, i32::MAX as i64);
        assert_eq!(s(a).truncated(low, high), a as i32 as i64, "{a}");
        assert_eq!(s(a).rounded_off(low, high), a.round() as i32 as i64, "{a}");
    }
    for x in [0.5f32, 1.5, 2.5, -0.5, -1.5, 0.49999997] {
        let (low, high) = (i32::MIN as i64, i32::MAX as i64);
        assert_eq!(s(x).rounded_off(low, high), x.round() as i32 as i64, "{x}");
    }
    assert!(same_single(Single::of(1424), 1424.0));
    assert!(same_single(s(2.0).negated(), -2.0));
}

#[test]
fn fixed_decimals_are_those_of_the_formatter() {
    let mut xs = corners();
    xs.push(0.5);
    xs.push(1.5);
    xs.push(0.125);
    xs.push(0.375);
    xs.push(99.95);
    xs.push(-0.04);
    xs.push(123456789.123456789);
    for b in stream(60) {
        xs.push(f64::from_bits((b >> 3) % 0x4340_0000_0000_0000));
        xs.push(f64::from_bits(0x3f50_0000_0000_0000 + (b >> 9)));
    }
    for x in xs {
        for n in 0..5 {
            assert_eq!(wording::fixed(d(x), n), format!("{:.*}", n as usize, x));
        }
    }
}

#[test]
fn any_count_of_decimals_is_that_of_the_formatter() {
    let xs = [0.1, -2.5, 99.95, 1.0 / 3.0, 0.999999999999, 9.9999999999e22, 5e-324, 1.5e300, 0.0];
    for x in xs {
        for n in [9, 10, 11, 17, 23, 40, 60, 1100] {
            assert_eq!(wording::fixed(d(x), n), format!("{:.*}", n as usize, x));
        }
    }
}

#[test]
fn signs_and_columns_are_those_of_the_formatter() {
    for x in [0.1234, -0.1234, 0.0, -0.0, f64::NAN, f64::INFINITY] {
        let mut text = String::new();
        wording::push_signed(&mut text, d(x), 3);
        assert_eq!(text, format!("{x:+.3}"));
        let mut text = String::from("|");
        wording::push_right_in(&mut text, &format!("{x:.2}"), 7);
        assert_eq!(text, format!("|{x:7.2}"));
    }
    for name in ["bath", "", "a very long name", "\u{00B0}C"] {
        let mut text = String::from("|");
        wording::push_left_in(&mut text, name, 9);
        assert_eq!(text, format!("|{name:9}"));
    }
}

#[test]
fn integers_read_as_they_parse() {
    for text in [
        "", "+", "-", "0", "+7", "-7", "007", "4294967295", "4294967296", "99999999999x", "12a",
        "a12", " 1", "1 ", "++1", "\u{0663}",
    ] {
        let want = text.parse::<u32>();
        let n = text.chars().count();
        let got = wording::read(text, 0, n, u32::MAX as u64);
        match (got, want) {
            (Ok(a), Ok(b)) => assert_eq!(a, b as u64, "{text}"),
            (Err(a), Err(b)) => assert_eq!(a.to_text(), b.to_string(), "{text}"),
            _ => panic!("{text}"),
        }
    }
    assert_eq!(wording::read("x12y", 1, 3, 100), Ok(12));
    assert_eq!(wording::read("", 0, 0, 9), Err(NumberError::Empty));
    assert_eq!(wording::read("10", 0, 2, 9), Err(NumberError::TooLarge));
    assert_eq!(wording::read("1x", 0, 2, 9), Err(NumberError::InvalidDigit));
}

#[test]
fn a_decimal_reads_back() {
    for n in [0u64, 7, 10, 99, 100, 4096, u64::MAX] {
        let text = wording::decimal(n);
        assert_eq!(text, n.to_string());
        assert_eq!(wording::read(&text, 0, text.len(), u64::MAX), Ok(n));
    }
}

#[test]
fn texts_are_ordered_as_strings_are() {
    let texts = ["", "a", "ab", "b", "bath", "inlet", "B", "\u{00e9}", "z", "ba"];
    for a in texts {
        for b in texts {
            assert_eq!(wording::precedes(a, b), a < b, "{a} {b}");
            assert_eq!(wording::same(a, b), a == b);
            assert_eq!(wording::begins_with(a, b), a.starts_with(b));
            assert_eq!(wording::ends_with(a, b), a.ends_with(b));
        }
    }
    assert_eq!(wording::behind_last("emberone-00-2d714701", '-'), "2d714701");
    assert_eq!(wording::behind_last("cpu", '-'), "cpu");
    assert_eq!(wording::behind_last("cpu-", '-'), "");
    assert_eq!(wording::place("1280x400", 'x'), Some(4));
    assert_eq!(wording::place("1280", 'x'), None);
}
