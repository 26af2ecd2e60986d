use tensorpeek::float::widen;
use tensorpeek::json::Json;
use tensorpeek::render::{human_bytes, human_count};

fn next(s: &mut u64) -> u64 {
    *s = s
        .wrapping_mul(6364136223846793005)
        .wrapping_add(1442695040888963407);
    *s ^ (*s >> 29)
}

/// What the standard library prints, with a decimal point.
fn expected(f: f64) -> String {
    let s = format!("{f}");
    if s.contains('.') {
        s
    } else {
        format!("{s}.0")
    }
}

#[test]
fn doubles_are_written_like_the_standard_library_writes_them() {
    let mut cases: Vec<f64> = vec![
        0.0, -0.0, 1.0, -1.0, 0.1, 0.3, 0.001, 1.5, 2.5, 3.14159, 1e21, 1e22, 1e23, 1e300, 1e-300,
        5e-324, 1e-323, 2.2250738585072014e-308, 2.225073858507201e-308, 1.7976931348623157e308,
        9007199254740991.0, 9007199254740992.0, 9007199254740993.0, 9007199254740994.0,
        18014398509481988.0, 4503599627370496.5, 10000.0, 123456789.125, 0.5, 0.25, 1024.0,
        4.35, 0.000001, 1e-7, 8.41e21, 2.0f64.powi(60), 2.0f64.powi(-60), 2.0f64.powi(1023),
        2.0f64.powi(-1022), 2.0f64.powi(-1074), 9.5367431640625e-7, 5e-320,
    ];
    let mut s = 1u64;
    while cases.len() < 500 {
        let f = f64::from_bits(next(&mut s));
        if f.is_finite() {
            cases.push(f);
        }
        cases.push((next(&mut s) % 100_000) as f64 / 1000.0);
    }
    for f in cases {
        assert_eq!(Json::Float(f.to_bits()).compact(), expected(f));
    }
}

#[test]
fn doubles_are_read_like_the_standard_library_reads_them() {
    let mut cases: Vec<String> = [
        "0.0", "-0.0", "1.0", "0.1", "1e3", "1E3", "1e+3", "1e-3", "1.5e10", "123456789012345678901234567890.5",
        "1e400", "-1e400", "1e-400", "4.9e-324", "2.4703282292062327e-324", "2.4703282292062328e-324",
        "9007199254740993.0", "9007199254740992.99999999999999999999999999999999999",
        "9007199254740993.00000000000000000000000000000000001", "1.7976931348623158e308",
        "1.7976931348623159e308", "2.2250738585072011e-308", "0.000000000000000000000000000001e30",
        "100000000000000000000000000000000000000000e-41", "1e99999999999999999999999999999999999999",
        "1e-99999999999999999999999999999999999999", "0e99999999999999999999999999999999999999",
        "179769313486231580793728971405303415079934132710037826936173778980444968292764750946649017977587207096330286416692887910946555547851940402630657488671505820681908902000708383676273854845817711531764475730270069855571366959622842914819860834936475292719074168444365510704342711559699508093042880.0",
    ]
    .iter()
    .map(|s| s.to_string())
    .collect();
    let mut s = 7u64;
    for _ in 0..300 {
        let d = next(&mut s) % 1_000_000_000_000_000_000;
        let e = (next(&mut s) % 640) as i64 - 330;
        cases.push(format!("{d}e{e}"));
        let a = next(&mut s) % 1_000_000;
        let b = next(&mut s) % 1_000_000_000;
        cases.push(format!("{a}.{b:09}"));
    }
    for text in cases {
        let want: f64 = text.parse().unwrap();
        assert_eq!(
            Json::parse(text.as_bytes()).unwrap(),
            Json::Float(want.to_bits()),
            "reading {text}"
        );
    }
}

#[test]
fn integers_beyond_128_bits_become_doubles() {
    let max = i128::MAX.to_string();
    assert_eq!(Json::parse(max.as_bytes()).unwrap(), Json::Int(i128::MAX));
    let min = i128::MIN.to_string();
    assert_eq!(Json::parse(min.as_bytes()).unwrap(), Json::Int(i128::MIN));
    let beyond = "170141183460469231731687303715884105728";
    let want: f64 = beyond.parse().unwrap();
    assert_eq!(
        Json::parse(beyond.as_bytes()).unwrap(),
        Json::Float(want.to_bits())
    );
}

#[test]
fn written_doubles_are_read_back_unchanged() {
    let mut s = 99u64;
    for _ in 0..300 {
        let f = f64::from_bits(next(&mut s));
        if !f.is_finite() {
            continue;
        }
        let v = Json::Float(f.to_bits());
        assert_eq!(Json::parse(v.compact().as_bytes()).unwrap(), v);
    }
}

#[test]
fn single_precision_numbers_widen_exactly() {
    let mut cases: Vec<f32> = vec![
        0.0, -0.0, 1.0, -1.5, 0.5, 10000.0, 1e-45, 1.1754944e-38, 1e-40, 3.4028235e38, 0.1,
        f32::INFINITY, f32::NEG_INFINITY, 5.877472e-39,
    ];
    let mut s = 3u64;
    for _ in 0..2000 {
        let f = f32::from_bits(next(&mut s) as u32);
        if !f.is_nan() {
            cases.push(f);
        }
    }
    for f in cases {
        assert_eq!(widen(f.to_bits()), (f as f64).to_bits(), "widening {f}");
    }
    let nan = f64::from_bits(widen(f32::NAN.to_bits()));
    assert!(nan.is_nan());
    let signaling = f64::from_bits(widen(0x7f80_0001));
    assert!(signaling.is_nan());
}

#[test]
fn byte_counts_round_like_double_precision_division() {
    let units = ["KiB", "MiB", "GiB", "TiB", "PiB"];
    let mut cases: Vec<u64> = vec![
        1024, 1075, 1076, 1126, 1127, 1536, 1587, 1588, 1638, 1639, 1023 * 1024, 1024 * 1024 - 1,
        1024 * 1024, u64::MAX, u64::MAX - 1, 1 << 53, (1 << 53) + 1, (1 << 60) + 12345,
        (1 << 50) - 1, 1 << 50, 51 * 1024 + 51,
    ];
    let mut s = 5u64;
    for i in 0..2000 {
        cases.push((next(&mut s) >> (i % 50)).max(1024));
    }
    for n in cases {
        let mut v = n as f64 / 1024.0;
        let mut unit = 0;
        while v >= 1024.0 && unit < units.len() - 1 {
            v /= 1024.0;
            unit += 1;
        }
        assert_eq!(human_bytes(n), format!("{v:.1} {}", units[unit]), "{n} bytes");
    }
}

#[test]
fn parameter_counts_round_like_double_precision_division() {
    let steps: [(u128, &str); 4] = [
        (1_000_000_000_000, "T"),
        (1_000_000_000, "B"),
        (1_000_000, "M"),
        (1_000, "K"),
    ];
    let mut cases: Vec<u128> = vec![
        1000, 1049, 1050, 1051, 1149, 1150, 1250, 1350, 999_949, 999_950, 999_999, 1_000_000,
        1_050_000, 1_250_000, 4096, 4_150, 124_439_808, 6_738_415_616, 1_000_000_000_000,
        u64::MAX as u128, u128::MAX, u128::MAX / 3, (1 << 53) + 1, (1u128 << 100) + 7,
    ];
    let mut s = 11u64;
    for i in 0..2000u32 {
        let n = ((next(&mut s) as u128) << 64) | next(&mut s) as u128;
        cases.push((n >> (i % 118)).max(1000));
    }
    for n in cases {
        let (step, suffix) = *steps.iter().find(|(step, _)| n >= *step).unwrap();
        let want = format!("{:.1} {suffix}", n as f64 / step as f64);
        assert_eq!(human_count(n), want, "{n} parameters");
    }
}
