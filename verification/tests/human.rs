use sizes::human::{format_bytes, ByteSize};

/// The `f64` formatting that the library's integer arithmetic reproduces.
fn float_format(bytes: u64) -> String {
    let units = ["B", "KB", "MB", "GB", "TB"];
    if bytes < 1024 {
        return format!("{bytes} B");
    }
    let mut size = bytes as f64;
    let mut unit = 0;
    while size >= 1024.0 && unit < units.len() - 1 {
        size /= 1024.0;
        unit += 1;
    }
    if size >= 100.0 {
        format!("{size:.0} {}", units[unit])
    } else if size >= 10.0 {
        format!("{size:.1} {}", units[unit])
    } else {
        format!("{size:.2} {}", units[unit])
    }
}

#[test]
fn parse_sizes() {
    assert_eq!(ByteSize::parse("10KB").unwrap().0, 10 * 1024);
    assert_eq!(ByteSize::parse("50MB").unwrap().0, 50 * 1024 * 1024);
    assert_eq!(ByteSize::parse("1GB").unwrap().0, 1024 * 1024 * 1024);
    assert_eq!(ByteSize::parse("123").unwrap().0, 123);
    assert!(ByteSize::parse("abc").is_err());
}

#[test]
fn format_size_ranges() {
    assert_eq!(format_bytes(0), "0 B");
    assert_eq!(format_bytes(999), "999 B");
    assert_eq!(format_bytes(1024), "1.00 KB");
    assert_eq!(format_bytes(1024 * 1024), "1.00 MB");
    assert_eq!(format_bytes(1024_u64.pow(3)), "1.00 GB");
    assert_eq!(format_bytes(1024_u64.pow(4)), "1.00 TB");
}

#[test]
fn format_matches_float_formatting() {
    for b in 0..20000u64 {
        assert_eq!(format_bytes(b), float_format(b), "bytes {b}");
    }
    let mut x: u64 = 0x9E37_79B9_7F4A_7C15;
    for _ in 0..20000 {
        x = x.wrapping_mul(6364136223846793005).wrapping_add(1442695040888963407);
        for shift in [0u32, 8, 16, 24, 30, 34, 40, 44, 50, 54] {
            let b = x >> shift;
            assert_eq!(format_bytes(b), float_format(b), "bytes {b}");
        }
    }
    for k in 0..64u32 {
        for d in [0i64, -1, 1, -512, 512] {
            let b = (1u64 << k).wrapping_add(d as u64);
            assert_eq!(format_bytes(b), float_format(b), "bytes {b}");
        }
    }
    assert_eq!(format_bytes(u64::MAX), float_format(u64::MAX));
}

#[test]
fn format_rounding_examples() {
    assert_eq!(format_bytes(1536), "1.50 KB");
    assert_eq!(format_bytes(10 * 1024 * 1024), "10.0 MB");
    assert_eq!(format_bytes(100 * 1024), "100 KB");
    assert_eq!(format_bytes(1023 * 1024), "1023 KB");
    // 1.125 KB is a tie at two decimals: it goes to the even digit
    assert_eq!(format_bytes(1152), "1.12 KB");
    assert_eq!(format_bytes(u64::MAX), "16777216 TB");
}

#[test]
fn human_is_format_bytes() {
    assert_eq!(ByteSize(10485760).human(), "10.0 MB");
    assert_eq!(ByteSize(5).human(), "5 B");
}

#[test]
fn parse_units_and_case() {
    assert_eq!(ByteSize::parse("1b").unwrap().0, 1);
    assert_eq!(ByteSize::parse("2 bytes").unwrap().0, 2);
    assert_eq!(ByteSize::parse("1Byte").unwrap().0, 1);
    assert_eq!(ByteSize::parse("3k").unwrap().0, 3072);
    assert_eq!(ByteSize::parse("3KiB").unwrap().0, 3072);
    assert_eq!(ByteSize::parse("2m").unwrap().0, 2 * 1048576);
    assert_eq!(ByteSize::parse("2MiB").unwrap().0, 2 * 1048576);
    assert_eq!(ByteSize::parse("1g").unwrap().0, 1073741824);
    assert_eq!(ByteSize::parse("1GiB").unwrap().0, 1073741824);
    assert_eq!(ByteSize::parse("1t").unwrap().0, 1099511627776);
    assert_eq!(ByteSize::parse("1TB").unwrap().0, 1099511627776);
    assert_eq!(ByteSize::parse("1TiB").unwrap().0, 1099511627776);
    assert_eq!(ByteSize::parse("  7 kb  ").unwrap().0, 7168);
    assert_eq!(ByteSize::parse("0").unwrap().0, 0);
    assert_eq!(ByteSize::parse("007").unwrap().0, 7);
}

#[test]
fn parse_fractions_round_half_up() {
    assert_eq!(ByteSize::parse("1.5KB").unwrap().0, 1536);
    assert_eq!(ByteSize::parse("0.5").unwrap().0, 1);
    assert_eq!(ByteSize::parse("0.49").unwrap().0, 0);
    assert_eq!(ByteSize::parse("2.5").unwrap().0, 3);
    assert_eq!(ByteSize::parse("1.").unwrap().0, 1);
    assert_eq!(ByteSize::parse(".5k").unwrap().0, 512);
    assert_eq!(ByteSize::parse("0.001k").unwrap().0, 1);
    assert_eq!(ByteSize::parse("0.0001k").unwrap().0, 0);
    assert_eq!(ByteSize::parse("1.25mb").unwrap().0, 1310720);
}

#[test]
fn parse_agrees_with_float_parsing_on_short_numbers() {
    let numbers = ["0", "1", "1.5", "2.25", "10", "99.9", "0.75", "123.456", "1023", "4096.5"];
    let suffixes = [("", 1.0f64), ("kb", 1024.0), ("MB", 1048576.0), ("g", 1073741824.0)];
    for n in numbers {
        for (s, m) in suffixes {
            let text = format!("{n}{s}");
            let expected = (n.parse::<f64>().unwrap() * m).round() as u64;
            assert_eq!(ByteSize::parse(&text).unwrap().0, expected, "{text}");
        }
    }
}

#[test]
fn parse_errors() {
    assert_eq!(ByteSize::parse("").unwrap_err(), "size cannot be empty");
    assert_eq!(ByteSize::parse("   ").unwrap_err(), "size cannot be empty");
    assert_eq!(ByteSize::parse("abc").unwrap_err(), "invalid size: abc");
    assert_eq!(ByteSize::parse(" kb").unwrap_err(), "invalid size:  kb");
    assert_eq!(ByteSize::parse("1.2.3").unwrap_err(), "invalid size number: 1.2.3");
    assert_eq!(ByteSize::parse(".").unwrap_err(), "invalid size number: .");
    assert_eq!(ByteSize::parse("10XB").unwrap_err(), "unsupported size suffix: xb");
    assert_eq!(ByteSize::parse("10 P B").unwrap_err(), "unsupported size suffix: p b");
    assert_eq!(ByteSize::parse("16777217TB").unwrap_err(), "size too large: 16777217TB");
    assert_eq!(ByteSize::parse("99999999999999999999").unwrap_err(), "size too large: 99999999999999999999");
}

#[test]
fn parse_near_the_top() {
    assert_eq!(ByteSize::parse("18446744073709551615").unwrap().0, u64::MAX);
    // 2^64 itself is accepted and stored as u64::MAX, as the saturating cast does
    assert_eq!(ByteSize::parse("16777216TB").unwrap().0, u64::MAX);
    // values that f64 rounds back to 2^64 are accepted too
    assert_eq!(ByteSize::parse("18446744073709551616.1").unwrap().0, u64::MAX);
    assert_eq!(ByteSize::parse("18446744073709551617").unwrap().0, u64::MAX);
    assert_eq!(ByteSize::parse("18446744073709553664").unwrap().0, u64::MAX);
    assert_eq!(
        ByteSize::parse("18446744073709553665").unwrap_err(),
        "size too large: 18446744073709553665"
    );
}

fn float_parse(text: &str, number: &str, m: f64) -> Result<u64, String> {
    let value: f64 = number.parse().unwrap();
    if !value.is_finite() {
        return Err(format!("invalid size number: {text}"));
    }
    let bytes = value * m;
    if bytes > u64::MAX as f64 {
        return Err(format!("size too large: {text}"));
    }
    Ok(bytes.round() as u64)
}

#[test]
fn parse_rounds_as_f64_does() {
    let numbers = [
        "9007199254740993",
        "9007199254740995",
        "4503599627370496.5",
        "4503599627370497.5",
        "2251799813685248.25",
        "0.49999999999999999999",
        "0.4999999999999999",
        "1.00000000000000011102230246251565404236316680908203125",
        "123456789012345678901234567890",
        "0.000000000000000000000000000001",
        "17592186044415.9999999999999",
        "16777215.99999999999999999",
        "12345.678901234567890123456789",
    ];
    let suffixes = [("", 1.0f64), ("k", 1024.0), ("MB", 1048576.0), ("gib", 1073741824.0), ("t", 1099511627776.0)];
    for n in numbers {
        for (s, m) in suffixes {
            let text = format!("{n}{s}");
            let expected = float_parse(&text, n, m).map(ByteSize);
            assert_eq!(ByteSize::parse(&text), expected, "{text}");
        }
    }
}

#[test]
fn parse_beyond_f64_is_an_invalid_number() {
    let limit = "179769313486231580793728971405303415079934132710037826936173778980444968292764750946649017977587207096330286416692887910946555547851940402630657488671505820681908902000708383676273854845817711531764475730270069855571366959622842914819860834936475292719074168444365510704342711559699508093042880177904174497792";
    let below = "179769313486231580793728971405303415079934132710037826936173778980444968292764750946649017977587207096330286416692887910946555547851940402630657488671505820681908902000708383676273854845817711531764475730270069855571366959622842914819860834936475292719074168444365510704342711559699508093042880177904174497791";
    assert_eq!(ByteSize::parse(limit).unwrap_err(), format!("invalid size number: {limit}"));
    assert_eq!(ByteSize::parse(below).unwrap_err(), format!("size too large: {below}"));
    let padded = format!("000{limit}.5kb");
    assert_eq!(ByteSize::parse(&padded).unwrap_err(), format!("invalid size number: {padded}"));
    let longer = format!("{limit}0");
    assert_eq!(ByteSize::parse(&longer).unwrap_err(), format!("invalid size number: {longer}"));
    // the number is checked before the unit
    let odd_unit = format!("{limit}xb");
    assert_eq!(ByteSize::parse(&odd_unit).unwrap_err(), format!("invalid size number: {odd_unit}"));
    for text in [limit, below, padded.as_str(), longer.as_str()] {
        let number: String = text.chars().take_while(|c| c.is_ascii_digit() || *c == '.').collect();
        let m = if text.ends_with("kb") { 1024.0 } else { 1.0 };
        assert_eq!(ByteSize::parse(text), float_parse(text, &number, m).map(ByteSize), "{text}");
    }
}

#[test]
fn decimal_text_parses_back() {
    let max = 1u64 << 53;
    for n in [0u64, 1, 9, 10, 1023, 1024, 123456789, max - 1, max] {
        assert_eq!(ByteSize::parse(&n.to_string()), Ok(ByteSize(n)));
        assert_eq!(ByteSize::parse(&format!("{n} B")), Ok(ByteSize(n)));
    }
}
