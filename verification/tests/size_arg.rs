use dff::size_arg::{parse_lowered_size, parse_size};

/// The same reading written with std's parsing and `f64` arithmetic.
fn expected(s: &str) -> Option<u64> {
    let s = s.trim().to_lowercase();
    if let Ok(n) = s.parse::<u64>() {
        return Some(n);
    }
    let split_at = s.find(|c: char| !c.is_ascii_digit() && c != '.')?;
    let num: f64 = s[..split_at].parse().ok()?;
    let suffix = &s[split_at..];
    match suffix {
        "kb" | "k" => Some((num * 1000.0) as u64),
        "kib" => Some((num * 1024.0) as u64),
        "mb" | "m" => Some((num * 1000.0 * 1000.0) as u64),
        "mib" => Some((num * 1024.0 * 1024.0) as u64),
        "gb" | "g" => Some((num * 1000.0 * 1000.0 * 1000.0) as u64),
        "gib" => Some((num * 1024.0 * 1024.0 * 1024.0) as u64),
        "tb" | "t" => Some((num * 1000.0 * 1000.0 * 1000.0 * 1000.0) as u64),
        "tib" => Some((num * 1024.0 * 1024.0 * 1024.0 * 1024.0) as u64),
        "" => s.parse::<u64>().ok(),
        _ => None,
    }
}

#[test]
fn plain_integers_are_bytes() {
    assert_eq!(parse_size("0"), Some(0));
    assert_eq!(parse_size("4096"), Some(4096));
    assert_eq!(parse_size("+7"), Some(7));
    assert_eq!(parse_size("  42\t\n"), Some(42));
    assert_eq!(parse_size("18446744073709551615"), Some(u64::MAX));
}

#[test]
fn decimal_units() {
    assert_eq!(parse_size("1KB"), Some(1_000));
    assert_eq!(parse_size("5MB"), Some(5_000_000));
    assert_eq!(parse_size("1GB"), Some(1_000_000_000));
    assert_eq!(parse_size("2tb"), Some(2_000_000_000_000));
    assert_eq!(parse_size("3k"), Some(3_000));
    assert_eq!(parse_size("3m"), Some(3_000_000));
    assert_eq!(parse_size("3G"), Some(3_000_000_000));
    assert_eq!(parse_size("3T"), Some(3_000_000_000_000));
}

#[test]
fn binary_units() {
    assert_eq!(parse_size("500Kib"), Some(512_000));
    assert_eq!(parse_size("2MiB"), Some(2 * 1024 * 1024));
    assert_eq!(parse_size("1GiB"), Some(1024 * 1024 * 1024));
    assert_eq!(parse_size("1TiB"), Some(1024 * 1024 * 1024 * 1024));
}

#[test]
fn whole_numbers_with_binary_units_are_exact() {
    assert_eq!(parse_size("9007199254740991kib"), Some(9_007_199_254_740_991 * 1024));
    assert_eq!(parse_size("16777215tib"), Some(16_777_215 << 40));
    assert_eq!(parse_size("16777216tib"), Some(u64::MAX));
    assert_eq!(parse_size("9007199254740991mib"), Some(u64::MAX));
}

#[test]
fn fractions_follow_binary64_rounding() {
    assert_eq!(parse_size("1.5k"), Some(1_500));
    assert_eq!(parse_size(".5MB"), Some(500_000));
    assert_eq!(parse_size("2.MiB"), Some(2 * 1024 * 1024));
    // 4.35 is a little below itself in binary64, and so is its product.
    assert_eq!(parse_size("4.35k"), expected("4.35k"));
    assert_eq!(parse_size("0.1k"), Some(100));
    assert_eq!(parse_size("1.1MB"), expected("1.1MB"));
    assert_eq!(parse_size("  10GB  "), Some(10_000_000_000));
}

#[test]
fn tiny_and_huge_numbers() {
    assert_eq!(parse_size("0.0000000000000000000001tb"), Some(0));
    assert_eq!(parse_size("0k"), Some(0));
    assert_eq!(parse_size("000.000k"), Some(0));
    assert_eq!(parse_size("18446744073709551616k"), Some(u64::MAX));
    assert_eq!(parse_size("123456789012345678901234567890.5k"), Some(u64::MAX));
    assert_eq!(parse_size("18446744073709551.615k"), expected("18446744073709551.615k"));
    assert_eq!(parse_size("18446744073709.551615m"), expected("18446744073709.551615m"));
}

#[test]
fn lowercasing_covers_other_scripts() {
    // The Kelvin sign lowercases to `k`.
    assert_eq!(parse_size("5\u{212A}B"), Some(5_000));
}

#[test]
fn rejected_texts() {
    for s in [
        "", "   ", "1.5", "18446744073709551616", "1.2.3k", "k", ".kb", ".", "5 kb", "5kbs", "5pb", "-5", "+5k",
        "abc", "1e3k", "5KiBB",
    ] {
        assert_eq!(parse_size(s), None, "{:?}", s);
    }
}

#[test]
fn lowered_text_is_not_lowercased_again() {
    assert_eq!(parse_lowered_size("5KB"), None);
    assert_eq!(parse_lowered_size("5kb"), Some(5_000));
    assert_eq!(parse_lowered_size(" 5kb"), None);
}

#[test]
fn agrees_with_binary64_arithmetic() {
    let fixed = [
        "0.001k", "0.3333333333333333333333333333k", "9007199254740993k", "9007199254740993", "1.0000000000000002g",
        "4503599627370495.5k", "0.000000001tib", "17179869184.000001gib", "16777216.99999999999999999999999tib",
        "0.1", "1.7976931348623157m", "7.450580596923828125e", "0.30000000000000004t", "12345.6789mb",
        "99999999999999999999999999999999999999999999999999.9t", "0.000000000000000000005421010862427522170037264k",
    ];
    for s in fixed {
        assert_eq!(parse_size(s), expected(s), "{:?}", s);
    }
    // pseudo-random numbers with every unit
    let units = ["k", "kb", "kib", "m", "mb", "mib", "g", "gb", "gib", "t", "tb", "tib"];
    let mut seed: u64 = 0x9e37_79b9_7f4a_7c15;
    for _ in 0..3000 {
        seed = seed.wrapping_mul(6364136223846793005).wrapping_add(1442695040888963407);
        let int_len = (seed >> 60) as usize % 12;
        let frac_len = (seed >> 56) as usize % 24;
        let mut text = String::new();
        let mut x = seed;
        for _ in 0..int_len {
            x = x.wrapping_mul(6364136223846793005).wrapping_add(1442695040888963407);
            text.push((b'0' + (x >> 59) as u8 % 10) as char);
        }
        if frac_len > 0 || int_len == 0 {
            text.push('.');
            for _ in 0..frac_len.max(1) {
                x = x.wrapping_mul(6364136223846793005).wrapping_add(1442695040888963407);
                text.push((b'0' + (x >> 59) as u8 % 10) as char);
            }
        }
        text.push_str(units[(seed >> 8) as usize % units.len()]);
        assert_eq!(parse_size(&text), expected(&text), "{:?}", text);
    }
}
