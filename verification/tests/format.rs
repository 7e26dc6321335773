use dff::text::format_bytes;

/// The same text computed with `f64` division and `{:.1}` formatting.
fn expected(size: u64) -> String {
    let units = ["B", "KB", "MB", "GB", "TB"];
    let mut value = size as f64;
    let mut unit_idx = 0;
    while value >= 1024.0 && unit_idx < units.len() - 1 {
        value /= 1024.0;
        unit_idx += 1;
    }
    if unit_idx == 0 {
        format!("{} B", size)
    } else {
        format!("{:.1} {}", value, units[unit_idx])
    }
}

#[test]
fn format_bytes_exact_values() {
    assert_eq!(format_bytes(0), "0 B");
    assert_eq!(format_bytes(1023), "1023 B");
    assert_eq!(format_bytes(1024), "1.0 KB");
    assert_eq!(format_bytes(1536), "1.5 KB");
    assert_eq!(format_bytes(1048576), "1.0 MB");
}

#[test]
fn format_bytes_ties_round_to_even() {
    // 1.25 KB and 1.75 KB are exact ties at one decimal.
    assert_eq!(format_bytes(1280), expected(1280));
    assert_eq!(format_bytes(1792), expected(1792));
    assert_eq!(format_bytes(1280), "1.2 KB");
    assert_eq!(format_bytes(1792), "1.8 KB");
}

#[test]
fn format_bytes_matches_float_formatting() {
    let mut samples: Vec<u64> = vec![u64::MAX, u64::MAX - 1, 1 << 53, (1 << 53) + 1, (1 << 54) + 3,
        1023 * 1024 + 1000, 1024 * 1024 - 1, 1 << 40, (1 << 40) - 1, 9_007_199_254_740_993];
    let mut x: u64 = 0x9e37_79b9_7f4a_7c15;
    for i in 0..20000u64 {
        x ^= x << 13;
        x ^= x >> 7;
        x ^= x << 17;
        let shift = (i % 64) as u32;
        samples.push(x >> shift);
        samples.push((x >> shift) & !0x3f);
        samples.push(((i % 2000) + 1) * (1u64 << ((i % 5) * 10)) / 8 * 8 + (i % 2000) * 128);
    }
    for s in samples {
        assert_eq!(format_bytes(s), expected(s), "size {}", s);
    }
}
