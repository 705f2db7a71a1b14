use pomona::size::{human, parse_size, SizeError};

#[test]
fn parses_units() {
    assert_eq!(parse_size("50M").unwrap(), 50 * 1024 * 1024);
    assert_eq!(parse_size("100K").unwrap(), 100 * 1024);
    assert_eq!(parse_size("2G").unwrap(), 2 * 1024 * 1024 * 1024);
    assert_eq!(parse_size("12345").unwrap(), 12345);
    assert_eq!(parse_size("50MB").unwrap(), 50 * 1024 * 1024);
    assert_eq!(parse_size(" 3k ").unwrap(), 3 * 1024);
}

#[test]
fn rejects_bad_input() {
    for s in ["", "M", "1T", "abc", "-5M", "1.5G"] {
        assert!(parse_size(s).is_err(), "{s} 应报错");
    }
}

#[test]
fn human_readable() {
    assert_eq!(human(0), "0B");
    assert_eq!(human(1023), "1023B");
    assert_eq!(human(1536), "1.5KB");
    assert_eq!(human(300 * 1024 * 1024), "300.0MB");
    assert_eq!(human(3 * 1024 * 1024 * 1024 / 2), "1.5GB");
}

#[test]
fn each_size_error_has_its_input() {
    assert_eq!(parse_size("  "), Err(SizeError::NoNumber));
    assert_eq!(parse_size("M"), Err(SizeError::NoNumber));
    assert_eq!(parse_size("1T"), Err(SizeError::BadUnit));
    assert_eq!(parse_size("1.5G"), Err(SizeError::BadUnit));
    assert_eq!(parse_size("99999999999999999999"), Err(SizeError::BadNumber));
    assert_eq!(parse_size("17179869184G"), Err(SizeError::Overflow));
}

#[test]
fn units_are_case_insensitive_with_optional_b() {
    assert_eq!(parse_size("7g"), Ok(7 << 30));
    assert_eq!(parse_size("7Gb"), Ok(7 << 30));
    assert_eq!(parse_size("7b"), Ok(7));
    assert_eq!(parse_size("16777215G"), Ok(16777215u64 << 30));
}

/// `human` as a float computation: one decimal of bytes over the unit.
fn float_human(bytes: u64) -> String {
    const KB: f64 = 1024.0;
    const MB: f64 = KB * 1024.0;
    const GB: f64 = MB * 1024.0;
    let f = bytes as f64;
    if f >= GB {
        format!("{:.1}GB", f / GB)
    } else if f >= MB {
        format!("{:.1}MB", f / MB)
    } else if f >= KB {
        format!("{:.1}KB", f / KB)
    } else {
        format!("{bytes}B")
    }
}

#[test]
fn human_agrees_with_float_rounding() {
    let mut samples: Vec<u64> = vec![
        1023, 1024, 1025, 1075, 1076, 1126, 10188, 10189, 1048524, 1048525, 1048576, 1073741823,
        1099511627775, 1099511627776, 1125899906842624, u64::MAX, u64::MAX - 1, 5 * 1024 * 1024 + 51,
    ];
    let mut x: u64 = 0x9e3779b97f4a7c15;
    for _ in 0..20000 {
        x ^= x << 13;
        x ^= x >> 7;
        x ^= x << 17;
        let shift = (x % 64) as u32;
        samples.push(x >> shift);
    }
    for b in samples {
        assert_eq!(human(b), float_human(b), "{b}");
    }
}
