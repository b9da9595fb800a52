use disk_doctor::numfmt::{format_eta, format_size};

/// The formatting the size text must agree with, written with floats.
fn float_size(bytes: u64) -> String {
    let units = ["B", "KB", "MB", "GB", "TB"];
    let mut size = bytes as f64;
    let mut unit = 0;
    while size >= 1024.0 && unit < units.len() - 1 {
        size /= 1024.0;
        unit += 1;
    }
    format!("{:.1} {}", size, units[unit])
}

#[test]
fn format_size_small_values() {
    assert_eq!(format_size(0), "0.0 B");
    assert_eq!(format_size(1), "1.0 B");
    assert_eq!(format_size(1023), "1023.0 B");
}

#[test]
fn format_size_units() {
    assert_eq!(format_size(1024), "1.0 KB");
    assert_eq!(format_size(1536), "1.5 KB");
    assert_eq!(format_size(1048576), "1.0 MB");
    assert_eq!(format_size(1073741824), "1.0 GB");
    assert_eq!(format_size(1099511627776), "1.0 TB");
    assert_eq!(format_size(5 * 1099511627776), "5.0 TB");
    assert_eq!(format_size(1u64 << 60), "1048576.0 TB");
}

#[test]
fn format_size_rounds_ties_to_even() {
    // 1.25 KB and 1.75 KB lie exactly between two tenths.
    assert_eq!(format_size(1280), "1.2 KB");
    assert_eq!(format_size(1792), "1.8 KB");
    assert_eq!(format_size(1048575), "1024.0 KB");
}

#[test]
fn format_size_large_values_round_like_f64() {
    assert_eq!(format_size(u64::MAX), "16777216.0 TB");
    assert_eq!(format_size(u64::MAX), float_size(u64::MAX));
    assert_eq!(format_size((1u64 << 53) + 1), float_size((1u64 << 53) + 1));
    assert_eq!(format_size((1u64 << 63) + 1025), float_size((1u64 << 63) + 1025));
}

#[test]
fn format_size_agrees_with_float_formatting() {
    let mut x: u64 = 0x9E37_79B9_7F4A_7C15;
    for i in 0..20000u64 {
        x ^= x << 13;
        x ^= x >> 7;
        x ^= x << 17;
        let shift = (i % 64) as u32;
        let v = x >> shift;
        assert_eq!(format_size(v), float_size(v), "bytes = {}", v);
    }
    for v in 0..5000u64 {
        assert_eq!(format_size(v * 97), float_size(v * 97));
    }
}

#[test]
fn format_eta_ranges() {
    assert_eq!(format_eta(0), "0s");
    assert_eq!(format_eta(59), "59s");
    assert_eq!(format_eta(60), "1m 0s");
    assert_eq!(format_eta(3599), "59m 59s");
    assert_eq!(format_eta(3600), "1h 0m");
    assert_eq!(format_eta(3725), "1h 2m");
    assert_eq!(format_eta(90061), "25h 1m");
}
