use fast_copy::format::{fmt_clock, fmt_size, truncate_str};

/// The size formatting as floating-point code writes it, to compare against.
fn float_size(n: u64) -> String {
    const KB: u64 = 1024;
    const MB: u64 = KB * 1024;
    const GB: u64 = MB * 1024;
    const TB: u64 = GB * 1024;
    if n >= TB {
        format!("{:.2} TB", n as f64 / TB as f64)
    } else if n >= GB {
        format!("{:.2} GB", n as f64 / GB as f64)
    } else if n >= MB {
        format!("{:.1} MB", n as f64 / MB as f64)
    } else if n >= KB {
        format!("{:.0} KB", n as f64 / KB as f64)
    } else {
        format!("{} B", n)
    }
}

#[test]
fn size_small_values_in_bytes() {
    assert_eq!(fmt_size(0), "0 B");
    assert_eq!(fmt_size(1), "1 B");
    assert_eq!(fmt_size(1023), "1023 B");
}

#[test]
fn size_units() {
    assert_eq!(fmt_size(1024), "1 KB");
    assert_eq!(fmt_size(1024 * 1024), "1.0 MB");
    assert_eq!(fmt_size(1024 * 1024 * 1024), "1.00 GB");
    assert_eq!(fmt_size(1024u64 * 1024 * 1024 * 1024), "1.00 TB");
    assert_eq!(fmt_size(10 * 1024 * 1024 * 1024), "10.00 GB");
    assert_eq!(fmt_size(1536 * 1024), "1.5 MB");
}

#[test]
fn size_ties_round_to_even() {
    // 1.5 KB and 2.5 KB are exact ties.
    assert_eq!(fmt_size(1536), float_size(1536));
    assert_eq!(fmt_size(2560), float_size(2560));
    // 1.25 MB is a tie at one decimal.
    assert_eq!(fmt_size(1310720), float_size(1310720));
    // 1.125 GB is a tie at two decimals.
    assert_eq!(fmt_size(1207959552), float_size(1207959552));
    // Just below a megabyte rounds up to 1024 KB.
    assert_eq!(fmt_size(1048575), float_size(1048575));
}

#[test]
fn size_huge_values_match_float_rendering() {
    let samples: [u64; 8] = [
        u64::MAX,
        u64::MAX - 1,
        1u64 << 53,
        (1u64 << 53) + 1,
        (1u64 << 60) + 12345,
        9_999_999_999_999_999_999,
        1_099_511_627_776 * 1000 + 5_497_558_138,
        1u64 << 63,
    ];
    for n in samples {
        assert_eq!(fmt_size(n), float_size(n), "n = {}", n);
    }
}

#[test]
fn size_matches_float_rendering_on_many_values() {
    let mut x: u64 = 0x9E37_79B9_7F4A_7C15;
    for i in 0..20000u64 {
        x = x.wrapping_mul(6364136223846793005).wrapping_add(1442695040888963407);
        let shift = (i % 64) as u32;
        let n = x >> shift;
        assert_eq!(fmt_size(n), float_size(n), "n = {}", n);
    }
    for n in 0..5000u64 {
        assert_eq!(fmt_size(n * 512), float_size(n * 512));
        assert_eq!(fmt_size(n * 52429), float_size(n * 52429));
    }
}

#[test]
fn clock_below_an_hour() {
    assert_eq!(fmt_clock(0), "00:00");
    assert_eq!(fmt_clock(5), "00:05");
    assert_eq!(fmt_clock(65), "01:05");
    assert_eq!(fmt_clock(3599), "59:59");
}

#[test]
fn clock_from_an_hour() {
    assert_eq!(fmt_clock(3600), "01:00:00");
    assert_eq!(fmt_clock(7209), "02:00:09");
    assert_eq!(fmt_clock(360000), "100:00:00");
}

#[test]
fn truncate_keeps_short_labels() {
    assert_eq!(truncate_str("photos", 10), "photos");
    assert_eq!(truncate_str("", 0), "");
    assert_eq!(truncate_str("abcdefghij", 10), "abcdefghij");
}

#[test]
fn truncate_shortens_long_labels() {
    assert_eq!(truncate_str("abcdefghijk", 10), "abcd\u{2026}hijk");
    let long = "/Volumes/SSD/videos/very/deep/folder/structure/clip_042.mp4";
    let t = truncate_str(long, 40);
    assert_eq!(t.chars().count(), 39);
    assert_eq!(t, "/Volumes/SSD/videos\u{2026}ucture/clip_042.mp4");
}

#[test]
fn truncate_counts_characters_not_bytes() {
    let s = "ééééééééééé";
    assert_eq!(truncate_str(s, 10), "éééé\u{2026}éééé");
}
