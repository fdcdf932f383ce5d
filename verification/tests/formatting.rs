use process_manager::process_info::format_bytes;
use process_manager::process_info::format_start_time;
use process_manager::process_info::status_to_string;
use process_manager::process_info::text_or_unavailable;
use process_manager::process_info::ProcessStatus;
use process_manager::text::decimal_string;

/// The size formatting as written with floating point.
fn float_format_bytes(bytes: u64) -> String {
    if bytes < 1024 {
        format!("{bytes} B")
    } else if bytes < 1024 * 1024 {
        format!("{:.1} KB", bytes as f64 / 1024.0)
    } else if bytes < 1024 * 1024 * 1024 {
        format!("{:.1} MB", bytes as f64 / (1024.0 * 1024.0))
    } else {
        format!("{:.2} GB", bytes as f64 / (1024.0 * 1024.0 * 1024.0))
    }
}

#[test]
fn format_bytes_whole_bytes() {
    assert_eq!(format_bytes(0), "0 B");
    assert_eq!(format_bytes(1), "1 B");
    assert_eq!(format_bytes(1023), "1023 B");
}

#[test]
fn format_bytes_kilobytes() {
    assert_eq!(format_bytes(1024), "1.0 KB");
    assert_eq!(format_bytes(1536), "1.5 KB");
    assert_eq!(format_bytes(1331), "1.3 KB");
    // 1280 bytes are exactly 1.25 KB: the tie goes to the even digit
    assert_eq!(format_bytes(1280), "1.2 KB");
    assert_eq!(format_bytes(1024 * 1024 - 1), "1024.0 KB");
}

#[test]
fn format_bytes_megabytes_and_gigabytes() {
    assert_eq!(format_bytes(1024 * 1024), "1.0 MB");
    assert_eq!(format_bytes(408_836_505), "389.9 MB");
    assert_eq!(format_bytes(1024 * 1024 * 1024), "1.00 GB");
    assert_eq!(format_bytes(3 * 1024 * 1024 * 1024 / 2), "1.50 GB");
    assert_eq!(format_bytes(u64::MAX), "17179869184.00 GB");
    assert_eq!(format_bytes((1u64 << 53) + 1), "8388608.00 GB");
}

#[test]
fn format_bytes_agrees_with_floating_point() {
    let mut samples: Vec<u64> = Vec::new();
    for b in 0..5000u64 {
        samples.push(b);
        samples.push(b * 1024 + 512);
        samples.push(b * 131_072);
        samples.push(b * 104_857_600 + 52_428_800);
        samples.push(b * 10_737_418_240 + 5_368_709_120);
    }
    let mut x: u64 = 0x9E37_79B9_7F4A_7C15;
    for _ in 0..20000 {
        x ^= x << 13;
        x ^= x >> 7;
        x ^= x << 17;
        samples.push(x);
        samples.push(x >> 20);
        samples.push(x >> 40);
    }
    for b in samples {
        assert_eq!(format_bytes(b), float_format_bytes(b), "bytes = {b}");
    }
}

#[test]
fn format_start_time_dates() {
    assert_eq!(format_start_time(0), "1970-01-01 00:00:00");
    assert_eq!(format_start_time(1_431_648_000), "2015-05-15 00:00:00");
    assert_eq!(format_start_time(1_725_029_869), "2024-08-30 14:57:49");
}

#[test]
fn format_start_time_wraps_and_limits() {
    // the bits of u64::MAX read as a signed number are -1
    assert_eq!(format_start_time(u64::MAX), "1969-12-31 23:59:59");
    assert_eq!(format_start_time(8_210_266_876_799), "+262142-12-31 23:59:59");
    assert_eq!(format_start_time(8_210_266_876_800), "N/A");
    assert_eq!(format_start_time(1u64 << 63), "N/A");
    // the earliest second chrono can represent, and the one before it
    assert_eq!(format_start_time(0xffff_f86b_730d_ee00), "-262143-01-01 00:00:00");
    assert_eq!(format_start_time(0xffff_f86b_730d_edff), "N/A");
}

#[test]
fn text_or_unavailable_fills_in() {
    assert_eq!(text_or_unavailable(None), "N/A");
    assert_eq!(text_or_unavailable(Some("2020-01-01 00:00:00".to_string())), "2020-01-01 00:00:00");
}

#[test]
fn status_names() {
    let cases = [
        (ProcessStatus::Run, "running"),
        (ProcessStatus::Sleep, "sleeping"),
        (ProcessStatus::Idle, "idle"),
        (ProcessStatus::Stop, "stopped"),
        (ProcessStatus::Zombie, "zombie"),
        (ProcessStatus::Tracing, "tracing"),
        (ProcessStatus::Dead, "dead"),
        (ProcessStatus::Wakekill, "wake_kill"),
        (ProcessStatus::Waking, "waking"),
        (ProcessStatus::Parked, "parked"),
        (ProcessStatus::LockBlocked, "lock_blocked"),
        (ProcessStatus::UninterruptibleDiskSleep, "disk_sleep"),
        (ProcessStatus::Unknown(7), "unknown"),
    ];
    for (status, text) in cases {
        assert_eq!(status_to_string(status), text);
    }
}

#[test]
fn decimal_notation() {
    assert_eq!(decimal_string(0), "0");
    assert_eq!(decimal_string(42), "42");
    assert_eq!(decimal_string(u64::MAX), "18446744073709551615");
}
