use lele_download::sizes::{check_disk_space, format_bytes_simple, required_space_for};

/// The byte-count rendering as floating point arithmetic writes it.
fn float_rendering(bytes: u64) -> String {
    const KB: u64 = 1024;
    const MB: u64 = KB * 1024;
    const GB: u64 = MB * 1024;
    if bytes >= GB {
        format!("{:.2} GB", bytes as f64 / GB as f64)
    } else if bytes >= MB {
        format!("{:.2} MB", bytes as f64 / MB as f64)
    } else if bytes >= KB {
        format!("{:.2} KB", bytes as f64 / KB as f64)
    } else {
        format!("{} B", bytes)
    }
}

fn float_required(estimated: u64) -> u64 {
    std::cmp::max(estimated + 1024 * 1024 * 100, (estimated as f64 * 1.1) as u64)
}

/// A deterministic spread of 64-bit values.
fn samples() -> Vec<u64> {
    let mut v: Vec<u64> = Vec::new();
    let mut x: u64 = 0x9E3779B97F4A7C15;
    for _ in 0..20000 {
        x = x.wrapping_mul(6364136223846793005).wrapping_add(1442695040888963407);
        v.push(x >> (x % 64));
    }
    for k in 0..64u32 {
        let p = 1u64 << k;
        for d in 0..4u64 {
            v.push(p.wrapping_add(d));
            v.push(p.wrapping_sub(d));
        }
    }
    for e in 1..=2000u64 {
        v.push(e * 512);
        v.push(e * 1024 * 1024 / 200 * 3);
    }
    v.push(u64::MAX);
    v.push(u64::MAX - 1);
    v.push((1u64 << 53) + 1);
    v.push((1u64 << 54) + 2);
    v
}

#[test]
fn test_format_bytes_simple() {
    assert_eq!(format_bytes_simple(0), "0 B");
    assert_eq!(format_bytes_simple(1024), "1.00 KB");
    assert_eq!(format_bytes_simple(1024 * 1024), "1.00 MB");
    assert_eq!(format_bytes_simple(1536), "1.50 KB");
}

#[test]
fn format_bytes_units_and_rounding() {
    assert_eq!(format_bytes_simple(1023), "1023 B");
    assert_eq!(format_bytes_simple(1073741824), "1.00 GB");
    assert_eq!(format_bytes_simple(5 * 1073741824 + 536870912), "5.50 GB");
    // 1029 / 1024 = 1.0048828125 rounds down; 1030 / 1024 = 1.005859375 rounds up
    assert_eq!(format_bytes_simple(1029), "1.00 KB");
    assert_eq!(format_bytes_simple(1030), "1.01 KB");
    assert_eq!(format_bytes_simple(u64::MAX), "17179869184.00 GB");
}

#[test]
fn format_bytes_agrees_with_float_rendering() {
    for b in 0..70000u64 {
        assert_eq!(format_bytes_simple(b), float_rendering(b), "bytes={}", b);
    }
    for b in samples() {
        assert_eq!(format_bytes_simple(b), float_rendering(b), "bytes={}", b);
    }
}

#[test]
fn required_space_agrees_with_float_arithmetic() {
    for e in samples() {
        if e <= u64::MAX - 104857600 {
            assert_eq!(required_space_for(e), float_required(e), "estimated={}", e);
        }
    }
    for e in 0..5000u64 {
        let e = e * 1000003;
        assert_eq!(required_space_for(e), float_required(e), "estimated={}", e);
    }
}

#[test]
fn disk_space_check_refuses_with_message() {
    let est = 100 * 1024 * 1024;
    assert_eq!(required_space_for(est), 200 * 1024 * 1024);
    assert_eq!(check_disk_space(200 * 1024 * 1024, est), Ok(()));
    assert_eq!(
        check_disk_space(200 * 1024 * 1024 - 1, est),
        Err("Disk space insufficient: available 200.00 MB / required 200.00 MB".to_string())
    );
    // above about 1 GiB the 10% margin dominates
    let est = 10 * 1024 * 1024 * 1024u64;
    assert_eq!(required_space_for(est), (est as f64 * 1.1) as u64);
    assert!(check_disk_space(est + 104857600, est).is_err());
}
