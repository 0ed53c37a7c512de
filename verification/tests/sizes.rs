use zagorakys::size::format_size;

fn with_floats(bytes: usize) -> String {
    if bytes < 1024 {
        format!("{bytes} B")
    } else if bytes < 1024 * 1024 {
        format!("{:.1} KB", bytes as f64 / 1024.0)
    } else if bytes < 1024 * 1024 * 1024 {
        format!("{:.1} MB", bytes as f64 / 1024.0 / 1024.0)
    } else {
        format!("{:.1} GB", bytes as f64 / 1024.0 / 1024.0 / 1024.0)
    }
}

#[test]
fn sizes_are_rounded_to_tenths() {
    assert_eq!(format_size(1023), "1023 B");
    assert_eq!(format_size(1024), "1.0 KB");
    assert_eq!(format_size(1536), "1.5 KB");
    assert_eq!(format_size(1024 * 1024 - 1), "1024.0 KB");
    // Ties go to the even digit.
    assert_eq!(format_size(1280), "1.2 KB");
    assert_eq!(format_size(1792), "1.8 KB");
    assert_eq!(format_size(usize::MAX), "17179869184.0 GB");
}

#[test]
fn sizes_read_like_floats() {
    for n in 0..200_000usize {
        assert_eq!(format_size(n), with_floats(n), "{n}");
    }
    let mut n: usize = 1;
    while n < usize::MAX / 3 {
        for d in [0, 1, 2, 3, 511, 512, 1023] {
            let m = n.saturating_add(d);
            assert_eq!(format_size(m), with_floats(m), "{m}");
            let m = n.saturating_sub(d);
            assert_eq!(format_size(m), with_floats(m), "{m}");
        }
        n = n + n / 4 + 1;
    }
    for k in 50..64 {
        for d in 0..5000usize {
            let m = (1usize << k) + d;
            assert_eq!(format_size(m), with_floats(m), "{m}");
            let m = (1usize << k) - d;
            assert_eq!(format_size(m), with_floats(m), "{m}");
        }
    }
}
