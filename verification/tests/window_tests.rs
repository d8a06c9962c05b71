use coderec::window::{analysis_windows, floor_log2_usize, window_half_size, windows_of};

#[test]
fn window_half_size_by_file_size_class() {
    assert_eq!(window_half_size(0), 0x100);
    assert_eq!(window_half_size(0x1000), 0x100);
    assert_eq!(window_half_size(0x1001), 0x200);
    assert_eq!(window_half_size(0x8000), 0x200);
    assert_eq!(window_half_size(0x8001), 0x400);
    assert_eq!(window_half_size(0x20000), 0x400);
    assert_eq!(window_half_size(0x20001), 0x800);
    assert_eq!(window_half_size(0x100000), 0x800);
    assert_eq!(window_half_size(0x100001), 0x1000);
    assert_eq!(window_half_size(0x1000000), 0x1000);
}

#[test]
fn window_half_size_grows_logarithmically_beyond_16_mib() {
    // 16 MiB + 1: floor(log2) = 24, 16777217 / 4080 = 4112, rounded down to 4 KiB.
    assert_eq!(window_half_size(0x1000001), 0x1000);
    // 256 MiB: floor(log2) = 28, 268435456 / 4760 = 56393 = 0xdc49.
    assert_eq!(window_half_size(0x10000000), 0xd000);
    // 4 GiB: floor(log2) = 32, 4294967296 / 5440 = 789517.
    assert_eq!(window_half_size(0x1_0000_0000), 789517 & 0xFFFFF000);
}

#[test]
fn floor_log2_values() {
    assert_eq!(floor_log2_usize(0), 0);
    assert_eq!(floor_log2_usize(1), 0);
    assert_eq!(floor_log2_usize(2), 1);
    assert_eq!(floor_log2_usize(3), 1);
    assert_eq!(floor_log2_usize(0x1000001), 24);
    assert_eq!(floor_log2_usize(usize::MAX), usize::BITS - 1);
}

#[test]
fn windows_of_cover_the_file() {
    assert_eq!(windows_of(10, 4), vec![0..4, 4..8, 8..10]);
    assert_eq!(windows_of(8, 4), vec![0..4, 4..8]);
    assert_eq!(windows_of(0, 4), Vec::<std::ops::Range<usize>>::new());
    assert_eq!(windows_of(3, 4), vec![0..3]);
}

#[test]
fn analysis_windows_use_twice_the_half_size() {
    assert_eq!(analysis_windows(0x300), vec![0..0x200, 0x200..0x300]);
    assert_eq!(analysis_windows(0x200), vec![0..0x200]);
    let w = analysis_windows(0x9000);
    assert_eq!(w.len(), 18);
    let w = analysis_windows(0x9001);
    assert_eq!(w.len(), 19);
    assert_eq!(w[0], 0..0x800);
    assert_eq!(w[18], 0x9000..0x9001);
}

#[test]
fn windows_partition_the_file() {
    for len in [0usize, 1, 5, 511, 512, 513, 4096, 40000, 1 << 20] {
        let step = 2 * window_half_size(len);
        let w = windows_of(len, step);
        assert_eq!(w.is_empty(), len == 0);
        if let (Some(first), Some(last)) = (w.first(), w.last()) {
            assert_eq!(first.start, 0);
            assert_eq!(last.end, len);
        }
        for i in 0..w.len() {
            assert!(w[i].start < w[i].end);
            assert!(w[i].end - w[i].start <= step);
            if i + 1 < w.len() {
                assert_eq!(w[i].end, w[i + 1].start);
                assert_eq!(w[i].end - w[i].start, step);
            }
        }
    }
}

#[test]
fn windows_are_never_empty_below_a_terabyte() {
    for len in [0usize, 0x1000001, 0x2000000 - 1, 0x2000000, 1 << 30, (1 << 36) + 12345, (1 << 40) - 1] {
        let w = window_half_size(len);
        assert!(w > 0, "len {:#x}", len);
        assert!(w.checked_mul(2).is_some());
    }
}
