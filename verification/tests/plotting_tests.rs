use coderec::plotting::{
    arch_idx_to_color, base_name, decimal_key_points, decimal_magnitude, hex_key_points,
    key_points, si_scale, window_label_shown, SiScale,
};

#[test]
fn key_points_step_through_the_axis() {
    assert_eq!(key_points(10, 4), vec![0, 4, 8]);
    assert_eq!(key_points(8, 4), vec![0, 4, 8]);
    assert_eq!(key_points(0, 4), vec![0]);
    assert_eq!(key_points(3, 1), vec![0, 1, 2, 3]);
}

#[test]
fn hex_key_points_use_powers_of_two() {
    assert_eq!(hex_key_points(0, 50), vec![0]);
    assert_eq!(hex_key_points(100, 0), vec![0]);
    assert_eq!(hex_key_points(10, 50), (0..=10).collect::<Vec<_>>());
    let p = hex_key_points(1000, 50);
    assert_eq!(p, (0..=1000).step_by(32).collect::<Vec<_>>());
    let p = hex_key_points(0x10000, 50);
    assert_eq!(p, (0..=0x10000).step_by(0x800).collect::<Vec<_>>());
    let p = hex_key_points(64 * 50, 50);
    assert_eq!(p, (0..=64 * 50).step_by(64).collect::<Vec<_>>());
}

#[test]
fn decimal_key_points_use_one_two_five() {
    assert_eq!(decimal_key_points(10, 50), (0..=10).collect::<Vec<_>>());
    assert_eq!(decimal_key_points(1000, 50), (0..=1000).step_by(20).collect::<Vec<_>>());
    assert_eq!(decimal_key_points(3500, 10), (0..=3500).step_by(500).collect::<Vec<_>>());
    assert_eq!(decimal_key_points(1500, 10), (0..=1500).step_by(200).collect::<Vec<_>>());
    assert_eq!(decimal_key_points(7000, 10), (0..=7000).step_by(1000).collect::<Vec<_>>());
    assert_eq!(decimal_key_points(1000, 10), (0..=1000).step_by(100).collect::<Vec<_>>());
}

#[test]
fn decimal_magnitudes() {
    assert_eq!(decimal_magnitude(0), 1);
    assert_eq!(decimal_magnitude(9), 1);
    assert_eq!(decimal_magnitude(10), 10);
    assert_eq!(decimal_magnitude(999), 100);
    assert_eq!(decimal_magnitude(1000), 1000);
    assert_eq!(decimal_magnitude(usize::MAX), 10usize.pow(usize::MAX.ilog10()));
}

#[test]
fn si_scales() {
    assert_eq!(si_scale(0), SiScale::Plain);
    assert_eq!(si_scale(999), SiScale::Plain);
    assert_eq!(si_scale(1000), SiScale::Whole { whole: 1, prefix: 'k' });
    assert_eq!(si_scale(1500), SiScale::Fraction { threshold: 1000, prefix: 'k' });
    assert_eq!(si_scale(2_000_000), SiScale::Whole { whole: 2, prefix: 'M' });
    assert_eq!(si_scale(1_234_567_890), SiScale::Fraction { threshold: 1_000_000_000, prefix: 'G' });
    assert_eq!(si_scale(5_000_000_000_000), SiScale::Whole { whole: 5, prefix: 'T' });
    assert_eq!(si_scale(u64::MAX), SiScale::Fraction { threshold: 1_000_000_000_000, prefix: 'T' });
}

#[test]
fn colours_follow_wrapping_products() {
    for idx in [0usize, 1, 3, 100, 255, 256, 12345, usize::MAX] {
        let (r, g, b) = arch_idx_to_color(idx);
        assert_eq!(r, idx.wrapping_mul(1337) as u8);
        assert_eq!(g, idx.wrapping_mul(9976) as u8);
        assert_eq!(b, idx.wrapping_mul(13) as u8);
    }
    assert_eq!(arch_idx_to_color(3), (171, 232, 39));
}

#[test]
fn every_fourth_window_is_labelled() {
    assert!(window_label_shown(0, 1024));
    assert!(window_label_shown(4096, 1024));
    assert!(!window_label_shown(4097, 1024));
    assert!(window_label_shown(3073, 1024));
    assert!(!window_label_shown(3072, 1024));
    for offset in 0..5000usize {
        let expected = (offset.next_multiple_of(512) / 512) % 4 == 0;
        assert_eq!(window_label_shown(offset, 512), expected);
    }
}

#[test]
fn base_names() {
    for path in ["a/b/c.bin", "c.bin", "dir/", "/", "", "/abs/x", "ü/ö"] {
        assert_eq!(base_name(path), path.split('/').last().unwrap());
    }
    assert_eq!(base_name("a/b/c.bin"), "c.bin");
}
