use coderec::detection::{arch_to_final_ranges, number_arches, DetectionResult, KlRes, RangeFullKlRes};
use coderec::names::name_less;
use std::ops::Range;

fn k(arch: &str, div: f64) -> KlRes<f64> {
    KlRes { arch: arch.to_string(), div }
}

fn find<'a, K: PartialEq, V>(groups: &'a [(K, Vec<V>)], key: &K) -> &'a Vec<V> {
    &groups.iter().find(|(g, _)| g == key).unwrap().1
}

fn windows() -> Vec<(Range<usize>, RangeFullKlRes<f64>)> {
    vec![
        (
            0..10,
            RangeFullKlRes { kl_bg: vec![k("arm", 1.0), k("x86", 2.0)], kl_tg: vec![k("x86", 3.0), k("arm", 4.0)] },
        ),
        (
            10..20,
            RangeFullKlRes {
                kl_bg: vec![k("x86", 5.0), k("arm", 6.0), k("mips", 9.0)],
                kl_tg: vec![k("arm", 7.0), k("x86", 8.0)],
            },
        ),
    ]
}

#[test]
fn results_are_regrouped_by_architecture() {
    let res = DetectionResult::from_windows(&windows());
    assert_eq!(res.kl_bg_arch_to_range.len(), 2);
    assert_eq!(find(&res.kl_bg_arch_to_range, &"arm".to_string()), &vec![(0..10, 1.0), (10..20, 6.0)]);
    assert_eq!(find(&res.kl_bg_arch_to_range, &"x86".to_string()), &vec![(0..10, 2.0), (10..20, 5.0)]);
    assert_eq!(find(&res.kl_tg_arch_to_range, &"x86".to_string()), &vec![(0..10, 3.0), (10..20, 8.0)]);
    assert_eq!(find(&res.kl_tg_arch_to_range, &"arm".to_string()), &vec![(0..10, 4.0), (10..20, 7.0)]);
}

#[test]
fn results_are_regrouped_by_range() {
    let res = DetectionResult::from_windows(&windows());
    assert_eq!(res.kl_bg_range_to_arch.len(), 2);
    assert_eq!(
        find(&res.kl_bg_range_to_arch, &(10..20)),
        &vec![("x86".to_string(), 5.0), ("arm".to_string(), 6.0)]
    );
    assert_eq!(
        find(&res.kl_tg_range_to_arch, &(0..10)),
        &vec![("x86".to_string(), 3.0), ("arm".to_string(), 4.0)]
    );
}

#[test]
fn bigram_and_trigram_ranges_agree() {
    let res = DetectionResult::from_windows(&windows());
    assert_eq!(res.kl_bg_range_to_arch.len(), res.kl_tg_range_to_arch.len());
    for (range, bg) in &res.kl_bg_range_to_arch {
        assert_eq!(find(&res.kl_tg_range_to_arch, range).len(), bg.len());
    }
}

#[test]
fn no_windows_give_no_groups() {
    let res = DetectionResult::<f64>::from_windows(&vec![]);
    assert!(res.kl_bg_arch_to_range.is_empty());
    assert!(res.kl_tg_range_to_arch.is_empty());
}

#[test]
fn final_ranges_are_grouped_by_architecture() {
    let verdicts: Vec<(Range<usize>, Option<String>)> = vec![
        (0..10, Some("arm".to_string())),
        (10..20, None),
        (20..30, Some("x86".to_string())),
        (30..40, Some("arm".to_string())),
    ];
    let groups = arch_to_final_ranges(&verdicts);
    assert_eq!(groups.len(), 2);
    assert_eq!(find(&groups, &"arm".to_string()), &vec![0..10, 30..40]);
    assert_eq!(find(&groups, &"x86".to_string()), &vec![20..30]);
}

#[test]
fn architecture_groups_are_in_name_order() {
    let windows = vec![(
        0..10,
        RangeFullKlRes {
            kl_bg: vec![k("x86", 1.0), k("arm", 2.0), k("mips", 3.0), k("ARM", 4.0)],
            kl_tg: vec![k("mips", 1.0), k("x86", 2.0), k("arm", 3.0), k("ARM", 4.0)],
        },
    )];
    let res = DetectionResult::from_windows(&windows);
    let names: Vec<&str> = res.kl_bg_arch_to_range.iter().map(|(a, _)| a.as_str()).collect();
    assert_eq!(names, vec!["ARM", "arm", "mips", "x86"]);
    let names: Vec<&str> = res.kl_tg_arch_to_range.iter().map(|(a, _)| a.as_str()).collect();
    assert_eq!(names, vec!["ARM", "arm", "mips", "x86"]);
    let numbers = number_arches(&res.kl_bg_arch_to_range);
    assert_eq!(
        numbers,
        vec![("ARM".to_string(), 0), ("arm".to_string(), 1), ("mips".to_string(), 2), ("x86".to_string(), 3)]
    );
}

#[test]
fn final_range_groups_are_in_name_order() {
    let verdicts: Vec<(Range<usize>, Option<String>)> = vec![
        (0..10, Some("x86".to_string())),
        (10..20, Some("arm".to_string())),
        (20..30, Some("x86".to_string())),
    ];
    let groups = arch_to_final_ranges(&verdicts);
    assert_eq!(groups, vec![("arm".to_string(), vec![10..20]), ("x86".to_string(), vec![0..10, 20..30])]);
}

#[test]
fn names_order_like_strings() {
    let names = ["", "a", "ab", "b", "B", "é", "ä", "x86", "x86_64", "_words"];
    for a in names {
        for b in names {
            assert_eq!(name_less(&a.to_string(), &b.to_string()), a < b, "{:?} {:?}", a, b);
        }
    }
}

#[test]
fn groupings_by_range_and_by_architecture_are_transposes() {
    let res = DetectionResult::from_windows(&windows());
    for (range, by_name) in &res.kl_bg_range_to_arch {
        for (arch, by_range) in &res.kl_bg_arch_to_range {
            let a: Vec<f64> = by_name.iter().filter(|(n, _)| n == arch).map(|(_, d)| *d).collect();
            let b: Vec<f64> = by_range.iter().filter(|(r, _)| r == range).map(|(_, d)| *d).collect();
            assert_eq!(a, b);
        }
    }
    for (range, by_name) in &res.kl_tg_range_to_arch {
        for (arch, by_range) in &res.kl_tg_arch_to_range {
            let a: Vec<f64> = by_name.iter().filter(|(n, _)| n == arch).map(|(_, d)| *d).collect();
            let b: Vec<f64> = by_range.iter().filter(|(r, _)| r == range).map(|(_, d)| *d).collect();
            assert_eq!(a, b);
        }
    }
}
