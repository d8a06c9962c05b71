use coderec::output::{
    attach_lengths, labelled_verdicts, merge_labelled_ranges, sort_by_start, CliJsonOutput,
};
use std::ops::Range;

fn v(start: usize, end: usize, arch: Option<&str>) -> (Range<usize>, Option<String>) {
    (start..end, arch.map(|a| a.to_string()))
}

fn l(start: usize, end: usize, arch: &str) -> (Range<usize>, String) {
    (start..end, arch.to_string())
}

fn r(start: usize, end: usize, arch: &str) -> (Range<usize>, usize, String) {
    (start..end, end - start, arch.to_string())
}

#[test]
fn adjacent_ranges_of_one_arch_are_merged() {
    let verdicts = vec![v(0, 10, Some("x86")), v(10, 20, Some("x86")), v(20, 30, Some("x86"))];
    let out = CliJsonOutput::from_verdicts("f.bin", &verdicts);
    assert_eq!(out.file, "f.bin");
    assert_eq!(out.range_results, vec![r(0, 30, "x86")]);
}

#[test]
fn unlabelled_ranges_are_dropped_and_split_runs() {
    let verdicts = vec![v(0, 10, Some("arm")), v(10, 20, None), v(20, 30, Some("arm"))];
    let out = CliJsonOutput::from_verdicts("f", &verdicts);
    assert_eq!(out.range_results, vec![r(0, 10, "arm"), r(20, 30, "arm")]);
}

#[test]
fn verdicts_are_ordered_by_start() {
    let verdicts = vec![v(20, 30, Some("mips")), v(0, 10, Some("arm")), v(10, 20, Some("arm"))];
    let out = CliJsonOutput::from_verdicts("f", &verdicts);
    assert_eq!(out.range_results, vec![r(0, 20, "arm"), r(20, 30, "mips")]);
}

#[test]
fn overlapping_range_of_another_arch_cuts_the_previous_one() {
    let verdicts = vec![v(0, 20, Some("arm")), v(15, 30, Some("x86"))];
    let out = CliJsonOutput::from_verdicts("f", &verdicts);
    assert_eq!(out.range_results, vec![r(0, 15, "arm"), r(15, 30, "x86")]);
}

#[test]
fn overlapping_range_of_the_same_arch_extends_the_previous_one() {
    let verdicts = vec![v(0, 20, Some("arm")), v(15, 30, Some("arm")), v(5, 8, Some("arm"))];
    let out = CliJsonOutput::from_verdicts("f", &verdicts);
    assert_eq!(out.range_results, vec![r(0, 30, "arm")]);
}

#[test]
fn nested_range_of_another_arch_leaves_the_rest_uncovered() {
    let verdicts = vec![v(0, 100, Some("arm")), v(40, 50, Some("x86"))];
    let out = CliJsonOutput::from_verdicts("f", &verdicts);
    assert_eq!(out.range_results, vec![r(0, 40, "arm"), r(40, 50, "x86")]);
}

#[test]
fn no_verdicts_give_an_empty_report() {
    let out = CliJsonOutput::from_verdicts("empty", &vec![]);
    assert!(out.range_results.is_empty());
    let out = CliJsonOutput::from_verdicts("unknown", &vec![v(0, 10, None)]);
    assert!(out.range_results.is_empty());
}

#[test]
fn labelled_verdicts_keep_order_and_drop_none() {
    let verdicts = vec![v(5, 6, None), v(3, 4, Some("a")), v(1, 2, Some("b"))];
    assert_eq!(labelled_verdicts(&verdicts), vec![l(3, 4, "a"), l(1, 2, "b")]);
}

#[test]
fn sort_by_start_orders_and_keeps_equal_starts_in_order() {
    let items = vec![l(7, 9, "c"), l(1, 2, "a"), l(7, 8, "b"), l(0, 1, "d")];
    assert_eq!(
        sort_by_start(items),
        vec![l(0, 1, "d"), l(1, 2, "a"), l(7, 9, "c"), l(7, 8, "b")]
    );
}

#[test]
fn merge_labelled_ranges_follows_the_steps() {
    let items = vec![l(0, 10, "a"), l(10, 20, "a"), l(15, 30, "b"), l(31, 40, "b")];
    assert_eq!(
        merge_labelled_ranges(&items),
        vec![l(0, 15, "a"), l(15, 30, "b"), l(31, 40, "b")]
    );
}

#[test]
fn attach_lengths_adds_end_minus_start() {
    assert_eq!(
        attach_lengths(vec![l(3, 10, "a"), l(10, 10, "b")]),
        vec![r(3, 10, "a"), r(10, 10, "b")]
    );
}

fn next(seed: &mut u64) -> u64 {
    *seed = seed.wrapping_mul(6364136223846793005).wrapping_add(1442695040888963407);
    *seed >> 33
}

#[test]
fn report_ranges_are_disjoint_ordered_and_labelled_as_in_the_input() {
    let archs = ["arm", "x86", "mips"];
    let mut seed = 7u64;
    for _ in 0..200 {
        let n = (next(&mut seed) % 12) as usize;
        let mut verdicts = Vec::new();
        for _ in 0..n {
            let start = (next(&mut seed) % 100) as usize;
            let len = (next(&mut seed) % 30) as usize;
            let pick = (next(&mut seed) % 4) as usize;
            let arch = if pick == 3 { None } else { Some(archs[pick]) };
            verdicts.push(v(start, start + len, arch));
        }
        let out = CliJsonOutput::from_verdicts("f", &verdicts);
        let res = &out.range_results;
        for i in 0..res.len() {
            assert!(res[i].0.start <= res[i].0.end);
            assert_eq!(res[i].1, res[i].0.end - res[i].0.start);
            for j in i + 1..res.len() {
                assert!(res[i].0.end <= res[j].0.start);
            }
            if i + 1 < res.len() && res[i].2 == res[i + 1].2 {
                assert!(res[i].0.end < res[i + 1].0.start);
            }
            for p in res[i].0.clone() {
                assert!(verdicts.iter().any(|(range, arch)| {
                    arch.as_deref() == Some(res[i].2.as_str()) && range.contains(&p)
                }));
            }
        }
    }
}

#[test]
fn consolidating_a_report_again_changes_nothing() {
    let archs = ["arm", "x86"];
    let mut seed = 11u64;
    for _ in 0..200 {
        let n = (next(&mut seed) % 10) as usize;
        let mut verdicts = Vec::new();
        for _ in 0..n {
            let start = (next(&mut seed) % 80) as usize;
            let len = (next(&mut seed) % 25) as usize;
            let arch = archs[(next(&mut seed) % 2) as usize];
            verdicts.push(v(start, start + len, Some(arch)));
        }
        let first = CliJsonOutput::from_verdicts("f", &verdicts);
        let again: Vec<(Range<usize>, Option<String>)> = first
            .range_results
            .iter()
            .map(|(range, _, arch)| (range.clone(), Some(arch.clone())))
            .collect();
        let second = CliJsonOutput::from_verdicts("f", &again);
        assert_eq!(first.range_results, second.range_results);
    }
}

#[test]
fn unlabelled_ranges_may_have_any_shape() {
    let verdicts = vec![v(5, 3, None), v(0, 4, Some("x"))];
    let out = CliJsonOutput::from_verdicts("f", &verdicts);
    assert_eq!(out.range_results, vec![r(0, 4, "x")]);
}

#[test]
fn disjoint_labelled_ranges_are_covered_completely() {
    let archs = ["arm", "x86", "mips"];
    let mut seed = 23u64;
    for _ in 0..200 {
        let n = (next(&mut seed) % 10) as usize;
        let mut verdicts = Vec::new();
        let mut pos = 0usize;
        for _ in 0..n {
            pos += (next(&mut seed) % 4) as usize;
            let len = 1 + (next(&mut seed) % 10) as usize;
            let pick = (next(&mut seed) % 4) as usize;
            let arch = if pick == 3 { None } else { Some(archs[pick]) };
            verdicts.push(v(pos, pos + len, arch));
            pos += len;
        }
        // Shuffle deterministically: the report does not depend on the input order.
        for i in (1..verdicts.len()).rev() {
            let j = (next(&mut seed) % (i as u64 + 1)) as usize;
            verdicts.swap(i, j);
        }
        let out = CliJsonOutput::from_verdicts("f", &verdicts);
        for (range, arch) in verdicts.iter() {
            if let Some(a) = arch {
                for p in range.clone() {
                    assert!(out
                        .range_results
                        .iter()
                        .any(|(rr, _, ra)| ra == a && rr.contains(&p)));
                }
            }
        }
    }
}
