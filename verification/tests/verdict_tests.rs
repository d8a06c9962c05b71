use coderec::verdict::{detection_limits, has_prefix, range_verdict, DivergenceChecks};

fn checks() -> DivergenceChecks {
    DivergenceChecks {
        too_far_bg: false,
        too_far_tg: false,
        instant_bg: false,
        instant_tg: false,
        common_bg: false,
        common_tg: false,
        text_tg: false,
    }
}

fn s(x: &str) -> String {
    x.to_string()
}

#[test]
fn too_far_by_both_measures_gives_nothing() {
    let mut c = checks();
    c.too_far_bg = true;
    c.too_far_tg = true;
    c.instant_tg = true;
    assert_eq!(range_verdict(&c, &s("arm"), &s("x86")), None);
}

#[test]
fn too_far_by_one_measure_only_does_not_block() {
    let mut c = checks();
    c.too_far_bg = true;
    c.instant_tg = true;
    assert_eq!(range_verdict(&c, &s("arm"), &s("x86")), Some(s("x86")));
}

#[test]
fn trigrams_win_over_bigrams_when_both_stand_out() {
    let mut c = checks();
    c.instant_bg = true;
    c.instant_tg = true;
    assert_eq!(range_verdict(&c, &s("arm"), &s("x86")), Some(s("x86")));
    c.instant_tg = false;
    assert_eq!(range_verdict(&c, &s("arm"), &s("x86")), Some(s("arm")));
}

#[test]
fn agreement_is_needed_for_the_common_margin() {
    let mut c = checks();
    c.common_bg = true;
    c.common_tg = true;
    assert_eq!(range_verdict(&c, &s("arm"), &s("x86")), None);
    assert_eq!(range_verdict(&c, &s("arm"), &s("arm")), Some(s("arm")));
    c.common_tg = false;
    assert_eq!(range_verdict(&c, &s("arm"), &s("arm")), None);
}

#[test]
fn text_is_recognised_by_trigrams_only() {
    let mut c = checks();
    c.text_tg = true;
    assert_eq!(range_verdict(&c, &s("x86"), &s("_words_en")), Some(s("_words_en")));
    assert_eq!(range_verdict(&c, &s("_words_en"), &s("x86")), None);
    c.text_tg = false;
    assert_eq!(range_verdict(&c, &s("x86"), &s("_words_en")), None);
}

#[test]
fn nothing_stands_out() {
    assert_eq!(range_verdict(&checks(), &s("arm"), &s("arm")), None);
}

#[test]
fn prefix_checks() {
    assert!(has_prefix("_words_de", "_words"));
    assert!(has_prefix("_words", "_words"));
    assert!(!has_prefix("_word", "_words"));
    assert!(!has_prefix("x_words", "_words"));
    assert!(has_prefix("anything", ""));
    assert!(has_prefix("äöü", "äö"));
}

#[test]
fn limits_in_tenths() {
    let l = detection_limits(false, false);
    assert_eq!((l.max_abs_div, l.instant_std_dev, l.common_std_dev, l.text_std_dev), (50, 20, 10, 10));
    let l = detection_limits(false, true);
    assert_eq!((l.max_abs_div, l.instant_std_dev, l.common_std_dev, l.text_std_dev), (60, 20, 10, 10));
    let l = detection_limits(true, false);
    assert_eq!((l.max_abs_div, l.instant_std_dev, l.common_std_dev, l.text_std_dev), (40, 25, 15, 10));
    let l = detection_limits(true, true);
    assert_eq!((l.max_abs_div, l.instant_std_dev, l.common_std_dev, l.text_std_dev), (50, 25, 15, 10));
}

#[test]
fn verdict_is_one_of_the_candidates() {
    let archs = [s("arm"), s("x86"), s("_words_en")];
    for bits in 0u32..128 {
        let c = DivergenceChecks {
            too_far_bg: bits & 1 != 0,
            too_far_tg: bits & 2 != 0,
            instant_bg: bits & 4 != 0,
            instant_tg: bits & 8 != 0,
            common_bg: bits & 16 != 0,
            common_tg: bits & 32 != 0,
            text_tg: bits & 64 != 0,
        };
        for bg in &archs {
            for tg in &archs {
                if let Some(a) = range_verdict(&c, bg, tg) {
                    assert!(&a == bg || &a == tg);
                    if &a == bg && a != *tg {
                        assert!(c.instant_bg);
                    }
                }
            }
        }
    }
}
