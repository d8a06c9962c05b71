//! The heuristic that decides which architecture, if any, a range is assigned.
use vstd::prelude::*;

verus! {

/// Thresholds of the heuristic for one kind of n-gram, in tenths.
pub struct DetectionLimits {
    /// Largest divergence of the closest architecture that can still be accepted.
    pub max_abs_div: u32,
    /// Standard deviations below the mean that assign the architecture at once.
    pub instant_std_dev: u32,
    /// Standard deviations below the mean at which bi- and trigrams may agree.
    pub common_std_dev: u32,
    /// Standard deviations below the mean that make trigrams recognise text.
    pub text_std_dev: u32,
}

/// The thresholds, in tenths, for an architecture that is (`strict`) or is not held to
/// the stricter limits, for trigrams (`trigrams`) or bigrams.
pub open spec fn detection_limits_spec(strict: bool, trigrams: bool) -> (u32, u32, u32, u32) {
    if strict {
        if trigrams {
            (50, 25, 15, 10)
        } else {
            (40, 25, 15, 10)
        }
    } else {
        if trigrams {
            (60, 20, 10, 10)
        } else {
            (50, 20, 10, 10)
        }
    }
}

/// The thresholds of the heuristic, in tenths.
pub fn detection_limits(strict: bool, trigrams: bool) -> (l: DetectionLimits)
    ensures
        (l.max_abs_div, l.instant_std_dev, l.common_std_dev, l.text_std_dev)
            == detection_limits_spec(strict, trigrams),
{
    if strict {
        if trigrams {
            DetectionLimits { max_abs_div: 50, instant_std_dev: 25, common_std_dev: 15, text_std_dev: 10 }
        } else {
            DetectionLimits { max_abs_div: 40, instant_std_dev: 25, common_std_dev: 15, text_std_dev: 10 }
        }
    } else {
        if trigrams {
            DetectionLimits { max_abs_div: 60, instant_std_dev: 20, common_std_dev: 10, text_std_dev: 10 }
        } else {
            DetectionLimits { max_abs_div: 50, instant_std_dev: 20, common_std_dev: 10, text_std_dev: 10 }
        }
    }
}

/// How the closest architecture of a range compares with the thresholds, for bigrams
/// (`_bg`) and trigrams (`_tg`): its divergence is above the absolute limit
/// (`too_far`), below the mean by the instant margin (`instant`), below the mean by
/// the common margin (`common`), or, for trigrams, below the mean by the text margin
/// (`text_tg`).
pub struct DivergenceChecks {
    pub too_far_bg: bool,
    pub too_far_tg: bool,
    pub instant_bg: bool,
    pub instant_tg: bool,
    pub common_bg: bool,
    pub common_tg: bool,
    pub text_tg: bool,
}

/// Name prefix of the corpus entries that stand for text.
pub open spec fn text_prefix() -> Seq<char> {
    "_words"@
}

/// The architecture assigned to a range, given the checks and the closest architecture
/// by bigrams (`bg`) and by trigrams (`tg`).
pub open spec fn range_verdict_spec(c: DivergenceChecks, bg: Seq<char>, tg: Seq<char>) -> Option<
    Seq<char>,
> {
    if c.too_far_bg && c.too_far_tg {
        None
    } else if c.instant_tg {
        Some(tg)
    } else if c.instant_bg {
        Some(bg)
    } else if c.common_bg && c.common_tg && tg == bg {
        Some(tg)
    } else if c.text_tg && text_prefix().is_prefix_of(tg) {
        Some(tg)
    } else {
        None
    }
}

/// Whether `s` starts with `prefix`.
pub fn has_prefix(s: &str, prefix: &str) -> (b: bool)
    ensures
        b == prefix@.is_prefix_of(s@),
{
    let n = s.unicode_len();
    let m = prefix.unicode_len();
    if m > n {
        return false;
    }
    let mut i: usize = 0;
    while i < m
        invariant
            m == prefix@.len(),
            n == s@.len(),
            m <= n,
            i <= m,
            forall|j: int| 0 <= j < i ==> #[trigger] prefix@[j] == s@[j],
        decreases m - i,
    {
        if prefix.get_char(i) != s.get_char(i) {
            assert(prefix@[i as int] != s@.subrange(0, m as int)[i as int]);
            return false;
        }
        i = i + 1;
    }
    assert(prefix@ =~= s@.subrange(0, m as int));
    true
}

/// Main heuristic that decides which architecture is assigned to a range: none when the
/// closest architecture is too far away by both measures; the trigram, then the bigram
/// architecture when it clearly stands out; the common architecture when both measures
/// agree and stand out; the trigram architecture when it stands for text and stands out
/// somewhat; otherwise none.
pub fn range_verdict(checks: &DivergenceChecks, arch_bg: &String, arch_tg: &String) -> (res: Option<
    String,
>)
    ensures
        res matches Some(a) ==> range_verdict_spec(*checks, arch_bg@, arch_tg@) == Some(a@),
        res is None ==> range_verdict_spec(*checks, arch_bg@, arch_tg@) is None,
        checks.too_far_bg && checks.too_far_tg ==> res is None,
        !(checks.too_far_bg && checks.too_far_tg) && checks.instant_tg ==> res is Some
            && res->0@ == arch_tg@,
        !(checks.too_far_bg && checks.too_far_tg) && !checks.instant_tg && checks.instant_bg
            ==> res is Some && res->0@ == arch_bg@,
        !(checks.too_far_bg && checks.too_far_tg) && checks.common_bg && checks.common_tg
            && arch_bg@ == arch_tg@ ==> res is Some && (res->0@ == arch_tg@ || res->0@
            == arch_bg@),
        !(checks.too_far_bg && checks.too_far_tg) && checks.text_tg && text_prefix().is_prefix_of(
            arch_tg@,
        ) ==> res is Some,
        res is Some && !checks.instant_tg && !checks.instant_bg ==> res->0@ == arch_tg@ && (
        (checks.common_bg && checks.common_tg && arch_bg@ == arch_tg@) || (checks.text_tg
            && text_prefix().is_prefix_of(arch_tg@))),
        res is Some && !checks.instant_tg && !checks.instant_bg && !text_prefix().is_prefix_of(
            arch_tg@,
        ) ==> checks.common_bg && checks.common_tg && arch_bg@ == arch_tg@,
{
    if checks.too_far_bg && checks.too_far_tg {
        None
    } else if checks.instant_tg {
        Some(arch_tg.clone())
    } else if checks.instant_bg {
        Some(arch_bg.clone())
    } else if checks.common_bg && checks.common_tg && *arch_tg == *arch_bg {
        Some(arch_tg.clone())
    } else if checks.text_tg && has_prefix(arch_tg.as_str(), "_words") {
        Some(arch_tg.clone())
    } else {
        None
    }
}

/// The architecture assigned to a range is always one of the two closest architectures.
pub proof fn lemma_verdict_is_a_candidate(c: DivergenceChecks, bg: Seq<char>, tg: Seq<char>)
    ensures
        range_verdict_spec(c, bg, tg) matches Some(a) ==> a == bg || a == tg,
        range_verdict_spec(c, bg, tg) matches Some(a) && a == bg && a != tg ==> c.instant_bg,
{
}

} // verus!
