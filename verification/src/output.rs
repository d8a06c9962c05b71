//! Consolidation of per-window verdicts into the list of labelled byte ranges
//! that is reported for each analysed file.
use std::ops::Range;
use vstd::prelude::*;

verus! {

broadcast use vstd::multiset::group_multiset_axioms;

/// The half-open range `start..end`.
pub open spec fn span(start: usize, end: usize) -> Range<usize> {
    Range { start: start, end: end }
}

/// The labelled entries of a verdict list, in order, with the unlabelled ones dropped.
pub open spec fn labelled_ranges(entries: Seq<(Range<usize>, Option<String>)>) -> Seq<
    (Range<usize>, String),
>
    decreases entries.len(),
{
    if entries.len() == 0 {
        Seq::empty()
    } else {
        let rest = labelled_ranges(entries.drop_last());
        match entries.last().1 {
            Some(arch) => rest.push((entries.last().0, arch)),
            None => rest,
        }
    }
}

/// Every range of the list has `start <= end`.
pub open spec fn ranges_well_formed(s: Seq<(Range<usize>, String)>) -> bool {
    forall|i: int| 0 <= i < s.len() ==> #[trigger] s[i].0.start <= s[i].0.end
}

/// The list is ordered by the start of its ranges.
pub open spec fn sorted_by_start(s: Seq<(Range<usize>, String)>) -> bool {
    forall|i: int, j: int| 0 <= i <= j < s.len() ==> #[trigger] s[i].0.start <= #[trigger] s[j].0.start
}

/// One step of the consolidation: `r` is merged into the last range when both carry
/// the same architecture and touch or overlap; otherwise the last range is cut back
/// to where `r` starts (if it reaches further) and `r` is appended.
pub open spec fn merge_step(acc: Seq<(Range<usize>, String)>, r: (Range<usize>, String)) -> Seq<
    (Range<usize>, String),
> {
    if acc.len() == 0 {
        seq![r]
    } else {
        let last = acc.last();
        if last.1@ == r.1@ && r.0.start <= last.0.end {
            let end = if last.0.end >= r.0.end {
                last.0.end
            } else {
                r.0.end
            };
            acc.update(acc.len() - 1, (span(last.0.start, end), last.1))
        } else if r.0.start < last.0.end {
            acc.update(acc.len() - 1, (span(last.0.start, r.0.start), last.1)).push(r)
        } else {
            acc.push(r)
        }
    }
}

/// The consolidation of a list of labelled ranges, applied from left to right.
pub open spec fn merge_ranges(s: Seq<(Range<usize>, String)>) -> Seq<(Range<usize>, String)>
    decreases s.len(),
{
    if s.len() == 0 {
        Seq::empty()
    } else {
        merge_step(merge_ranges(s.drop_last()), s.last())
    }
}

/// Each range together with its length.
pub open spec fn with_lengths(s: Seq<(Range<usize>, String)>) -> Seq<(Range<usize>, usize, String)> {
    s.map_values(|e: (Range<usize>, String)| (e.0, (e.0.end - e.0.start) as usize, e.1))
}

/// Position `p` lies in a range of `s` that carries the architecture `arch`.
pub open spec fn labelled_at(s: Seq<(Range<usize>, String)>, p: int, arch: Seq<char>) -> bool {
    exists|j: int|
        0 <= j < s.len() && #[trigger] s[j].1@ == arch && s[j].0.start <= p < s[j].0.end
}

/// Position `p` lies in a verdict range that carries the architecture `arch`.
pub open spec fn entry_labelled_at(
    entries: Seq<(Range<usize>, Option<String>)>,
    p: int,
    arch: Seq<char>,
) -> bool {
    exists|j: int|
        0 <= j < entries.len() && #[trigger] entries[j].1 is Some && entries[j].1->0@ == arch
            && entries[j].0.start <= p < entries[j].0.end
}

/// Ranges of `m` are pairwise disjoint and in increasing order.
pub open spec fn disjoint_in_order(m: Seq<(Range<usize>, String)>) -> bool {
    forall|i: int, j: int| 0 <= i < j < m.len() ==> #[trigger] m[i].0.end <= #[trigger] m[j].0.start
}

/// Neighbours of `m` that carry the same architecture do not even touch.
pub open spec fn same_arch_apart(m: Seq<(Range<usize>, String)>) -> bool {
    forall|i: int|
        0 <= i < m.len() - 1 && #[trigger] m[i].1@ == m[i + 1].1@ ==> m[i].0.end < m[i + 1].0.start
}

/// Every position of every range of `m` is labelled with the same architecture in `s`.
pub open spec fn covered_by(m: Seq<(Range<usize>, String)>, s: Seq<(Range<usize>, String)>) -> bool {
    forall|i: int, p: int|
        0 <= i < m.len() && m[i].0.start <= p < m[i].0.end ==> #[trigger] labelled_at(
            s,
            p,
            m[i].1@,
        )
}

proof fn lemma_labelled_at_prefix(s: Seq<(Range<usize>, String)>, p: int, arch: Seq<char>)
    requires
        s.len() > 0,
        labelled_at(s.drop_last(), p, arch),
    ensures
        labelled_at(s, p, arch),
{
    let j = choose|j: int|
        0 <= j < s.drop_last().len() && #[trigger] s.drop_last()[j].1@ == arch
            && s.drop_last()[j].0.start <= p < s.drop_last()[j].0.end;
    assert(s[j] == s.drop_last()[j]);
}

/// Consolidating a list that is ordered by start and holds well-formed ranges yields
/// well-formed ranges that are pairwise disjoint and ordered, where neighbours with the
/// same architecture are kept apart, and where every position is labelled as in the input.
pub proof fn lemma_merge_ranges_laws(s: Seq<(Range<usize>, String)>)
    requires
        sorted_by_start(s),
        ranges_well_formed(s),
    ensures
        ranges_well_formed(merge_ranges(s)),
        disjoint_in_order(merge_ranges(s)),
        same_arch_apart(merge_ranges(s)),
        covered_by(merge_ranges(s), s),
        merge_ranges(s).len() > 0 ==> merge_ranges(s).last().0.start <= s.last().0.start,
        merge_ranges(s).len() <= s.len(),
    decreases s.len(),
{
    if s.len() > 0 {
        let prev = s.drop_last();
        assert(sorted_by_start(prev));
        assert(ranges_well_formed(prev));
        lemma_merge_ranges_laws(prev);
        let acc = merge_ranges(prev);
        let r = s.last();
        let m = merge_ranges(s);
        assert(m == merge_step(acc, r));
        assert(r.0.start <= r.0.end);
        if acc.len() > 0 {
            let last = acc.last();
            assert(last.0.start <= prev.last().0.start);
            assert(prev.last() == s[s.len() - 2]);
            assert(last.0.start <= r.0.start);
        }
        assert forall|i: int, p: int|
            0 <= i < m.len() && m[i].0.start <= p < m[i].0.end implies #[trigger] labelled_at(
            s,
            p,
            m[i].1@,
        ) by {
            assert(s[s.len() - 1] == r);
            if acc.len() > 0 && i < acc.len() - 1 {
                assert(m[i] == acc[i]);
                assert(labelled_at(prev, p, acc[i].1@));
                lemma_labelled_at_prefix(s, p, m[i].1@);
            } else if acc.len() > 0 && i == acc.len() - 1 {
                let last = acc.last();
                if p < last.0.end {
                    assert(labelled_at(prev, p, acc[i].1@));
                    lemma_labelled_at_prefix(s, p, m[i].1@);
                } else {
                    assert(m[i].1@ == r.1@);
                }
            } else {
                assert(m[i] == r);
            }
        }
        assert(ranges_well_formed(m));
        assert(disjoint_in_order(m)) by {
            assert forall|i: int, j: int| 0 <= i < j < m.len() implies #[trigger] m[i].0.end
                <= #[trigger] m[j].0.start by {
                if acc.len() > 0 {
                    let k = acc.len() - 1;
                    if j < k {
                        assert(m[i] == acc[i] && m[j] == acc[j]);
                    } else if j == k {
                        assert(m[i] == acc[i]);
                        assert(m[j].0.start == acc[k].0.start);
                    } else {
                        assert(m[j] == r);
                        if i < k {
                            assert(m[i] == acc[i]);
                            assert(acc[i].0.end <= acc[k].0.start);
                        }
                    }
                }
            }
        }
        assert(same_arch_apart(m)) by {
            assert forall|i: int|
                0 <= i < m.len() - 1 && #[trigger] m[i].1@ == m[i + 1].1@ implies m[i].0.end < m[i
                + 1].0.start by {
                if acc.len() > 0 {
                    let k = acc.len() - 1;
                    if i + 1 < k {
                        assert(m[i] == acc[i] && m[i + 1] == acc[i + 1]);
                    } else if i + 1 == k {
                        assert(m[i] == acc[i]);
                        assert(m[i + 1].0.start == acc[k].0.start);
                        assert(m[i + 1].1 == acc[k].1);
                    }
                }
            }
        }
    }
}

/// A position of an input range keeps that range's architecture in the consolidated list
/// unless a later range with another architecture starts at or before it: merging only
/// ever extends a range, and only a range of another architecture cuts one back.
pub proof fn lemma_merge_keeps_uncut(s: Seq<(Range<usize>, String)>)
    requires
        sorted_by_start(s),
        ranges_well_formed(s),
    ensures
        forall|k: int, p: int|
            0 <= k < s.len() && s[k].0.start <= p < s[k].0.end && (forall|j: int|
                k < j < s.len() && #[trigger] s[j].1@ != s[k].1@ ==> p < s[j].0.start)
                ==> #[trigger] labelled_at(merge_ranges(s), p, s[k].1@),
    decreases s.len(),
{
    if s.len() > 0 {
        let prev = s.drop_last();
        assert(sorted_by_start(prev));
        assert(ranges_well_formed(prev));
        lemma_merge_keeps_uncut(prev);
        lemma_merge_ranges_laws(prev);
        let acc = merge_ranges(prev);
        let r = s.last();
        let n = s.len() - 1;
        let m = merge_ranges(s);
        assert(m == merge_step(acc, r));
        assert(s[n] == r);
        if acc.len() > 0 {
            assert(prev.last() == s[n - 1]);
            assert(acc.last().0.start <= r.0.start);
        }
        assert forall|k: int, p: int|
            0 <= k < s.len() && s[k].0.start <= p < s[k].0.end && (forall|j: int|
                k < j < s.len() && #[trigger] s[j].1@ != s[k].1@ ==> p < s[j].0.start)
                implies #[trigger] labelled_at(m, p, s[k].1@) by {
            if k == n {
                if acc.len() > 0 && acc.last().1@ == r.1@ && r.0.start <= acc.last().0.end {
                    let w = acc.len() - 1;
                    assert(m[w].1@ == r.1@ && m[w].0.start <= p < m[w].0.end);
                } else {
                    let w = m.len() - 1;
                    assert(m[w] == r);
                }
            } else {
                assert(s[k] == prev[k]);
                assert forall|j: int|
                    k < j < prev.len() && #[trigger] prev[j].1@ != prev[k].1@ implies p
                    < prev[j].0.start by {
                    assert(prev[j] == s[j]);
                }
                assert(labelled_at(acc, p, s[k].1@));
                let w = choose|w: int|
                    0 <= w < acc.len() && #[trigger] acc[w].1@ == s[k].1@ && acc[w].0.start <= p
                        < acc[w].0.end;
                if w < acc.len() - 1 {
                    assert(m[w] == acc[w]);
                } else if acc.last().1@ == r.1@ && r.0.start <= acc.last().0.end {
                    assert(m[w].1 == acc[w].1 && m[w].0.start == acc[w].0.start);
                } else if r.0.start < acc.last().0.end {
                    assert(r.1@ != s[k].1@);
                    assert(p < r.0.start);
                    assert(m[w].1 == acc[w].1 && m[w].0.start == acc[w].0.start);
                    assert(m[w].0.end == r.0.start);
                } else {
                    assert(m[w] == acc[w]);
                }
            }
        }
    }
}

proof fn lemma_merge_of_merged(m: Seq<(Range<usize>, String)>)
    requires
        disjoint_in_order(m),
        same_arch_apart(m),
    ensures
        merge_ranges(m) == m,
    decreases m.len(),
{
    if m.len() > 0 {
        let p = m.drop_last();
        assert(disjoint_in_order(p)) by {
            assert forall|i: int, j: int| 0 <= i < j < p.len() implies #[trigger] p[i].0.end
                <= #[trigger] p[j].0.start by {
                assert(p[i] == m[i] && p[j] == m[j]);
            }
        }
        assert(same_arch_apart(p)) by {
            assert forall|i: int| 0 <= i < p.len() - 1 && #[trigger] p[i].1@ == p[i + 1].1@ implies p[
                i].0.end < p[i + 1].0.start by {
                assert(p[i] == m[i] && p[i + 1] == m[i + 1]);
            }
        }
        lemma_merge_of_merged(p);
        if p.len() > 0 {
            let k = p.len() - 1;
            assert(p.last() == m[k] && m.last() == m[k + 1]);
            assert(m[k].0.end <= m[k + 1].0.start);
        }
        assert(merge_step(p, m.last()) =~= m);
    }
}

/// Consolidation changes nothing more when applied to its own result.
pub proof fn lemma_merge_ranges_idempotent(s: Seq<(Range<usize>, String)>)
    requires
        sorted_by_start(s),
        ranges_well_formed(s),
    ensures
        merge_ranges(merge_ranges(s)) == merge_ranges(s),
{
    lemma_merge_ranges_laws(s);
    lemma_merge_of_merged(merge_ranges(s));
}

proof fn lemma_insert_to_multiset<A>(s: Seq<A>, pos: int, x: A)
    requires
        0 <= pos <= s.len(),
    ensures
        s.insert(pos, x).to_multiset() =~= s.to_multiset().insert(x),
{
    let t = s.insert(pos, x);
    s.insert_ensures(pos, x);
    assert(t.remove(pos) =~= s);
    t.to_multiset_ensures();
    assert(t.contains(x));
}

/// Orders labelled ranges by their start.
pub fn sort_by_start(items: Vec<(Range<usize>, String)>) -> (sorted: Vec<(Range<usize>, String)>)
    ensures
        sorted_by_start(sorted@),
        sorted@.to_multiset() =~= items@.to_multiset(),
{
    let ghost orig = items@;
    let mut rest = items;
    let mut sorted: Vec<(Range<usize>, String)> = Vec::new();
    proof {
        sorted@.to_multiset_ensures();
        vstd::multiset::lemma_multiset_empty_len(sorted@.to_multiset());
    }
    while rest.len() > 0
        invariant
            sorted_by_start(sorted@),
            orig.to_multiset() =~= rest@.to_multiset().add(sorted@.to_multiset()),
        decreases rest.len(),
    {
        let ghost before = rest@;
        let item = rest.pop().unwrap();
        proof {
            assert(before =~= rest@.push(item));
            rest@.to_multiset_ensures();
        }
        let mut j: usize = 0;
        while j < sorted.len() && sorted[j].0.start < item.0.start
            invariant
                j <= sorted.len(),
                forall|k: int| 0 <= k < j ==> #[trigger] sorted@[k].0.start < item.0.start,
            decreases sorted.len() - j,
        {
            j = j + 1;
        }
        let ghost old_sorted = sorted@;
        proof {
            lemma_insert_to_multiset(old_sorted, j as int, item);
            old_sorted.insert_ensures(j as int, item);
        }
        sorted.insert(j, item);
        assert(sorted@ == old_sorted.insert(j as int, item));
        assert(sorted_by_start(sorted@)) by {
            assert forall|a: int, b: int| 0 <= a <= b < sorted@.len() implies #[trigger] sorted@[
                a].0.start <= #[trigger] sorted@[b].0.start by {
                if a < j && b < j {
                    assert(sorted@[a] == old_sorted[a] && sorted@[b] == old_sorted[b]);
                } else if a < j && b == j {
                    assert(sorted@[a] == old_sorted[a]);
                } else if a < j {
                    assert(sorted@[a] == old_sorted[a] && sorted@[b] == old_sorted[b - 1]);
                } else if a == j && b == j {
                } else if a == j {
                    assert(sorted@[b] == old_sorted[b - 1]);
                    assert(old_sorted[j as int].0.start >= item.0.start);
                    assert(old_sorted[j as int].0.start <= old_sorted[b - 1].0.start);
                } else {
                    assert(sorted@[a] == old_sorted[a - 1] && sorted@[b] == old_sorted[b - 1]);
                }
            }
        }
    }
    proof {
        rest@.to_multiset_ensures();
        vstd::multiset::lemma_multiset_empty_len(rest@.to_multiset());
    }
    sorted
}

proof fn lemma_labelled_source(entries: Seq<(Range<usize>, Option<String>)>, k: int)
    requires
        0 <= k < labelled_ranges(entries).len(),
    ensures
        exists|j: int|
            0 <= j < entries.len() && #[trigger] entries[j].0 == labelled_ranges(entries)[k].0
                && entries[j].1 == Some(labelled_ranges(entries)[k].1),
    decreases entries.len(),
{
    let rest = labelled_ranges(entries.drop_last());
    let last = entries.len() - 1;
    if k < rest.len() {
        lemma_labelled_source(entries.drop_last(), k);
        let j = choose|j: int|
            0 <= j < entries.drop_last().len() && #[trigger] entries.drop_last()[j].0 == rest[k].0
                && entries.drop_last()[j].1 == Some(rest[k].1);
        assert(entries[j] == entries.drop_last()[j]);
        assert(labelled_ranges(entries)[k] == rest[k]);
        assert(entries[j].0 == labelled_ranges(entries)[k].0);
    } else {
        assert(entries[last].0 == labelled_ranges(entries)[k].0);
    }
}

proof fn lemma_covered_by_verdicts(
    entries: Seq<(Range<usize>, Option<String>)>,
    sorted: Seq<(Range<usize>, String)>,
    p: int,
    arch: Seq<char>,
)
    requires
        sorted.to_multiset() =~= labelled_ranges(entries).to_multiset(),
        labelled_at(sorted, p, arch),
    ensures
        entry_labelled_at(entries, p, arch),
{
    let lab = labelled_ranges(entries);
    let j = choose|j: int|
        0 <= j < sorted.len() && #[trigger] sorted[j].1@ == arch && sorted[j].0.start <= p
            < sorted[j].0.end;
    let x = sorted[j];
    sorted.to_multiset_ensures();
    lab.to_multiset_ensures();
    assert(sorted.contains(x));
    assert(sorted.to_multiset().count(x) > 0);
    assert(lab.to_multiset().count(x) > 0);
    assert(lab.contains(x));
    let k = choose|k: int| 0 <= k < lab.len() && lab[k] == x;
    lemma_labelled_source(entries, k);
    let i = choose|i: int|
        0 <= i < entries.len() && #[trigger] entries[i].0 == lab[k].0 && entries[i].1 == Some(
            lab[k].1,
        );
    assert(entries[i].1 is Some && entries[i].1->0@ == arch);
}

/// The labelled ranges of a verdict list are exactly the verdicts that carry an
/// architecture, in their order, each paired with its architecture: one element for
/// each such verdict and no other.
pub proof fn lemma_labelled_ranges_exact(entries: Seq<(Range<usize>, Option<String>)>)
    ensures
        labelled_ranges(entries) == entries.filter_map(
            (|e: (Range<usize>, Option<String>)|
                match e.1 {
                    Some(arch) => Some((e.0, arch)),
                    None => None,
                }),
        ),
    decreases entries.len(),
{
    if entries.len() > 0 {
        lemma_labelled_ranges_exact(entries.drop_last());
        let rest = entries.drop_last().filter_map(
            (|e: (Range<usize>, Option<String>)|
                match e.1 {
                    Some(arch) => Some((e.0, arch)),
                    None => None,
                }),
        );
        match entries.last().1 {
            Some(arch) => {
                assert(rest.push((entries.last().0, arch)) =~= rest + seq![(entries.last().0, arch)]);
            },
            None => {},
        }
    }
}

/// Every verdict that carries an architecture is among the labelled ranges, with that
/// architecture.
pub proof fn lemma_labelled_complete(entries: Seq<(Range<usize>, Option<String>)>, j: int)
    requires
        0 <= j < entries.len(),
        entries[j].1 is Some,
    ensures
        exists|k: int|
            0 <= k < labelled_ranges(entries).len() && #[trigger] labelled_ranges(entries)[k] == (
                entries[j].0,
                entries[j].1->0,
            ),
    decreases entries.len(),
{
    let rest = labelled_ranges(entries.drop_last());
    if j < entries.len() - 1 {
        lemma_labelled_complete(entries.drop_last(), j);
        assert(entries.drop_last()[j] == entries[j]);
        let k = choose|k: int|
            0 <= k < rest.len() && #[trigger] rest[k] == (
                entries.drop_last()[j].0,
                entries.drop_last()[j].1->0,
            );
        assert(labelled_ranges(entries)[k] == rest[k]);
    } else {
        assert(entries.last() == entries[j]);
        assert(labelled_ranges(entries)[rest.len() as int] == (entries[j].0, entries[j].1->0));
    }
}

/// The verdict ranges that carry an architecture are non-empty, and no two of them
/// share a position.
pub open spec fn labelled_nonempty_disjoint(v: Seq<(Range<usize>, Option<String>)>) -> bool {
    &&& forall|i: int| 0 <= i < v.len() && #[trigger] v[i].1 is Some ==> v[i].0.start < v[i].0.end
    &&& forall|i: int, j: int|
        0 <= i < v.len() && 0 <= j < v.len() && i != j && #[trigger] v[i].1 is Some
            && #[trigger] v[j].1 is Some ==> v[i].0.end <= v[j].0.start || v[j].0.end
            <= v[i].0.start
}

proof fn lemma_labelled_nonempty_disjoint(v: Seq<(Range<usize>, Option<String>)>)
    requires
        labelled_nonempty_disjoint(v),
    ensures
        nonempty_disjoint(labelled_ranges(v)),
    decreases v.len(),
{
    if v.len() > 0 {
        let prev = v.drop_last();
        assert forall|i: int| 0 <= i < prev.len() && #[trigger] prev[i].1 is Some implies prev[i].0.start
            < prev[i].0.end by {
            assert(prev[i] == v[i]);
        }
        assert forall|i: int, j: int|
            0 <= i < prev.len() && 0 <= j < prev.len() && i != j && #[trigger] prev[i].1 is Some
                && #[trigger] prev[j].1 is Some implies prev[i].0.end <= prev[j].0.start
            || prev[j].0.end <= prev[i].0.start by {
            assert(prev[i] == v[i] && prev[j] == v[j]);
        }
        lemma_labelled_nonempty_disjoint(prev);
        let rest = labelled_ranges(prev);
        let n = v.len() - 1;
        assert(v.last() == v[n]);
        if v[n].1 is Some {
            let lab = labelled_ranges(v);
            assert(lab == rest.push((v[n].0, v[n].1->0)));
            assert forall|i: int| 0 <= i < lab.len() implies #[trigger] lab[i].0.start
                < lab[i].0.end by {
                if i < rest.len() {
                    assert(lab[i] == rest[i]);
                }
            }
            assert forall|i: int, j: int|
                0 <= i < lab.len() && 0 <= j < lab.len() && i != j implies #[trigger] lab[i].0.end
                <= #[trigger] lab[j].0.start || lab[j].0.end <= lab[i].0.start by {
                if i < rest.len() && j < rest.len() {
                    assert(lab[i] == rest[i] && lab[j] == rest[j]);
                } else if i < rest.len() {
                    lemma_labelled_source(prev, i);
                    let s = choose|s: int|
                        0 <= s < prev.len() && #[trigger] prev[s].0 == rest[i].0 && prev[s].1
                            == Some(rest[i].1);
                    assert(prev[s] == v[s]);
                    assert(lab[i] == rest[i]);
                    assert(v[s].1 is Some && v[n].1 is Some && s != n);
                } else if j < rest.len() {
                    lemma_labelled_source(prev, j);
                    let s = choose|s: int|
                        0 <= s < prev.len() && #[trigger] prev[s].0 == rest[j].0 && prev[s].1
                            == Some(rest[j].1);
                    assert(prev[s] == v[s]);
                    assert(lab[j] == rest[j]);
                    assert(v[s].1 is Some && v[n].1 is Some && s != n);
                }
            }
        }
    }
}

/// The ranges are non-empty and no two of them share a position.
pub open spec fn nonempty_disjoint(s: Seq<(Range<usize>, String)>) -> bool {
    &&& forall|i: int| 0 <= i < s.len() ==> #[trigger] s[i].0.start < s[i].0.end
    &&& forall|i: int, j: int|
        0 <= i < s.len() && 0 <= j < s.len() && i != j ==> #[trigger] s[i].0.end
            <= #[trigger] s[j].0.start || s[j].0.end <= s[i].0.start
}

/// Each range ends before every later one starts.
pub open spec fn ordered_apart(s: Seq<(Range<usize>, String)>) -> bool {
    forall|i: int, j: int| 0 <= i < j < s.len() ==> #[trigger] s[i].0.end <= #[trigger] s[j].0.start
}

proof fn lemma_permutation_nonempty_disjoint(
    a: Seq<(Range<usize>, String)>,
    b: Seq<(Range<usize>, String)>,
)
    requires
        nonempty_disjoint(b),
        a.to_multiset() =~= b.to_multiset(),
    ensures
        nonempty_disjoint(a),
{
    a.to_multiset_ensures();
    b.to_multiset_ensures();
    assert forall|i: int| 0 <= i < a.len() implies #[trigger] a[i].0.start < a[i].0.end by {
        assert(a.contains(a[i]));
        assert(a.to_multiset().count(a[i]) > 0);
        assert(b.to_multiset().count(a[i]) > 0);
        let k = choose|k: int| 0 <= k < b.len() && b[k] == a[i];
        assert(b[k].0.start < b[k].0.end);
    }
    assert forall|i: int, j: int| 0 <= i < a.len() && 0 <= j < a.len() && i != j implies #[trigger] a[
        i].0.end <= #[trigger] a[j].0.start || a[j].0.end <= a[i].0.start by {
        let x = a[i];
        let y = a[j];
        assert(a.contains(x) && a.contains(y));
        assert(a.to_multiset().count(x) > 0 && a.to_multiset().count(y) > 0);
        assert(b.to_multiset().count(x) > 0 && b.to_multiset().count(y) > 0);
        let k = choose|k: int| 0 <= k < b.len() && b[k] == x;
        if x != y {
            let l = choose|l: int| 0 <= l < b.len() && b[l] == y;
            assert(b[k].0.end <= b[l].0.start || b[l].0.end <= b[k].0.start);
        } else {
            let ar = a.remove(i);
            a.remove_ensures(i);
            a.to_multiset_ensures();
            let jj = if j < i { j } else { j - 1 };
            assert(ar[jj] == y);
            ar.to_multiset_ensures();
            assert(ar.contains(x));
            assert(ar.to_multiset().count(x) > 0);
            assert(ar.to_multiset() =~= a.to_multiset().remove(x));
            let br = b.remove(k);
            b.remove_ensures(k);
            assert(br.to_multiset() =~= b.to_multiset().remove(x));
            br.to_multiset_ensures();
            assert(br.to_multiset().count(x) > 0);
            assert(br.contains(x));
            let t = choose|t: int| 0 <= t < br.len() && br[t] == x;
            let l = if t < k { t } else { t + 1 };
            assert(b[l] == x);
            assert(b[k].0.end <= b[l].0.start || b[l].0.end <= b[k].0.start);
            assert(b[k].0.start < b[k].0.end);
        }
    }
}

proof fn lemma_sorted_disjoint_apart(s: Seq<(Range<usize>, String)>)
    requires
        sorted_by_start(s),
        nonempty_disjoint(s),
    ensures
        ordered_apart(s),
{
    assert forall|i: int, j: int| 0 <= i < j < s.len() implies #[trigger] s[i].0.end
        <= #[trigger] s[j].0.start by {
        assert(s[i].0.start <= s[j].0.start);
        assert(s[j].0.start < s[j].0.end);
        assert(s[i].0.end <= s[j].0.start || s[j].0.end <= s[i].0.start);
    }
}

/// When every range of the (ordered) input ends before the next one starts, nothing is
/// cut away: every position of every input range is reported with its architecture.
pub proof fn lemma_merge_complete(s: Seq<(Range<usize>, String)>)
    requires
        sorted_by_start(s),
        ranges_well_formed(s),
        ordered_apart(s),
    ensures
        forall|k: int, p: int|
            0 <= k < s.len() && s[k].0.start <= p < s[k].0.end ==> #[trigger] labelled_at(
                merge_ranges(s),
                p,
                s[k].1@,
            ),
        s.len() > 0 ==> merge_ranges(s).len() > 0 && merge_ranges(s).last().0.end == s.last().0.end,
    decreases s.len(),
{
    if s.len() > 0 {
        let prev = s.drop_last();
        assert(sorted_by_start(prev));
        assert(ranges_well_formed(prev));
        assert(ordered_apart(prev));
        lemma_merge_complete(prev);
        lemma_merge_ranges_laws(prev);
        let acc = merge_ranges(prev);
        let r = s.last();
        let m = merge_ranges(s);
        assert(m == merge_step(acc, r));
        assert(s[s.len() - 1] == r);
        assert(r.0.start <= r.0.end);
        if acc.len() > 0 {
            let last = acc.last();
            assert(prev.last() == s[s.len() - 2]);
            assert(last.0.end <= r.0.start);
            assert(last.0.start <= last.0.end);
        }
        assert forall|k: int, p: int|
            0 <= k < s.len() && s[k].0.start <= p < s[k].0.end implies #[trigger] labelled_at(
            m,
            p,
            s[k].1@,
        ) by {
            if k < s.len() - 1 {
                assert(s[k] == prev[k]);
                assert(labelled_at(acc, p, s[k].1@));
                let j = choose|j: int|
                    0 <= j < acc.len() && #[trigger] acc[j].1@ == s[k].1@ && acc[j].0.start <= p
                        < acc[j].0.end;
                if j < acc.len() - 1 {
                    assert(m[j] == acc[j]);
                } else {
                    assert(m[j].1 == acc[j].1);
                    assert(m[j].0.start == acc[j].0.start);
                    assert(m[j].0.end >= acc[j].0.end);
                }
            } else {
                if acc.len() > 0 && acc.last().1@ == r.1@ && r.0.start <= acc.last().0.end {
                    let j = acc.len() - 1;
                    assert(m[j].1@ == r.1@);
                } else {
                    let j = m.len() - 1;
                    assert(m[j] == r);
                }
            }
        }
    }
}

proof fn lemma_permutation_well_formed(
    a: Seq<(Range<usize>, String)>,
    b: Seq<(Range<usize>, String)>,
)
    requires
        ranges_well_formed(b),
        a.to_multiset() =~= b.to_multiset(),
    ensures
        ranges_well_formed(a),
{
    a.to_multiset_ensures();
    b.to_multiset_ensures();
    assert forall|i: int| 0 <= i < a.len() implies #[trigger] a[i].0.start <= a[i].0.end by {
        assert(a.contains(a[i]));
        assert(a.to_multiset().count(a[i]) > 0);
        assert(b.to_multiset().count(a[i]) > 0);
        assert(b.contains(a[i]));
        let k = choose|k: int| 0 <= k < b.len() && b[k] == a[i];
        assert(b[k].0.start <= b[k].0.end);
    }
}

/// The labelled verdicts of `entries`, in order.
pub fn labelled_verdicts(entries: &Vec<(Range<usize>, Option<String>)>) -> (out: Vec<
    (Range<usize>, String),
>)
    ensures
        out@ == labelled_ranges(entries@),
        out@ == entries@.filter_map(
            (|e: (Range<usize>, Option<String>)|
                match e.1 {
                    Some(arch) => Some((e.0, arch)),
                    None => None,
                }),
        ),
        forall|j: int|
            0 <= j < entries@.len() && #[trigger] entries@[j].1 is Some ==> exists|k: int|
                0 <= k < out@.len() && #[trigger] out@[k] == (entries@[j].0, entries@[j].1->0),
{
    let mut out: Vec<(Range<usize>, String)> = Vec::new();
    let mut i: usize = 0;
    while i < entries.len()
        invariant
            i <= entries.len(),
            out@ == labelled_ranges(entries@.take(i as int)),
        decreases entries.len() - i,
    {
        assert(entries@.take(i + 1).drop_last() =~= entries@.take(i as int));
        assert(entries@.take(i + 1).last() == entries@[i as int]);
        match &entries[i].1 {
            Some(arch) => {
                out.push((entries[i].0.start..entries[i].0.end, arch.clone()));
            },
            None => {},
        }
        i = i + 1;
    }
    assert(entries@.take(entries.len() as int) =~= entries@);
    proof {
        lemma_labelled_ranges_exact(entries@);
        assert forall|j: int| 0 <= j < entries@.len() && #[trigger] entries@[j].1 is Some implies exists|k: int|
            0 <= k < out@.len() && #[trigger] out@[k] == (entries@[j].0, entries@[j].1->0) by {
            lemma_labelled_complete(entries@, j);
        }
    }
    out
}

/// Consolidates labelled ranges from left to right (see `merge_step`).
pub fn merge_labelled_ranges(items: &Vec<(Range<usize>, String)>) -> (merged: Vec<
    (Range<usize>, String),
>)
    ensures
        merged@ == merge_ranges(items@),
{
    let mut acc: Vec<(Range<usize>, String)> = Vec::new();
    let mut i: usize = 0;
    while i < items.len()
        invariant
            i <= items.len(),
            acc@ == merge_ranges(items@.take(i as int)),
        decreases items.len() - i,
    {
        assert(items@.take(i + 1).drop_last() =~= items@.take(i as int));
        let r_start = items[i].0.start;
        let r_end = items[i].0.end;
        let arch = items[i].1.clone();
        let ghost r = items@[i as int];
        assert(r == (span(r_start, r_end), arch));
        assert(items@.take(i + 1).last() == r);
        let ghost prev = acc@;
        if acc.len() > 0 {
            let (last_range, last_arch) = acc.pop().unwrap();
            assert(prev.last() == (last_range, last_arch));
            assert(acc@ =~= prev.drop_last());
            if last_arch == arch && r_start <= last_range.end {
                let end = if last_range.end >= r_end {
                    last_range.end
                } else {
                    r_end
                };
                acc.push((last_range.start..end, last_arch));
                assert(acc@ =~= merge_step(prev, r));
            } else if r_start < last_range.end {
                acc.push((last_range.start..r_start, last_arch));
                acc.push((r_start..r_end, arch));
                assert(acc@ =~= merge_step(prev, r));
            } else {
                acc.push((last_range.start..last_range.end, last_arch));
                acc.push((r_start..r_end, arch));
                assert(acc@ =~= merge_step(prev, r));
            }
        } else {
            acc.push((r_start..r_end, arch));
            assert(acc@ =~= merge_step(prev, r));
        }
        i = i + 1;
    }
    assert(items@.take(items.len() as int) =~= items@);
    acc
}

/// Pairs each well-formed range with its length.
pub fn attach_lengths(items: Vec<(Range<usize>, String)>) -> (out: Vec<(Range<usize>, usize, String)>)
    requires
        ranges_well_formed(items@),
    ensures
        out@ == with_lengths(items@),
{
    let mut out: Vec<(Range<usize>, usize, String)> = Vec::new();
    let mut i: usize = 0;
    while i < items.len()
        invariant
            i <= items.len(),
            ranges_well_formed(items@),
            out@ =~= with_lengths(items@.take(i as int)),
        decreases items.len() - i,
    {
        let start = items[i].0.start;
        let end = items[i].0.end;
        assert(start <= end);
        out.push((start..end, end - start, items[i].1.clone()));
        assert(items@.take(i + 1) =~= items@.take(i as int).push(items@[i as int]));
        i = i + 1;
    }
    assert(items@.take(items.len() as int) =~= items@);
    out
}

/// The reported ranges with their lengths left out.
pub open spec fn without_lengths(s: Seq<(Range<usize>, usize, String)>) -> Seq<(Range<usize>, String)> {
    s.map_values(|e: (Range<usize>, usize, String)| (e.0, e.2))
}

/// Information that is reported for each analysed file: its name, and the byte
/// ranges to which an architecture was assigned, each with its length.
pub struct CliJsonOutput {
    pub file: String,
    pub range_results: Vec<(Range<usize>, usize, String)>,
}

impl CliJsonOutput {
    /// Builds the report of `file` from the final verdict of each analysed range:
    /// unlabelled ranges are dropped, the rest is ordered by start, neighbours with
    /// the same architecture that touch or overlap are merged, and a range that
    /// reaches into its successor is cut back to where the successor starts.
    pub fn from_verdicts(file: &str, verdicts: &Vec<(Range<usize>, Option<String>)>) -> (out: Self)
        requires
            ranges_well_formed(labelled_ranges(verdicts@)),
        ensures
            out.file@ == file@,
            exists|sorted: Seq<(Range<usize>, String)>|
                #![trigger merge_ranges(sorted)]
                sorted_by_start(sorted) && sorted.to_multiset() =~= labelled_ranges(
                    verdicts@,
                ).to_multiset() && out.range_results@ == with_lengths(merge_ranges(sorted)),
            forall|i: int|
                0 <= i < out.range_results@.len() ==> #[trigger] out.range_results@[i].0.start
                    <= out.range_results@[i].0.end && out.range_results@[i].1
                    == out.range_results@[i].0.end - out.range_results@[i].0.start,
            disjoint_in_order(without_lengths(out.range_results@)),
            same_arch_apart(without_lengths(out.range_results@)),
            forall|i: int, p: int|
                0 <= i < out.range_results@.len() && out.range_results@[i].0.start <= p
                    < out.range_results@[i].0.end ==> #[trigger] entry_labelled_at(
                    verdicts@,
                    p,
                    out.range_results@[i].2@,
                ),
            nonempty_disjoint(labelled_ranges(verdicts@)) ==> forall|k: int, p: int|
                0 <= k < labelled_ranges(verdicts@).len() && labelled_ranges(verdicts@)[k].0.start
                    <= p < labelled_ranges(verdicts@)[k].0.end ==> #[trigger] labelled_at(
                    without_lengths(out.range_results@),
                    p,
                    labelled_ranges(verdicts@)[k].1@,
                ),
            labelled_nonempty_disjoint(verdicts@) ==> forall|j: int, p: int|
                0 <= j < verdicts@.len() && verdicts@[j].1 is Some && verdicts@[j].0.start <= p
                    < verdicts@[j].0.end ==> #[trigger] labelled_at(
                    without_lengths(out.range_results@),
                    p,
                    verdicts@[j].1->0@,
                ),
            forall|j: int, p: int|
                0 <= j < verdicts@.len() && verdicts@[j].1 is Some && verdicts@[j].0.start <= p
                    < verdicts@[j].0.end && (forall|i: int|
                    0 <= i < verdicts@.len() && #[trigger] verdicts@[i].1 is Some
                        && verdicts@[i].1->0@ != verdicts@[j].1->0@ ==> verdicts@[i].0.start
                        < verdicts@[j].0.start || p < verdicts@[i].0.start) ==> #[trigger] labelled_at(
                    without_lengths(out.range_results@),
                    p,
                    verdicts@[j].1->0@,
                ),
    {
        let labelled = labelled_verdicts(verdicts);
        let sorted = sort_by_start(labelled);
        proof {
            lemma_permutation_well_formed(sorted@, labelled_ranges(verdicts@));
            lemma_merge_ranges_laws(sorted@);
        }
        let merged = merge_labelled_ranges(&sorted);
        let range_results = attach_lengths(merged);
        let ghost m = merge_ranges(sorted@);
        proof {
            assert(without_lengths(range_results@) =~= m);
            assert forall|i: int, p: int|
                0 <= i < range_results@.len() && range_results@[i].0.start <= p
                    < range_results@[i].0.end implies #[trigger] entry_labelled_at(
                verdicts@,
                p,
                range_results@[i].2@,
            ) by {
                assert(m[i].0 == range_results@[i].0 && m[i].1 == range_results@[i].2);
                assert(labelled_at(sorted@, p, m[i].1@));
                lemma_covered_by_verdicts(verdicts@, sorted@, p, m[i].1@);
            }
            assert forall|i: int| 0 <= i < range_results@.len() implies #[trigger] range_results@[
                i].0.start <= range_results@[i].0.end && range_results@[i].1
                == range_results@[i].0.end - range_results@[i].0.start by {
                assert(m[i].0 == range_results@[i].0);
            }
            let lab = labelled_ranges(verdicts@);
            if nonempty_disjoint(lab) {
                lemma_permutation_nonempty_disjoint(sorted@, lab);
                lemma_sorted_disjoint_apart(sorted@);
                lemma_merge_complete(sorted@);
                assert forall|k: int, p: int|
                    0 <= k < lab.len() && lab[k].0.start <= p < lab[k].0.end implies #[trigger] labelled_at(
                    without_lengths(range_results@),
                    p,
                    lab[k].1@,
                ) by {
                    let x = lab[k];
                    sorted@.to_multiset_ensures();
                    lab.to_multiset_ensures();
                    assert(lab.contains(x));
                    assert(lab.to_multiset().count(x) > 0);
                    assert(sorted@.to_multiset().count(x) > 0);
                    assert(sorted@.contains(x));
                    let j = choose|j: int| 0 <= j < sorted@.len() && sorted@[j] == x;
                    assert(labelled_at(m, p, sorted@[j].1@));
                }
            }
            lemma_merge_keeps_uncut(sorted@);
            assert forall|j: int, p: int|
                0 <= j < verdicts@.len() && verdicts@[j].1 is Some && verdicts@[j].0.start <= p
                    < verdicts@[j].0.end && (forall|i: int|
                    0 <= i < verdicts@.len() && #[trigger] verdicts@[i].1 is Some
                        && verdicts@[i].1->0@ != verdicts@[j].1->0@ ==> verdicts@[i].0.start
                        < verdicts@[j].0.start || p < verdicts@[i].0.start) implies #[trigger] labelled_at(
                without_lengths(range_results@),
                p,
                verdicts@[j].1->0@,
            ) by {
                let a = verdicts@[j].1->0;
                lemma_labelled_complete(verdicts@, j);
                let k = choose|k: int| 0 <= k < lab.len() && #[trigger] lab[k] == (verdicts@[j].0, a);
                let x = lab[k];
                sorted@.to_multiset_ensures();
                lab.to_multiset_ensures();
                assert(lab.contains(x));
                assert(lab.to_multiset().count(x) > 0);
                assert(sorted@.to_multiset().count(x) > 0);
                assert(sorted@.contains(x));
                let t = choose|t: int| 0 <= t < sorted@.len() && sorted@[t] == x;
                assert forall|u: int|
                    t < u < sorted@.len() && #[trigger] sorted@[u].1@ != sorted@[t].1@ implies p
                    < sorted@[u].0.start by {
                    let y = sorted@[u];
                    assert(sorted@.contains(y));
                    assert(sorted@.to_multiset().count(y) > 0);
                    assert(lab.to_multiset().count(y) > 0);
                    assert(lab.contains(y));
                    let q = choose|q: int| 0 <= q < lab.len() && lab[q] == y;
                    lemma_labelled_source(verdicts@, q);
                    let i = choose|i: int|
                        0 <= i < verdicts@.len() && #[trigger] verdicts@[i].0 == lab[q].0
                            && verdicts@[i].1 == Some(lab[q].1);
                    assert(verdicts@[i].1 is Some && verdicts@[i].1->0@ != a@);
                    assert(sorted@[t].0.start <= sorted@[u].0.start);
                }
                assert(labelled_at(m, p, sorted@[t].1@));
            }
            if labelled_nonempty_disjoint(verdicts@) {
                lemma_labelled_nonempty_disjoint(verdicts@);
                assert forall|j: int, p: int|
                    0 <= j < verdicts@.len() && verdicts@[j].1 is Some && verdicts@[j].0.start <= p
                        < verdicts@[j].0.end implies #[trigger] labelled_at(
                    without_lengths(range_results@),
                    p,
                    verdicts@[j].1->0@,
                ) by {
                    lemma_labelled_complete(verdicts@, j);
                    let k = choose|k: int|
                        0 <= k < lab.len() && #[trigger] lab[k] == (verdicts@[j].0, verdicts@[j].1->0);
                    assert(lab[k].0.start <= p < lab[k].0.end);
                    assert(labelled_at(without_lengths(range_results@), p, lab[k].1@));
                }
            }
        }
        CliJsonOutput { file: file.to_owned(), range_results }
    }
}

} // verus!
