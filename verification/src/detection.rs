//! Regrouping of the per-window divergences by architecture and by range, and of the
//! final verdicts by architecture. The divergence itself (`T`) is carried along
//! unchanged.
use std::ops::Range;
use vstd::prelude::*;
use crate::names::{name_less, name_lt, lemma_name_lt_irreflexive, lemma_name_lt_total, lemma_name_lt_transitive};

verus! {

/// The divergence of a window from the corpus entry of one architecture.
#[derive(Debug)]
pub struct KlRes<T> {
    pub arch: String,
    pub div: T,
}

/// The divergences of one window from every corpus entry, by bigrams and by trigrams.
pub struct RangeFullKlRes<T> {
    pub kl_bg: Vec<KlRes<T>>,
    pub kl_tg: Vec<KlRes<T>>,
}

/// The values in `s` that are paired with `key`, in order.
pub open spec fn values_for<K, V>(s: Seq<(K, V)>, key: K) -> Seq<V>
    decreases s.len(),
{
    if s.len() == 0 {
        Seq::empty()
    } else if s.last().0 == key {
        values_for(s.drop_last(), key).push(s.last().1)
    } else {
        values_for(s.drop_last(), key)
    }
}

/// `groups` holds each key of `stream` exactly once, with the values that `stream`
/// pairs with it, in order.
pub open spec fn grouped_by<K, V>(groups: Seq<(K, Seq<V>)>, stream: Seq<(K, V)>) -> bool {
    &&& forall|g: int, h: int|
        0 <= g < h < groups.len() ==> #[trigger] groups[g].0 != #[trigger] groups[h].0
    &&& forall|g: int|
        0 <= g < groups.len() ==> #[trigger] groups[g].1 == values_for(stream, groups[g].0)
            && groups[g].1.len() > 0
    &&& forall|i: int|
        0 <= i < stream.len() ==> exists|g: int|
            0 <= g < groups.len() && #[trigger] groups[g].0 == #[trigger] stream[i].0
}

/// Groups keyed by architecture name, seen through the names.
pub open spec fn name_groups<V>(g: Seq<(String, Vec<V>)>) -> Seq<(Seq<char>, Seq<V>)> {
    g.map_values(|e: (String, Vec<V>)| (e.0@, e.1@))
}

/// Groups keyed by range.
pub open spec fn range_groups<V>(g: Seq<(Range<usize>, Vec<V>)>) -> Seq<(Range<usize>, Seq<V>)> {
    g.map_values(|e: (Range<usize>, Vec<V>)| (e.0, e.1@))
}

proof fn lemma_values_for_absent<K, V>(s: Seq<(K, V)>, key: K)
    requires
        forall|i: int| 0 <= i < s.len() ==> #[trigger] s[i].0 != key,
    ensures
        values_for(s, key) =~= Seq::<V>::empty(),
    decreases s.len(),
{
    if s.len() > 0 {
        assert(s.last() == s[s.len() - 1]);
        lemma_values_for_absent(s.drop_last(), key);
    }
}

proof fn lemma_grouped_push_existing<K, V>(
    groups: Seq<(K, Seq<V>)>,
    stream: Seq<(K, V)>,
    g: int,
    v: V,
)
    requires
        grouped_by(groups, stream),
        0 <= g < groups.len(),
    ensures
        grouped_by(
            groups.update(g, (groups[g].0, groups[g].1.push(v))),
            stream.push((groups[g].0, v)),
        ),
{
    let k = groups[g].0;
    let ng = groups.update(g, (k, groups[g].1.push(v)));
    let ns = stream.push((k, v));
    assert(ns.drop_last() =~= stream);
    assert forall|h: int| 0 <= h < ng.len() implies #[trigger] ng[h].1 == values_for(ns, ng[h].0)
        && ng[h].1.len() > 0 by {
        if h != g {
            assert(groups[h].0 != k);
        }
    }
    assert forall|i: int| 0 <= i < ns.len() implies exists|h: int|
        0 <= h < ng.len() && #[trigger] ng[h].0 == #[trigger] ns[i].0 by {
        if i < stream.len() {
            let h = choose|h: int| 0 <= h < groups.len() && #[trigger] groups[h].0 == #[trigger] stream[i].0;
            assert(ng[h].0 == ns[i].0);
        } else {
            assert(ng[g].0 == ns[i].0);
        }
    }
    assert forall|a: int, b: int| 0 <= a < b < ng.len() implies #[trigger] ng[a].0 != #[trigger] ng[b].0 by {
        assert(groups[a].0 != groups[b].0);
    }
}

proof fn lemma_grouped_push_new<K, V>(groups: Seq<(K, Seq<V>)>, stream: Seq<(K, V)>, k: K, v: V)
    requires
        grouped_by(groups, stream),
        forall|g: int| 0 <= g < groups.len() ==> #[trigger] groups[g].0 != k,
    ensures
        grouped_by(groups.push((k, seq![v])), stream.push((k, v))),
{
    let ng = groups.push((k, seq![v]));
    let ns = stream.push((k, v));
    assert(ns.drop_last() =~= stream);
    assert forall|i: int| 0 <= i < stream.len() implies #[trigger] stream[i].0 != k by {
        let h = choose|h: int| 0 <= h < groups.len() && #[trigger] groups[h].0 == #[trigger] stream[i].0;
        assert(groups[h].0 != k);
    }
    lemma_values_for_absent(stream, k);
    assert(values_for(ns, k) =~= seq![v]);
    assert forall|h: int| 0 <= h < ng.len() implies #[trigger] ng[h].1 == values_for(ns, ng[h].0)
        && ng[h].1.len() > 0 by {
        if h < groups.len() {
            assert(ng[h] == groups[h]);
        }
    }
    assert forall|i: int| 0 <= i < ns.len() implies exists|h: int|
        0 <= h < ng.len() && #[trigger] ng[h].0 == #[trigger] ns[i].0 by {
        if i < stream.len() {
            let h = choose|h: int| 0 <= h < groups.len() && #[trigger] groups[h].0 == #[trigger] stream[i].0;
            assert(ng[h].0 == ns[i].0);
        } else {
            assert(ng[groups.len() as int].0 == ns[i].0);
        }
    }
}

/// The groups are in strictly increasing order of their names.
pub open spec fn names_sorted<V>(groups: Seq<(Seq<char>, Seq<V>)>) -> bool {
    forall|i: int, j: int| 0 <= i < j < groups.len() ==> name_lt(#[trigger] groups[i].0, #[trigger] groups[j].0)
}

proof fn lemma_grouped_insert_new<K, V>(
    groups: Seq<(K, Seq<V>)>,
    stream: Seq<(K, V)>,
    pos: int,
    k: K,
    v: V,
)
    requires
        grouped_by(groups, stream),
        0 <= pos <= groups.len(),
        forall|g: int| 0 <= g < groups.len() ==> #[trigger] groups[g].0 != k,
    ensures
        grouped_by(groups.insert(pos, (k, seq![v])), stream.push((k, v))),
{
    let ng = groups.insert(pos, (k, seq![v]));
    groups.insert_ensures(pos, (k, seq![v]));
    let ns = stream.push((k, v));
    assert(ns.drop_last() =~= stream);
    assert forall|i: int| 0 <= i < stream.len() implies #[trigger] stream[i].0 != k by {
        let h = choose|h: int| 0 <= h < groups.len() && #[trigger] groups[h].0 == #[trigger] stream[i].0;
        assert(groups[h].0 != k);
    }
    lemma_values_for_absent(stream, k);
    assert(values_for(ns, k) =~= seq![v]);
    assert forall|h: int| 0 <= h < ng.len() implies #[trigger] ng[h].1 == values_for(ns, ng[h].0)
        && ng[h].1.len() > 0 by {
        if h < pos {
            assert(ng[h] == groups[h]);
        } else if h > pos {
            assert(ng[h] == groups[h - 1]);
        }
    }
    assert forall|i: int| 0 <= i < ns.len() implies exists|h: int|
        0 <= h < ng.len() && #[trigger] ng[h].0 == #[trigger] ns[i].0 by {
        if i < stream.len() {
            let h = choose|h: int| 0 <= h < groups.len() && #[trigger] groups[h].0 == #[trigger] stream[i].0;
            if h < pos {
                assert(ng[h].0 == ns[i].0);
            } else {
                assert(ng[h + 1].0 == ns[i].0);
            }
        } else {
            assert(ng[pos].0 == ns[i].0);
        }
    }
    assert forall|a: int, b: int| 0 <= a < b < ng.len() implies #[trigger] ng[a].0 != #[trigger] ng[b].0 by {
        if a < pos && b < pos {
            assert(groups[a].0 != groups[b].0);
        } else if a < pos && b == pos {
            assert(groups[a].0 != k);
        } else if a < pos {
            assert(groups[a].0 != groups[b - 1].0);
        } else if a == pos {
            assert(groups[b - 1].0 != k);
        } else {
            assert(groups[a - 1].0 != groups[b - 1].0);
        }
    }
}

/// Adds `value` to the group of the architecture `key`, opening the group at its
/// place in name order if needed.
fn push_by_name<V>(
    groups: &mut Vec<(String, Vec<V>)>,
    Ghost(stream): Ghost<Seq<(Seq<char>, V)>>,
    key: String,
    value: V,
)
    requires
        grouped_by(name_groups(old(groups)@), stream),
        names_sorted(name_groups(old(groups)@)),
    ensures
        grouped_by(name_groups(final(groups)@), stream.push((key@, value))),
        names_sorted(name_groups(final(groups)@)),
{
    let ghost before = name_groups(groups@);
    let mut g: usize = 0;
    while g < groups.len() && name_less(&groups[g].0, &key)
        invariant
            g <= groups.len(),
            before == name_groups(groups@),
            forall|h: int| 0 <= h < g ==> name_lt(#[trigger] groups@[h].0@, key@),
        decreases groups.len() - g,
    {
        g = g + 1;
    }
    if g < groups.len() && groups[g].0 == key {
        let (name, mut values) = groups.remove(g);
        values.push(value);
        groups.insert(g, (name, values));
        proof {
            assert(before[g as int].0 == key@);
            lemma_grouped_push_existing(before, stream, g as int, value);
            assert(name_groups(groups@) =~= before.update(
                g as int,
                (before[g as int].0, before[g as int].1.push(value)),
            ));
        }
        return ;
    }
    proof {
        if g < before.len() {
            assert(!name_lt(before[g as int].0, key@));
            assert(before[g as int].0 != key@);
            lemma_name_lt_total(before[g as int].0, key@);
        }
        assert forall|h: int| 0 <= h < before.len() implies #[trigger] before[h].0 != key@ by {
            if h < g {
                assert(name_lt(groups@[h].0@, key@));
                lemma_name_lt_irreflexive(key@);
            } else {
                if h > g {
                    assert(name_lt(before[g as int].0, before[h].0));
                    lemma_name_lt_transitive(key@, before[g as int].0, before[h].0);
                }
                lemma_name_lt_irreflexive(key@);
            }
        }
        lemma_grouped_insert_new(before, stream, g as int, key@, value);
        before.insert_ensures(g as int, (key@, seq![value]));
    }
    let mut values: Vec<V> = Vec::new();
    values.push(value);
    groups.insert(g, (key, values));
    proof {
        let after = before.insert(g as int, (key@, seq![value]));
        assert(name_groups(groups@) =~= after);
        assert forall|i: int, j: int| 0 <= i < j < after.len() implies name_lt(
            #[trigger] after[i].0,
            #[trigger] after[j].0,
        ) by {
            if i < g && j < g {
                assert(after[i] == before[i] && after[j] == before[j]);
            } else if i < g && j == g {
                assert(after[i] == before[i]);
                assert(name_lt(groups@[i].0@, key@)) by {
                    assert(groups@[i].0@ == before[i].0);
                }
            } else if i < g {
                assert(after[i] == before[i] && after[j] == before[j - 1]);
            } else if i == g {
                assert(after[j] == before[j - 1]);
                if j - 1 > g {
                    assert(name_lt(before[g as int].0, before[j - 1].0));
                    lemma_name_lt_transitive(key@, before[g as int].0, before[j - 1].0);
                }
            } else {
                assert(after[i] == before[i - 1] && after[j] == before[j - 1]);
            }
        }
    }
}

/// Adds `value` to the group of the range `key`, opening the group if needed.
fn push_by_range<V>(
    groups: &mut Vec<(Range<usize>, Vec<V>)>,
    Ghost(stream): Ghost<Seq<(Range<usize>, V)>>,
    key: Range<usize>,
    value: V,
)
    requires
        grouped_by(range_groups(old(groups)@), stream),
    ensures
        grouped_by(range_groups(final(groups)@), stream.push((key, value))),
{
    let ghost before = range_groups(groups@);
    let mut g: usize = 0;
    while g < groups.len()
        invariant
            g <= groups.len(),
            before == range_groups(groups@),
            grouped_by(before, stream),
            forall|h: int| 0 <= h < g ==> #[trigger] groups@[h].0 != key,
        decreases groups.len() - g,
    {
        if groups[g].0.start == key.start && groups[g].0.end == key.end {
            let (range, mut values) = groups.remove(g);
            values.push(value);
            groups.insert(g, (range, values));
            proof {
                assert(before[g as int].0 == key);
                lemma_grouped_push_existing(before, stream, g as int, value);
                assert(range_groups(groups@) =~= before.update(
                    g as int,
                    (before[g as int].0, before[g as int].1.push(value)),
                ));
            }
            return ;
        }
        g = g + 1;
    }
    proof {
        assert forall|h: int| 0 <= h < before.len() implies #[trigger] before[h].0 != key by {
            assert(groups@[h].0 != key);
        }
        lemma_grouped_push_new(before, stream, key, value);
    }
    let mut values: Vec<V> = Vec::new();
    values.push(value);
    groups.push((key, values));
    assert(range_groups(groups@) =~= before.push((key, seq![value])));
}

/// `groups` has a group for `key` that holds `v`.
pub open spec fn listed_under<K, V>(groups: Seq<(K, Seq<V>)>, key: K, v: V) -> bool {
    exists|g: int| 0 <= g < groups.len() && #[trigger] groups[g].0 == key && groups[g].1.contains(v)
}

proof fn lemma_grouped_lists<K, V>(groups: Seq<(K, Seq<V>)>, stream: Seq<(K, V)>, q: int)
    requires
        grouped_by(groups, stream),
        0 <= q < stream.len(),
    ensures
        listed_under(groups, stream[q].0, stream[q].1),
{
    lemma_values_for_contains(stream, q);
    let g = choose|g: int| 0 <= g < groups.len() && #[trigger] groups[g].0 == #[trigger] stream[q].0;
    assert(groups[g].1 == values_for(stream, groups[g].0));
}

/// The bigram and trigram result of each architecture for each window, in order: the
/// `k`-th bigram result of a window is paired with its `k`-th trigram result, as far as
/// both lists reach.
pub open spec fn window_pairs<T>(windows: Seq<(Range<usize>, RangeFullKlRes<T>)>) -> Seq<
    (Range<usize>, KlRes<T>, KlRes<T>),
>
    decreases windows.len(),
{
    if windows.len() == 0 {
        Seq::empty()
    } else {
        let w = windows.last();
        let n = if w.1.kl_bg@.len() <= w.1.kl_tg@.len() {
            w.1.kl_bg@.len()
        } else {
            w.1.kl_tg@.len()
        };
        window_pairs(windows.drop_last()) + Seq::new(
            n,
            |k: int| (w.0, w.1.kl_bg@[k], w.1.kl_tg@[k]),
        )
    }
}

proof fn lemma_window_pairs_member<T>(
    windows: Seq<(Range<usize>, RangeFullKlRes<T>)>,
    w: int,
    k: int,
)
    requires
        0 <= w < windows.len(),
        0 <= k < windows[w].1.kl_bg@.len(),
        k < windows[w].1.kl_tg@.len(),
    ensures
        exists|q: int|
            0 <= q < window_pairs(windows).len() && #[trigger] window_pairs(windows)[q] == (
                windows[w].0,
                windows[w].1.kl_bg@[k],
                windows[w].1.kl_tg@[k],
            ),
    decreases windows.len(),
{
    let prev = window_pairs(windows.drop_last());
    let last = windows.last();
    let n = if last.1.kl_bg@.len() <= last.1.kl_tg@.len() {
        last.1.kl_bg@.len()
    } else {
        last.1.kl_tg@.len()
    };
    let fresh = Seq::new(n, |j: int| (last.0, last.1.kl_bg@[j], last.1.kl_tg@[j]));
    assert(window_pairs(windows) == prev + fresh);
    if w < windows.len() - 1 {
        lemma_window_pairs_member(windows.drop_last(), w, k);
        assert(windows.drop_last()[w] == windows[w]);
        let q = choose|q: int|
            0 <= q < prev.len() && #[trigger] prev[q] == (
                windows.drop_last()[w].0,
                windows.drop_last()[w].1.kl_bg@[k],
                windows.drop_last()[w].1.kl_tg@[k],
            );
        assert(window_pairs(windows)[q] == prev[q]);
    } else {
        assert(last == windows[w]);
        assert(window_pairs(windows)[prev.len() + k] == fresh[k]);
    }
}

/// The bigram results as (architecture, (range, divergence)).
pub open spec fn bg_by_arch<T>(p: Seq<(Range<usize>, KlRes<T>, KlRes<T>)>) -> Seq<
    (Seq<char>, (Range<usize>, T)),
> {
    p.map_values(|e: (Range<usize>, KlRes<T>, KlRes<T>)| (e.1.arch@, (e.0, e.1.div)))
}

/// The trigram results as (architecture, (range, divergence)).
pub open spec fn tg_by_arch<T>(p: Seq<(Range<usize>, KlRes<T>, KlRes<T>)>) -> Seq<
    (Seq<char>, (Range<usize>, T)),
> {
    p.map_values(|e: (Range<usize>, KlRes<T>, KlRes<T>)| (e.2.arch@, (e.0, e.2.div)))
}

/// The bigram results as (range, (architecture, divergence)).
pub open spec fn bg_by_range<T>(p: Seq<(Range<usize>, KlRes<T>, KlRes<T>)>) -> Seq<
    (Range<usize>, (String, T)),
> {
    p.map_values(|e: (Range<usize>, KlRes<T>, KlRes<T>)| (e.0, (e.1.arch, e.1.div)))
}

/// The trigram results as (range, (architecture, divergence)).
pub open spec fn tg_by_range<T>(p: Seq<(Range<usize>, KlRes<T>, KlRes<T>)>) -> Seq<
    (Range<usize>, (String, T)),
> {
    p.map_values(|e: (Range<usize>, KlRes<T>, KlRes<T>)| (e.0, (e.2.arch, e.2.div)))
}

/// The results of all windows, regrouped: by architecture, in name order (each with
/// the ranges and divergences of that architecture) and by range (each with the architectures and
/// divergences of that range), for bigrams and for trigrams.
pub struct DetectionResult<T> {
    pub kl_bg_arch_to_range: Vec<(String, Vec<(Range<usize>, T)>)>,
    pub kl_tg_arch_to_range: Vec<(String, Vec<(Range<usize>, T)>)>,
    pub kl_bg_range_to_arch: Vec<(Range<usize>, Vec<(String, T)>)>,
    pub kl_tg_range_to_arch: Vec<(Range<usize>, Vec<(String, T)>)>,
}

impl<T: Copy> DetectionResult<T> {
    /// Regroups the results of the windows, taken in order.
    pub fn from_windows(windows: &Vec<(Range<usize>, RangeFullKlRes<T>)>) -> (res: Self)
        ensures
            grouped_by(name_groups(res.kl_bg_arch_to_range@), bg_by_arch(window_pairs(windows@))),
            grouped_by(name_groups(res.kl_tg_arch_to_range@), tg_by_arch(window_pairs(windows@))),
            names_sorted(name_groups(res.kl_bg_arch_to_range@)),
            names_sorted(name_groups(res.kl_tg_arch_to_range@)),
            grouped_by(range_groups(res.kl_bg_range_to_arch@), bg_by_range(window_pairs(windows@))),
            grouped_by(range_groups(res.kl_tg_range_to_arch@), tg_by_range(window_pairs(windows@))),
            forall|w: int, k: int|
                #![trigger windows@[w].1.kl_bg@[k]]
                #![trigger windows@[w].1.kl_tg@[k]]
                0 <= w < windows@.len() && 0 <= k < windows@[w].1.kl_bg@.len() && k
                    < windows@[w].1.kl_tg@.len() ==> {
                    let range = windows@[w].0;
                    let bg = windows@[w].1.kl_bg@[k];
                    let tg = windows@[w].1.kl_tg@[k];
                    &&& listed_under(name_groups(res.kl_bg_arch_to_range@), bg.arch@, (range, bg.div))
                    &&& listed_under(name_groups(res.kl_tg_arch_to_range@), tg.arch@, (range, tg.div))
                    &&& listed_under(range_groups(res.kl_bg_range_to_arch@), range, (bg.arch, bg.div))
                    &&& listed_under(range_groups(res.kl_tg_range_to_arch@), range, (tg.arch, tg.div))
                },
    {
        let mut bg_arch: Vec<(String, Vec<(Range<usize>, T)>)> = Vec::new();
        let mut tg_arch: Vec<(String, Vec<(Range<usize>, T)>)> = Vec::new();
        let mut bg_range: Vec<(Range<usize>, Vec<(String, T)>)> = Vec::new();
        let mut tg_range: Vec<(Range<usize>, Vec<(String, T)>)> = Vec::new();
        proof {
            assert(name_groups(bg_arch@) =~= Seq::empty());
            assert(name_groups(tg_arch@) =~= Seq::empty());
            assert(range_groups(bg_range@) =~= Seq::empty());
            assert(range_groups(tg_range@) =~= Seq::empty());
            assert(window_pairs(windows@.take(0)) =~= Seq::empty());
        }
        let mut i: usize = 0;
        while i < windows.len()
            invariant
                i <= windows.len(),
                grouped_by(name_groups(bg_arch@), bg_by_arch(window_pairs(windows@.take(i as int)))),
                names_sorted(name_groups(bg_arch@)),
                names_sorted(name_groups(tg_arch@)),
                grouped_by(name_groups(tg_arch@), tg_by_arch(window_pairs(windows@.take(i as int)))),
                grouped_by(range_groups(bg_range@), bg_by_range(window_pairs(windows@.take(i as int)))),
                grouped_by(range_groups(tg_range@), tg_by_range(window_pairs(windows@.take(i as int)))),
            decreases windows.len() - i,
        {
            let ghost done = window_pairs(windows@.take(i as int));
            let ghost w = windows@[i as int];
            let ghost n = if w.1.kl_bg@.len() <= w.1.kl_tg@.len() {
                w.1.kl_bg@.len()
            } else {
                w.1.kl_tg@.len()
            };
            let ghost fresh = Seq::new(n, |k: int| (w.0, w.1.kl_bg@[k], w.1.kl_tg@[k]));
            proof {
                assert(windows@.take(i + 1).drop_last() =~= windows@.take(i as int));
                assert(windows@.take(i + 1).last() == w);
                assert(window_pairs(windows@.take(i + 1)) == done + fresh);
            }
            let range_start = windows[i].0.start;
            let range_end = windows[i].0.end;
            let bg = &windows[i].1.kl_bg;
            let tg = &windows[i].1.kl_tg;
            let mut k: usize = 0;
            while k < bg.len() && k < tg.len()
                invariant
                    k <= n,
                    n == (if bg@.len() <= tg@.len() { bg@.len() } else { tg@.len() }),
                    bg@ == w.1.kl_bg@,
                    tg@ == w.1.kl_tg@,
                    w.0 == (Range { start: range_start, end: range_end }),
                    fresh == Seq::new(n, |j: int| (w.0, w.1.kl_bg@[j], w.1.kl_tg@[j])),
                    grouped_by(name_groups(bg_arch@), bg_by_arch(done + fresh.take(k as int))),
                    names_sorted(name_groups(bg_arch@)),
                    names_sorted(name_groups(tg_arch@)),
                    grouped_by(name_groups(tg_arch@), tg_by_arch(done + fresh.take(k as int))),
                    grouped_by(range_groups(bg_range@), bg_by_range(done + fresh.take(k as int))),
                    grouped_by(range_groups(tg_range@), tg_by_range(done + fresh.take(k as int))),
                decreases bg.len() - k,
            {
                let ghost before = done + fresh.take(k as int);
                let ghost after = done + fresh.take(k + 1);
                proof {
                    assert(after =~= before.push(fresh[k as int]));
                    assert(bg_by_arch(after) =~= bg_by_arch(before).push(
                        (bg@[k as int].arch@, (w.0, bg@[k as int].div)),
                    ));
                    assert(tg_by_arch(after) =~= tg_by_arch(before).push(
                        (tg@[k as int].arch@, (w.0, tg@[k as int].div)),
                    ));
                    assert(bg_by_range(after) =~= bg_by_range(before).push(
                        (w.0, (bg@[k as int].arch, bg@[k as int].div)),
                    ));
                    assert(tg_by_range(after) =~= tg_by_range(before).push(
                        (w.0, (tg@[k as int].arch, tg@[k as int].div)),
                    ));
                }
                push_by_name(
                    &mut bg_arch,
                    Ghost(bg_by_arch(before)),
                    bg[k].arch.clone(),
                    (range_start..range_end, bg[k].div),
                );
                push_by_name(
                    &mut tg_arch,
                    Ghost(tg_by_arch(before)),
                    tg[k].arch.clone(),
                    (range_start..range_end, tg[k].div),
                );
                push_by_range(
                    &mut bg_range,
                    Ghost(bg_by_range(before)),
                    range_start..range_end,
                    (bg[k].arch.clone(), bg[k].div),
                );
                push_by_range(
                    &mut tg_range,
                    Ghost(tg_by_range(before)),
                    range_start..range_end,
                    (tg[k].arch.clone(), tg[k].div),
                );
                k = k + 1;
            }
            proof {
                assert(fresh.take(k as int) =~= fresh);
            }
            i = i + 1;
        }
        assert(windows@.take(windows.len() as int) =~= windows@);
        proof {
            let pairs = window_pairs(windows@);
            assert forall|w: int, k: int|
                #![trigger windows@[w].1.kl_bg@[k]]
                #![trigger windows@[w].1.kl_tg@[k]]
                0 <= w < windows@.len() && 0 <= k < windows@[w].1.kl_bg@.len() && k
                    < windows@[w].1.kl_tg@.len() implies {
                    let range = windows@[w].0;
                    let bg = windows@[w].1.kl_bg@[k];
                    let tg = windows@[w].1.kl_tg@[k];
                    &&& listed_under(name_groups(bg_arch@), bg.arch@, (range, bg.div))
                    &&& listed_under(name_groups(tg_arch@), tg.arch@, (range, tg.div))
                    &&& listed_under(range_groups(bg_range@), range, (bg.arch, bg.div))
                    &&& listed_under(range_groups(tg_range@), range, (tg.arch, tg.div))
                } by {
                lemma_window_pairs_member(windows@, w, k);
                let q = choose|q: int|
                    0 <= q < pairs.len() && #[trigger] pairs[q] == (
                        windows@[w].0,
                        windows@[w].1.kl_bg@[k],
                        windows@[w].1.kl_tg@[k],
                    );
                lemma_grouped_lists(name_groups(bg_arch@), bg_by_arch(pairs), q);
                lemma_grouped_lists(name_groups(tg_arch@), tg_by_arch(pairs), q);
                lemma_grouped_lists(range_groups(bg_range@), bg_by_range(pairs), q);
                lemma_grouped_lists(range_groups(tg_range@), tg_by_range(pairs), q);
            }
        }
        DetectionResult {
            kl_bg_arch_to_range: bg_arch,
            kl_tg_arch_to_range: tg_arch,
            kl_bg_range_to_arch: bg_range,
            kl_tg_range_to_arch: tg_range,
        }
    }
}

/// Numbers the architecture groups by their position: with the groups in name order,
/// each architecture gets its rank among the names.
pub fn number_arches<V>(groups: &Vec<(String, Vec<V>)>) -> (numbers: Vec<(String, usize)>)
    ensures
        numbers@.len() == groups@.len(),
        forall|i: int|
            0 <= i < groups@.len() ==> #[trigger] numbers@[i].0@ == groups@[i].0@ && numbers@[i].1
                == i,
{
    let mut numbers: Vec<(String, usize)> = Vec::new();
    let mut i: usize = 0;
    while i < groups.len()
        invariant
            i <= groups.len(),
            numbers@.len() == i,
            forall|j: int|
                0 <= j < i ==> #[trigger] numbers@[j].0@ == groups@[j].0@ && numbers@[j].1 == j,
        decreases groups.len() - i,
    {
        numbers.push((groups[i].0.clone(), i));
        i = i + 1;
    }
    numbers
}

/// The labelled verdicts as (architecture, range).
pub open spec fn verdicts_by_arch(verdicts: Seq<(Range<usize>, Option<String>)>) -> Seq<
    (Seq<char>, Range<usize>),
>
    decreases verdicts.len(),
{
    if verdicts.len() == 0 {
        Seq::empty()
    } else {
        let rest = verdicts_by_arch(verdicts.drop_last());
        match verdicts.last().1 {
            Some(a) => rest.push((a@, verdicts.last().0)),
            None => rest,
        }
    }
}

/// Picks the range of a verdict that judged it to be the architecture `a`.
pub open spec fn judged_as(a: Seq<char>) -> spec_fn((Range<usize>, Option<String>)) -> Option<
    Range<usize>,
> {
    |e: (Range<usize>, Option<String>)|
        match e.1 {
            Some(n) => if n@ == a {
                Some(e.0)
            } else {
                None
            },
            None => None,
        }
}

/// The ranges that `verdicts_by_arch` pairs with the architecture `a` are exactly the
/// verdict ranges judged to be `a`, in the order of the verdicts.
pub proof fn lemma_ranges_of_arch_exact(verdicts: Seq<(Range<usize>, Option<String>)>, a: Seq<char>)
    ensures
        values_for(verdicts_by_arch(verdicts), a) == verdicts.filter_map(judged_as(a)),
    decreases verdicts.len(),
{
    if verdicts.len() > 0 {
        lemma_ranges_of_arch_exact(verdicts.drop_last(), a);
        let rest = verdicts.drop_last().filter_map(judged_as(a));
        let r = verdicts.last().0;
        let prev = verdicts_by_arch(verdicts.drop_last());
        let s = verdicts_by_arch(verdicts);
        match verdicts.last().1 {
            Some(n) => {
                assert(s == prev.push((n@, r)));
                assert(s.drop_last() =~= prev);
                assert(s.last() == (n@, r));
                assert(rest.push(r) =~= rest + seq![r]);
            },
            None => {
                assert(s == prev);
            },
        }
    }
}

proof fn lemma_values_for_contains<K, V>(s: Seq<(K, V)>, k: int)
    requires
        0 <= k < s.len(),
    ensures
        values_for(s, s[k].0).contains(s[k].1),
    decreases s.len(),
{
    let rest = values_for(s.drop_last(), s[k].0);
    if k < s.len() - 1 {
        lemma_values_for_contains(s.drop_last(), k);
        assert(s.drop_last()[k] == s[k]);
        let t = choose|t: int| 0 <= t < rest.len() && rest[t] == s[k].1;
        if s.last().0 == s[k].0 {
            assert(values_for(s, s[k].0)[t] == s[k].1);
        }
    } else {
        assert(s.last() == s[k]);
        assert(values_for(s, s[k].0)[rest.len() as int] == s[k].1);
    }
}

proof fn lemma_verdict_listed(verdicts: Seq<(Range<usize>, Option<String>)>, i: int)
    requires
        0 <= i < verdicts.len(),
        verdicts[i].1 is Some,
    ensures
        exists|k: int|
            0 <= k < verdicts_by_arch(verdicts).len() && #[trigger] verdicts_by_arch(verdicts)[k] == (
                verdicts[i].1->0@,
                verdicts[i].0,
            ),
    decreases verdicts.len(),
{
    let rest = verdicts_by_arch(verdicts.drop_last());
    if i < verdicts.len() - 1 {
        lemma_verdict_listed(verdicts.drop_last(), i);
        assert(verdicts.drop_last()[i] == verdicts[i]);
        let k = choose|k: int|
            0 <= k < rest.len() && #[trigger] rest[k] == (
                verdicts.drop_last()[i].1->0@,
                verdicts.drop_last()[i].0,
            );
        assert(verdicts_by_arch(verdicts)[k] == rest[k]);
    } else {
        assert(verdicts.last() == verdicts[i]);
        assert(verdicts_by_arch(verdicts)[rest.len() as int] == (verdicts[i].1->0@, verdicts[i].0));
    }
}

/// The ranges assigned to each architecture, in the order of the verdicts, with the
/// architectures in name order; ranges without an architecture are left out.
pub fn arch_to_final_ranges(verdicts: &Vec<(Range<usize>, Option<String>)>) -> (groups: Vec<
    (String, Vec<Range<usize>>),
>)
    ensures
        grouped_by(name_groups(groups@), verdicts_by_arch(verdicts@)),
        names_sorted(name_groups(groups@)),
        forall|g: int|
            0 <= g < groups@.len() ==> #[trigger] groups@[g].1@ == verdicts@.filter_map(judged_as(groups@[g].0@)),
        forall|i: int|
            0 <= i < verdicts@.len() && #[trigger] verdicts@[i].1 is Some ==> exists|g: int|
                0 <= g < groups@.len() && #[trigger] groups@[g].0@ == verdicts@[i].1->0@
                    && groups@[g].1@.contains(verdicts@[i].0),
{
    let mut groups: Vec<(String, Vec<Range<usize>>)> = Vec::new();
    assert(name_groups(groups@) =~= Seq::empty());
    assert(verdicts_by_arch(verdicts@.take(0)) =~= Seq::empty());
    let mut i: usize = 0;
    while i < verdicts.len()
        invariant
            i <= verdicts.len(),
            grouped_by(name_groups(groups@), verdicts_by_arch(verdicts@.take(i as int))),
            names_sorted(name_groups(groups@)),
        decreases verdicts.len() - i,
    {
        assert(verdicts@.take(i + 1).drop_last() =~= verdicts@.take(i as int));
        assert(verdicts@.take(i + 1).last() == verdicts@[i as int]);
        match &verdicts[i].1 {
            Some(arch) => {
                push_by_name(
                    &mut groups,
                    Ghost(verdicts_by_arch(verdicts@.take(i as int))),
                    arch.clone(),
                    verdicts[i].0.start..verdicts[i].0.end,
                );
            },
            None => {},
        }
        i = i + 1;
    }
    assert(verdicts@.take(verdicts.len() as int) =~= verdicts@);
    proof {
        let stream = verdicts_by_arch(verdicts@);
        let ng = name_groups(groups@);
        assert forall|g: int| 0 <= g < groups@.len() implies #[trigger] groups@[g].1@
            == verdicts@.filter_map(judged_as(groups@[g].0@)) by {
            assert(ng[g] == (groups@[g].0@, groups@[g].1@));
            assert(ng[g].1 == values_for(stream, ng[g].0));
            lemma_ranges_of_arch_exact(verdicts@, groups@[g].0@);
        }
        assert forall|i: int| 0 <= i < verdicts@.len() && #[trigger] verdicts@[i].1 is Some implies exists|g: int|
            0 <= g < groups@.len() && #[trigger] groups@[g].0@ == verdicts@[i].1->0@
                && groups@[g].1@.contains(verdicts@[i].0) by {
            lemma_verdict_listed(verdicts@, i);
            let k = choose|k: int|
                0 <= k < stream.len() && #[trigger] stream[k] == (verdicts@[i].1->0@, verdicts@[i].0);
            lemma_values_for_contains(stream, k);
            let g = choose|g: int| 0 <= g < ng.len() && #[trigger] ng[g].0 == #[trigger] stream[k].0;
            assert(ng[g] == (groups@[g].0@, groups@[g].1@));
            assert(ng[g].1 == values_for(stream, ng[g].0));
            assert(stream[k].1 == verdicts@[i].0);
        }
    }
    groups
}

proof fn lemma_values_for_same_keys<K, V, W>(s1: Seq<(K, V)>, s2: Seq<(K, W)>, key: K)
    requires
        s1.len() == s2.len(),
        forall|i: int| 0 <= i < s1.len() ==> #[trigger] s1[i].0 == s2[i].0,
    ensures
        values_for(s1, key).len() == values_for(s2, key).len(),
    decreases s1.len(),
{
    if s1.len() > 0 {
        assert(s1.last() == s1[s1.len() - 1] && s2.last() == s2[s2.len() - 1]);
        lemma_values_for_same_keys(s1.drop_last(), s2.drop_last(), key);
    }
}

/// `groups` has a group for `key` with `n` values.
pub open spec fn has_group<V>(groups: Seq<(Range<usize>, Seq<V>)>, key: Range<usize>, n: nat) -> bool {
    exists|h: int| 0 <= h < groups.len() && #[trigger] groups[h].0 == key && groups[h].1.len() == n
}

/// Every range that has bigram results also has trigram results, as many of them, and
/// the other way round: looking up the trigram results of a range found among the
/// bigram results never fails.
pub proof fn lemma_range_groups_agree<T>(
    pairs: Seq<(Range<usize>, KlRes<T>, KlRes<T>)>,
    bg: Seq<(Range<usize>, Seq<(String, T)>)>,
    tg: Seq<(Range<usize>, Seq<(String, T)>)>,
)
    requires
        grouped_by(bg, bg_by_range(pairs)),
        grouped_by(tg, tg_by_range(pairs)),
    ensures
        bg.len() == tg.len(),
        forall|g: int| 0 <= g < bg.len() ==> #[trigger] has_group(tg, bg[g].0, bg[g].1.len()),
{
    let sb = bg_by_range(pairs);
    let st = tg_by_range(pairs);
    assert forall|g: int| 0 <= g < bg.len() implies #[trigger] has_group(tg, bg[g].0, bg[g].1.len()) by {
        let k = bg[g].0;
        assert(bg[g].1 == values_for(sb, k) && bg[g].1.len() > 0);
        lemma_values_for_same_keys(sb, st, k);
        if forall|i: int| 0 <= i < sb.len() ==> #[trigger] sb[i].0 != k {
            lemma_values_for_absent(sb, k);
        }
        let i = choose|i: int| 0 <= i < sb.len() && #[trigger] sb[i].0 == k;
        assert(sb[i].0 == pairs[i].0 && st[i].0 == pairs[i].0);
        let h = choose|h: int| 0 <= h < tg.len() && #[trigger] tg[h].0 == #[trigger] st[i].0;
        assert(tg[h].1 == values_for(st, k));
        assert(0 <= h < tg.len() && tg[h].0 == bg[g].0 && tg[h].1.len() == bg[g].1.len());
    }
    lemma_same_key_count(bg, tg, sb, st);
}

proof fn lemma_same_key_count<V, W>(
    a: Seq<(Range<usize>, Seq<V>)>,
    b: Seq<(Range<usize>, Seq<W>)>,
    sa: Seq<(Range<usize>, V)>,
    sb: Seq<(Range<usize>, W)>,
)
    requires
        grouped_by(a, sa),
        grouped_by(b, sb),
        sa.len() == sb.len(),
        forall|i: int| 0 <= i < sa.len() ==> #[trigger] sa[i].0 == sb[i].0,
    ensures
        a.len() == b.len(),
{
    let keys_a = a.map_values(|e: (Range<usize>, Seq<V>)| e.0);
    let keys_b = b.map_values(|e: (Range<usize>, Seq<W>)| e.0);
    let ka = keys_a.to_set();
    let kb = keys_b.to_set();
    assert forall|k: Range<usize>| ka.contains(k) implies kb.contains(k) by {
        let g = choose|g: int| 0 <= g < keys_a.len() && #[trigger] keys_a[g] == k;
        assert(a[g].0 == k);
        assert(a[g].1 == values_for(sa, k) && a[g].1.len() > 0);
        if forall|i: int| 0 <= i < sa.len() ==> #[trigger] sa[i].0 != k {
            lemma_values_for_absent(sa, k);
        }
        let i = choose|i: int| 0 <= i < sa.len() && #[trigger] sa[i].0 == k;
        assert(sb[i].0 == k);
        let h = choose|h: int| 0 <= h < b.len() && #[trigger] b[h].0 == #[trigger] sb[i].0;
        assert(keys_b[h] == k);
    }
    assert forall|k: Range<usize>| kb.contains(k) implies ka.contains(k) by {
        let h = choose|h: int| 0 <= h < keys_b.len() && #[trigger] keys_b[h] == k;
        assert(b[h].0 == k);
        assert(b[h].1 == values_for(sb, k) && b[h].1.len() > 0);
        if forall|i: int| 0 <= i < sb.len() ==> #[trigger] sb[i].0 != k {
            lemma_values_for_absent(sb, k);
        }
        let i = choose|i: int| 0 <= i < sb.len() && #[trigger] sb[i].0 == k;
        assert(sa[i].0 == k);
        let g = choose|g: int| 0 <= g < a.len() && #[trigger] a[g].0 == #[trigger] sa[i].0;
        assert(keys_a[g] == k);
    }
    assert(ka =~= kb);
    lemma_distinct_keys_card(a);
    lemma_distinct_keys_card(b);
}

proof fn lemma_distinct_keys_card<V>(a: Seq<(Range<usize>, Seq<V>)>)
    requires
        forall|g: int, h: int| 0 <= g < h < a.len() ==> #[trigger] a[g].0 != #[trigger] a[h].0,
    ensures
        a.map_values(|e: (Range<usize>, Seq<V>)| e.0).to_set().len() == a.len(),
{
    let keys = a.map_values(|e: (Range<usize>, Seq<V>)| e.0);
    assert(keys.no_duplicates()) by {
        assert forall|g: int, h: int| 0 <= g < keys.len() && 0 <= h < keys.len() && g != h implies keys[g]
            != keys[h] by {
            if g < h {
                assert(a[g].0 != a[h].0);
            } else {
                assert(a[h].0 != a[g].0);
            }
        }
    }
    keys.unique_seq_to_set();
}

/// The divergences that `vs` pairs with the architecture named `a`, in order.
pub open spec fn divs_named<T>(vs: Seq<(String, T)>, a: Seq<char>) -> Seq<T>
    decreases vs.len(),
{
    if vs.len() == 0 {
        Seq::empty()
    } else if vs.last().0@ == a {
        divs_named(vs.drop_last(), a).push(vs.last().1)
    } else {
        divs_named(vs.drop_last(), a)
    }
}

/// The divergences that `vs` pairs with the range `r`, in order.
pub open spec fn divs_at<T>(vs: Seq<(Range<usize>, T)>, r: Range<usize>) -> Seq<T>
    decreases vs.len(),
{
    if vs.len() == 0 {
        Seq::empty()
    } else if vs.last().0 == r {
        divs_at(vs.drop_last(), r).push(vs.last().1)
    } else {
        divs_at(vs.drop_last(), r)
    }
}

/// (range, (architecture, divergence)) for each result.
pub open spec fn keyed_by_range<T>(q: Seq<(Range<usize>, String, T)>) -> Seq<
    (Range<usize>, (String, T)),
> {
    q.map_values(|e: (Range<usize>, String, T)| (e.0, (e.1, e.2)))
}

/// (architecture, (range, divergence)) for each result.
pub open spec fn keyed_by_name<T>(q: Seq<(Range<usize>, String, T)>) -> Seq<
    (Seq<char>, (Range<usize>, T)),
> {
    q.map_values(|e: (Range<usize>, String, T)| (e.1@, (e.0, e.2)))
}

proof fn lemma_transpose_streams<T>(q: Seq<(Range<usize>, String, T)>, r: Range<usize>, a: Seq<char>)
    ensures
        divs_named(values_for(keyed_by_range(q), r), a) == divs_at(
            values_for(keyed_by_name(q), a),
            r,
        ),
    decreases q.len(),
{
    if q.len() > 0 {
        let p = q.drop_last();
        lemma_transpose_streams(p, r, a);
        assert(keyed_by_range(q).drop_last() =~= keyed_by_range(p));
        assert(keyed_by_name(q).drop_last() =~= keyed_by_name(p));
        let e = q.last();
        assert(keyed_by_range(q).last() == (e.0, (e.1, e.2)));
        assert(keyed_by_name(q).last() == (e.1@, (e.0, e.2)));
        let vr = values_for(keyed_by_range(p), r);
        let vn = values_for(keyed_by_name(p), a);
        if e.0 == r {
            assert(values_for(keyed_by_range(q), r) == vr.push((e.1, e.2)));
            assert(vr.push((e.1, e.2)).drop_last() =~= vr);
        }
        if e.1@ == a {
            assert(values_for(keyed_by_name(q), a) == vn.push((e.0, e.2)));
            assert(vn.push((e.0, e.2)).drop_last() =~= vn);
        }
    }
}

proof fn lemma_groups_transpose<T>(
    q: Seq<(Range<usize>, String, T)>,
    by_range: Seq<(Range<usize>, Seq<(String, T)>)>,
    by_name: Seq<(Seq<char>, Seq<(Range<usize>, T)>)>,
)
    requires
        grouped_by(by_range, keyed_by_range(q)),
        grouped_by(by_name, keyed_by_name(q)),
    ensures
        forall|g: int, h: int|
            0 <= g < by_range.len() && 0 <= h < by_name.len() ==> #[trigger] divs_named(
                by_range[g].1,
                by_name[h].0,
            ) == #[trigger] divs_at(by_name[h].1, by_range[g].0),
{
    assert forall|g: int, h: int| 0 <= g < by_range.len() && 0 <= h < by_name.len() implies #[trigger] divs_named(
        by_range[g].1,
        by_name[h].0,
    ) == #[trigger] divs_at(by_name[h].1, by_range[g].0) by {
        assert(by_range[g].1 == values_for(keyed_by_range(q), by_range[g].0));
        assert(by_name[h].1 == values_for(keyed_by_name(q), by_name[h].0));
        lemma_transpose_streams(q, by_range[g].0, by_name[h].0);
    }
}

/// The regrouping by range and the regrouping by architecture are transposes of each
/// other: for every range `r` and architecture `a`, the divergences of `a` in the group
/// of `r` are, in order, the divergences at `r` in the group of `a`; for bigrams and
/// for trigrams.
pub proof fn lemma_groupings_transpose<T>(
    pairs: Seq<(Range<usize>, KlRes<T>, KlRes<T>)>,
    bg_range: Seq<(Range<usize>, Seq<(String, T)>)>,
    bg_arch: Seq<(Seq<char>, Seq<(Range<usize>, T)>)>,
    tg_range: Seq<(Range<usize>, Seq<(String, T)>)>,
    tg_arch: Seq<(Seq<char>, Seq<(Range<usize>, T)>)>,
)
    requires
        grouped_by(bg_range, bg_by_range(pairs)),
        grouped_by(bg_arch, bg_by_arch(pairs)),
        grouped_by(tg_range, tg_by_range(pairs)),
        grouped_by(tg_arch, tg_by_arch(pairs)),
    ensures
        forall|g: int, h: int|
            0 <= g < bg_range.len() && 0 <= h < bg_arch.len() ==> #[trigger] divs_named(
                bg_range[g].1,
                bg_arch[h].0,
            ) == #[trigger] divs_at(bg_arch[h].1, bg_range[g].0),
        forall|g: int, h: int|
            0 <= g < tg_range.len() && 0 <= h < tg_arch.len() ==> #[trigger] divs_named(
                tg_range[g].1,
                tg_arch[h].0,
            ) == #[trigger] divs_at(tg_arch[h].1, tg_range[g].0),
{
    let qb = pairs.map_values(|e: (Range<usize>, KlRes<T>, KlRes<T>)| (e.0, e.1.arch, e.1.div));
    let qt = pairs.map_values(|e: (Range<usize>, KlRes<T>, KlRes<T>)| (e.0, e.2.arch, e.2.div));
    assert(keyed_by_range(qb) =~= bg_by_range(pairs));
    assert(keyed_by_name(qb) =~= bg_by_arch(pairs));
    assert(keyed_by_range(qt) =~= tg_by_range(pairs));
    assert(keyed_by_name(qt) =~= tg_by_arch(pairs));
    lemma_groups_transpose(qb, bg_range, bg_arch);
    lemma_groups_transpose(qt, tg_range, tg_arch);
}

} // verus!
