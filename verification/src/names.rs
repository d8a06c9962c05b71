//! The order of architecture names: lexicographic by code point, which is the order
//! of `String` (byte order of UTF-8 agrees with code point order).
use vstd::prelude::*;

verus! {

/// `a` comes before `b`: at the first position where they differ `a` has the smaller
/// character, or `a` is a proper prefix of `b`.
pub open spec fn name_lt(a: Seq<char>, b: Seq<char>) -> bool
    decreases a.len(),
{
    if a.len() == 0 {
        b.len() > 0
    } else if b.len() == 0 {
        false
    } else if a[0] != b[0] {
        a[0] < b[0]
    } else {
        name_lt(a.drop_first(), b.drop_first())
    }
}

/// No name comes before itself.
pub proof fn lemma_name_lt_irreflexive(a: Seq<char>)
    ensures
        !name_lt(a, a),
    decreases a.len(),
{
    if a.len() > 0 {
        lemma_name_lt_irreflexive(a.drop_first());
    }
}

/// The order is transitive.
pub proof fn lemma_name_lt_transitive(a: Seq<char>, b: Seq<char>, c: Seq<char>)
    requires
        name_lt(a, b),
        name_lt(b, c),
    ensures
        name_lt(a, c),
    decreases a.len(),
{
    if a.len() > 0 && b.len() > 0 && c.len() > 0 && a[0] == b[0] && b[0] == c[0] {
        lemma_name_lt_transitive(a.drop_first(), b.drop_first(), c.drop_first());
    }
}

/// Of two different names, one comes before the other.
pub proof fn lemma_name_lt_total(a: Seq<char>, b: Seq<char>)
    requires
        a != b,
    ensures
        name_lt(a, b) || name_lt(b, a),
    decreases a.len(),
{
    if a.len() == 0 {
        assert(b.len() > 0) by {
            if b.len() == 0 {
                assert(a =~= b);
            }
        }
    } else if b.len() > 0 && a[0] == b[0] {
        if a.drop_first() == b.drop_first() {
            assert(a =~= seq![a[0]] + a.drop_first());
            assert(b =~= seq![b[0]] + b.drop_first());
        }
        lemma_name_lt_total(a.drop_first(), b.drop_first());
    }
}

/// `name_lt` is the lexicographic order on characters: `a` comes before `b` when it is a
/// proper prefix of `b`, or when at the first position where they differ the character
/// of `a` is the smaller one.
pub proof fn lemma_name_lt_lexicographic(a: Seq<char>, b: Seq<char>)
    ensures
        name_lt(a, b) <==> (a.len() < b.len() && a == b.take(a.len() as int)) || exists|i: int|
            0 <= i < a.len() && i < b.len() && a.take(i) == b.take(i) && #[trigger] a[i]
                < #[trigger] b[i],
    decreases a.len(),
{
    if a.len() == 0 {
        assert(a =~= b.take(0));
    } else if b.len() == 0 {
    } else if a[0] != b[0] {
        if a.len() < b.len() && a == b.take(a.len() as int) {
            assert(a[0] == b.take(a.len() as int)[0]);
        }
        if exists|i: int|
            0 <= i < a.len() && i < b.len() && a.take(i) == b.take(i) && #[trigger] a[i]
                < #[trigger] b[i] {
            let i = choose|i: int|
                0 <= i < a.len() && i < b.len() && a.take(i) == b.take(i) && #[trigger] a[i]
                    < #[trigger] b[i];
            if i > 0 {
                assert(a.take(i)[0] == b.take(i)[0]);
            }
        }
        if a[0] < b[0] {
            assert(a.take(0) =~= b.take(0));
            assert(a[0] < b[0]);
        }
    } else {
        let a1 = a.drop_first();
        let b1 = b.drop_first();
        lemma_name_lt_lexicographic(a1, b1);
        if a1.len() < b1.len() && a1 == b1.take(a1.len() as int) {
            assert(a =~= b.take(a.len() as int)) by {
                assert forall|k: int| 0 <= k < a.len() implies a[k] == b.take(a.len() as int)[k] by {
                    if k > 0 {
                        assert(a1[k - 1] == b1.take(a1.len() as int)[k - 1]);
                    }
                }
            }
        }
        if a.len() < b.len() && a == b.take(a.len() as int) {
            assert(a1 =~= b1.take(a1.len() as int)) by {
                assert forall|k: int| 0 <= k < a1.len() implies a1[k] == b1.take(a1.len() as int)[k] by {
                    assert(a[k + 1] == b.take(a.len() as int)[k + 1]);
                }
            }
        }
        if exists|i: int|
            0 <= i < a1.len() && i < b1.len() && a1.take(i) == b1.take(i) && #[trigger] a1[i]
                < #[trigger] b1[i] {
            let i = choose|i: int|
                0 <= i < a1.len() && i < b1.len() && a1.take(i) == b1.take(i) && #[trigger] a1[i]
                    < #[trigger] b1[i];
            assert(a.take(i + 1) =~= b.take(i + 1)) by {
                assert forall|k: int| 0 <= k < i + 1 implies #[trigger] a.take(i + 1)[k] == b.take(i + 1)[k] by {
                    if k > 0 {
                        assert(a1.take(i)[k - 1] == b1.take(i)[k - 1]);
                    }
                }
            }
            assert(a[i + 1] == a1[i] && b[i + 1] == b1[i]);
        }
        if exists|i: int|
            0 <= i < a.len() && i < b.len() && a.take(i) == b.take(i) && #[trigger] a[i]
                < #[trigger] b[i] {
            let i = choose|i: int|
                0 <= i < a.len() && i < b.len() && a.take(i) == b.take(i) && #[trigger] a[i]
                    < #[trigger] b[i];
            assert(i > 0);
            assert(a1.take(i - 1) =~= b1.take(i - 1)) by {
                assert forall|k: int| 0 <= k < i - 1 implies #[trigger] a1.take(i - 1)[k] == b1.take(i - 1)[k] by {
                    assert(a.take(i)[k + 1] == b.take(i)[k + 1]);
                }
            }
            assert(a1[i - 1] == a[i] && b1[i - 1] == b[i]);
        }
    }
}

/// Whether the name `a` comes before the name `b`.
pub fn name_less(a: &String, b: &String) -> (lt: bool)
    ensures
        lt == name_lt(a@, b@),
{
    let sa = a.as_str();
    let sb = b.as_str();
    let n = sa.unicode_len();
    let m = sb.unicode_len();
    let mut i: usize = 0;
    assert(a@.skip(0) =~= a@ && b@.skip(0) =~= b@);
    while i < n && i < m
        invariant
            n == a@.len(),
            m == b@.len(),
            sa@ == a@,
            sb@ == b@,
            i <= n && i <= m,
            name_lt(a@, b@) == name_lt(a@.skip(i as int), b@.skip(i as int)),
        decreases n - i,
    {
        let ca = sa.get_char(i);
        let cb = sb.get_char(i);
        let ghost ra = a@.skip(i as int);
        let ghost rb = b@.skip(i as int);
        assert(ra[0] == ca && rb[0] == cb);
        if ca != cb {
            return ca < cb;
        }
        assert(ra.drop_first() =~= a@.skip(i + 1));
        assert(rb.drop_first() =~= b@.skip(i + 1));
        i = i + 1;
    }
    proof {
        let ra = a@.skip(i as int);
        let rb = b@.skip(i as int);
        assert(ra.len() == 0 || rb.len() == 0);
    }
    n < m
}

} // verus!
