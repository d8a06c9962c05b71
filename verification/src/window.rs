//! How a file is cut into the windows that are compared with the corpus.
use std::ops::Range;
use vstd::prelude::*;

verus! {

/// The integer part of the binary logarithm of `n` (0 for `n < 2`).
pub open spec fn floor_log2(n: nat) -> nat
    decreases n,
{
    if n < 2 {
        0
    } else {
        1 + floor_log2(n / 2)
    }
}

/// Half the window size used for a file of `len` bytes. Files up to 16 MiB get a
/// fixed size by class; beyond that the number of windows grows logarithmically in
/// the file size, and the result is rounded down to a multiple of 4 KiB (keeping the
/// low 32 bits of the quotient, as the mask does).
pub open spec fn window_half_size_spec(len: usize) -> usize {
    if len <= 0x1000 {
        0x100
    } else if len <= 0x8000 {
        0x200
    } else if len <= 0x20000 {
        0x400
    } else if len <= 0x100000 {
        0x800
    } else if len <= 0x1000000 {
        0x1000
    } else {
        (((len as nat) / (170 * floor_log2(len as nat))) as usize) & 0xFFFFF000usize
    }
}

/// The integer part of the binary logarithm of `n` (0 for `n < 2`).
pub fn floor_log2_usize(n: usize) -> (r: u32)
    ensures
        r == floor_log2(n as nat),
        r < 64,
        n >= 1 ==> vstd::arithmetic::power2::pow2(r as nat) <= n < vstd::arithmetic::power2::pow2(
            r as nat + 1,
        ),
{
    proof {
        vstd::arithmetic::power2::lemma2_to64();
        lemma_floor_log2_below(n as nat, 64);
        if n >= 1 {
            lemma_floor_log2_bounds(n as nat);
        }
    }
    let mut r: u32 = 0;
    let mut m: usize = n;
    while m >= 2
        invariant
            r + floor_log2(m as nat) == floor_log2(n as nat),
            floor_log2(n as nat) < 64,
        decreases m,
    {
        m = m / 2;
        r = r + 1;
    }
    r
}

/// `floor_log2(n)` is the exponent of the largest power of two that is at most `n`.
pub proof fn lemma_floor_log2_bounds(n: nat)
    requires
        n >= 1,
    ensures
        vstd::arithmetic::power2::pow2(floor_log2(n)) <= n,
        n < vstd::arithmetic::power2::pow2(floor_log2(n) + 1),
    decreases n,
{
    lemma_pow2_floor_log2(n);
    if n < 2 {
        vstd::arithmetic::power2::lemma2_to64();
    } else {
        lemma_floor_log2_bounds(n / 2);
        vstd::arithmetic::power2::lemma_pow2_unfold(floor_log2(n) + 1);
    }
}

proof fn lemma_floor_log2_below(n: nat, k: nat)
    requires
        n < vstd::arithmetic::power2::pow2(k),
        k >= 1,
    ensures
        floor_log2(n) < k,
    decreases k,
{
    vstd::arithmetic::power2::lemma_pow2_unfold(k);
    if n >= 2 && k > 1 {
        lemma_floor_log2_below(n / 2, (k - 1) as nat);
    } else if n >= 2 {
        assert(vstd::arithmetic::power2::pow2(0) == 1) by {
            vstd::arithmetic::power2::lemma2_to64();
        }
    }
}

/// Half the window size used to analyse a file of `file_len` bytes.
pub fn window_half_size(file_len: usize) -> (w: usize)
    ensures
        w == window_half_size_spec(file_len),
        w % 4096 == 0 || file_len <= 0x1000000,
        file_len > 0x1000000 && file_len as nat / (170 * floor_log2(file_len as nat))
            < 0x1_0000_0000 ==> w <= file_len as nat / (170 * floor_log2(file_len as nat)) < w
            + 4096,
{
    if file_len <= 0x1000 {
        0x100
    } else if file_len <= 0x8000 {
        0x200
    } else if file_len <= 0x20000 {
        0x400
    } else if file_len <= 0x100000 {
        0x800
    } else if file_len <= 0x1000000 {
        0x1000
    } else {
        let log = floor_log2_usize(file_len);
        proof {
            vstd::arithmetic::power2::lemma2_to64();
            lemma_floor_log2_at_least(file_len as nat, 0x1000000, 24);
        }
        let q = file_len / (170 * log as usize);
        let w = q & 0xFFFFF000usize;
        assert(w % 4096 == 0) by (bit_vector)
            requires
                w == q & 0xFFFFF000usize,
        ;
        assert(q < 0x1_0000_0000 ==> w <= q && q < w + 4096) by (bit_vector)
            requires
                w == q & 0xFFFFF000usize,
        ;
        w
    }
}

proof fn lemma_floor_log2_at_least(n: nat, m: nat, k: nat)
    requires
        m <= n,
        m == vstd::arithmetic::power2::pow2(k),
    ensures
        floor_log2(n) >= k,
    decreases k,
{
    if k > 0 {
        vstd::arithmetic::power2::lemma_pow2_unfold(k);
        vstd::arithmetic::power2::lemma_pow2_pos((k - 1) as nat);
        lemma_floor_log2_at_least(n / 2, vstd::arithmetic::power2::pow2((k - 1) as nat), (k - 1) as nat);
    }
}

proof fn lemma_pow2_floor_log2(n: nat)
    requires
        n >= 1,
    ensures
        vstd::arithmetic::power2::pow2(floor_log2(n)) <= n,
    decreases n,
{
    if n < 2 {
        vstd::arithmetic::power2::lemma2_to64();
    } else {
        lemma_pow2_floor_log2(n / 2);
        vstd::arithmetic::power2::lemma_pow2_unfold(floor_log2(n));
    }
}

proof fn lemma_pow2_outgrows(l: nat)
    requires
        l >= 24,
    ensures
        696320 * l <= vstd::arithmetic::power2::pow2(l),
    decreases l,
{
    if l == 24 {
        vstd::arithmetic::power2::lemma2_to64();
    } else {
        lemma_pow2_outgrows((l - 1) as nat);
        vstd::arithmetic::power2::lemma_pow2_unfold(l);
    }
}

/// Files below 2^40 bytes always get a non-empty window, and twice its size fits in
/// a `usize`.
pub proof fn lemma_window_nonzero(len: usize)
    requires
        len < 0x100_0000_0000,
    ensures
        window_half_size_spec(len) > 0,
        2 * window_half_size_spec(len) <= usize::MAX,
{
    if len > 0x1000000 {
        let n = len as nat;
        let l = floor_log2(n);
        vstd::arithmetic::power2::lemma2_to64();
        lemma_floor_log2_at_least(n, 0x1000000, 24);
        vstd::arithmetic::power2::lemma2_to64_rest();
        lemma_floor_log2_below(n, 40);
        lemma_pow2_floor_log2(n);
        lemma_pow2_outgrows(l);
        let d = 170 * l;
        assert(4096 * d <= n);
        assert(d >= 4080);
        let q = n / d;
        assert(q >= 4096) by (nonlinear_arith)
            requires
                4096 * d <= n,
                d > 0,
                q == n / d,
        ;
        assert(q <= n / 4080) by {
            vstd::arithmetic::div_mod::lemma_div_is_ordered_by_denominator(n as int, 4080, d as int);
        }
        assert(q < 0x2000_0000);
        let qu = q as usize;
        let w = qu & 0xFFFFF000usize;
        assert(w >= 4096 && w <= qu) by (bit_vector)
            requires
                4096 <= qu,
                qu < 0x2000_0000,
                w == qu & 0xFFFFF000usize,
        ;
    }
}

/// Number of windows of `step` bytes needed to cover `len` bytes.
pub open spec fn window_count(len: nat, step: nat) -> nat {
    ((len + step - 1) / step as int) as nat
}

/// The `k`-th window of `step` bytes over `len` bytes; the last one may be shorter.
pub open spec fn window_at(len: usize, step: usize, k: int) -> Range<usize> {
    let start = k * step;
    let end = if len - start < step {
        len as int
    } else {
        start + step
    };
    Range { start: start as usize, end: end as usize }
}

/// The consecutive windows of `step` bytes that cover `len` bytes.
pub open spec fn windows_spec(len: usize, step: usize) -> Seq<Range<usize>> {
    Seq::new(window_count(len as nat, step as nat), |k: int| window_at(len, step, k))
}

/// Cuts `file_len` bytes into consecutive windows of `step` bytes starting at offset 0,
/// where the last window ends at `file_len`.
pub fn windows_of(file_len: usize, step: usize) -> (windows: Vec<Range<usize>>)
    requires
        step > 0,
    ensures
        windows@ == windows_spec(file_len, step),
{
    let mut windows: Vec<Range<usize>> = Vec::new();
    let mut start: usize = 0;
    let ghost mut k: int = 0;
    while start < file_len
        invariant
            step > 0,
            0 <= k,
            k == windows@.len(),
            start <= file_len,
            k == 0 ==> start == 0,
            start < file_len ==> start == k * step,
            start == file_len ==> k * step >= file_len,
            k > 0 ==> (k - 1) * step < file_len,
            forall|i: int| 0 <= i < k ==> #[trigger] windows@[i] == window_at(file_len, step, i),
        decreases file_len - start,
    {
        let end = if file_len - start < step {
            file_len
        } else {
            start + step
        };
        windows.push(start..end);
        proof {
            assert(windows@[k] == window_at(file_len, step, k));
            assert((k + 1) * step == k * step + step) by (nonlinear_arith);
            k = k + 1;
        }
        start = end;
    }
    proof {
        lemma_window_count(file_len as nat, step as nat, k);
    }
    assert(windows@ =~= windows_spec(file_len, step));
    windows
}

proof fn lemma_window_count(len: nat, step: nat, k: int)
    requires
        step > 0,
        k >= 0,
        k * step >= len,
        k == 0 || (k - 1) * step < len,
    ensures
        k == window_count(len, step),
{
    let c = (len + step - 1) / step as int;
    vstd::arithmetic::div_mod::lemma_fundamental_div_mod((len + step - 1) as int, step as int);
    let r = (len + step - 1) % step as int;
    assert(0 <= r < step);
    assert(c * step + r == len + step - 1) by (nonlinear_arith)
        requires
            step * c + r == len + step - 1,
    ;
    if k == 0 {
        assert(len == 0);
        assert(c == 0) by (nonlinear_arith)
            requires
                c * step + r == step - 1,
                0 <= r < step,
        ;
    } else {
        assert(c == k) by (nonlinear_arith)
            requires
                c * step + r == len + step - 1,
                0 <= r < step,
                k * step >= len,
                (k - 1) * step < len,
                step > 0,
        ;
    }
}

/// The windows in which a file of `file_len` bytes is analysed: consecutive ranges of
/// twice the half window size, starting at offset 0, the last one ending at `file_len`.
pub fn analysis_windows(file_len: usize) -> (windows: Vec<Range<usize>>)
    requires
        window_half_size_spec(file_len) > 0,
        2 * window_half_size_spec(file_len) <= usize::MAX,
    ensures
        windows@ == windows_spec(file_len, (2 * window_half_size_spec(file_len)) as usize),
{
    let w = window_half_size(file_len);
    windows_of(file_len, 2 * w)
}

proof fn lemma_window_bounds(len: usize, step: usize, c: int, i: int)
    requires
        step > 0,
        0 <= i < c,
        c * step >= len,
        (c - 1) * step < len,
    ensures
        i * step < len,
        (i + 1) * step == i * step + step,
        i < c - 1 ==> i * step + step < len,
        i == c - 1 ==> len - i * step <= step,
{
    assert(i * step <= (c - 1) * step) by (nonlinear_arith)
        requires
            i <= c - 1,
            step > 0,
    ;
    assert((i + 1) * step == i * step + step) by (nonlinear_arith);
    assert((c - 1) * step + step == c * step) by (nonlinear_arith);
    if i < c - 1 {
        assert((i + 1) * step <= (c - 1) * step) by (nonlinear_arith)
            requires
                i + 1 <= c - 1,
                step > 0,
        ;
    }
}

/// The windows cover `0..len` without gap or overlap: the first starts at 0, each
/// starts where the previous ends, the last ends at `len`, none is empty, and all but
/// the last are exactly `step` bytes long.
pub proof fn lemma_windows_partition(len: usize, step: usize)
    requires
        step > 0,
    ensures
        ({
            let w = windows_spec(len, step);
            &&& (len == 0 <==> w.len() == 0)
            &&& w.len() > 0 ==> w[0].start == 0 && w.last().end == len
            &&& forall|i: int|
                0 <= i < w.len() - 1 ==> #[trigger] w[i].end == w[i + 1].start && w[i].end
                    - w[i].start == step
            &&& forall|i: int| 0 <= i < w.len() ==> #[trigger] w[i].start < w[i].end
            &&& forall|i: int| 0 <= i < w.len() ==> #[trigger] w[i].end - w[i].start <= step
        }),
{
    let w = windows_spec(len, step);
    let c = window_count(len as nat, step as nat);
    vstd::arithmetic::div_mod::lemma_fundamental_div_mod((len + step - 1) as int, step as int);
    let r = (len + step - 1) % step as int;
    assert(c * step + r == len + step - 1) by (nonlinear_arith)
        requires
            step * c + r == len + step - 1,
    ;
    assert(c * step >= len && (c == 0 || (c - 1) * step < len)) by (nonlinear_arith)
        requires
            c * step + r == len + step - 1,
            0 <= r < step,
            c >= 0,
    ;
    if len == 0 {
        assert(c == 0) by (nonlinear_arith)
            requires
                c * step + r == step - 1,
                0 <= r < step,
                c >= 0,
        ;
    } else {
        assert(c > 0);
        assert(w[0].start == 0);
        let l = c - 1;
        lemma_window_bounds(len, step, c as int, l);
        assert(w.last() == window_at(len, step, l));
    }
    assert forall|i: int| 0 <= i < w.len() - 1 implies #[trigger] w[i].end == w[i + 1].start
        && w[i].end - w[i].start == step by {
        lemma_window_bounds(len, step, c as int, i);
        lemma_window_bounds(len, step, c as int, i + 1);
        assert(w[i] == window_at(len, step, i));
        assert(w[i + 1] == window_at(len, step, i + 1));
    }
    assert forall|i: int| 0 <= i < w.len() implies #[trigger] w[i].start < w[i].end by {
        lemma_window_bounds(len, step, c as int, i);
        assert(w[i] == window_at(len, step, i));
    }
    assert forall|i: int| 0 <= i < w.len() implies #[trigger] w[i].end - w[i].start <= step by {
        lemma_window_bounds(len, step, c as int, i);
        assert(w[i] == window_at(len, step, i));
    }
}

} // verus!
