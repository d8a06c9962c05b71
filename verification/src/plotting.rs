//! The computations behind the plots: axis key points, SI prefixes for labels,
//! colours of architectures, and the names under which plots are stored.
use vstd::prelude::*;

verus! {

/// Powers of two reached by doubling `p` until it is at least `n`.
pub open spec fn double_until(n: nat, p: nat) -> nat
    decreases (if p < n { n - p } else { 0 }),
    when p >= 1
{
    if p >= n {
        p
    } else {
        double_until(n, 2 * p)
    }
}

/// The smallest power of two that is at least `n` (1 for `n <= 1`).
pub open spec fn next_power_of_two(n: nat) -> nat {
    double_until(n, 1)
}

/// `0, step, 2 * step, ...` up to and including the last multiple of `step` that is at
/// most `end`.
pub open spec fn key_points_spec(end: nat, step: nat) -> Seq<usize> {
    Seq::new(end / step + 1, |k: int| (k * step) as usize)
}

proof fn lemma_double_until(n: nat, p: nat, e: nat)
    requires
        p >= 1,
        p == vstd::arithmetic::power2::pow2(e),
        p == 1 || p < 2 * n,
    ensures
        exists|f: nat|
            double_until(n, p) == #[trigger] vstd::arithmetic::power2::pow2(f) && (f == 0
                || vstd::arithmetic::power2::pow2((f - 1) as nat) < n),
        double_until(n, p) >= n,
        double_until(n, p) >= p,
    decreases (if p < n { n - p } else { 0 }),
{
    if p < n {
        vstd::arithmetic::power2::lemma_pow2_unfold(e + 1);
        lemma_double_until(n, 2 * p, e + 1);
    } else {
        if e > 0 {
            vstd::arithmetic::power2::lemma_pow2_unfold(e);
        }
        assert(double_until(n, p) == vstd::arithmetic::power2::pow2(e));
    }
}

/// `next_power_of_two(n)` is the least power of two that is at least `n`.
pub proof fn lemma_next_power_of_two(n: nat)
    ensures
        exists|e: nat|
            next_power_of_two(n) == #[trigger] vstd::arithmetic::power2::pow2(e) && (e == 0
                || vstd::arithmetic::power2::pow2((e - 1) as nat) < n),
        next_power_of_two(n) >= n,
        next_power_of_two(n) >= 1,
{
    vstd::arithmetic::power2::lemma2_to64();
    lemma_double_until(n, 1, 0);
}

/// The key points `0, step, 2 * step, ...` up to `end`.
pub fn key_points(end: usize, step: usize) -> (points: Vec<usize>)
    requires
        step > 0,
    ensures
        points@ == key_points_spec(end as nat, step as nat),
{
    let mut points: Vec<usize> = Vec::new();
    let mut v: usize = 0;
    points.push(0);
    let ghost mut k: int = 0;
    while end - v >= step
        invariant
            step > 0,
            0 <= k,
            v == k * step,
            v <= end,
            points@.len() == k + 1,
            forall|i: int| 0 <= i <= k ==> #[trigger] points@[i] == (i * step) as usize,
        decreases end - v,
    {
        proof {
            assert((k + 1) * step == k * step + step) by (nonlinear_arith);
            k = k + 1;
        }
        v = v + step;
        points.push(v);
    }
    assert(k == (end as int) / (step as int)) by (nonlinear_arith)
        requires
            k * step <= end,
            end < k * step + step,
            step > 0,
            k >= 0,
    ;
    assert(points@ =~= key_points_spec(end as nat, step as nat));
    points
}

/// Step of the hexadecimal axis labels: the smallest power of two that is at least
/// `range_end / max_labels`.
pub open spec fn hex_step(range_end: nat, max_labels: nat) -> nat {
    next_power_of_two(range_end / max_labels)
}

/// Key points of an axis from 0 to `range_end` whose labels read well in hexadecimal:
/// a power-of-two step such that there are about `max_labels` of them.
pub fn hex_key_points(range_end: usize, max_labels: usize) -> (points: Vec<usize>)
    requires
        range_end == 0 || max_labels == 0 || hex_step(range_end as nat, max_labels as nat)
            <= usize::MAX,
    ensures
        range_end == 0 || max_labels == 0 ==> points@ == seq![0usize],
        range_end > 0 && max_labels > 0 ==> points@ == key_points_spec(
            range_end as nat,
            hex_step(range_end as nat, max_labels as nat),
        ),
{
    if range_end == 0 || max_labels == 0 {
        return vec![0];
    }
    let ideal_step = range_end / max_labels;
    let ghost n = ideal_step as nat;
    proof {
        lemma_next_power_of_two(n);
        lemma_double_until_monotone(n, 1);
    }
    let mut step: usize = 1;
    while step < ideal_step
        invariant
            step >= 1,
            ideal_step == n,
            double_until(n, step as nat) == next_power_of_two(n),
            next_power_of_two(n) <= usize::MAX,
            double_until(n, step as nat) >= step,
        decreases usize::MAX - step,
    {
        proof {
            lemma_double_until_monotone(n, 2 * step as nat);
        }
        step = step * 2;
    }
    key_points(range_end, step)
}

proof fn lemma_double_until_monotone(n: nat, p: nat)
    requires
        p >= 1,
    ensures
        double_until(n, p) >= p,
    decreases (if p < n { n - p } else { 0 }),
{
    if p < n {
        lemma_double_until_monotone(n, 2 * p);
    }
}

/// The integer part of the decimal logarithm of `n` (0 for `n < 10`).
pub open spec fn floor_log10(n: nat) -> nat
    decreases n,
{
    if n < 10 {
        0
    } else {
        1 + floor_log10(n / 10)
    }
}

/// `10` to the power `e`.
pub open spec fn pow10(e: nat) -> nat
    decreases e,
{
    if e == 0 {
        1
    } else {
        10 * pow10((e - 1) as nat)
    }
}

/// Step of the decimal axis labels: the smallest of `1, 2, 5, 10` times the power of
/// ten below `ideal` that is at least `ideal`.
pub open spec fn nice_decimal_step(ideal: nat) -> nat {
    let magnitude = pow10(floor_log10(ideal));
    if ideal <= magnitude {
        magnitude
    } else if ideal <= 2 * magnitude {
        2 * magnitude
    } else if ideal <= 5 * magnitude {
        5 * magnitude
    } else {
        10 * magnitude
    }
}

/// Step of the decimal axis labels for an axis from 0 to `range_end` with about
/// `max_labels` labels (at least 1).
pub open spec fn decimal_step(range_end: nat, max_labels: nat) -> nat {
    let nice = nice_decimal_step(range_end / max_labels);
    if nice >= 1 {
        nice
    } else {
        1
    }
}

/// `pow10` is exponentiation with base ten.
pub proof fn lemma_pow10_is_pow(e: nat)
    ensures
        pow10(e) == vstd::arithmetic::power::pow(10, e),
    decreases e,
{
    reveal(vstd::arithmetic::power::pow);
    if e > 0 {
        lemma_pow10_is_pow((e - 1) as nat);
    }
}

/// `pow10(floor_log10(n))` is the largest power of ten that is at most `n`.
pub proof fn lemma_floor_log10_bounds(n: nat)
    requires
        n >= 1,
    ensures
        pow10(floor_log10(n)) <= n < 10 * pow10(floor_log10(n)),
    decreases n,
{
    if n >= 10 {
        lemma_floor_log10_bounds(n / 10);
    }
}

/// The step of the decimal axis labels is 1, 2 or 5 times a power of ten, at least the
/// ideal step and at most two and a half times it.
pub proof fn lemma_nice_decimal_step(ideal: nat)
    requires
        ideal >= 1,
    ensures
        ideal <= nice_decimal_step(ideal),
        2 * nice_decimal_step(ideal) <= 5 * ideal,
        exists|e: nat|
            nice_decimal_step(ideal) == #[trigger] vstd::arithmetic::power::pow(10, e)
                || nice_decimal_step(ideal) == 2 * vstd::arithmetic::power::pow(10, e)
                || nice_decimal_step(ideal) == 5 * vstd::arithmetic::power::pow(10, e),
{
    let f = floor_log10(ideal);
    let m = pow10(f);
    lemma_floor_log10_bounds(ideal);
    lemma_pow10_is_pow(f);
    lemma_pow10_is_pow(f + 1);
    assert(pow10(f + 1) == 10 * m);
    if ideal > 5 * m {
        assert(nice_decimal_step(ideal) == vstd::arithmetic::power::pow(10, f + 1));
    } else {
        assert(nice_decimal_step(ideal) == m || nice_decimal_step(ideal) == 2 * m
            || nice_decimal_step(ideal) == 5 * m);
        assert(m == vstd::arithmetic::power::pow(10, f));
    }
}

/// The power of ten that has as many digits as `n` (1 for `n < 10`).
pub fn decimal_magnitude(n: usize) -> (m: usize)
    ensures
        m == pow10(floor_log10(n as nat)),
        m >= 1,
        m <= n || n == 0,
        n < 10 * m,
        exists|e: nat| m == #[trigger] vstd::arithmetic::power::pow(10, e),
{
    proof {
        lemma_pow10_is_pow(floor_log10(n as nat));
        if n >= 1 {
            lemma_floor_log10_bounds(n as nat);
        }
    }
    let mut q: usize = n;
    let mut m: usize = 1;
    let ghost mut j: nat = 0;
    while q >= 10
        invariant
            m == pow10(j),
            j + floor_log10(q as nat) == floor_log10(n as nat),
            m * q <= n,
            m >= 1,
            q >= 1 || n == 0,
        decreases q,
    {
        assert(m * 10 <= m * q) by (nonlinear_arith)
            requires
                q >= 10,
                m >= 1,
        ;
        assert((m * 10) * (q / 10) <= m * q) by (nonlinear_arith)
            requires
                q >= 10,
                m >= 1,
        ;
        q = q / 10;
        m = m * 10;
        proof {
            j = j + 1;
        }
    }
    assert(m <= n || n == 0) by (nonlinear_arith)
        requires
            m * q <= n,
            q >= 1 || n == 0,
            m >= 1,
    ;
    m
}

/// Key points of an axis from 0 to `range_end` whose labels read well in decimal:
/// a step of 1, 2 or 5 times a power of ten such that there are about `max_labels`.
pub fn decimal_key_points(range_end: usize, max_labels: usize) -> (points: Vec<usize>)
    requires
        max_labels > 0,
        nice_decimal_step(range_end as nat / max_labels as nat) <= usize::MAX,
    ensures
        points@ == key_points_spec(
            range_end as nat,
            decimal_step(range_end as nat, max_labels as nat),
        ),
{
    let ideal_step = range_end / max_labels;
    let magnitude = decimal_magnitude(ideal_step);
    let nice_step = if ideal_step <= magnitude {
        magnitude
    } else if ideal_step <= 2 * magnitude {
        2 * magnitude
    } else if ideal_step <= 5 * magnitude {
        5 * magnitude
    } else {
        10 * magnitude
    };
    let step = if nice_step >= 1 {
        nice_step
    } else {
        1
    };
    key_points(range_end, step)
}

/// How an axis value is written with a decimal SI prefix: unchanged, as a whole number
/// of the prefix's unit, or as a fraction of it (written with one decimal).
#[derive(PartialEq, Eq, Structural, Clone, Copy, Debug)]
pub enum SiScale {
    Plain,
    Whole { whole: u64, prefix: char },
    Fraction { threshold: u64, prefix: char },
}

/// The scale for `value` with unit `threshold` and prefix `prefix`.
pub open spec fn scaled(value: u64, threshold: u64, prefix: char) -> SiScale {
    if value % threshold == 0 {
        SiScale::Whole { whole: value / threshold, prefix }
    } else {
        SiScale::Fraction { threshold, prefix }
    }
}

/// The largest of the prefixes T, G, M and k whose unit `value` reaches.
pub open spec fn si_scale_spec(value: u64) -> SiScale {
    if value >= 1_000_000_000_000 {
        scaled(value, 1_000_000_000_000, 'T')
    } else if value >= 1_000_000_000 {
        scaled(value, 1_000_000_000, 'G')
    } else if value >= 1_000_000 {
        scaled(value, 1_000_000, 'M')
    } else if value >= 1_000 {
        scaled(value, 1_000, 'k')
    } else {
        SiScale::Plain
    }
}

fn scale_by(value: u64, threshold: u64, prefix: char) -> (s: SiScale)
    requires
        threshold > 0,
    ensures
        s == scaled(value, threshold, prefix),
{
    if value % threshold == 0 {
        SiScale::Whole { whole: value / threshold, prefix }
    } else {
        SiScale::Fraction { threshold, prefix }
    }
}

/// The unit that an SI prefix stands for (none for any other character).
pub open spec fn si_unit(prefix: char) -> nat {
    if prefix == 'k' {
        1_000
    } else if prefix == 'M' {
        1_000_000
    } else if prefix == 'G' {
        1_000_000_000
    } else if prefix == 'T' {
        1_000_000_000_000
    } else {
        0
    }
}

/// How `value` is written on an axis with decimal SI prefixes: values below a thousand
/// are written as they are; otherwise the largest prefix whose unit the value reaches
/// is used, as a whole number of units when the unit divides the value exactly, and as
/// a fraction of the unit otherwise.
pub fn si_scale(value: u64) -> (s: SiScale)
    ensures
        s == si_scale_spec(value),
        s is Plain <==> value < 1_000,
        s matches SiScale::Whole { whole, prefix } ==> si_unit(prefix) > 0 && whole * si_unit(
            prefix,
        ) == value,
        s matches SiScale::Fraction { threshold, prefix } ==> si_unit(prefix) > 0 && threshold
            == si_unit(prefix) && value % threshold != 0,
        s matches SiScale::Whole { prefix, .. } ==> si_unit(prefix) <= value && (prefix != 'T'
            ==> value < 1_000 * si_unit(prefix)),
        s matches SiScale::Fraction { prefix, .. } ==> si_unit(prefix) <= value && (prefix != 'T'
            ==> value < 1_000 * si_unit(prefix)),
{
    let s = if value >= 1_000_000_000_000 {
        scale_by(value, 1_000_000_000_000, 'T')
    } else if value >= 1_000_000_000 {
        scale_by(value, 1_000_000_000, 'G')
    } else if value >= 1_000_000 {
        scale_by(value, 1_000_000, 'M')
    } else if value >= 1_000 {
        scale_by(value, 1_000, 'k')
    } else {
        SiScale::Plain
    };
    proof {
        if value >= 1_000 {
            let t: int = if value >= 1_000_000_000_000 {
                1_000_000_000_000
            } else if value >= 1_000_000_000 {
                1_000_000_000
            } else if value >= 1_000_000 {
                1_000_000
            } else {
                1_000
            };
            vstd::arithmetic::div_mod::lemma_fundamental_div_mod(value as int, t);
            if let SiScale::Whole { whole, prefix } = s {
                assert(whole == value as int / t);
                assert(si_unit(prefix) == t);
                assert(whole * t == t * whole) by (nonlinear_arith);
            }
        }
    }
    s
}

proof fn lemma_wrapped_low_byte(x: usize, k: usize)
    ensures
        (vstd::wrapping::usize_specs::wrapping_mul(x, k) as u8) as int == (x * k) % 256,
{
    let w = vstd::wrapping::usize_specs::wrapping_mul(x, k);
    assert(w as u8 == w % 256) by (bit_vector);
    let range: int = usize::MAX as int + 1;
    assert(range == 256 * (range / 256));
    vstd::arithmetic::div_mod::lemma_mod_mod(x * k, 256, range / 256);
}

/// Red, green and blue of the colour that stands for the architecture numbered
/// `arch_idx` in plots.
pub fn arch_idx_to_color(arch_idx: usize) -> (rgb: (u8, u8, u8))
    ensures
        rgb.0 == (arch_idx * 1337) % 256,
        rgb.1 == (arch_idx * 9976) % 256,
        rgb.2 == (arch_idx * 13) % 256,
{
    let r = arch_idx.wrapping_mul(1337);
    let g = arch_idx.wrapping_mul(9976);
    let b = arch_idx.wrapping_mul(13);
    proof {
        lemma_wrapped_low_byte(arch_idx, 1337);
        lemma_wrapped_low_byte(arch_idx, 9976);
        lemma_wrapped_low_byte(arch_idx, 13);
    }
    (r as u8, g as u8, b as u8)
}

/// Whether the window that reaches up to `offset` is labelled in the divergence plots:
/// every fourth window, counted by the multiple of `win_sz` at or after `offset`.
pub fn window_label_shown(offset: usize, win_sz: usize) -> (shown: bool)
    requires
        win_sz > 0,
        (offset as int + win_sz - 1) / (win_sz as int) * win_sz <= usize::MAX,
    ensures
        shown == (((offset as int + win_sz - 1) / (win_sz as int)) % 4 == 0),
{
    let q = offset / win_sz;
    let ceil = if offset % win_sz == 0 {
        q
    } else {
        assert(q < usize::MAX) by (nonlinear_arith)
            requires
                q == offset as int / win_sz as int,
                offset as int % win_sz as int != 0,
                win_sz > 0,
                offset <= usize::MAX,
        ;
        q + 1
    };
    proof {
        vstd::arithmetic::div_mod::lemma_fundamental_div_mod(offset as int, win_sz as int);
        let r = offset as int % win_sz as int;
        assert(ceil == (offset as int + win_sz - 1) / (win_sz as int)) by (nonlinear_arith)
            requires
                offset == win_sz * q + r,
                0 <= r < win_sz,
                ceil == if r == 0 { q as int } else { q + 1 },
                win_sz > 0,
        ;
    }
    ceil % 4 == 0
}

/// The part of `s` after its last `/` (all of `s` when it has none).
pub open spec fn after_last_slash(s: Seq<char>) -> Seq<char>
    decreases s.len(),
{
    if s.len() == 0 {
        s
    } else if s.last() == '/' {
        Seq::empty()
    } else {
        after_last_slash(s.drop_last()).push(s.last())
    }
}

/// The file name that `path` ends in: what follows its last `/`.
pub fn base_name(path: &str) -> (name: &str)
    ensures
        name@ == after_last_slash(path@),
        name@.len() <= path@.len(),
        name@ == path@.subrange(path@.len() - name@.len(), path@.len() as int),
        !name@.contains('/'),
        name@.len() < path@.len() ==> path@[path@.len() - name@.len() - 1] == '/',
{
    let n = path.unicode_len();
    let mut i: usize = n;
    assert(path@.subrange(0, n as int) =~= path@);
    assert(path@.subrange(n as int, n as int) =~= Seq::<char>::empty());
    while i > 0 && path.get_char(i - 1) != '/'
        invariant
            n == path@.len(),
            i <= n,
            after_last_slash(path@) == after_last_slash(path@.subrange(0, i as int))
                + path@.subrange(i as int, n as int),
            forall|k: int| i <= k < n ==> #[trigger] path@[k] != '/',
        decreases i,
    {
        let ghost pre = path@.subrange(0, i as int);
        assert(pre.drop_last() =~= path@.subrange(0, i - 1));
        assert(pre.last() == path@[i - 1]);
        assert(path@.subrange(i - 1, n as int) =~= seq![path@[i - 1]] + path@.subrange(
            i as int,
            n as int,
        ));
        assert(after_last_slash(pre) == after_last_slash(pre.drop_last()).push(pre.last()));
        assert(after_last_slash(pre.drop_last()).push(pre.last()) + path@.subrange(i as int, n as int)
            =~= after_last_slash(pre.drop_last()) + path@.subrange(i - 1, n as int));
        i = i - 1;
    }
    proof {
        let pre = path@.subrange(0, i as int);
        if i > 0 {
            assert(pre.last() == path@[i - 1]);
        }
        assert(after_last_slash(pre) =~= Seq::<char>::empty());
        assert(after_last_slash(path@) =~= path@.subrange(i as int, n as int));
        let tail = path@.subrange(i as int, n as int);
        if tail.contains('/') {
            let k = choose|k: int| 0 <= k < tail.len() && tail[k] == '/';
            assert(path@[i + k] == '/');
        }
    }
    path.substring_char(i, n)
}

} // verus!
