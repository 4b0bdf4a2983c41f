//! One-dimensional box filter over a line of bytes (a row or a column of one channel),
//! with the edges extended by repeating the first and last sample.

use vstd::prelude::*;

verus! {

/// Fixed-point shift of the box average: sums are scaled by `recip / 2^23`.
pub const SHIFT: u32 = 23;

/// Index `j` along a line of `n` samples, clamped into `[0, n)`.
pub open spec fn clamp_index(j: int, n: int) -> int {
    if j < 0 {
        0
    } else if j >= n {
        n - 1
    } else {
        j
    }
}

/// Sample `j` of the line that starts at `base` in `s` and advances by `step`, edges repeated.
pub open spec fn line_px(s: Seq<u8>, base: int, step: int, n: int, j: int) -> int {
    s[base + clamp_index(j, n) * step] as int
}

/// Sum of the samples `lo .. hi` (edges repeated) of a line.
pub open spec fn line_sum(s: Seq<u8>, base: int, step: int, n: int, lo: int, hi: int) -> int
    decreases hi - lo,
{
    if hi <= lo {
        0
    } else {
        line_sum(s, base, step, n, lo, hi - 1) + line_px(s, base, step, n, hi - 1)
    }
}

/// A window sum scaled by `recip / 2^23` and rounded with `half`, as one output byte.
pub open spec fn fixed_point_average(sum: int, recip: int, half: int) -> u8 {
    ((sum * recip + half) / 8388608) as u8
}

/// Output sample `k` of a box filter of radius `r` along a line: the window `k - r ..= k + r`.
pub open spec fn line_blur_value(
    s: Seq<u8>,
    base: int,
    step: int,
    n: int,
    r: int,
    recip: int,
    half: int,
    k: int,
) -> u8 {
    fixed_point_average(line_sum(s, base, step, n, k - r, k + r + 1), recip, half)
}

/// The conditions under which the fixed-point box filter of radius `r` cannot overflow `u32`.
pub open spec fn box_fits(r: int, recip: int, half: int) -> bool {
    &&& 0 <= r
    &&& (2 * r + 2) * 255 <= u32::MAX
    &&& (2 * r + 1) * 255 * recip + half <= u32::MAX
}

/// Removing the first sample of a window.
pub proof fn lemma_line_sum_drop_first(s: Seq<u8>, base: int, step: int, n: int, lo: int, hi: int)
    requires
        lo < hi,
    ensures
        line_sum(s, base, step, n, lo, hi) == line_px(s, base, step, n, lo) + line_sum(
            s,
            base,
            step,
            n,
            lo + 1,
            hi,
        ),
    decreases hi - lo,
{
    if hi > lo + 1 {
        lemma_line_sum_drop_first(s, base, step, n, lo, hi - 1);
    } else {
        reveal_with_fuel(line_sum, 2);
    }
}

/// A window of `hi - lo` bytes sums to at most `255 * (hi - lo)`.
pub proof fn lemma_line_sum_bounds(s: Seq<u8>, base: int, step: int, n: int, lo: int, hi: int)
    requires
        lo <= hi,
    ensures
        0 <= line_sum(s, base, step, n, lo, hi) <= (hi - lo) * 255,
    decreases hi - lo,
{
    if hi > lo {
        lemma_line_sum_bounds(s, base, step, n, lo, hi - 1);
    }
}

/// Left of the line every sample repeats the first one.
pub proof fn lemma_line_sum_left_edge(s: Seq<u8>, base: int, step: int, n: int, lo: int, hi: int)
    requires
        lo <= hi <= 0,
    ensures
        line_sum(s, base, step, n, lo, hi) == (hi - lo) * (s[base] as int),
    decreases hi - lo,
{
    if hi > lo {
        lemma_line_sum_left_edge(s, base, step, n, lo, hi - 1);
        assert(line_sum(s, base, step, n, lo, hi) == line_sum(s, base, step, n, lo, hi - 1) + line_px(s, base, step, n, hi - 1));
        assert(clamp_index(hi - 1, n) == 0);
        assert(0 * step == 0);
        assert(line_px(s, base, step, n, hi - 1) == s[base] as int);
        assert((hi - 1 - lo) * (s[base] as int) + (s[base] as int) == (hi - lo) * (s[base] as int))
            by (nonlinear_arith);
    } else {
        assert((hi - lo) * (s[base] as int) == 0) by (nonlinear_arith)
            requires
                hi == lo,
        ;
    }
}

/// Every sample of a line lies in the buffer when its last one does.
pub proof fn lemma_line_index_bound(base: int, step: int, n: int, len: int, j: int)
    requires
        0 <= base,
        0 <= step,
        0 < n,
        base + (n - 1) * step < len,
    ensures
        0 <= base + clamp_index(j, n) * step < len,
        0 <= clamp_index(j, n) * step <= (n - 1) * step,
{
    let k = clamp_index(j, n);
    assert(0 <= k * step <= (n - 1) * step) by (nonlinear_arith)
        requires
            0 <= k <= n - 1,
            0 <= step,
    ;
}

/// `x >> 23` is `x / 2^23`.
pub proof fn lemma_shift_is_div(x: u32)
    ensures
        x >> SHIFT == x / 8388608,
{
    assert(x >> 23u32 == x / 8388608u32) by (bit_vector);
}

/// Byte `base + clamp(j) * step` of `src`.
fn line_sample(src: &Vec<u8>, base: usize, step: usize, n: usize, j: usize) -> (v: u32)
    requires
        0 < n,
        j < n,
        base + (n - 1) * step < src@.len(),
    ensures
        v == line_px(src@, base as int, step as int, n as int, j as int),
        v <= 255,
{
    proof {
        lemma_line_index_bound(base as int, step as int, n as int, src@.len() as int, j as int);
        assert(clamp_index(j as int, n as int) == j);
    }
    let len = src.len();
    assert(base + j * step < len);
    src[base + j * step] as u32
}

/// Box filter of radius `radius` along the line of `n` samples that starts at `base` and advances
/// by `step`; sample `k` of the result averages the window `k - radius ..= k + radius`, with the
/// first and last samples repeated beyond the ends.
pub fn blur_line(
    src: &Vec<u8>,
    base: usize,
    step: usize,
    n: usize,
    radius: usize,
    recip: u32,
    half: u32,
) -> (out: Vec<u8>)
    requires
        n > 0 ==> base + (n - 1) * step < src@.len(),
        box_fits(radius as int, recip as int, half as int),
    ensures
        out@.len() == n,
        forall|k: int|
            0 <= k < n ==> out@[k] == line_blur_value(
                src@,
                base as int,
                step as int,
                n as int,
                radius as int,
                recip as int,
                half as int,
                k,
            ),
{
    let mut out: Vec<u8> = Vec::new();
    if n == 0 {
        return out;
    }
    let ghost s = src@;
    let ghost r = radius as int;
    let first = line_sample(src, base, step, n, 0);
    proof {
        lemma_line_sum_left_edge(s, base as int, step as int, n as int, -r - 1, 0);
        assert((r + 1) * (first as int) <= (r + 1) * 255) by (nonlinear_arith)
            requires
                first <= 255,
                r >= 0,
        ;
    }
    // The window of sample 0 before its last sample enters: `radius + 1` copies of the first
    // sample, then samples `0 .. radius`.
    let mut sum: u32 = (radius as u32 + 1) * first;
    let mut j: usize = 0;
    while j < radius
        invariant
            0 < n,
            base + (n - 1) * step < s.len(),
            s == src@,
            r == radius,
            box_fits(r, recip as int, half as int),
            j <= radius,
            sum == line_sum(s, base as int, step as int, n as int, -r - 1, j as int),
        decreases radius - j,
    {
        let idx = if j < n {
            j
        } else {
            n - 1
        };
        let v = line_sample(src, base, step, n, idx);
        proof {
            lemma_line_sum_bounds(s, base as int, step as int, n as int, -r - 1, j as int);
        }
        sum = sum + v;
        j += 1;
    }
    let mut k: usize = 0;
    while k < n
        invariant
            0 < n,
            base + (n - 1) * step < s.len(),
            s == src@,
            r == radius,
            box_fits(r, recip as int, half as int),
            k <= n,
            sum == line_sum(s, base as int, step as int, n as int, k - r - 1, k + r),
            out@.len() == k,
            forall|i: int|
                0 <= i < k ==> out@[i] == line_blur_value(
                    s,
                    base as int,
                    step as int,
                    n as int,
                    r,
                    recip as int,
                    half as int,
                    i,
                ),
        decreases n - k,
    {
        let add_idx = if radius < n - k {
            k + radius
        } else {
            n - 1
        };
        let sub_idx = if k > radius {
            k - radius - 1
        } else {
            0
        };
        let add = line_sample(src, base, step, n, add_idx);
        let sub = line_sample(src, base, step, n, sub_idx);
        proof {
            let lo = k - r - 1;
            let hi = k + r;
            assert(clamp_index(hi, n as int) == add_idx);
            assert(clamp_index(lo, n as int) == sub_idx);
            lemma_line_sum_bounds(s, base as int, step as int, n as int, lo, hi);
            lemma_line_sum_drop_first(s, base as int, step as int, n as int, lo, hi + 1);
            lemma_line_sum_bounds(s, base as int, step as int, n as int, lo + 1, hi + 1);
        }
        sum = sum + add - sub;
        proof {
            assert(sum * recip <= (2 * r + 1) * 255 * recip) by (nonlinear_arith)
                requires
                    0 <= sum <= (2 * r + 1) * 255,
                    0 <= recip,
            ;
        }
        let scaled = sum * recip + half;
        proof {
            lemma_shift_is_div(scaled);
        }
        let v = (scaled >> SHIFT) as u8;
        out.push(v);
        k += 1;
    }
    out
}


/// A one-sample window holds that sample, with positions before the line reading its first
/// sample and positions past it reading its last.
pub proof fn lemma_line_sum_single(s: Seq<u8>, base: int, step: int, n: int, j: int)
    ensures
        line_sum(s, base, step, n, j, j + 1) == s[base + (if j < 0 { 0 } else if j >= n { n - 1 } else { j }) * step] as int,
{
    reveal_with_fuel(line_sum, 2);
}

/// A window sum splits at any point inside the window.
pub proof fn lemma_line_sum_split(s: Seq<u8>, base: int, step: int, n: int, lo: int, m: int, hi: int)
    requires
        lo <= m <= hi,
    ensures
        line_sum(s, base, step, n, lo, hi) == line_sum(s, base, step, n, lo, m) + line_sum(s, base, step, n, m, hi),
    decreases hi - m,
{
    if hi > m {
        lemma_line_sum_split(s, base, step, n, lo, m, hi - 1);
    }
}
} // verus!
