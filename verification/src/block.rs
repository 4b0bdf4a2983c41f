//! Sums of one channel over a rectangle of pixels.

use vstd::prelude::*;

use crate::raster::{lemma_pixel_index_bounds, pixel_index};

verus! {

/// Sum of channel `c` over pixels `x0 .. x1` of row `y` of a `w`-wide buffer.
pub open spec fn row_channel_sum(s: Seq<u8>, w: int, c: int, y: int, x0: int, x1: int) -> int
    decreases x1 - x0,
{
    if x1 <= x0 {
        0
    } else {
        row_channel_sum(s, w, c, y, x0, x1 - 1) + s[pixel_index(w, x1 - 1, y, c)] as int
    }
}

/// Sum of channel `c` over the pixels `x0 .. x1` by `y0 .. y1` of a `w`-wide buffer.
pub open spec fn block_channel_sum(
    s: Seq<u8>,
    w: int,
    c: int,
    x0: int,
    x1: int,
    y0: int,
    y1: int,
) -> int
    decreases y1 - y0,
{
    if y1 <= y0 {
        0
    } else {
        block_channel_sum(s, w, c, x0, x1, y0, y1 - 1) + row_channel_sum(s, w, c, y1 - 1, x0, x1)
    }
}

/// A row of `x1 - x0` bytes sums to at most `255 * (x1 - x0)`.
pub proof fn lemma_row_channel_sum_bounds(s: Seq<u8>, w: int, c: int, y: int, x0: int, x1: int)
    requires
        x0 <= x1,
    ensures
        0 <= row_channel_sum(s, w, c, y, x0, x1) <= (x1 - x0) * 255,
    decreases x1 - x0,
{
    if x1 > x0 {
        lemma_row_channel_sum_bounds(s, w, c, y, x0, x1 - 1);
    }
}

/// A block of `(x1 - x0) * (y1 - y0)` bytes sums to at most 255 per byte.
pub proof fn lemma_block_channel_sum_bounds(
    s: Seq<u8>,
    w: int,
    c: int,
    x0: int,
    x1: int,
    y0: int,
    y1: int,
)
    requires
        x0 <= x1,
        y0 <= y1,
    ensures
        0 <= block_channel_sum(s, w, c, x0, x1, y0, y1) <= (x1 - x0) * (y1 - y0) * 255,
    decreases y1 - y0,
{
    if y1 > y0 {
        lemma_block_channel_sum_bounds(s, w, c, x0, x1, y0, y1 - 1);
        lemma_row_channel_sum_bounds(s, w, c, y1 - 1, x0, x1);
        assert((x1 - x0) * (y1 - 1 - y0) * 255 + (x1 - x0) * 255 == (x1 - x0) * (y1 - y0) * 255)
            by (nonlinear_arith);
    } else {
        assert((x1 - x0) * (y1 - y0) * 255 == 0) by (nonlinear_arith)
            requires
                y1 == y0,
        ;
    }
}

/// Sum of channel `c` over the pixels `x0 .. x1` by `y0 .. y1` of a `width * height` buffer.
pub fn sum_block_channel(
    src: &Vec<u8>,
    width: usize,
    height: usize,
    c: usize,
    x0: usize,
    x1: usize,
    y0: usize,
    y1: usize,
) -> (sum: u64)
    requires
        src@.len() == width * height * 4,
        c < 4,
        x0 <= x1 <= width,
        y0 <= y1 <= height,
        (x1 - x0) * (y1 - y0) * 255 <= u64::MAX,
    ensures
        sum == block_channel_sum(src@, width as int, c as int, x0 as int, x1 as int, y0 as int, y1 as int),
{
    let ghost w = width as int;
    let ghost h = height as int;
    let len = src.len();
    let mut sum: u64 = 0;
    let mut y = y0;
    while y < y1
        invariant
            w == width,
            h == height,
            len == src@.len(),
            src@.len() == width * height * 4,
            c < 4,
            x0 <= x1 <= width,
            y0 <= y <= y1 <= height,
            (x1 - x0) * (y1 - y0) * 255 <= u64::MAX,
            sum == block_channel_sum(src@, w, c as int, x0 as int, x1 as int, y0 as int, y as int),
        decreases y1 - y,
    {
        proof {
            lemma_block_channel_sum_bounds(src@, w, c as int, x0 as int, x1 as int, y0 as int, y as int);
            assert((x1 - x0) * (y - y0) * 255 + (x1 - x0) * 255 <= (x1 - x0) * (y1 - y0) * 255)
                by (nonlinear_arith)
                requires
                    y < y1,
                    x0 <= x1,
            ;
        }
        let mut x = x0;
        let ghost before = sum;
        while x < x1
            invariant
                w == width,
                h == height,
                len == src@.len(),
                src@.len() == width * height * 4,
                c < 4,
                x0 <= x <= x1 <= width,
                y0 <= y < y1 <= height,
                before + (x1 - x0) * 255 <= u64::MAX,
                sum == before + row_channel_sum(src@, w, c as int, y as int, x0 as int, x as int),
            decreases x1 - x,
        {
            proof {
                lemma_row_channel_sum_bounds(src@, w, c as int, y as int, x0 as int, x as int);
                lemma_pixel_index_bounds(w, h, x as int, y as int, c as int);
            }
            let v = src[(y * width + x) * 4 + c];
            sum = sum + v as u64;
            x += 1;
        }
        y += 1;
    }
    sum
}

/// A row of `x1 - x0` equal bytes sums to `(x1 - x0) * v`.
pub proof fn lemma_row_sum_constant(s: Seq<u8>, w: int, c: int, y: int, x0: int, x1: int, v: int)
    requires
        x0 <= x1,
        forall|x: int| x0 <= x < x1 ==> s[#[trigger] pixel_index(w, x, y, c)] == v,
    ensures
        row_channel_sum(s, w, c, y, x0, x1) == (x1 - x0) * v,
    decreases x1 - x0,
{
    if x1 > x0 {
        lemma_row_sum_constant(s, w, c, y, x0, x1 - 1, v);
        assert(s[pixel_index(w, x1 - 1, y, c)] == v);
        assert((x1 - 1 - x0) * v + v == (x1 - x0) * v) by (nonlinear_arith);
    } else {
        assert((x1 - x0) * v == 0) by (nonlinear_arith)
            requires
                x1 == x0,
        ;
    }
}

/// A block of equal bytes sums to its pixel count times that byte.
pub proof fn lemma_block_sum_constant(
    s: Seq<u8>,
    w: int,
    c: int,
    x0: int,
    x1: int,
    y0: int,
    y1: int,
    v: int,
)
    requires
        x0 <= x1,
        y0 <= y1,
        forall|x: int, y: int|
            x0 <= x < x1 && y0 <= y < y1 ==> s[#[trigger] pixel_index(w, x, y, c)] == v,
    ensures
        block_channel_sum(s, w, c, x0, x1, y0, y1) == (x1 - x0) * (y1 - y0) * v,
    decreases y1 - y0,
{
    if y1 > y0 {
        lemma_block_sum_constant(s, w, c, x0, x1, y0, y1 - 1, v);
        lemma_row_sum_constant(s, w, c, y1 - 1, x0, x1, v);
        assert((x1 - x0) * (y1 - 1 - y0) * v + (x1 - x0) * v == (x1 - x0) * (y1 - y0) * v)
            by (nonlinear_arith);
    } else {
        assert((x1 - x0) * (y1 - y0) * v == 0) by (nonlinear_arith)
            requires
                y1 == y0,
        ;
    }
}


/// Two buffers that agree on a row segment have the same sum over it.
pub proof fn lemma_row_sum_same_pixels(s1: Seq<u8>, s2: Seq<u8>, w: int, c: int, y: int, x0: int, x1: int)
    requires
        forall|x: int| x0 <= x < x1 ==> s1[#[trigger] pixel_index(w, x, y, c)] == s2[pixel_index(w, x, y, c)],
    ensures
        row_channel_sum(s1, w, c, y, x0, x1) == row_channel_sum(s2, w, c, y, x0, x1),
    decreases x1 - x0,
{
    if x1 > x0 {
        lemma_row_sum_same_pixels(s1, s2, w, c, y, x0, x1 - 1);
        assert(s1[pixel_index(w, x1 - 1, y, c)] == s2[pixel_index(w, x1 - 1, y, c)]);
    }
}

/// Two buffers that agree on a block have the same sum over it.
pub proof fn lemma_block_sum_same_pixels(
    s1: Seq<u8>,
    s2: Seq<u8>,
    w: int,
    c: int,
    x0: int,
    x1: int,
    y0: int,
    y1: int,
)
    requires
        forall|x: int, y: int|
            x0 <= x < x1 && y0 <= y < y1 ==> s1[#[trigger] pixel_index(w, x, y, c)] == s2[pixel_index(w, x, y, c)],
    ensures
        block_channel_sum(s1, w, c, x0, x1, y0, y1) == block_channel_sum(s2, w, c, x0, x1, y0, y1),
    decreases y1 - y0,
{
    if y1 > y0 {
        lemma_block_sum_same_pixels(s1, s2, w, c, x0, x1, y0, y1 - 1);
        assert forall|x: int| x0 <= x < x1 implies s1[#[trigger] pixel_index(w, x, y1 - 1, c)] == s2[pixel_index(w, x, y1 - 1, c)] by {}
        lemma_row_sum_same_pixels(s1, s2, w, c, y1 - 1, x0, x1);
    }
}

/// A one-pixel block sums to that pixel's channel; an empty block sums to zero.
pub proof fn lemma_block_sum_single(s: Seq<u8>, w: int, c: int, x: int, y: int)
    ensures
        block_channel_sum(s, w, c, x, x + 1, y, y + 1) == s[(y * w + x) * 4 + c] as int,
        block_channel_sum(s, w, c, x, x, y, y + 1) == 0,
        block_channel_sum(s, w, c, x, x + 1, y, y) == 0,
{
    reveal_with_fuel(block_channel_sum, 2);
    reveal_with_fuel(row_channel_sum, 2);
}

/// A row sum splits at any column inside the row segment.
proof fn lemma_row_sum_split(s: Seq<u8>, w: int, c: int, y: int, x0: int, m: int, x1: int)
    requires
        x0 <= m <= x1,
    ensures
        row_channel_sum(s, w, c, y, x0, x1) == row_channel_sum(s, w, c, y, x0, m) + row_channel_sum(s, w, c, y, m, x1),
    decreases x1 - m,
{
    if x1 > m {
        lemma_row_sum_split(s, w, c, y, x0, m, x1 - 1);
    }
}

/// A block sum splits at any row and at any column inside the block.
pub proof fn lemma_block_sum_split(s: Seq<u8>, w: int, c: int, x0: int, mx: int, x1: int, y0: int, my: int, y1: int)
    requires
        x0 <= mx <= x1,
        y0 <= my <= y1,
    ensures
        block_channel_sum(s, w, c, x0, x1, y0, y1) == block_channel_sum(s, w, c, x0, x1, y0, my)
            + block_channel_sum(s, w, c, x0, x1, my, y1),
        block_channel_sum(s, w, c, x0, x1, y0, y1) == block_channel_sum(s, w, c, x0, mx, y0, y1)
            + block_channel_sum(s, w, c, mx, x1, y0, y1),
    decreases y1 - y0,
{
    lemma_block_sum_split_rows(s, w, c, x0, x1, y0, my, y1);
    if y1 > y0 {
        lemma_block_sum_split(s, w, c, x0, mx, x1, y0, y0, y1 - 1);
        lemma_row_sum_split(s, w, c, y1 - 1, x0, mx, x1);
    }
}

/// A block sum splits at any row inside the block.
proof fn lemma_block_sum_split_rows(s: Seq<u8>, w: int, c: int, x0: int, x1: int, y0: int, my: int, y1: int)
    requires
        y0 <= my <= y1,
    ensures
        block_channel_sum(s, w, c, x0, x1, y0, y1) == block_channel_sum(s, w, c, x0, x1, y0, my)
            + block_channel_sum(s, w, c, x0, x1, my, y1),
    decreases y1 - my,
{
    if y1 > my {
        lemma_block_sum_split_rows(s, w, c, x0, x1, y0, my, y1 - 1);
    }
}
} // verus!
