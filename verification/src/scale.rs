//! Box downscaling and nearest-neighbour upscaling.

use vstd::prelude::*;

use crate::block::{
    block_channel_sum,
    lemma_block_channel_sum_bounds,
    lemma_block_sum_constant,
    lemma_block_sum_same_pixels,
    sum_block_channel,
};
use crate::pixelate::block_average;
use crate::raster::{
    Image,
    channel,
    lemma_index_in_image,
    lemma_pixel_index_bounds,
    lemma_pixel_index_decompose,
    pixel_index,
    pixel_x,
    pixel_y,
};

verus! {

/// Size of an axis of `n` pixels after downscaling by `scale`: `n / scale`, but at least one.
pub open spec fn scaled_len(n: int, scale: int) -> int {
    if n / scale < 1 {
        1
    } else {
        n / scale
    }
}

/// One past the last source coordinate of cell `k` of size `scale` on an axis of `n` pixels.
pub open spec fn cell_end(k: int, scale: int, n: int) -> int {
    if k * scale + scale < n {
        k * scale + scale
    } else {
        n
    }
}

/// Channel `c` of pixel `(sx, sy)` of the downscaled image: the average of its source cell.
pub open spec fn downscale_value(s: Seq<u8>, w: int, h: int, scale: int, sx: int, sy: int, c: int) -> u8 {
    block_average(s, w, c, sx * scale, cell_end(sx, scale, w), sy * scale, cell_end(sy, scale, h))
}

/// The buffer of the downscaled image.
pub open spec fn downscaled(s: Seq<u8>, w: int, h: int, scale: int) -> Seq<u8> {
    let sw = scaled_len(w, scale);
    let sh = scaled_len(h, scale);
    Seq::new(
        (sw * sh * 4) as nat,
        |i: int| downscale_value(s, w, h, scale, pixel_x(sw, i), pixel_y(sw, i), channel(i)),
    )
}

/// The 64-bit channel sums of a full cell cannot overflow.
pub open spec fn downscale_fits(w: int, h: int, scale: int) -> bool {
    (if scale < w { scale } else { w }) * (if scale < h { scale } else { h }) * 255 <= u64::MAX
}

/// Channel `c` of pixel `(x, y)` of the upscaled image: the source pixel that covers it.
pub open spec fn upscale_value(s: Seq<u8>, sw: int, sh: int, scale: int, x: int, y: int, c: int) -> u8 {
    let sx = if x / scale < sw - 1 {
        x / scale
    } else {
        sw - 1
    };
    let sy = if y / scale < sh - 1 {
        y / scale
    } else {
        sh - 1
    };
    s[pixel_index(sw, sx, sy, c)]
}

/// The buffer of the upscaled image.
pub open spec fn upscaled(s: Seq<u8>, sw: int, sh: int, width: int, height: int, scale: int) -> Seq<u8> {
    Seq::new(
        (width * height * 4) as nat,
        |i: int| upscale_value(s, sw, sh, scale, pixel_x(width, i), pixel_y(width, i), channel(i)),
    )
}

/// Cell `k < scaled_len(n, scale)` starts inside the axis and is not empty.
proof fn lemma_cell_in_axis(k: int, scale: int, n: int)
    requires
        scale >= 1,
        n >= 1,
        0 <= k < scaled_len(n, scale),
    ensures
        0 <= k * scale < cell_end(k, scale, n) <= n,
        cell_end(k, scale, n) - k * scale <= scale,
        cell_end(k, scale, n) - k * scale <= n,
        scaled_len(n, scale) <= n,
{
    vstd::arithmetic::div_mod::lemma_fundamental_div_mod(n, scale);
    vstd::arithmetic::div_mod::lemma_mod_pos_bound(n, scale);
    vstd::arithmetic::div_mod::lemma_div_pos_is_pos(n, scale);
    if n / scale < 1 {
        assert(k == 0);
    } else {
        assert(k * scale + scale <= n) by (nonlinear_arith)
            requires
                k + 1 <= n / scale,
                n == scale * (n / scale) + n % scale,
                n % scale >= 0,
                scale >= 1,
        ;
        assert(0 <= k * scale) by (nonlinear_arith)
            requires
                k >= 0,
                scale >= 1,
        ;
        assert(n / scale <= n) by (nonlinear_arith)
            requires
                n == scale * (n / scale) + n % scale,
                n % scale >= 0,
                scale >= 1,
                n / scale >= 0,
        ;
    }
}

/// Average each `scale * scale` block into one pixel: a box downsample to
/// `(width / scale, height / scale)`, each at least one. Cells at the right and bottom edges
/// average only the pixels that exist.
pub fn box_downscale(image: &Image, scale: usize) -> (out: Image)
    requires
        image.wf(),
        scale >= 1,
        image.width >= 1,
        image.height >= 1,
        downscale_fits(image.width as int, image.height as int, scale as int),
    ensures
        out.wf(),
        out.width == scaled_len(image.width as int, scale as int),
        out.height == scaled_len(image.height as int, scale as int),
        out.data@ == downscaled(image.data@, image.width as int, image.height as int, scale as int),
{
    let ghost s = image.data@;
    let w = image.width as usize;
    let h = image.height as usize;
    let ghost wi = w as int;
    let ghost hi = h as int;
    let src = &image.data;
    let len = src.len();
    let sw = if w / scale < 1 {
        1
    } else {
        w / scale
    };
    let sh = if h / scale < 1 {
        1
    } else {
        h / scale
    };
    let ghost ds = downscaled(s, wi, hi, scale as int);
    proof {
        lemma_cell_in_axis(0, scale as int, wi);
        lemma_cell_in_axis(0, scale as int, hi);
        assert(sw * sh * 4 <= wi * hi * 4) by (nonlinear_arith)
            requires
                1 <= sw <= wi,
                1 <= sh <= hi,
        ;
    }
    let mut out: Vec<u8> = Vec::new();
    let mut sy: usize = 0;
    while sy < sh
        invariant
            s == src@,
            s == image.data@,
            len == src@.len(),
            src@.len() == w * h * 4,
            wi == w,
            hi == h,
            w >= 1,
            h >= 1,
            w <= u32::MAX,
            h <= u32::MAX,
            scale >= 1,
            downscale_fits(wi, hi, scale as int),
            sw == scaled_len(wi, scale as int),
            sh == scaled_len(hi, scale as int),
            sw * sh * 4 <= w * h * 4,
            ds == downscaled(s, wi, hi, scale as int),
            sy <= sh,
            out@.len() == sy * sw * 4,
            forall|j: int| 0 <= j < out@.len() ==> #[trigger] out@[j] == ds[j],
        decreases sh - sy,
    {
        proof {
            lemma_cell_in_axis(sy as int, scale as int, hi);
        }
        let y0 = sy * scale;
        let y1 = if scale < h - y0 {
            y0 + scale
        } else {
            h
        };
        let mut sx: usize = 0;
        while sx < sw
            invariant
                s == src@,
                len == src@.len(),
                src@.len() == w * h * 4,
                wi == w,
                hi == h,
                w >= 1,
                h >= 1,
                scale >= 1,
                downscale_fits(wi, hi, scale as int),
                sw == scaled_len(wi, scale as int),
                sh == scaled_len(hi, scale as int),
                sw * sh * 4 <= w * h * 4,
                ds == downscaled(s, wi, hi, scale as int),
                sy < sh,
                y0 == sy * scale,
                y1 == cell_end(sy as int, scale as int, hi),
                y0 < y1 <= h,
                y1 - y0 <= scale,
                y1 - y0 <= h,
                sx <= sw,
                out@.len() == (sy * sw + sx) * 4,
                forall|j: int| 0 <= j < out@.len() ==> #[trigger] out@[j] == ds[j],
            decreases sw - sx,
        {
            proof {
                lemma_cell_in_axis(sx as int, scale as int, wi);
            }
            let x0 = sx * scale;
            let x1 = if scale < w - x0 {
                x0 + scale
            } else {
                w
            };
            proof {
                let cw = if scale < wi { scale as int } else { wi };
                let ch = if scale < hi { scale as int } else { hi };
                assert((x1 - x0) * (y1 - y0) * 255 <= cw * ch * 255) by (nonlinear_arith)
                    requires
                        0 <= x1 - x0 <= cw,
                        0 <= y1 - y0 <= ch,
                ;
                assert((y1 - y0) * (x1 - x0) == (x1 - x0) * (y1 - y0)) by (nonlinear_arith);
                assert((y1 - y0) * (x1 - x0) <= w * h * 4) by (nonlinear_arith)
                    requires
                        0 <= x1 - x0 <= w,
                        0 <= y1 - y0 <= h,
                ;
                assert((x1 - x0) * (y1 - y0) >= 1) by (nonlinear_arith)
                    requires
                        x1 - x0 >= 1,
                        y1 - y0 >= 1,
                ;
                assert((sy * sw + sx) * 4 + 3 < sw * sh * 4) by (nonlinear_arith)
                    requires
                        sy < sh,
                        sx < sw,
                ;
            }
            let count = ((y1 - y0) * (x1 - x0)) as u64;
            let ghost prev = out@;
            let mut c: usize = 0;
            while c < 4
                invariant
                    s == src@,
                    src@.len() == w * h * 4,
                    wi == w,
                    hi == h,
                    ds == downscaled(s, wi, hi, scale as int),
                    sw == scaled_len(wi, scale as int),
                    sh == scaled_len(hi, scale as int),
                    sy < sh,
                    sx < sw,
                    x0 == sx * scale,
                    x1 == cell_end(sx as int, scale as int, wi),
                    y0 == sy * scale,
                    y1 == cell_end(sy as int, scale as int, hi),
                    x0 < x1 <= w,
                    y0 < y1 <= h,
                    (x1 - x0) * (y1 - y0) * 255 <= u64::MAX,
                    count == (x1 - x0) * (y1 - y0),
                    count >= 1,
                    c <= 4,
                    prev.len() == (sy * sw + sx) * 4,
                    (sy * sw + sx) * 4 + 3 < sw * sh * 4,
                    out@.len() == prev.len() + c,
                    forall|j: int| 0 <= j < prev.len() ==> #[trigger] prev[j] == ds[j],
                    forall|j: int| 0 <= j < prev.len() ==> #[trigger] out@[j] == prev[j],
                    forall|cc: int| 0 <= cc < c ==> #[trigger] out@[prev.len() + cc] == ds[prev.len() + cc],
                decreases 4 - c,
            {
                let sum = sum_block_channel(src, w, h, c, x0, x1, y0, y1);
                proof {
                    lemma_block_channel_sum_bounds(s, wi, c as int, x0 as int, x1 as int, y0 as int, y1 as int);
                    vstd::arithmetic::div_mod::lemma_div_is_ordered(sum as int, (count * 255) as int, count as int);
                    vstd::arithmetic::div_mod::lemma_div_multiples_vanish(255, count as int);
                    assert(count * 255 == 255 * count) by (nonlinear_arith);
                    lemma_pixel_index_decompose(sw as int, sx as int, sy as int, c as int);
                    assert(pixel_index(sw as int, sx as int, sy as int, c as int) == prev.len() + c);
                }
                out.push((sum / count) as u8);
                c += 1;
            }
            proof {
                assert forall|j: int| 0 <= j < out@.len() implies #[trigger] out@[j] == ds[j] by {
                    if j >= prev.len() {
                        let cc = j - prev.len();
                        assert(out@[prev.len() + cc] == ds[prev.len() + cc]);
                    } else {
                        assert(out@[j] == prev[j]);
                    }
                }
            }
            sx += 1;
        }
        proof {
            assert((sy * sw + sw) * 4 == (sy + 1) * sw * 4) by (nonlinear_arith);
        }
        sy += 1;
    }
    proof {
        assert(out@.len() == sw * sh * 4) by (nonlinear_arith)
            requires
                out@.len() == sy * sw * 4,
                sy == sh,
        ;
        assert(out@ =~= ds);
    }
    Image { width: sw as u32, height: sh as u32, data: out }
}

/// Nearest-neighbour upscale of `small` to `width * height`: each source pixel becomes a
/// `scale * scale` block, and positions past the source are clamped to its last row and column.
pub fn nearest_upscale(small: &Image, width: usize, height: usize, scale: usize) -> (out: Image)
    requires
        small.wf(),
        height > 0 ==> small.height >= 1 && scale >= 1,
        height > 0 && width > 0 ==> small.width >= 1,
        width <= u32::MAX,
        height <= u32::MAX,
        width * height * 4 <= usize::MAX,
    ensures
        out.wf(),
        out.width == width,
        out.height == height,
        out.data@ == upscaled(
            small.data@,
            small.width as int,
            small.height as int,
            width as int,
            height as int,
            scale as int,
        ),
{
    let ghost s = small.data@;
    let sw = small.width as usize;
    let sh = small.height as usize;
    let ghost us = upscaled(s, sw as int, sh as int, width as int, height as int, scale as int);
    let src = &small.data;
    let len = src.len();
    let mut out: Vec<u8> = Vec::new();
    let mut y: usize = 0;
    while y < height
        invariant
            s == src@,
            len == src@.len(),
            src@.len() == sw * sh * 4,
            height > 0 ==> sh >= 1 && scale >= 1,
            height > 0 && width > 0 ==> sw >= 1,
            width * height * 4 <= usize::MAX,
            us == upscaled(s, sw as int, sh as int, width as int, height as int, scale as int),
            y <= height,
            out@.len() == y * width * 4,
            forall|j: int| 0 <= j < out@.len() ==> #[trigger] out@[j] == us[j],
        decreases height - y,
    {
        let sy = if y / scale < sh - 1 {
            y / scale
        } else {
            sh - 1
        };
        let mut x: usize = 0;
        while x < width
            invariant
                s == src@,
                len == src@.len(),
                src@.len() == sw * sh * 4,
                width > 0 ==> sw >= 1,
                sh >= 1,
                scale >= 1,
                width * height * 4 <= usize::MAX,
                us == upscaled(s, sw as int, sh as int, width as int, height as int, scale as int),
                y < height,
                sy == (if y / scale < sh - 1 { (y / scale) as int } else { sh - 1 }),
                x <= width,
                out@.len() == (y * width + x) * 4,
                forall|j: int| 0 <= j < out@.len() ==> #[trigger] out@[j] == us[j],
            decreases width - x,
        {
            let sx = if x / scale < sw - 1 {
                x / scale
            } else {
                sw - 1
            };
            proof {
                lemma_pixel_index_bounds(sw as int, sh as int, sx as int, sy as int, 0);
                lemma_pixel_index_bounds(width as int, height as int, x as int, y as int, 3);
            }
            let si = (sy * sw + sx) * 4;
            let ghost prev = out@;
            let mut c: usize = 0;
            while c < 4
                invariant
                    s == src@,
                    src@.len() == sw * sh * 4,
                    us == upscaled(s, sw as int, sh as int, width as int, height as int, scale as int),
                    sw >= 1,
                    sh >= 1,
                    scale >= 1,
                    y < height,
                    x < width,
                    sy == (if y / scale < sh - 1 { (y / scale) as int } else { sh - 1 }),
                    sx == (if x / scale < sw - 1 { (x / scale) as int } else { sw - 1 }),
                    si == pixel_index(sw as int, sx as int, sy as int, 0),
                    si + 3 < src@.len(),
                    c <= 4,
                    prev.len() == (y * width + x) * 4,
                    (y * width + x) * 4 + 3 < width * height * 4,
                    out@.len() == prev.len() + c,
                    forall|j: int| 0 <= j < prev.len() ==> #[trigger] prev[j] == us[j],
                    forall|j: int| 0 <= j < prev.len() ==> #[trigger] out@[j] == prev[j],
                    forall|cc: int| 0 <= cc < c ==> #[trigger] out@[prev.len() + cc] == us[prev.len() + cc],
                decreases 4 - c,
            {
                proof {
                    lemma_pixel_index_decompose(width as int, x as int, y as int, c as int);
                    assert(pixel_index(width as int, x as int, y as int, c as int) == prev.len() + c);
                }
                out.push(src[si + c]);
                c += 1;
            }
            proof {
                assert forall|j: int| 0 <= j < out@.len() implies #[trigger] out@[j] == us[j] by {
                    if j >= prev.len() {
                        let cc = j - prev.len();
                        assert(out@[prev.len() + cc] == us[prev.len() + cc]);
                    } else {
                        assert(out@[j] == prev[j]);
                    }
                }
            }
            x += 1;
        }
        proof {
            assert((y * width + width) * 4 == (y + 1) * width * 4) by (nonlinear_arith);
        }
        y += 1;
    }
    proof {
        assert(height * width * 4 == width * height * 4) by (nonlinear_arith);
        assert(out@ =~= us);
    }
    Image { width: width as u32, height: height as u32, data: out }
}


/// Length of an axis of `n` pixels that whole cells of size `scale` cover (all of it when the
/// axis is shorter than one cell, as the single cell then takes what exists).
pub open spec fn covered_len(n: int, scale: int) -> int {
    if n >= scale {
        (n / scale) * scale
    } else {
        n
    }
}

/// Every cell of the downscaled axis lies inside the covered part of the axis.
proof fn lemma_cell_within_covered(k: int, scale: int, n: int)
    requires
        scale >= 1,
        n >= 1,
        0 <= k < scaled_len(n, scale),
    ensures
        cell_end(k, scale, n) <= covered_len(n, scale),
{
    vstd::arithmetic::div_mod::lemma_fundamental_div_mod(n, scale);
    vstd::arithmetic::div_mod::lemma_mod_pos_bound(n, scale);
    if n >= scale {
        assert(n / scale >= 1) by (nonlinear_arith)
            requires
                n == scale * (n / scale) + n % scale,
                0 <= n % scale < scale,
                n >= scale,
        ;
        assert(k * scale + scale <= (n / scale) * scale) by (nonlinear_arith)
            requires
                k + 1 <= n / scale,
                scale >= 1,
        ;
    } else {
        vstd::arithmetic::div_mod::lemma_basic_div(n, scale);
    }
}

/// The trailing columns and rows that do not fill a whole cell play no part: two images that
/// agree on the covered part downscale to the same image.
pub proof fn lemma_downscale_ignores_partial_cells(s1: Seq<u8>, s2: Seq<u8>, w: int, h: int, scale: int)
    requires
        w >= 1,
        h >= 1,
        scale >= 1,
        s1.len() == w * h * 4,
        s2.len() == w * h * 4,
        forall|x: int, y: int, c: int|
            0 <= x < covered_len(w, scale) && 0 <= y < covered_len(h, scale) && 0 <= c < 4 ==> s1[#[trigger] pixel_index(w, x, y, c)]
                == s2[pixel_index(w, x, y, c)],
    ensures
        downscaled(s1, w, h, scale) == downscaled(s2, w, h, scale),
{
    let sw = scaled_len(w, scale);
    let sh = scaled_len(h, scale);
    let d1 = downscaled(s1, w, h, scale);
    let d2 = downscaled(s2, w, h, scale);
    assert forall|i: int| 0 <= i < d1.len() implies d1[i] == d2[i] by {
        lemma_index_in_image(sw, sh, i);
        let sx = pixel_x(sw, i);
        let sy = pixel_y(sw, i);
        let c = channel(i);
        lemma_cell_within_covered(sx, scale, w);
        lemma_cell_within_covered(sy, scale, h);
        lemma_cell_in_axis(sx, scale, w);
        lemma_cell_in_axis(sy, scale, h);
        lemma_block_sum_same_pixels(s1, s2, w, c, sx * scale, cell_end(sx, scale, w), sy * scale, cell_end(sy, scale, h));
    }
    assert(d1 =~= d2);
}

/// Downscaling undoes a whole-block upscale: enlarging every pixel into a `k * k` block and then
/// averaging those blocks gives back the original image.
pub proof fn lemma_downscale_undoes_upscale(s: Seq<u8>, sw: int, sh: int, k: int)
    requires
        sw >= 1,
        sh >= 1,
        k >= 1,
        s.len() == sw * sh * 4,
    ensures
        downscaled(upscaled(s, sw, sh, sw * k, sh * k, k), sw * k, sh * k, k) == s,
{
    let big_w = sw * k;
    let big_h = sh * k;
    let u = upscaled(s, sw, sh, big_w, big_h, k);
    let d = downscaled(u, big_w, big_h, k);
    vstd::arithmetic::div_mod::lemma_fundamental_div_mod_converse(big_w, k, sw, 0);
    vstd::arithmetic::div_mod::lemma_fundamental_div_mod_converse(big_h, k, sh, 0);
    assert(scaled_len(big_w, k) == sw);
    assert(scaled_len(big_h, k) == sh);
    assert(u.len() == big_w * big_h * 4) by {
        assert(big_w * big_h * 4 >= 0) by (nonlinear_arith)
            requires
                big_w >= 0,
                big_h >= 0,
        ;
    }
    assert forall|i: int| 0 <= i < s.len() implies d[i] == s[i] by {
        lemma_index_in_image(sw, sh, i);
        let sx = pixel_x(sw, i);
        let sy = pixel_y(sw, i);
        let c = channel(i);
        let v = s[i] as int;
        let x0 = sx * k;
        let y0 = sy * k;
        assert(x0 + k <= big_w && y0 + k <= big_h) by (nonlinear_arith)
            requires
                x0 == sx * k,
                y0 == sy * k,
                big_w == sw * k,
                big_h == sh * k,
                sx + 1 <= sw,
                sy + 1 <= sh,
                k >= 1,
        ;
        assert(0 <= x0 && 0 <= y0) by (nonlinear_arith)
            requires
                x0 == sx * k,
                y0 == sy * k,
                sx >= 0,
                sy >= 0,
                k >= 1,
        ;
        assert(cell_end(sx, k, big_w) == x0 + k);
        assert(cell_end(sy, k, big_h) == y0 + k);
        assert forall|x: int, y: int| x0 <= x < x0 + k && y0 <= y < y0 + k implies u[#[trigger] pixel_index(big_w, x, y, c)] == v by {
            vstd::arithmetic::div_mod::lemma_fundamental_div_mod_converse(x, k, sx, x - x0);
            vstd::arithmetic::div_mod::lemma_fundamental_div_mod_converse(y, k, sy, y - y0);
            lemma_pixel_index_decompose(big_w, x, y, c);
            lemma_pixel_index_bounds(big_w, big_h, x, y, c);
        }
        lemma_block_sum_constant(u, big_w, c, x0, x0 + k, y0, y0 + k, v);
        assert(k * k >= 1) by (nonlinear_arith)
            requires
                k >= 1,
        ;
        assert((x0 + k - x0) * (y0 + k - y0) == k * k);
        assert(k * k * v == v * (k * k)) by (nonlinear_arith);
        vstd::arithmetic::div_mod::lemma_div_multiples_vanish(v, k * k);
        assert(d[i] == downscale_value(u, big_w, big_h, k, sx, sy, c));
    }
    assert(d =~= s);
}

/// Downscaling by `scale` gives `max(w / scale, 1)` by `max(h / scale, 1)` pixels, and pixel
/// `(sx, sy)` is the rounded-down average of the cell from `(sx * scale, sy * scale)` over
/// `scale` columns and rows, clipped to the image: every pixel of a full cell counts.
pub proof fn lemma_downscale_cell_average(
    s: Seq<u8>,
    w: int,
    h: int,
    scale: int,
    sx: int,
    sy: int,
    c: int,
)
    requires
        w >= 1,
        h >= 1,
        scale >= 1,
        s.len() == w * h * 4,
        0 <= sx < vstd::math::max(w / scale, 1),
        0 <= sy < vstd::math::max(h / scale, 1),
        0 <= c < 4,
    ensures
        downscaled(s, w, h, scale).len() == vstd::math::max(w / scale, 1) * vstd::math::max(h / scale, 1) * 4,
        ({
            let sw = vstd::math::max(w / scale, 1);
            let x0 = sx * scale;
            let y0 = sy * scale;
            let x1 = vstd::math::min(x0 + scale, w);
            let y1 = vstd::math::min(y0 + scale, h);
            downscaled(s, w, h, scale)[(sy * sw + sx) * 4 + c] == (block_channel_sum(s, w, c, x0, x1, y0, y1) / ((
            x1 - x0) * (y1 - y0))) as u8
        }),
{
    let sw = scaled_len(w, scale);
    let sh = scaled_len(h, scale);
    assert(sw == vstd::math::max(w / scale, 1));
    assert(sh == vstd::math::max(h / scale, 1));
    assert(sw * sh * 4 >= 0) by (nonlinear_arith)
        requires
            sw >= 1,
            sh >= 1,
    ;
    lemma_pixel_index_decompose(sw, sx, sy, c);
    lemma_pixel_index_bounds(sw, sh, sx, sy, c);
}

/// Nearest-neighbour upscaling: output pixel `(x, y)` copies source pixel
/// `(min(x / scale, sw - 1), min(y / scale, sh - 1))`, so each source pixel becomes a
/// `scale * scale` block and positions past the source repeat its last column and row.
pub proof fn lemma_upscale_pixel(
    s: Seq<u8>,
    sw: int,
    sh: int,
    width: int,
    height: int,
    scale: int,
    x: int,
    y: int,
    c: int,
)
    requires
        sw >= 1,
        sh >= 1,
        scale >= 1,
        0 <= x < width,
        0 <= y < height,
        0 <= c < 4,
    ensures
        upscaled(s, sw, sh, width, height, scale).len() == width * height * 4,
        upscaled(s, sw, sh, width, height, scale)[(y * width + x) * 4 + c] == s[(vstd::math::min(
            y / scale,
            sh - 1,
        ) * sw + vstd::math::min(x / scale, sw - 1)) * 4 + c],
{
    assert(width * height * 4 >= 0) by (nonlinear_arith)
        requires
            width >= 1,
            height >= 1,
    ;
    lemma_pixel_index_decompose(width, x, y, c);
    lemma_pixel_index_bounds(width, height, x, y, c);
}

/// Every output column from `(sw - 1) * scale` on repeats the last source column.
pub proof fn lemma_upscale_clamps_right_edge(
    s: Seq<u8>,
    sw: int,
    sh: int,
    width: int,
    height: int,
    scale: int,
    x: int,
    y: int,
    c: int,
)
    requires
        sw >= 1,
        sh >= 1,
        scale >= 1,
        (sw - 1) * scale <= x < width,
        0 <= y < height,
        0 <= c < 4,
    ensures
        upscaled(s, sw, sh, width, height, scale)[(y * width + x) * 4 + c] == s[(vstd::math::min(
            y / scale,
            sh - 1,
        ) * sw + (sw - 1)) * 4 + c],
{
    lemma_upscale_pixel(s, sw, sh, width, height, scale, x, y, c);
    vstd::arithmetic::div_mod::lemma_fundamental_div_mod_converse((sw - 1) * scale, scale, sw - 1, 0);
    vstd::arithmetic::div_mod::lemma_div_is_ordered((sw - 1) * scale, x, scale);
}
} // verus!
