//! Pixelation: every block of `block_size * block_size` pixels becomes its average colour.

use vstd::prelude::*;

use crate::block::{block_channel_sum, lemma_block_channel_sum_bounds, lemma_block_sum_constant, sum_block_channel};
use crate::raster::{
    Image,
    channel,
    lemma_index_in_image,
    lemma_pixel_index_bounds,
    lemma_pixel_index_decompose,
    pixel_index,
    pixel_x,
    pixel_y,
};

verus! {

/// The block size actually used: a size of zero counts as one.
pub open spec fn effective_block(block_size: int) -> int {
    if block_size < 1 {
        1
    } else {
        block_size
    }
}

/// First coordinate of the block of size `b` that holds coordinate `v`.
pub open spec fn block_origin(v: int, b: int) -> int {
    (v / b) * b
}

/// One past the last coordinate of that block, clipped to an axis of `n` pixels.
pub open spec fn block_end(v: int, b: int, n: int) -> int {
    if block_origin(v, b) + b < n {
        block_origin(v, b) + b
    } else {
        n
    }
}

/// Average (rounded down) of channel `c` over the pixels `x0 .. x1` by `y0 .. y1`.
pub open spec fn block_average(s: Seq<u8>, w: int, c: int, x0: int, x1: int, y0: int, y1: int) -> u8 {
    (block_channel_sum(s, w, c, x0, x1, y0, y1) / ((x1 - x0) * (y1 - y0))) as u8
}

/// Channel `c` of pixel `(x, y)` after pixelation with blocks of size `b`.
pub open spec fn pixelate_value(s: Seq<u8>, w: int, h: int, b: int, x: int, y: int, c: int) -> u8 {
    block_average(s, w, c, block_origin(x, b), block_end(x, b, w), block_origin(y, b), block_end(y, b, h))
}

/// The whole buffer after pixelation with blocks of size `block_size`.
pub open spec fn pixelated(s: Seq<u8>, w: int, h: int, block_size: int) -> Seq<u8> {
    Seq::new(
        s.len(),
        |i: int|
            pixelate_value(s, w, h, effective_block(block_size), pixel_x(w, i), pixel_y(w, i), channel(i)),
    )
}

/// The 64-bit channel sums of the largest block cannot overflow.
pub open spec fn pixelate_fits(w: int, h: int, block_size: int) -> bool {
    let b = effective_block(block_size);
    (if b < w { b } else { w }) * (if b < h { b } else { h }) * 255 <= u64::MAX
}

/// A coordinate in `[j * b, j * b + b)` lies in block `j`.
proof fn lemma_in_block(v: int, b: int, j: int)
    requires
        b >= 1,
        j >= 0,
        j * b <= v < j * b + b,
    ensures
        v / b == j,
        block_origin(v, b) == j * b,
{
    vstd::arithmetic::div_mod::lemma_fundamental_div_mod_converse(v, b, j, v - j * b);
}

/// Create a new image that has been pixelated.
///
/// 1. Clamp the block to the image bounds
/// 2. Sum all the RGBA channels across the pixel block
/// 3. Average each channel given the block width and height
/// 4. Write each pixel average out, then advance to the next block
///
/// Each block becomes a single flat colour; a larger block size gives coarser pixelation, and a
/// block size of one (or zero) leaves the image as it was.
pub fn rgba_image_from_pixelate(image: &Image, block_size: u32) -> (out: Image)
    requires
        image.wf(),
        pixelate_fits(image.width as int, image.height as int, block_size as int),
    ensures
        out.wf(),
        out.width == image.width,
        out.height == image.height,
        out.data@ == pixelated(image.data@, image.width as int, image.height as int, block_size as int),
{
    let ghost s = image.data@;
    let ghost w = image.width as int;
    let ghost h = image.height as int;
    let ghost bb = effective_block(block_size as int);
    let ghost px = pixelated(s, w, h, block_size as int);
    let width = image.width as usize;
    let height = image.height as usize;
    let src = &image.data;
    let len = src.len();
    let b: u64 = if block_size < 1 {
        1
    } else {
        block_size as u64
    };
    let wb = image.width as u64;
    let hb = image.height as u64;
    let mut out: Vec<u8> = Vec::new();
    let mut y: u64 = 0;
    let ghost mut by: int = 0;
    proof {
        assert(0int * w * 4 == 0);
        assert(h == 0 ==> h * w * 4 == 0);
    }
    while y < hb
        invariant
            s == image.data@,
            s == src@,
            len == src@.len(),
            src@.len() == width * height * 4,
            w == width,
            h == height,
            wb == width,
            hb == height,
            width <= u32::MAX,
            height <= u32::MAX,
            bb == b,
            bb == effective_block(block_size as int),
            b >= 1,
            b <= u32::MAX,
            px == pixelated(s, w, h, block_size as int),
            pixelate_fits(w, h, block_size as int),
            by >= 0,
            y == by * b,
            out@.len() == (if y < h { y as int } else { h }) * w * 4,
            forall|j: int| 0 <= j < out@.len() ==> #[trigger] out@[j] == px[j],
        decreases hb + b - y,
    {
        let bh = if b < hb - y {
            b
        } else {
            hb - y
        };
        // Averages of the blocks of this block row: block `k` covers columns `k * b ..`.
        let mut avgs: Vec<u8> = Vec::new();
        let mut x: u64 = 0;
        let ghost mut bx: int = 0;
        while x < wb
            invariant
                s == src@,
                len == src@.len(),
                src@.len() == width * height * 4,
                w == width,
                h == height,
                wb == width,
                hb == height,
                width <= u32::MAX,
                b >= 1,
                b <= u32::MAX,
                pixelate_fits(w, h, block_size as int),
                bb == b,
                bb == effective_block(block_size as int),
                y < hb,
                bh == (if b < hb - y { b as int } else { hb - y }),
                bx >= 0,
                x == bx * b,
                avgs@.len() == bx * 4,
                forall|k: int, c: int|
                    0 <= k < bx && 0 <= c < 4 ==> #[trigger] avgs@[k * 4 + c] == block_average(
                        s,
                        w,
                        c,
                        k * b,
                        if k * b + b < w { k * b + b } else { w },
                        y as int,
                        y + bh,
                    ),
            decreases wb + b - x,
        {
            let bw = if b < wb - x {
                b
            } else {
                wb - x
            };
            proof {
                assert(bw * bh * 255 <= u64::MAX) by (nonlinear_arith)
                    requires
                        0 <= bw <= (if bb < w { bb } else { w }),
                        0 <= bh <= (if bb < h { bb } else { h }),
                        (if bb < w { bb } else { w }) * (if bb < h { bb } else { h }) * 255 <= u64::MAX,
                ;
                assert(bw * bh >= 1) by (nonlinear_arith)
                    requires
                        bw >= 1,
                        bh >= 1,
                ;
            }
            let count: u64 = bw * bh;
            let x0 = x as usize;
            let x1 = (x + bw) as usize;
            let y0 = y as usize;
            let y1 = (y + bh) as usize;
            let ghost before = avgs@;
            let mut c: usize = 0;
            while c < 4
                invariant
                    s == src@,
                    src@.len() == width * height * 4,
                    w == width,
                    x0 == x,
                    x1 == x + bw,
                    y0 == y,
                    y1 == y + bh,
                    x0 <= x1 <= width,
                    y0 <= y1 <= height,
                    count == bw * bh,
                    count >= 1,
                    bw * bh * 255 <= u64::MAX,
                    c <= 4,
                    avgs@.len() == before.len() + c,
                    forall|j: int| 0 <= j < before.len() ==> #[trigger] avgs@[j] == before[j],
                    forall|cc: int|
                        0 <= cc < c ==> #[trigger] avgs@[before.len() + cc] == block_average(
                            s,
                            w,
                            cc,
                            x0 as int,
                            x1 as int,
                            y0 as int,
                            y1 as int,
                        ),
                decreases 4 - c,
            {
                let sum = sum_block_channel(src, width, height, c, x0, x1, y0, y1);
                proof {
                    lemma_block_channel_sum_bounds(s, w, c as int, x0 as int, x1 as int, y0 as int, y1 as int);
                    assert((x1 - x0) * (y1 - y0) == bw * bh);
                    vstd::arithmetic::div_mod::lemma_div_is_ordered(sum as int, (count * 255) as int, count as int);
                    vstd::arithmetic::div_mod::lemma_div_multiples_vanish(255, count as int);
                    assert(count * 255 == 255 * count) by (nonlinear_arith);
                }
                avgs.push((sum / count) as u8);
                c += 1;
            }
            proof {
                assert forall|k: int, cc: int| 0 <= k < bx + 1 && 0 <= cc < 4 implies #[trigger] avgs@[k
                    * 4 + cc] == block_average(
                    s,
                    w,
                    cc,
                    k * b,
                    if k * b + b < w { k * b + b } else { w },
                    y as int,
                    y + bh,
                ) by {
                    if k < bx {
                        assert(k * 4 + cc < bx * 4);
                        assert(avgs@[k * 4 + cc] == before[k * 4 + cc]);
                    } else {
                        assert(k * 4 + cc == before.len() + cc);
                    }
                }
                assert(x + b == (bx + 1) * b) by (nonlinear_arith)
                    requires
                        x == bx * b,
                ;
            }
            x = x + b;
            proof {
                bx = bx + 1;
            }
        }
        // Every column lies in one of the `bx` blocks just averaged.
        let ghost blocks = bx;
        let mut py = y;
        while py < y + bh
            invariant
                s == src@,
                src@.len() == width * height * 4,
                w == width,
                h == height,
                wb == width,
                hb == height,
                width <= u32::MAX,
                height <= u32::MAX,
                bb == b,
                bb == effective_block(block_size as int),
                len == src@.len(),
                b >= 1,
                b <= u32::MAX,
                px == pixelated(s, w, h, block_size as int),
                by >= 0,
                y == by * b,
                y < hb,
                bh == (if b < hb - y { b as int } else { hb - y }),
                x >= wb,
                x == blocks * b,
                blocks >= 0,
                avgs@.len() == blocks * 4,
                forall|k: int, c: int|
                    0 <= k < blocks && 0 <= c < 4 ==> #[trigger] avgs@[k * 4 + c] == block_average(
                        s,
                        w,
                        c,
                        k * b,
                        if k * b + b < w { k * b + b } else { w },
                        y as int,
                        y + bh,
                    ),
                y <= py <= y + bh,
                out@.len() == py * w * 4,
                forall|j: int| 0 <= j < out@.len() ==> #[trigger] out@[j] == px[j],
            decreases y + bh - py,
        {
            let mut qx: usize = 0;
            while qx < width
                invariant
                    s == src@,
                    src@.len() == width * height * 4,
                    w == width,
                    h == height,
                    wb == width,
                    hb == height,
                    width <= u32::MAX,
                    height <= u32::MAX,
                    bb == b,
                    bb == effective_block(block_size as int),
                    len == src@.len(),
                    b >= 1,
                    b <= u32::MAX,
                    px == pixelated(s, w, h, block_size as int),
                    by >= 0,
                    y == by * b,
                    bh == (if b < hb - y { b as int } else { hb - y }),
                    x >= wb,
                    x == blocks * b,
                    blocks >= 0,
                    avgs@.len() == blocks * 4,
                    forall|k: int, c: int|
                        0 <= k < blocks && 0 <= c < 4 ==> #[trigger] avgs@[k * 4 + c]
                            == block_average(
                            s,
                            w,
                            c,
                            k * b,
                            if k * b + b < w { k * b + b } else { w },
                            y as int,
                            y + bh,
                        ),
                    y <= py < y + bh,
                    py < hb,
                    qx <= width,
                    out@.len() == (py * w + qx) * 4,
                    forall|j: int| 0 <= j < out@.len() ==> #[trigger] out@[j] == px[j],
                decreases width - qx,
            {
                let k = (qx as u64 / b) as usize;
                proof {
                    let kk = (qx as int) / (b as int);
                    vstd::arithmetic::div_mod::lemma_fundamental_div_mod(qx as int, b as int);
                    vstd::arithmetic::div_mod::lemma_mod_pos_bound(qx as int, b as int);
                    vstd::arithmetic::div_mod::lemma_div_pos_is_pos(qx as int, b as int);
                    assert(kk * b <= qx < kk * b + b) by (nonlinear_arith)
                        requires
                            qx == b * kk + (qx as int) % (b as int),
                            0 <= (qx as int) % (b as int) < b,
                    ;
                    assert(kk < blocks) by (nonlinear_arith)
                        requires
                            kk * b <= qx,
                            qx < wb,
                            wb <= blocks * b,
                            b >= 1,
                    ;
                    lemma_in_block(qx as int, b as int, kk);
                    lemma_in_block(py as int, b as int, by);
                    assert(by * b + b == y + b);
                    assert(k * 4 + 3 < blocks * 4);
                    lemma_pixel_index_bounds(w, h, qx as int, py as int, 0);
                }
                let alen = avgs.len();
                let kbase = k * 4;
                let ghost prev = out@;
                let mut c: usize = 0;
                while c < 4
                    invariant
                        s == src@,
                        w == width,
                        h == height,
                        bb == b,
                        bb == effective_block(block_size as int),
                        kbase == k * 4,
                        alen == avgs@.len(),
                        b >= 1,
                        px == pixelated(s, w, h, block_size as int),
                        src@.len() == width * height * 4,
                        qx < width,
                        py < hb,
                        hb == height,
                        y <= py < y + bh,
                        bh == (if b < hb - y { b as int } else { hb - y }),
                        (qx as int) / (b as int) == k,
                        block_origin(qx as int, b as int) == k * b,
                        block_origin(py as int, b as int) == y,
                        k * 4 + 3 < avgs@.len(),
                        forall|cc: int|
                            0 <= cc < 4 ==> #[trigger] avgs@[k * 4 + cc] == block_average(
                                s,
                                w,
                                cc,
                                k * b,
                                if k * b + b < w { k * b + b } else { w },
                                y as int,
                                y + bh,
                            ),
                        c <= 4,
                        out@.len() == prev.len() + c,
                        prev.len() == (py * w + qx) * 4,
                        forall|j: int| 0 <= j < prev.len() ==> #[trigger] prev[j] == px[j],
                        forall|j: int| 0 <= j < prev.len() ==> #[trigger] out@[j] == prev[j],
                        forall|cc: int| 0 <= cc < c ==> #[trigger] out@[prev.len() + cc] == px[prev.len() + cc],
                    decreases 4 - c,
                {
                    proof {
                        let i = pixel_index(w, qx as int, py as int, c as int);
                        lemma_pixel_index_decompose(w, qx as int, py as int, c as int);
                        lemma_pixel_index_bounds(w, h, qx as int, py as int, c as int);
                        assert(i == prev.len() + c);
                        assert(block_end(qx as int, b as int, w) == (if k * b + b < w { k * b + b } else { w }));
                        assert(block_end(py as int, b as int, h) == y + bh);
                        assert(px[i] == pixelate_value(s, w, h, b as int, qx as int, py as int, c as int));
                    }
                    let v = avgs[kbase + c];
                    out.push(v);
                    c += 1;
                }
                proof {
                    assert forall|j: int| 0 <= j < out@.len() implies #[trigger] out@[j] == px[j] by {
                        if j >= prev.len() {
                            let cc = j - prev.len();
                            assert(out@[prev.len() + cc] == px[prev.len() + cc]);
                        } else {
                            assert(out@[j] == prev[j]);
                        }
                    }
                }
                qx += 1;
            }
            proof {
                assert((py * w + w) * 4 == (py + 1) * w * 4) by (nonlinear_arith);
            }
            py += 1;
        }
        proof {
            assert(y + b == (by + 1) * b) by (nonlinear_arith)
                requires
                    y == by * b,
            ;
        }
        y = y + b;
        proof {
            by = by + 1;
        }
    }
    proof {
        assert(h * w * 4 == w * h * 4) by (nonlinear_arith);
        assert(out@ =~= px);
    }
    Image { width: image.width, height: image.height, data: out }
}


/// A block size of one (or zero) leaves the image as it was: the average of one pixel is itself.
pub proof fn lemma_pixelate_unit_block_is_identity(s: Seq<u8>, w: int, h: int, block_size: int)
    requires
        0 <= w,
        0 <= h,
        s.len() == w * h * 4,
        block_size <= 1,
    ensures
        pixelated(s, w, h, block_size) == s,
{
    let p = pixelated(s, w, h, block_size);
    assert forall|i: int| 0 <= i < s.len() implies p[i] == s[i] by {
        if w == 0 {
            assert(w * h * 4 == 0);
        }
        lemma_index_in_image(w, h, i);
        let x = pixel_x(w, i);
        let y = pixel_y(w, i);
        let c = channel(i);
        vstd::arithmetic::div_mod::lemma_fundamental_div_mod_converse(x, 1, x, 0);
        vstd::arithmetic::div_mod::lemma_fundamental_div_mod_converse(y, 1, y, 0);
        assert(block_origin(x, 1) == x);
        assert(block_origin(y, 1) == y);
        reveal_with_fuel(block_channel_sum, 2);
        reveal_with_fuel(crate::block::row_channel_sum, 2);
        assert(block_channel_sum(s, w, c, x, x + 1, y, y + 1) == s[i] as int);
        assert(effective_block(block_size) == 1);
        assert(block_end(x, 1, w) == x + 1);
        assert(block_end(y, 1, h) == y + 1);
        assert(x + 1 - x == 1 && y + 1 - y == 1);
        assert(1int * 1int == 1);
        assert(((x + 1 - x) * (y + 1 - y)) == 1);
        assert(block_average(s, w, c, x, x + 1, y, y + 1) == s[i]);
        assert(p[i] == pixelate_value(s, w, h, 1, x, y, c));
    }
    assert(p =~= s);
}

/// Each block becomes a single flat colour: two pixels of the same block get the same value.
pub proof fn lemma_pixelate_blocks_are_flat(
    s: Seq<u8>,
    w: int,
    h: int,
    block_size: int,
    x1: int,
    y1: int,
    x2: int,
    y2: int,
    c: int,
)
    requires
        s.len() == w * h * 4,
        0 <= x1 < w,
        0 <= x2 < w,
        0 <= y1 < h,
        0 <= y2 < h,
        0 <= c < 4,
        x1 / effective_block(block_size) == x2 / effective_block(block_size),
        y1 / effective_block(block_size) == y2 / effective_block(block_size),
    ensures
        pixelated(s, w, h, block_size)[pixel_index(w, x1, y1, c)] == pixelated(s, w, h, block_size)[pixel_index(w, x2, y2, c)],
{
    lemma_pixel_index_decompose(w, x1, y1, c);
    lemma_pixel_index_decompose(w, x2, y2, c);
    lemma_pixel_index_bounds(w, h, x1, y1, c);
    lemma_pixel_index_bounds(w, h, x2, y2, c);
}

/// The block of size `b` around coordinate `v` on an axis of `n` pixels is not empty, and every
/// coordinate in it belongs to the same block.
proof fn lemma_block_span(v: int, b: int, n: int)
    requires
        b >= 1,
        0 <= v < n,
    ensures
        0 <= block_origin(v, b) <= v < block_end(v, b, n) <= n,
        forall|u: int|
            block_origin(v, b) <= u < block_end(v, b, n) ==> #[trigger] (u / b) == v / b,
{
    let j = v / b;
    vstd::arithmetic::div_mod::lemma_fundamental_div_mod(v, b);
    vstd::arithmetic::div_mod::lemma_mod_pos_bound(v, b);
    vstd::arithmetic::div_mod::lemma_div_pos_is_pos(v, b);
    assert(j * b <= v < j * b + b) by (nonlinear_arith)
        requires
            v == b * j + v % b,
            0 <= v % b < b,
    ;
    assert(0 <= j * b) by (nonlinear_arith)
        requires
            j >= 0,
            b >= 1,
    ;
    assert forall|u: int| block_origin(v, b) <= u < block_end(v, b, n) implies #[trigger] (u / b) == v / b by {
        lemma_in_block(u, b, j);
    }
}

/// Pixelating twice with the same block size gives what pixelating once gave: the blocks are
/// already flat, and the average of a flat block is its colour.
pub proof fn lemma_pixelate_idempotent(s: Seq<u8>, w: int, h: int, block_size: int)
    requires
        0 <= w,
        0 <= h,
        s.len() == w * h * 4,
    ensures
        pixelated(pixelated(s, w, h, block_size), w, h, block_size) == pixelated(s, w, h, block_size),
{
    let b = effective_block(block_size);
    let p = pixelated(s, w, h, block_size);
    let pp = pixelated(p, w, h, block_size);
    assert forall|i: int| 0 <= i < p.len() implies pp[i] == p[i] by {
        if w == 0 {
            assert(w * h * 4 == 0);
        }
        lemma_index_in_image(w, h, i);
        let x = pixel_x(w, i);
        let y = pixel_y(w, i);
        let c = channel(i);
        lemma_block_span(x, b, w);
        lemma_block_span(y, b, h);
        let x0 = block_origin(x, b);
        let x1 = block_end(x, b, w);
        let y0 = block_origin(y, b);
        let y1 = block_end(y, b, h);
        let v = p[i] as int;
        assert forall|xx: int, yy: int| x0 <= xx < x1 && y0 <= yy < y1 implies p[#[trigger] pixel_index(w, xx, yy, c)] == v by {
            assert(xx / b == x / b);
            assert(yy / b == y / b);
            lemma_pixelate_blocks_are_flat(s, w, h, block_size, xx, yy, x, y, c);
        }
        lemma_block_sum_constant(p, w, c, x0, x1, y0, y1, v);
        let n = (x1 - x0) * (y1 - y0);
        assert(n >= 1) by (nonlinear_arith)
            requires
                x1 - x0 >= 1,
                y1 - y0 >= 1,
                n == (x1 - x0) * (y1 - y0),
        ;
        assert(n * v == v * n) by (nonlinear_arith);
        vstd::arithmetic::div_mod::lemma_div_multiples_vanish(v, n);
        assert(pp[i] == pixelate_value(p, w, h, b, x, y, c));
    }
    assert(pp =~= p);
}

/// With blocks of `b >= 1` pixels, pixel `(x, y)` lies in the block that starts at
/// `((x / b) * b, (y / b) * b)`, clipped to the image, and takes that block's rounded-down average.
pub proof fn lemma_pixelate_block_average(s: Seq<u8>, w: int, h: int, b: int, x: int, y: int, c: int)
    requires
        b >= 1,
        s.len() == w * h * 4,
        0 <= x < w,
        0 <= y < h,
        0 <= c < 4,
    ensures
        ({
            let x0 = (x / b) * b;
            let y0 = (y / b) * b;
            let x1 = if x0 + b < w { x0 + b } else { w };
            let y1 = if y0 + b < h { y0 + b } else { h };
            pixelated(s, w, h, b)[(y * w + x) * 4 + c] == (block_channel_sum(s, w, c, x0, x1, y0, y1) / ((
            x1 - x0) * (y1 - y0))) as u8
        }),
{
    lemma_pixel_index_decompose(w, x, y, c);
    lemma_pixel_index_bounds(w, h, x, y, c);
}

/// Blocks are averaged separately: when every pixel of the block of size `b >= 1` that holds
/// `(x, y)` has value `v` in channel `c`, that value stays, whatever the neighbouring blocks hold.
pub proof fn lemma_pixelate_keeps_flat_blocks(
    s: Seq<u8>,
    w: int,
    h: int,
    b: int,
    x: int,
    y: int,
    c: int,
    v: u8,
)
    requires
        b >= 1,
        s.len() == w * h * 4,
        0 <= x < w,
        0 <= y < h,
        0 <= c < 4,
        forall|xx: int, yy: int|
            0 <= xx < w && 0 <= yy < h && xx / b == x / b && yy / b == y / b ==> s[#[trigger] pixel_index(
                w,
                xx,
                yy,
                c,
            )] == v,
    ensures
        pixelated(s, w, h, b)[(y * w + x) * 4 + c] == v,
{
    lemma_pixelate_block_average(s, w, h, b, x, y, c);
    lemma_block_span(x, b, w);
    lemma_block_span(y, b, h);
    let x0 = (x / b) * b;
    let y0 = (y / b) * b;
    let x1 = if x0 + b < w { x0 + b } else { w };
    let y1 = if y0 + b < h { y0 + b } else { h };
    assert forall|xx: int, yy: int| x0 <= xx < x1 && y0 <= yy < y1 implies s[#[trigger] pixel_index(w, xx, yy, c)] == v by {
        assert(xx / b == x / b);
        assert(yy / b == y / b);
    }
    lemma_block_sum_constant(s, w, c, x0, x1, y0, y1, v as int);
    let n = (x1 - x0) * (y1 - y0);
    assert(n >= 1) by (nonlinear_arith)
        requires
            x1 - x0 >= 1,
            y1 - y0 >= 1,
            n == (x1 - x0) * (y1 - y0),
    ;
    assert(n * v == v * n) by (nonlinear_arith);
    vstd::arithmetic::div_mod::lemma_div_multiples_vanish(v as int, n);
}
} // verus!
