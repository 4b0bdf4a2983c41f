//! Separable box-blur approximation of a Gaussian: repeated horizontal box passes over the rows,
//! then repeated vertical box passes over the columns, in 23-bit fixed point.

use vstd::prelude::*;

use crate::raster::{
    Image,
    channel,
    lemma_index_in_image,
    lemma_pixel_index_bounds,
    lemma_pixel_index_decompose,
    pixel_index,
    pixel_x,
    pixel_y,
};
use crate::window::{SHIFT, blur_line, box_fits, line_blur_value};

verus! {

/// `2^23 / (2r + 1)`: the fixed-point reciprocal of the width of a box of radius `r`.
pub open spec fn recip_of(r: int) -> int {
    8388608int / (2 * r + 1)
}

/// Rounding term added before the final shift (one half in 23-bit fixed point).
pub open spec fn half_unit() -> int {
    4194304
}

/// Channel `c` of pixel `(x, y)` after a horizontal box pass of radius `r` over a `w`-wide image.
pub open spec fn h_value(s: Seq<u8>, w: int, r: int, recip: int, half: int, x: int, y: int, c: int) -> u8 {
    line_blur_value(s, pixel_index(w, 0, y, c), 4, w, r, recip, half, x)
}

/// Channel `c` of pixel `(x, y)` after a vertical box pass of radius `r` over a `w * h` image.
pub open spec fn v_value(
    s: Seq<u8>,
    w: int,
    h: int,
    r: int,
    recip: int,
    half: int,
    x: int,
    y: int,
    c: int,
) -> u8 {
    line_blur_value(s, pixel_index(w, x, 0, c), w * 4, h, r, recip, half, y)
}

/// The whole buffer after one horizontal box pass.
pub open spec fn h_pass(s: Seq<u8>, w: int, r: int, recip: int, half: int) -> Seq<u8> {
    Seq::new(
        s.len(),
        |i: int| h_value(s, w, r, recip, half, pixel_x(w, i), pixel_y(w, i), channel(i)),
    )
}

/// The whole buffer after one vertical box pass.
pub open spec fn v_pass(s: Seq<u8>, w: int, h: int, r: int, recip: int, half: int) -> Seq<u8> {
    Seq::new(
        s.len(),
        |i: int| v_value(s, w, h, r, recip, half, pixel_x(w, i), pixel_y(w, i), channel(i)),
    )
}

/// `k` horizontal passes of radius `r` with the standard reciprocal and rounding.
pub open spec fn h_passes(s: Seq<u8>, w: int, r: int, k: nat) -> Seq<u8>
    decreases k,
{
    if k == 0 {
        s
    } else {
        h_pass(h_passes(s, w, r, (k - 1) as nat), w, r, recip_of(r), half_unit())
    }
}

/// `k` vertical passes of radius `r` with the standard reciprocal and rounding.
pub open spec fn v_passes(s: Seq<u8>, w: int, h: int, r: int, k: nat) -> Seq<u8>
    decreases k,
{
    if k == 0 {
        s
    } else {
        v_pass(v_passes(s, w, h, r, (k - 1) as nat), w, h, r, recip_of(r), half_unit())
    }
}

/// The separable blur: `ph` horizontal passes of radius `rh` (none when `rh == 0`), then `pv`
/// vertical passes of radius `rv` (none when `rv == 0`).
pub open spec fn box_blur_spec(
    s: Seq<u8>,
    w: int,
    h: int,
    rh: int,
    ph: nat,
    rv: int,
    pv: nat,
) -> Seq<u8> {
    let after_h = if rh > 0 {
        h_passes(s, w, rh, ph)
    } else {
        s
    };
    if rv > 0 {
        v_passes(after_h, w, h, rv, pv)
    } else {
        after_h
    }
}

/// Radii for which the 32-bit running sums of a box pass cannot overflow.
pub open spec fn radius_fits(r: int) -> bool {
    0 <= r && (2 * r + 2) * 255 <= u32::MAX
}

/// Clamp a box radius so that its sliding window stays inside an axis of `len` pixels.
pub fn clamp_radius(radius: usize, len: usize) -> (r: usize)
    ensures
        r == if radius <= (if len == 0 { 0 } else { len - 1 }) / 2 {
            radius as int
        } else {
            ((if len == 0 { 0 } else { len - 1 }) / 2) as int
        },
        r <= radius,
        len > 0 ==> 2 * r < len,
{
    let bound = len.saturating_sub(1) / 2;
    if radius < bound {
        radius
    } else {
        bound
    }
}

/// Number of workers for `work` independent units, given `available` hardware threads: at least
/// one, at most `available` and at most `work`.
pub fn thread_count(available: usize, work: usize) -> (n: usize)
    ensures
        n == if available < work {
            if available < 1 { 1 } else { available as int }
        } else {
            if work < 1 { 1 } else { work as int }
        },
        n >= 1,
{
    let m = if available < work {
        available
    } else {
        work
    };
    if m < 1 {
        1
    } else {
        m
    }
}

/// The fixed-point box filter with radius `r` and the standard reciprocal cannot overflow.
proof fn lemma_standard_box_fits(r: int)
    requires
        radius_fits(r),
    ensures
        box_fits(r, recip_of(r), half_unit()),
        0 <= recip_of(r) <= 8388608,
{
    let d = 2 * r + 1;
    vstd::arithmetic::div_mod::lemma_fundamental_div_mod(8388608, d);
    vstd::arithmetic::div_mod::lemma_mod_pos_bound(8388608, d);
    vstd::arithmetic::div_mod::lemma_div_pos_is_pos(8388608, d);
    vstd::arithmetic::div_mod::lemma_div_is_ordered_by_denominator(8388608, 1, d);
    assert(d * 255 * recip_of(r) <= 8388608 * 255) by (nonlinear_arith)
        requires
            d * (8388608int / d) <= 8388608,
            recip_of(r) == 8388608int / d,
            d > 0,
    ;
}

/// Row `y` of a horizontal box pass: `w * 4` bytes, channel `c` of pixel `x` at `x * 4 + c`.
pub fn blur_row_h(
    src: &Vec<u8>,
    width: usize,
    height: usize,
    y: usize,
    radius: usize,
    recip: u32,
    half: u32,
) -> (row: Vec<u8>)
    requires
        src@.len() == width * height * 4,
        y < height,
        box_fits(radius as int, recip as int, half as int),
    ensures
        row@.len() == width * 4,
        forall|x: int, c: int|
            0 <= x < width && 0 <= c < 4 ==> #[trigger] row@[x * 4 + c] == h_value(
                src@,
                width as int,
                radius as int,
                recip as int,
                half as int,
                x,
                y as int,
                c,
            ),
{
    let mut row: Vec<u8> = Vec::new();
    if width == 0 {
        return row;
    }
    let ghost w = width as int;
    proof {
        lemma_pixel_index_bounds(w, height as int, w - 1, y as int, 3);
        lemma_pixel_index_bounds(w, height as int, 0, y as int, 0);
        assert(w * 4 <= w * height * 4) by (nonlinear_arith)
            requires
                height >= 1,
                w >= 0,
        ;
    }
    let len = src.len();
    assert(len == width * height * 4);
    let stride = width * 4;
    let start = y * stride;
    let l0 = blur_line(src, start, 4, width, radius, recip, half);
    let l1 = blur_line(src, start + 1, 4, width, radius, recip, half);
    let l2 = blur_line(src, start + 2, 4, width, radius, recip, half);
    let l3 = blur_line(src, start + 3, 4, width, radius, recip, half);
    proof {
        assert forall|c: int| 0 <= c < 4 implies pixel_index(w, 0, y as int, c) == start + c by {
            lemma_pixel_index_bounds(w, height as int, 0, y as int, c);
        }
    }
    let mut x: usize = 0;
    while x < width
        invariant
            x <= width,
            w == width,
            width > 0,
            l0@.len() == width && l1@.len() == width && l2@.len() == width && l3@.len() == width,
            forall|k: int|
                0 <= k < width ==> {
                    &&& #[trigger] l0@[k] == h_value(src@, w, radius as int, recip as int, half as int, k, y as int, 0)
                    &&& l1@[k] == h_value(src@, w, radius as int, recip as int, half as int, k, y as int, 1)
                    &&& l2@[k] == h_value(src@, w, radius as int, recip as int, half as int, k, y as int, 2)
                    &&& l3@[k] == h_value(src@, w, radius as int, recip as int, half as int, k, y as int, 3)
                },
            row@.len() == x * 4,
            forall|xx: int, c: int|
                0 <= xx < x && 0 <= c < 4 ==> #[trigger] row@[xx * 4 + c] == h_value(
                    src@,
                    w,
                    radius as int,
                    recip as int,
                    half as int,
                    xx,
                    y as int,
                    c,
                ),
        decreases width - x,
    {
        let ghost prev = row@;
        row.push(l0[x]);
        row.push(l1[x]);
        row.push(l2[x]);
        row.push(l3[x]);
        proof {
            assert forall|xx: int, c: int| 0 <= xx < x + 1 && 0 <= c < 4 implies #[trigger] row@[xx
                * 4 + c] == h_value(src@, w, radius as int, recip as int, half as int, xx, y as int, c) by {
                if xx < x {
                    assert(row@[xx * 4 + c] == prev[xx * 4 + c]);
                } else {
                    let k = x as int;
                    assert(l0@[k] == h_value(src@, w, radius as int, recip as int, half as int, k, y as int, 0));
                }
            }
        }
        x += 1;
    }
    row
}


/// `band` holds rows `row0 .. row_end` of the horizontal pass of `s`.
pub open spec fn band_ok(
    band: Seq<u8>,
    s: Seq<u8>,
    w: int,
    r: int,
    recip: int,
    half: int,
    row0: int,
    row_end: int,
) -> bool {
    &&& band.len() == (row_end - row0) * w * 4
    &&& forall|j: int|
        0 <= j < band.len() ==> #[trigger] band[j] == h_pass(s, w, r, recip, half)[row0 * w * 4 + j]
}

/// `strip` holds columns `x0 .. x0 + sw` of the vertical pass of `s`, row by row.
pub open spec fn strip_ok(
    strip: Seq<u8>,
    s: Seq<u8>,
    w: int,
    h: int,
    r: int,
    recip: int,
    half: int,
    x0: int,
    sw: int,
) -> bool {
    &&& strip.len() == h * sw * 4
    &&& forall|y: int, xi: int, c: int|
        0 <= y < h && 0 <= xi < sw && 0 <= c < 4 ==> #[trigger] strip[pixel_index(sw, xi, y, c)]
            == v_value(s, w, h, r, recip, half, x0 + xi, y, c)
}

/// Byte `k` of row `y` is channel `k % 4` of pixel `k / 4` of that row.
proof fn lemma_row_byte(w: int, h: int, y: int, k: int)
    requires
        0 <= y < h,
        0 <= k < w * 4,
    ensures
        0 <= k / 4 < w,
        k == (k / 4) * 4 + k % 4,
        0 <= k % 4 < 4,
        y * w * 4 + k == pixel_index(w, k / 4, y, k % 4),
        pixel_x(w, y * w * 4 + k) == k / 4,
        pixel_y(w, y * w * 4 + k) == y,
        channel(y * w * 4 + k) == k % 4,
        0 <= y * w * 4 + k < w * h * 4,
{
    vstd::arithmetic::div_mod::lemma_fundamental_div_mod(k, 4);
    vstd::arithmetic::div_mod::lemma_mod_pos_bound(k, 4);
    assert(0 <= k / 4 < w) by (nonlinear_arith)
        requires
            k == 4 * (k / 4) + k % 4,
            0 <= k % 4 < 4,
            0 <= k < w * 4,
    ;
    assert(y * w * 4 + k == pixel_index(w, k / 4, y, k % 4)) by (nonlinear_arith)
        requires
            k == 4 * (k / 4) + k % 4,
    ;
    lemma_pixel_index_decompose(w, k / 4, y, k % 4);
    lemma_pixel_index_bounds(w, h, k / 4, y, k % 4);
}

/// Rows `row0 .. row_end` of a horizontal box pass.
pub fn blur_rows_h(
    src: &Vec<u8>,
    width: usize,
    height: usize,
    row0: usize,
    row_end: usize,
    radius: usize,
    recip: u32,
    half: u32,
) -> (band: Vec<u8>)
    requires
        src@.len() == width * height * 4,
        row0 <= row_end <= height,
        box_fits(radius as int, recip as int, half as int),
    ensures
        band_ok(band@, src@, width as int, radius as int, recip as int, half as int, row0 as int, row_end as int),
{
    let ghost hp = h_pass(src@, width as int, radius as int, recip as int, half as int);
    let ghost w = width as int;
    let len = src.len();
    proof {
        assert(w * 4 * row_end <= w * 4 * height) by (nonlinear_arith)
            requires
                row_end <= height,
                w >= 0,
        ;
        assert(w * height * 4 == w * 4 * height) by (nonlinear_arith);
    }
    let stride = if height == 0 {
        0
    } else {
        proof {
            assert(w * 4 <= w * 4 * height) by (nonlinear_arith)
                requires
                    height >= 1,
                    w >= 0,
            ;
        }
        width * 4
    };
    assert(stride == w * 4 || row0 == row_end);
    let mut band: Vec<u8> = Vec::new();
    let mut y = row0;
    while y < row_end
        invariant
            row0 <= y <= row_end <= height,
            y < row_end ==> stride == w * 4,
            w == width,
            src@.len() == width * height * 4,
            box_fits(radius as int, recip as int, half as int),
            hp == h_pass(src@, w, radius as int, recip as int, half as int),
            band@.len() == (y - row0) * w * 4,
            forall|j: int| 0 <= j < band@.len() ==> #[trigger] band@[j] == hp[row0 * w * 4 + j],
        decreases row_end - y,
    {
        let row = blur_row_h(src, width, height, y, radius, recip, half);
        let mut k: usize = 0;
        while k < stride
            invariant
                row0 <= y < row_end <= height,
                stride == w * 4,
                w == width,
                src@.len() == width * height * 4,
                row@.len() == w * 4,
                forall|x: int, c: int|
                    0 <= x < width && 0 <= c < 4 ==> #[trigger] row@[x * 4 + c] == h_value(
                        src@,
                        w,
                        radius as int,
                        recip as int,
                        half as int,
                        x,
                        y as int,
                        c,
                    ),
                hp == h_pass(src@, w, radius as int, recip as int, half as int),
                k <= stride,
                band@.len() == (y - row0) * w * 4 + k,
                forall|j: int| 0 <= j < band@.len() ==> #[trigger] band@[j] == hp[row0 * w * 4 + j],
            decreases stride - k,
        {
            proof {
                lemma_row_byte(w, height as int, y as int, k as int);
                let x = k / 4;
                let c = k % 4;
                assert(row@[x * 4 + c] == h_value(src@, w, radius as int, recip as int, half as int, x as int, y as int, c as int));
                assert(row0 * w * 4 + (y - row0) * w * 4 + k == y * w * 4 + k) by (nonlinear_arith);
            }
            band.push(row[k]);
            k += 1;
        }
        proof {
            assert((y - row0) * w * 4 + w * 4 == (y + 1 - row0) * w * 4) by (nonlinear_arith);
        }
        y += 1;
    }
    band
}

/// Columns `x0 .. x0 + strip_w` of a vertical box pass, as a `strip_w`-wide image.
pub fn blur_cols_v(
    src: &Vec<u8>,
    width: usize,
    height: usize,
    x0: usize,
    strip_w: usize,
    radius: usize,
    recip: u32,
    half: u32,
) -> (strip: Vec<u8>)
    requires
        src@.len() == width * height * 4,
        x0 + strip_w <= width,
        box_fits(radius as int, recip as int, half as int),
    ensures
        strip_ok(
            strip@,
            src@,
            width as int,
            height as int,
            radius as int,
            recip as int,
            half as int,
            x0 as int,
            strip_w as int,
        ),
{
    let ghost w = width as int;
    let ghost h = height as int;
    let ghost r = radius as int;
    let len = src.len();
    let mut strip: Vec<u8> = Vec::new();
    if height == 0 {
        proof {
            assert(h * strip_w * 4 == 0) by (nonlinear_arith)
                requires
                    h == 0,
            ;
        }
        return strip;
    }
    proof {
        assert(w * 4 <= w * h * 4) by (nonlinear_arith)
            requires
                h >= 1,
                w >= 0,
        ;
        assert(w * h * 4 == (h - 1) * (w * 4) + w * 4) by (nonlinear_arith);
        assert(0 <= (h - 1) * (w * 4)) by (nonlinear_arith)
            requires
                h >= 1,
                w >= 0,
        ;
    }
    let stride = width * 4;
    let lanes = strip_w * 4;
    let first = x0 * 4;
    // One filtered column per (pixel column, channel): lane `q` is channel `q % 4` of column `x0 + q / 4`.
    let mut lines: Vec<Vec<u8>> = Vec::new();
    let mut q: usize = 0;
    while q < lanes
        invariant
            w == width,
            h == height,
            h >= 1,
            r == radius,
            stride == w * 4,
            lanes == strip_w * 4,
            first == x0 * 4,
            x0 + strip_w <= width,
            src@.len() == w * h * 4,
            w * h * 4 == (h - 1) * (w * 4) + w * 4,
            0 <= (h - 1) * (w * 4),
            box_fits(radius as int, recip as int, half as int),
            q <= lanes,
            lines@.len() == q,
            forall|l: int|
                0 <= l < q ==> (#[trigger] lines@[l])@.len() == h && forall|y: int|
                    0 <= y < h ==> lines@[l]@[y] == line_blur_value(
                        src@,
                        x0 * 4 + l,
                        w * 4,
                        h,
                        r,
                        recip as int,
                        half as int,
                        y,
                    ),
        decreases lanes - q,
    {
        let line = blur_line(src, first + q, stride, height, radius, recip, half);
        lines.push(line);
        q += 1;
    }
    let mut y: usize = 0;
    while y < height
        invariant
            w == width,
            h == height,
            r == radius,
            lanes == strip_w * 4,
            x0 + strip_w <= width,
            y <= height,
            lines@.len() == lanes,
            forall|l: int|
                0 <= l < lanes ==> (#[trigger] lines@[l])@.len() == h && forall|yy: int|
                    0 <= yy < h ==> lines@[l]@[yy] == line_blur_value(
                        src@,
                        x0 * 4 + l,
                        w * 4,
                        h,
                        r,
                        recip as int,
                        half as int,
                        yy,
                    ),
            strip@.len() == y * lanes,
            forall|yy: int, l: int|
                0 <= yy < y && 0 <= l < lanes ==> #[trigger] strip@[yy * lanes + l] == lines@[l]@[yy],
        decreases height - y,
    {
        let mut l: usize = 0;
        while l < lanes
            invariant
                h == height,
                w == width,
                x0 + strip_w <= width,
                lanes == strip_w * 4,
                y < height,
                lines@.len() == lanes,
                forall|ll: int| 0 <= ll < lanes ==> (#[trigger] lines@[ll])@.len() == h,
                l <= lanes,
                strip@.len() == y * lanes + l,
                forall|yy: int, ll: int|
                    0 <= yy < y && 0 <= ll < lanes ==> #[trigger] strip@[yy * lanes + ll]
                        == lines@[ll]@[yy],
                forall|ll: int| 0 <= ll < l ==> #[trigger] strip@[y * lanes + ll] == lines@[ll]@[y as int],
            decreases lanes - l,
        {
            proof {
                assert(y * lanes + l < (y + 1) * lanes) by (nonlinear_arith)
                    requires
                        l < lanes,
                ;
                assert((y + 1) * lanes <= h * lanes) by (nonlinear_arith)
                    requires
                        y < h,
                        lanes >= 0,
                ;
                assert(h * lanes == h * strip_w * 4) by (nonlinear_arith)
                    requires
                        lanes == strip_w * 4,
                ;
                assert(h * strip_w <= w * h) by (nonlinear_arith)
                    requires
                        strip_w <= w,
                        h >= 0,
                ;
            }
            let ghost prev = strip@;
            let v = lines[l][y];
            strip.push(v);
            proof {
                assert forall|yy: int, ll: int|
                    0 <= yy < y && 0 <= ll < lanes implies #[trigger] strip@[yy * lanes + ll]
                        == lines@[ll]@[yy] by {
                    assert(yy * lanes + ll < y * lanes) by (nonlinear_arith)
                        requires
                            yy < y,
                            ll < lanes,
                    ;
                    assert(strip@[yy * lanes + ll] == prev[yy * lanes + ll]);
                }
            }
            l += 1;
        }
        proof {
            assert forall|yy: int, ll: int|
                0 <= yy < y + 1 && 0 <= ll < lanes implies #[trigger] strip@[yy * lanes + ll]
                    == lines@[ll]@[yy] by {
                if yy == y {
                } 
            }
            assert(y * lanes + lanes == (y + 1) * lanes) by (nonlinear_arith);
        }
        y += 1;
    }
    proof {
        assert(strip@.len() == h * strip_w * 4) by (nonlinear_arith)
            requires
                strip@.len() == y * lanes,
                y == h,
                lanes == strip_w * 4,
        ;
        assert forall|yy: int, xi: int, c: int|
            0 <= yy < h && 0 <= xi < strip_w && 0 <= c < 4 implies #[trigger] strip@[pixel_index(
                strip_w as int,
                xi,
                yy,
                c,
            )] == v_value(src@, w, h, r, recip as int, half as int, x0 + xi, yy, c) by {
            let l = xi * 4 + c;
            assert(pixel_index(strip_w as int, xi, yy, c) == yy * lanes + l) by (nonlinear_arith)
                requires
                    lanes == strip_w * 4,
                    l == xi * 4 + c,
            ;
            assert(pixel_index(w, x0 + xi, 0, c) == x0 * 4 + l);
        }
    }
    strip
}

/// `a / n` rounded up.
pub open spec fn ceil_div(a: int, n: int) -> int {
    a / n + if a % n == 0 {
        0int
    } else {
        1int
    }
}

/// `n` shares of `ceil_div(a, n)` cover `a`, with less than one share to spare.
proof fn lemma_ceil_div(a: int, n: int)
    requires
        0 <= a,
        1 <= n,
    ensures
        a <= n * ceil_div(a, n) <= a + n - 1,
        0 <= ceil_div(a, n) <= a,
        n == 1 ==> n * ceil_div(a, n) == a,
{
    vstd::arithmetic::div_mod::lemma_fundamental_div_mod(a, n);
    vstd::arithmetic::div_mod::lemma_mod_pos_bound(a, n);
    vstd::arithmetic::div_mod::lemma_div_pos_is_pos(a, n);
    if n == 1 {
        vstd::arithmetic::div_mod::lemma_fundamental_div_mod_converse(a, 1, a, 0);
    }
    assert(a <= n * ceil_div(a, n) <= a + n - 1) by (nonlinear_arith)
        requires
            a == n * (a / n) + a % n,
            0 <= a % n < n,
            ceil_div(a, n) == a / n + if a % n == 0 { 0int } else { 1int },
    ;
    assert(ceil_div(a, n) <= a) by (nonlinear_arith)
        requires
            a == n * (a / n) + a % n,
            0 <= a % n < n,
            0 <= a / n,
            n >= 1,
            ceil_div(a, n) == a / n + if a % n == 0 { 0int } else { 1int },
    ;
}

/// `a / n` rounded up.
fn div_ceil(a: usize, n: usize) -> (r: usize)
    requires
        n >= 1,
    ensures
        r == ceil_div(a as int, n as int),
{
    proof {
        lemma_ceil_div(a as int, n as int);
    }
    if a % n == 0 {
        a / n
    } else {
        a / n + 1
    }
}

/// First column of strip `id` when strips are `cols_per` columns wide.
pub open spec fn strip_start(id: int, cols_per: int, w: int) -> int {
    if id * cols_per < w {
        id * cols_per
    } else {
        w
    }
}

/// Width of strip `id`: the columns left of `cols_per`, or none past the right edge.
pub open spec fn strip_width(id: int, cols_per: int, w: int) -> int {
    if id * cols_per < w {
        if cols_per < w - id * cols_per {
            cols_per
        } else {
            w - id * cols_per
        }
    } else {
        0
    }
}

/// One round of a box pass over the region of one worker: phase `0` filters the rows
/// `row0 .. row0 + rows_per` (clipped to the image) horizontally; any other phase filters the
/// `strip_w` columns from `col0` vertically.
pub fn run_round(
    src: &Vec<u8>,
    width: usize,
    height: usize,
    phase: u8,
    radius: usize,
    recip: u32,
    half: u32,
    row0: usize,
    rows_per: usize,
    col0: usize,
    strip_w: usize,
) -> (out: Vec<u8>)
    requires
        src@.len() == width * height * 4,
        box_fits(radius as int, recip as int, half as int),
        phase == 0 ==> row0 + rows_per <= usize::MAX,
        phase != 0 ==> col0 + strip_w <= width,
    ensures
        phase == 0 ==> band_ok(
            out@,
            src@,
            width as int,
            radius as int,
            recip as int,
            half as int,
            if row0 < height { row0 as int } else { height as int },
            if row0 + rows_per < height { row0 + rows_per } else { height as int },
        ),
        phase != 0 ==> strip_ok(
            out@,
            src@,
            width as int,
            height as int,
            radius as int,
            recip as int,
            half as int,
            col0 as int,
            strip_w as int,
        ),
{
    if phase == 0 {
        let y_end = if row0 + rows_per < height {
            row0 + rows_per
        } else {
            height
        };
        let y0 = if row0 < height {
            row0
        } else {
            height
        };
        blur_rows_h(src, width, height, y0, y_end, radius, recip, half)
    } else {
        blur_cols_v(src, width, height, col0, strip_w, radius, recip, half)
    }
}

/// One full horizontal pass, computed as `n` bands of `rows_per` rows.
fn horizontal_round(
    src: &Vec<u8>,
    width: usize,
    height: usize,
    n: usize,
    rows_per: usize,
    radius: usize,
    recip: u32,
    half: u32,
) -> (out: Vec<u8>)
    requires
        src@.len() == width * height * 4,
        box_fits(radius as int, recip as int, half as int),
        n >= 1,
        height <= n * rows_per <= usize::MAX,
    ensures
        out@ == h_pass(src@, width as int, radius as int, recip as int, half as int),
{
    let ghost hp = h_pass(src@, width as int, radius as int, recip as int, half as int);
    let ghost w = width as int;
    let ghost h = height as int;
    let mut out: Vec<u8> = Vec::new();
    let mut id: usize = 0;
    proof {
        assert(0 * rows_per == 0);
        assert(0int * w * 4 == 0);
        if h == 0 {
            assert(h * w * 4 == 0);
        }
        assert(hp.len() == w * h * 4);
    }
    while id < n
        invariant
            w == width,
            h == height,
            hp.len() == w * h * 4,
            src@.len() == width * height * 4,
            box_fits(radius as int, recip as int, half as int),
            height <= n * rows_per <= usize::MAX,
            hp == h_pass(src@, w, radius as int, recip as int, half as int),
            id <= n,
            out@.len() == (if id * rows_per < h { id * rows_per } else { h }) * w * 4,
            forall|j: int| 0 <= j < out@.len() ==> #[trigger] out@[j] == hp[j],
        decreases n - id,
    {
        proof {
            assert(id * rows_per + rows_per == (id + 1) * rows_per) by (nonlinear_arith);
            assert((id + 1) * rows_per <= n * rows_per) by (nonlinear_arith)
                requires
                    id + 1 <= n,
                    rows_per >= 0,
            ;
        }
        let row0 = id * rows_per;
        let band = run_round(src, width, height, 0, radius, recip, half, row0, rows_per, 0, 0);
        let ghost base = out@.len();
        let mut j: usize = 0;
        while j < band.len()
            invariant
                w == width,
                h == height,
                j <= band@.len(),
                hp == h_pass(src@, w, radius as int, recip as int, half as int),
                hp.len() == w * h * 4,
                out@.len() == base + j,
                band_ok(
                    band@,
                    src@,
                    w,
                    radius as int,
                    recip as int,
                    half as int,
                    if row0 < height { row0 as int } else { h },
                    if row0 + rows_per < height { row0 + rows_per } else { h },
                ),
                base == (if row0 < h { row0 as int } else { h }) * w * 4,
                forall|jj: int| 0 <= jj < out@.len() ==> #[trigger] out@[jj] == hp[jj],
            decreases band@.len() - j,
        {
            let ghost prev = out@;
            out.push(band[j]);
            proof {
                let r0 = if row0 < h { row0 as int } else { h };
                assert(band@[j as int] == hp[r0 * w * 4 + j]);
                assert forall|jj: int| 0 <= jj < out@.len() implies #[trigger] out@[jj] == hp[jj] by {
                    if jj < prev.len() {
                        assert(out@[jj] == prev[jj]);
                    }
                }
            }
            j += 1;
        }
        proof {
            let r0 = if row0 < h { row0 as int } else { h };
            let r1 = if row0 + rows_per < h { row0 + rows_per } else { h };
            assert(r0 * w * 4 + (r1 - r0) * w * 4 == r1 * w * 4) by (nonlinear_arith);
        }
        id += 1;
    }
    proof {
        assert(h * w * 4 == w * h * 4) by (nonlinear_arith);
        assert(out@ =~= hp);
    }
    out
}

/// Start and width of strip `id` of `cols_per` columns.
fn strip_bounds(id: usize, cols_per: usize, width: usize) -> (b: (usize, usize))
    requires
        id * cols_per <= usize::MAX,
    ensures
        b.0 == strip_start(id as int, cols_per as int, width as int),
        b.1 == strip_width(id as int, cols_per as int, width as int),
{
    let x0 = id * cols_per;
    if x0 < width {
        if cols_per < width - x0 {
            (x0, cols_per)
        } else {
            (x0, width - x0)
        }
    } else {
        (width, 0)
    }
}

/// Consecutive strips tile the row: each starts where the previous one ends.
proof fn lemma_strips_tile(id: int, cols_per: int, w: int)
    requires
        0 <= id,
        0 <= cols_per,
        0 <= w,
    ensures
        strip_start(id, cols_per, w) + strip_width(id, cols_per, w) == strip_start(id + 1, cols_per, w),
        0 <= strip_width(id, cols_per, w),
        strip_start(id, cols_per, w) + strip_width(id, cols_per, w) <= w,
{
    assert(id * cols_per + cols_per == (id + 1) * cols_per) by (nonlinear_arith);
    assert(id * cols_per <= (id + 1) * cols_per) by (nonlinear_arith)
        requires
            cols_per >= 0,
    ;
}

/// One full vertical pass, computed as `n` strips of `cols_per` columns.
fn vertical_round(
    src: &Vec<u8>,
    width: usize,
    height: usize,
    n: usize,
    cols_per: usize,
    radius: usize,
    recip: u32,
    half: u32,
) -> (out: Vec<u8>)
    requires
        src@.len() == width * height * 4,
        box_fits(radius as int, recip as int, half as int),
        n >= 1,
        width <= n * cols_per <= usize::MAX,
    ensures
        out@ == v_pass(src@, width as int, height as int, radius as int, recip as int, half as int),
{
    let ghost vp = v_pass(src@, width as int, height as int, radius as int, recip as int, half as int);
    let ghost w = width as int;
    let ghost h = height as int;
    let ghost cp = cols_per as int;
    let len = src.len();
    let mut strips: Vec<Vec<u8>> = Vec::new();
    let mut id: usize = 0;
    while id < n
        invariant
            w == width,
            h == height,
            cp == cols_per,
            src@.len() == width * height * 4,
            box_fits(radius as int, recip as int, half as int),
            width <= n * cols_per <= usize::MAX,
            id <= n,
            strips@.len() == id,
            forall|i: int|
                0 <= i < id ==> strip_ok(
                    #[trigger] strips@[i]@,
                    src@,
                    w,
                    h,
                    radius as int,
                    recip as int,
                    half as int,
                    strip_start(i, cp, w),
                    strip_width(i, cp, w),
                ),
        decreases n - id,
    {
        proof {
            assert(id * cols_per <= n * cols_per) by (nonlinear_arith)
                requires
                    id <= n,
                    cols_per >= 0,
            ;
            lemma_strips_tile(id as int, cp, w);
        }
        let (x0, sw) = strip_bounds(id, cols_per, width);
        let strip = run_round(src, width, height, 1, radius, recip, half, 0, 0, x0, sw);
        strips.push(strip);
        id += 1;
    }
    let mut out: Vec<u8> = Vec::new();
    let mut y: usize = 0;
    while y < height
        invariant
            w == width,
            h == height,
            cp == cols_per,
            n >= 1,
            width <= n * cols_per <= usize::MAX,
            src@.len() == width * height * 4,
            vp == v_pass(src@, w, h, radius as int, recip as int, half as int),
            strips@.len() == n,
            forall|i: int|
                0 <= i < n ==> strip_ok(
                    #[trigger] strips@[i]@,
                    src@,
                    w,
                    h,
                    radius as int,
                    recip as int,
                    half as int,
                    strip_start(i, cp, w),
                    strip_width(i, cp, w),
                ),
            y <= height,
            len == src@.len(),
            out@.len() == y * w * 4,
            forall|j: int| 0 <= j < out@.len() ==> #[trigger] out@[j] == vp[j],
        decreases height - y,
    {
        let mut id: usize = 0;
        while id < n
            invariant
                w == width,
                h == height,
                cp == cols_per,
                width <= n * cols_per <= usize::MAX,
                src@.len() == width * height * 4,
                vp == v_pass(src@, w, h, radius as int, recip as int, half as int),
                strips@.len() == n,
                forall|i: int|
                    0 <= i < n ==> strip_ok(
                        #[trigger] strips@[i]@,
                        src@,
                        w,
                        h,
                        radius as int,
                        recip as int,
                        half as int,
                        strip_start(i, cp, w),
                        strip_width(i, cp, w),
                    ),
                y < height,
                id <= n,
                len == src@.len(),
                out@.len() == y * w * 4 + strip_start(id as int, cp, w) * 4,
                forall|j: int| 0 <= j < out@.len() ==> #[trigger] out@[j] == vp[j],
            decreases n - id,
        {
            proof {
                assert(id * cols_per <= n * cols_per) by (nonlinear_arith)
                    requires
                        id <= n,
                        cols_per >= 0,
                ;
                lemma_strips_tile(id as int, cp, w);
                assert(w * 4 <= w * h * 4) by (nonlinear_arith)
                    requires
                        h >= 1,
                        w >= 0,
                ;
            }
            let (x0, sw) = strip_bounds(id, cols_per, width);
            let lanes = sw * 4;
            let ghost strip = strips@[id as int]@;
            assert(strip_ok(strip, src@, w, h, radius as int, recip as int, half as int, x0 as int, sw as int));
            let mut q: usize = 0;
            while q < lanes
                invariant
                    w == width,
                    h == height,
                    y < height,
                    x0 + sw <= width,
                    lanes == sw * 4,
                    strips@.len() == n,
                    id < n,
                    strip == strips@[id as int]@,
                    strip_ok(strip, src@, w, h, radius as int, recip as int, half as int, x0 as int, sw as int),
                    src@.len() == width * height * 4,
                    vp == v_pass(src@, w, h, radius as int, recip as int, half as int),
                    q <= lanes,
                    len == src@.len(),
                    out@.len() == y * w * 4 + x0 * 4 + q,
                    forall|j: int| 0 <= j < out@.len() ==> #[trigger] out@[j] == vp[j],
                decreases lanes - q,
            {
                proof {
                    let xi = (q / 4) as int;
                    let c = (q % 4) as int;
                    vstd::arithmetic::div_mod::lemma_fundamental_div_mod(q as int, 4);
                    vstd::arithmetic::div_mod::lemma_mod_pos_bound(q as int, 4);
                    assert(0 <= xi < sw) by (nonlinear_arith)
                        requires
                            q == 4 * xi + c,
                            0 <= c < 4,
                            0 <= q < lanes,
                            lanes == sw * 4,
                    ;
                    assert(pixel_index(sw as int, xi, y as int, c) == y * sw * 4 + q) by (nonlinear_arith)
                        requires
                            q == 4 * xi + c,
                    ;
                    assert(pixel_index(w, x0 + xi, y as int, c) == y * w * 4 + x0 * 4 + q) by (nonlinear_arith)
                        requires
                            q == 4 * xi + c,
                    ;
                    lemma_pixel_index_decompose(w, x0 + xi, y as int, c);
                    lemma_pixel_index_bounds(w, h, x0 + xi, y as int, c);
                    lemma_pixel_index_bounds(sw as int, h, xi, y as int, c);
                    assert(strip.len() == h * sw * 4);
                    assert(h * sw * 4 == sw * h * 4) by (nonlinear_arith);
                    assert(sw * h * 4 <= w * h * 4) by (nonlinear_arith)
                        requires
                            sw <= w,
                            h >= 0,
                    ;
                }
                let v = strips[id][y * lanes + q];
                out.push(v);
                q += 1;
            }
            id += 1;
        }
        proof {
            assert(n * cp >= w);
            assert(y * w * 4 + w * 4 == (y + 1) * w * 4) by (nonlinear_arith);
        }
        y += 1;
    }
    proof {
        assert(h * w * 4 == w * h * 4) by (nonlinear_arith);
        assert(out@ =~= vp);
    }
    out
}

/// Separable box-blur Gaussian approximation with independent per-axis settings: `passes_h`
/// horizontal box passes of radius `radius_h` (none when `radius_h == 0`), then `passes_v`
/// vertical box passes of radius `radius_v` (none when `radius_v == 0`). Each pass is split into
/// bands of rows or strips of columns, one per worker of
/// `thread_count(parallelism, min(width, height))`; the result does not depend on that split.
/// Only an axis whose passes run needs a radius small enough for 32-bit sums.
pub fn box_blur_gaussian(
    image: &Image,
    radius_h: usize,
    passes_h: usize,
    radius_v: usize,
    passes_v: usize,
    parallelism: usize,
) -> (out: Image)
    requires
        image.wf(),
        passes_h > 0 ==> radius_fits(radius_h as int),
        passes_v > 0 ==> radius_fits(radius_v as int),
    ensures
        out.wf(),
        out.width == image.width,
        out.height == image.height,
        out.data@ == box_blur_spec(
            image.data@,
            image.width as int,
            image.height as int,
            radius_h as int,
            passes_h as nat,
            radius_v as int,
            passes_v as nat,
        ),
{
    let width = image.width as usize;
    let height = image.height as usize;
    let ghost w = width as int;
    let ghost h = height as int;
    let len = image.data.len();
    proof {
        assert(1u32 << 23u32 == 8388608u32) by (bit_vector);
        assert(1u32 << 22u32 == 4194304u32) by (bit_vector);
    }
    let one: u32 = 1u32 << SHIFT;
    let half = 1u32 << (SHIFT - 1);
    let work = if width < height {
        width
    } else {
        height
    };
    let n = thread_count(parallelism, work);
    let rows_per = div_ceil(height, n);
    let cols_per = div_ceil(width, n);
    proof {
        lemma_ceil_div(h, n as int);
        lemma_ceil_div(w, n as int);
        if n >= 2 {
            assert(8 * h <= w * h * 4 && 8 * w <= w * h * 4) by (nonlinear_arith)
                requires
                    w >= 2,
                    h >= 2,
            ;
        }
    }
    let mut cur = image.data.clone();
    // A pass count of zero forms no sums, so the radius is only used when a pass runs.
    if radius_h > 0 && passes_h > 0 {
        proof {
            lemma_standard_box_fits(radius_h as int);
        }
        let recip_h = one / (radius_h as u32 * 2 + 1);
        let mut p: usize = 0;
        while p < passes_h
            invariant
                w == width,
                h == height,
                cur@.len() == width * height * 4,
                box_fits(radius_h as int, recip_h as int, half as int),
                recip_h == recip_of(radius_h as int),
                half == half_unit(),
                n >= 1,
                height <= n * rows_per <= usize::MAX,
                p <= passes_h,
                cur@ == h_passes(image.data@, w, radius_h as int, p as nat),
            decreases passes_h - p,
        {
            cur = horizontal_round(&cur, width, height, n, rows_per, radius_h, recip_h, half);
            p += 1;
        }
    }
    let ghost after_h = cur@;
    if radius_v > 0 && passes_v > 0 {
        proof {
            lemma_standard_box_fits(radius_v as int);
        }
        let recip_v = one / (radius_v as u32 * 2 + 1);
        let mut p: usize = 0;
        while p < passes_v
            invariant
                w == width,
                h == height,
                cur@.len() == width * height * 4,
                box_fits(radius_v as int, recip_v as int, half as int),
                recip_v == recip_of(radius_v as int),
                half == half_unit(),
                n >= 1,
                width <= n * cols_per <= usize::MAX,
                p <= passes_v,
                cur@ == v_passes(after_h, w, h, radius_v as int, p as nat),
            decreases passes_v - p,
        {
            cur = vertical_round(&cur, width, height, n, cols_per, radius_v, recip_v, half);
            p += 1;
        }
    }
    Image { width: image.width, height: image.height, data: cur }
}

/// A box of radius zero covers a single pixel: a pass with it leaves every byte as it was.
pub proof fn lemma_radius_zero_pass_is_identity(s: Seq<u8>, w: int, h: int)
    requires
        0 <= w,
        0 <= h,
        s.len() == w * h * 4,
    ensures
        h_pass(s, w, 0, recip_of(0), half_unit()) == s,
        v_pass(s, w, h, 0, recip_of(0), half_unit()) == s,
{
    assert(recip_of(0) == 8388608) by {
        vstd::arithmetic::div_mod::lemma_fundamental_div_mod_converse(8388608, 1, 8388608, 0);
    }
    let hp = h_pass(s, w, 0, recip_of(0), half_unit());
    let vp = v_pass(s, w, h, 0, recip_of(0), half_unit());
    assert forall|i: int| 0 <= i < s.len() implies hp[i] == s[i] && vp[i] == s[i] by {
        if w == 0 {
            assert(w * h * 4 == 0);
        }
        lemma_index_in_image(w, h, i);
        let x = pixel_x(w, i);
        let y = pixel_y(w, i);
        let c = channel(i);
        lemma_pixel_index_bounds(w, h, x, y, c);
        let v = s[i] as int;
        vstd::arithmetic::div_mod::lemma_fundamental_div_mod_converse(
            v * 8388608 + 4194304,
            8388608,
            v,
            4194304,
        );
        reveal_with_fuel(crate::window::line_sum, 2);
        assert(crate::window::clamp_index(x, w) == x);
        assert(crate::window::clamp_index(y, h) == y);
        assert(pixel_index(w, 0, y, c) + x * 4 == i);
        assert(pixel_index(w, x, 0, c) + y * (w * 4) == i);
        assert(crate::window::line_sum(s, pixel_index(w, 0, y, c), 4, w, x, x + 1) == v);
        assert(crate::window::line_sum(s, pixel_index(w, x, 0, c), w * 4, h, y, y + 1) == v);
        assert(v * 8388608 == 8388608 * v) by (nonlinear_arith);
    }
    assert(hp =~= s);
    assert(vp =~= s);
}

/// With the standard reciprocal and rounding, the average of a window of bytes is itself at most
/// 255: the final narrowing to `u8` never truncates.
pub proof fn lemma_standard_average_fits_byte(sum: int, r: int)
    requires
        radius_fits(r),
        0 <= sum <= (2 * r + 1) * 255,
    ensures
        0 <= (sum * recip_of(r) + half_unit()) / 8388608 <= 255,
{
    lemma_standard_box_fits(r);
    let d = 2 * r + 1;
    vstd::arithmetic::div_mod::lemma_fundamental_div_mod(8388608, d);
    vstd::arithmetic::div_mod::lemma_mod_pos_bound(8388608, d);
    let q = recip_of(r);
    assert(sum * q <= 255 * 8388608) by (nonlinear_arith)
        requires
            0 <= sum <= d * 255,
            0 <= q,
            d * q <= 8388608,
    ;
    assert(0 <= sum * q) by (nonlinear_arith)
        requires
            0 <= sum,
            0 <= q,
    ;
    vstd::arithmetic::div_mod::lemma_div_is_ordered(sum * q + half_unit(), 256 * 8388608 - 1, 8388608);
    vstd::arithmetic::div_mod::lemma_div_pos_is_pos(sum * q + half_unit(), 8388608);
}

/// When no pass runs on either axis (a zero radius or a zero pass count), the blur returns the
/// image as it was.
pub proof fn lemma_no_pass_is_identity(s: Seq<u8>, w: int, h: int, rh: int, ph: nat, rv: int, pv: nat)
    requires
        rh <= 0 || ph == 0,
        rv <= 0 || pv == 0,
    ensures
        box_blur_spec(s, w, h, rh, ph, rv, pv) == s,
{
    if rh > 0 {
        assert(h_passes(s, w, rh, 0) == s);
    }
    if rv > 0 {
        assert(v_passes(s, w, h, rv, 0) == s);
    }
}

/// Column `x` of a `w * h` buffer laid out as one row of `h` pixels.
pub open spec fn column_as_row(s: Seq<u8>, w: int, h: int, x: int) -> Seq<u8> {
    Seq::new((h * 4) as nat, |i: int| s[pixel_index(w, x, i / 4, i % 4)])
}

/// Two lines whose samples agree have equal window sums.
proof fn lemma_line_sum_same_samples(
    s1: Seq<u8>,
    b1: int,
    st1: int,
    s2: Seq<u8>,
    b2: int,
    st2: int,
    n: int,
    lo: int,
    hi: int,
)
    requires
        forall|j: int|
            #[trigger] crate::window::line_px(s1, b1, st1, n, j) == crate::window::line_px(s2, b2, st2, n, j),
    ensures
        crate::window::line_sum(s1, b1, st1, n, lo, hi) == crate::window::line_sum(s2, b2, st2, n, lo, hi),
    decreases hi - lo,
{
    if hi > lo {
        lemma_line_sum_same_samples(s1, b1, st1, s2, b2, st2, n, lo, hi - 1);
        assert(crate::window::line_px(s1, b1, st1, n, hi - 1) == crate::window::line_px(s2, b2, st2, n, hi - 1));
    }
}

/// The vertical pass is the horizontal pass applied to the transposed column, edge repetition
/// and rounding included.
pub proof fn lemma_vertical_pass_is_transposed_horizontal(
    s: Seq<u8>,
    w: int,
    h: int,
    r: int,
    recip: int,
    half: int,
    x: int,
    y: int,
    c: int,
)
    requires
        s.len() == w * h * 4,
        0 <= x < w,
        0 <= y < h,
        0 <= c < 4,
    ensures
        v_value(s, w, h, r, recip, half, x, y, c) == h_value(column_as_row(s, w, h, x), h, r, recip, half, y, 0, c),
        v_pass(s, w, h, r, recip, half)[pixel_index(w, x, y, c)] == h_pass(column_as_row(s, w, h, x), h, r, recip, half)[pixel_index(h, y, 0, c)],
{
    let col = column_as_row(s, w, h, x);
    assert forall|j: int|
        #[trigger] crate::window::line_px(col, c, 4, h, j) == crate::window::line_px(s, x * 4 + c, w * 4, h, j) by {
        let k = crate::window::clamp_index(j, h);
        vstd::arithmetic::div_mod::lemma_fundamental_div_mod_converse(c + k * 4, 4, k, c);
        lemma_pixel_index_bounds(w, h, x, k, c);
    }
    lemma_line_sum_same_samples(col, c, 4, s, x * 4 + c, w * 4, h, y - r, y + r + 1);
    assert(pixel_index(h, 0, 0, c) == c);
    assert(pixel_index(w, x, 0, c) == x * 4 + c);
    lemma_pixel_index_decompose(w, x, y, c);
    lemma_pixel_index_bounds(w, h, x, y, c);
    lemma_pixel_index_decompose(h, y, 0, c);
    lemma_pixel_index_bounds(h, 1, y, 0, c);
}

/// Splitting a run of columns into two strips gives the same bytes, column for column, as one
/// strip over the whole run: each column of a strip depends only on that column of the source.
pub proof fn lemma_strip_split(
    whole: Seq<u8>,
    left: Seq<u8>,
    right: Seq<u8>,
    s: Seq<u8>,
    w: int,
    h: int,
    r: int,
    recip: int,
    half: int,
    x0: int,
    a: int,
    b: int,
)
    requires
        0 <= a,
        0 <= b,
        strip_ok(whole, s, w, h, r, recip, half, x0, a + b),
        strip_ok(left, s, w, h, r, recip, half, x0, a),
        strip_ok(right, s, w, h, r, recip, half, x0 + a, b),
    ensures
        forall|y: int, xi: int, c: int|
            0 <= y < h && 0 <= xi < a && 0 <= c < 4 ==> whole[pixel_index(a + b, xi, y, c)]
                == #[trigger] left[pixel_index(a, xi, y, c)],
        forall|y: int, xi: int, c: int|
            0 <= y < h && 0 <= xi < b && 0 <= c < 4 ==> whole[pixel_index(a + b, a + xi, y, c)]
                == #[trigger] right[pixel_index(b, xi, y, c)],
{
    assert forall|y: int, xi: int, c: int|
        0 <= y < h && 0 <= xi < b && 0 <= c < 4 implies whole[pixel_index(a + b, a + xi, y, c)]
            == #[trigger] right[pixel_index(b, xi, y, c)] by {
        assert(whole[pixel_index(a + b, a + xi, y, c)] == v_value(s, w, h, r, recip, half, x0 + (a + xi), y, c));
        assert(x0 + (a + xi) == (x0 + a) + xi);
    }
}

/// Asking for one more horizontal pass (with a non-zero radius) runs exactly one more box pass,
/// with reciprocal `2^23 / (2r + 1)` and rounding `2^22`, over the previous result: the pass
/// count is honoured, never truncated.
pub proof fn lemma_box_blur_one_more_horizontal_pass(s: Seq<u8>, w: int, h: int, rh: int, ph: nat)
    requires
        rh > 0,
    ensures
        box_blur_spec(s, w, h, rh, ph + 1, 0, 0) == h_pass(
            box_blur_spec(s, w, h, rh, ph, 0, 0),
            w,
            rh,
            8388608int / (2 * rh + 1),
            4194304,
        ),
{
    assert(h_passes(s, w, rh, ph + 1) == h_pass(h_passes(s, w, rh, ph), w, rh, recip_of(rh), half_unit()));
}

/// Asking for one more vertical pass (with a non-zero radius) runs exactly one more vertical box
/// pass over the previous result, whatever the horizontal settings.
pub proof fn lemma_box_blur_one_more_vertical_pass(
    s: Seq<u8>,
    w: int,
    h: int,
    rh: int,
    ph: nat,
    rv: int,
    pv: nat,
)
    requires
        rv > 0,
    ensures
        box_blur_spec(s, w, h, rh, ph, rv, pv + 1) == v_pass(
            box_blur_spec(s, w, h, rh, ph, rv, pv),
            w,
            h,
            rv,
            8388608int / (2 * rv + 1),
            4194304,
        ),
{
    let after_h = box_blur_spec(s, w, h, rh, ph, 0, 0);
    assert(v_passes(after_h, w, h, rv, pv + 1) == v_pass(v_passes(after_h, w, h, rv, pv), w, h, rv, recip_of(rv), half_unit()));
}

/// All horizontal passes run first, on the input, and the vertical passes then run on their
/// result; with no pass at all the input comes back.
pub proof fn lemma_box_blur_horizontal_then_vertical(
    s: Seq<u8>,
    w: int,
    h: int,
    rh: int,
    ph: nat,
    rv: int,
    pv: nat,
)
    ensures
        box_blur_spec(s, w, h, rh, ph, rv, pv) == box_blur_spec(
            box_blur_spec(s, w, h, rh, ph, 0, 0),
            w,
            h,
            0,
            0,
            rv,
            pv,
        ),
        box_blur_spec(s, w, h, rh, 0, rv, 0) == s,
{
    if rh > 0 {
        assert(h_passes(s, w, rh, 0) == s);
    }
    if rv > 0 {
        assert(v_passes(s, w, h, rv, 0) == s);
    }
}

/// One horizontal pass: channel `c` of pixel `(x, y)` becomes the sum of that row's samples
/// `x - r ..= x + r` (edges repeated), times `recip`, plus `half`, shifted down by 23 bits.
pub proof fn lemma_horizontal_pass_value(
    s: Seq<u8>,
    w: int,
    h: int,
    r: int,
    recip: int,
    half: int,
    x: int,
    y: int,
    c: int,
)
    requires
        s.len() == w * h * 4,
        0 <= x < w,
        0 <= y < h,
        0 <= c < 4,
    ensures
        h_pass(s, w, r, recip, half)[(y * w + x) * 4 + c] == ((crate::window::line_sum(
            s,
            y * w * 4 + c,
            4,
            w,
            x - r,
            x + r + 1,
        ) * recip + half) / 8388608) as u8,
{
    lemma_pixel_index_decompose(w, x, y, c);
    lemma_pixel_index_bounds(w, h, x, y, c);
}

/// One vertical pass: channel `c` of pixel `(x, y)` becomes the sum of that column's samples
/// `y - r ..= y + r` (edges repeated), times `recip`, plus `half`, shifted down by 23 bits.
pub proof fn lemma_vertical_pass_value(
    s: Seq<u8>,
    w: int,
    h: int,
    r: int,
    recip: int,
    half: int,
    x: int,
    y: int,
    c: int,
)
    requires
        s.len() == w * h * 4,
        0 <= x < w,
        0 <= y < h,
        0 <= c < 4,
    ensures
        v_pass(s, w, h, r, recip, half)[(y * w + x) * 4 + c] == ((crate::window::line_sum(
            s,
            x * 4 + c,
            w * 4,
            h,
            y - r,
            y + r + 1,
        ) * recip + half) / 8388608) as u8,
{
    lemma_pixel_index_decompose(w, x, y, c);
    lemma_pixel_index_bounds(w, h, x, y, c);
}
} // verus!
