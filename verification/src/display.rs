//! Composing the captures of several screens into one image, each at its own position.

use vstd::prelude::*;

use crate::raster::{Image, pixel_index};

verus! {

/// One captured screen: its position on the desktop and its (effected) image.
pub struct ScreenshotDisplay {
    pub x: i32,
    pub y: i32,
    pub image: Image,
}

/// What `image::imageops::overlay` leaves in the bottom buffer after drawing `top` at `(x, y)`.
pub uninterp spec fn overlay_result(
    bottom: Seq<u8>,
    bottom_width: u32,
    bottom_height: u32,
    top: Seq<u8>,
    top_width: u32,
    top_height: u32,
    x: i64,
    y: i64,
) -> Seq<u8>;

/// Draws `top` over `bottom` with its top-left corner at `(x, y)` of `bottom`, clipped to
/// `bottom`, through `image::imageops::overlay` on `image::RgbaImage`s. The buffer is named by
/// `overlay_result`; of it this states what that function's source shows: the size is kept,
/// pixels outside the footprint of `top` are untouched, a fully transparent pixel of `top`
/// leaves the pixel below as it was, and a fully opaque one replaces it. The alpha blending of
/// partly transparent pixels (computed in `f32`) is left unsaid.
#[verifier::external_body]
fn overlay(bottom: &mut Image, top: &Image, x: i64, y: i64)
    requires
        old(bottom).wf(),
        top.wf(),
    ensures
        final(bottom).width == old(bottom).width,
        final(bottom).height == old(bottom).height,
        final(bottom).wf(),
        final(bottom).data@ == overlay_result(
            old(bottom).data@,
            old(bottom).width,
            old(bottom).height,
            top.data@,
            top.width,
            top.height,
            x,
            y,
        ),
        forall|px: int, py: int, c: int|
            0 <= px < old(bottom).width && 0 <= py < old(bottom).height && 0 <= c < 4 && !(x <= px
                < x + top.width && y <= py < y + top.height) ==> #[trigger] final(bottom).spec_pixel(
                px,
                py,
                c,
            ) == old(bottom).spec_pixel(px, py, c),
        forall|px: int, py: int, c: int|
            0 <= px < old(bottom).width && 0 <= py < old(bottom).height && 0 <= c < 4 && x <= px
                < x + top.width && y <= py < y + top.height && top.spec_pixel(px - x, py - y, 3)
                == 255 ==> #[trigger] final(bottom).spec_pixel(px, py, c) == top.spec_pixel(
                px - x,
                py - y,
                c,
            ),
        forall|px: int, py: int, c: int|
            0 <= px < old(bottom).width && 0 <= py < old(bottom).height && 0 <= c < 4 && x <= px
                < x + top.width && y <= py < y + top.height && top.spec_pixel(px - x, py - y, 3)
                == 0 ==> #[trigger] final(bottom).spec_pixel(px, py, c) == old(bottom).spec_pixel(
                px,
                py,
                c,
            ),
{
    let raw = std::mem::take(&mut bottom.data);
    let mut composite = ::image::RgbaImage::from_raw(bottom.width, bottom.height, raw).unwrap();
    let layer = ::image::RgbaImage::from_raw(top.width, top.height, top.data.clone()).unwrap();
    ::image::imageops::overlay(&mut composite, &layer, x, y);
    bottom.data = composite.into_raw();
}


/// Right edge (one past the last column) of a display on the desktop.
pub open spec fn right_edge(d: ScreenshotDisplay) -> int {
    d.x + d.image.width
}

/// Bottom edge (one past the last row) of a display on the desktop.
pub open spec fn bottom_edge(d: ScreenshotDisplay) -> int {
    d.y + d.image.height
}

/// Smallest `x` among the first `k` displays (0 when there are none).
pub open spec fn lowest_x(ds: Seq<ScreenshotDisplay>, k: int) -> int
    decreases k,
{
    if k <= 0 {
        0
    } else if k == 1 {
        ds[0].x as int
    } else if ds[k - 1].x < lowest_x(ds, k - 1) {
        ds[k - 1].x as int
    } else {
        lowest_x(ds, k - 1)
    }
}

/// Smallest `y` among the first `k` displays (0 when there are none).
pub open spec fn lowest_y(ds: Seq<ScreenshotDisplay>, k: int) -> int
    decreases k,
{
    if k <= 0 {
        0
    } else if k == 1 {
        ds[0].y as int
    } else if ds[k - 1].y < lowest_y(ds, k - 1) {
        ds[k - 1].y as int
    } else {
        lowest_y(ds, k - 1)
    }
}

/// Largest right edge among the first `k` displays (0 when there are none).
pub open spec fn furthest_right(ds: Seq<ScreenshotDisplay>, k: int) -> int
    decreases k,
{
    if k <= 0 {
        0
    } else if k == 1 {
        right_edge(ds[0])
    } else if right_edge(ds[k - 1]) > furthest_right(ds, k - 1) {
        right_edge(ds[k - 1])
    } else {
        furthest_right(ds, k - 1)
    }
}

/// Largest bottom edge among the first `k` displays (0 when there are none).
pub open spec fn furthest_down(ds: Seq<ScreenshotDisplay>, k: int) -> int
    decreases k,
{
    if k <= 0 {
        0
    } else if k == 1 {
        bottom_edge(ds[0])
    } else if bottom_edge(ds[k - 1]) > furthest_down(ds, k - 1) {
        bottom_edge(ds[k - 1])
    } else {
        furthest_down(ds, k - 1)
    }
}

/// Width of the composite: the span of the displays' columns on the desktop.
pub open spec fn composite_width(ds: Seq<ScreenshotDisplay>) -> int {
    furthest_right(ds, ds.len() as int) - lowest_x(ds, ds.len() as int)
}

/// Height of the composite: the span of the displays' rows on the desktop.
pub open spec fn composite_height(ds: Seq<ScreenshotDisplay>) -> int {
    furthest_down(ds, ds.len() as int) - lowest_y(ds, ds.len() as int)
}

/// The composite after drawing the first `k` displays, in order, over a transparent canvas.
pub open spec fn composed(ds: Seq<ScreenshotDisplay>, k: int) -> Seq<u8>
    decreases k,
{
    if k <= 0 {
        Seq::new((composite_width(ds) * composite_height(ds) * 4) as nat, |i: int| 0u8)
    } else {
        let d = ds[k - 1];
        overlay_result(
            composed(ds, k - 1),
            composite_width(ds) as u32,
            composite_height(ds) as u32,
            d.image.data@,
            d.image.width,
            d.image.height,
            (d.x - lowest_x(ds, ds.len() as int)) as i64,
            (d.y - lowest_y(ds, ds.len() as int)) as i64,
        )
    }
}

/// Displays that can be composed without overflowing the 32-bit desktop coordinates or the
/// size of the composite buffer.
pub open spec fn composable(ds: Seq<ScreenshotDisplay>) -> bool {
    &&& forall|i: int|
        0 <= i < ds.len() ==> {
            &&& (#[trigger] ds[i]).image.wf()
            &&& ds[i].image.width <= i32::MAX
            &&& ds[i].image.height <= i32::MAX
            &&& right_edge(ds[i]) <= i32::MAX
            &&& bottom_edge(ds[i]) <= i32::MAX
        }
    &&& composite_width(ds) <= i32::MAX
    &&& composite_height(ds) <= i32::MAX
    &&& composite_width(ds) * composite_height(ds) * 4 <= usize::MAX
}

/// The bounds over the first `k` displays enclose each of them.
proof fn lemma_bounds_enclose(ds: Seq<ScreenshotDisplay>, k: int)
    requires
        1 <= k <= ds.len(),
    ensures
        forall|i: int|
            0 <= i < k ==> lowest_x(ds, k) <= (#[trigger] ds[i]).x && right_edge(ds[i])
                <= furthest_right(ds, k) && lowest_y(ds, k) <= ds[i].y && bottom_edge(ds[i])
                <= furthest_down(ds, k),
    decreases k,
{
    if k > 1 {
        lemma_bounds_enclose(ds, k - 1);
    }
}

/// Whether a display covers the desktop point `(dx, dy)`.
pub open spec fn covers(d: ScreenshotDisplay, dx: int, dy: int) -> bool {
    d.x <= dx < right_edge(d) && d.y <= dy < bottom_edge(d)
}

/// Composes the screen captures into one image overlay: a single capture is returned as it is;
/// otherwise a transparent canvas spanning all displays receives each capture, in order, at its
/// position relative to the top-left corner of that span.
pub fn compose_displays(screenshots: &[ScreenshotDisplay]) -> (out: Image)
    requires
        screenshots@.len() == 1 ==> screenshots@[0].image.wf(),
        screenshots@.len() != 1 ==> composable(screenshots@),
    ensures
        out.wf(),
        screenshots@.len() == 1 ==> out.width == screenshots@[0].image.width && out.height
            == screenshots@[0].image.height && out.data@ == screenshots@[0].image.data@,
        screenshots@.len() != 1 ==> out.width == composite_width(screenshots@) && out.height
            == composite_height(screenshots@) && out.data@ == composed(
            screenshots@,
            screenshots@.len() as int,
        ),
        // An opaque pixel of a capture shows at its desktop position unless a later capture covers it.
        screenshots@.len() != 1 ==> forall|j: int, px: int, py: int, c: int|
            0 <= j < screenshots@.len() && 0 <= px < screenshots@[j].image.width && 0 <= py
                < screenshots@[j].image.height && 0 <= c < 4 && screenshots@[j].image.spec_pixel(
                px,
                py,
                3,
            ) == 255 && (forall|m: int|
                j < m < screenshots@.len() ==> !#[trigger] covers(
                    screenshots@[m],
                    screenshots@[j].x + px,
                    screenshots@[j].y + py,
                )) ==> out.spec_pixel(
                screenshots@[j].x - lowest_x(screenshots@, screenshots@.len() as int) + px,
                screenshots@[j].y - lowest_y(screenshots@, screenshots@.len() as int) + py,
                c,
            ) == #[trigger] screenshots@[j].image.spec_pixel(px, py, c),
        // Where no capture lies, the composite is transparent black.
        screenshots@.len() != 1 ==> forall|qx: int, qy: int, c: int|
            0 <= qx < out.width && 0 <= qy < out.height && 0 <= c < 4 && (forall|m: int|
                0 <= m < screenshots@.len() ==> !#[trigger] covers(
                    screenshots@[m],
                    qx + lowest_x(screenshots@, screenshots@.len() as int),
                    qy + lowest_y(screenshots@, screenshots@.len() as int),
                )) ==> #[trigger] out.spec_pixel(qx, qy, c) == 0,
{
    let n = screenshots.len();
    if n == 1 {
        return screenshots[0].image.duplicate();
    }
    let ghost ds = screenshots@;
    let mut min_x: i32 = 0;
    let mut min_y: i32 = 0;
    let mut max_x: i32 = 0;
    let mut max_y: i32 = 0;
    let mut i: usize = 0;
    while i < n
        invariant
            n == ds.len(),
            ds == screenshots@,
            n != 1,
            composable(ds),
            i <= n,
            min_x == lowest_x(ds, i as int),
            min_y == lowest_y(ds, i as int),
            max_x == furthest_right(ds, i as int),
            max_y == furthest_down(ds, i as int),
        decreases n - i,
    {
        let s = &screenshots[i];
        assert(ds[i as int] == *s);
        let right = s.x + s.image.width as i32;
        let bottom = s.y + s.image.height as i32;
        if i == 0 {
            min_x = s.x;
            min_y = s.y;
            max_x = right;
            max_y = bottom;
        } else {
            if s.x < min_x {
                min_x = s.x;
            }
            if s.y < min_y {
                min_y = s.y;
            }
            if right > max_x {
                max_x = right;
            }
            if bottom > max_y {
                max_y = bottom;
            }
        }
        i += 1;
    }
    proof {
        if n >= 1 {
            lemma_bounds_enclose(ds, n as int);
            assert(lowest_x(ds, n as int) <= ds[0].x);
            assert(ds[0].x <= right_edge(ds[0]) <= furthest_right(ds, n as int));
            assert(ds[0].y <= bottom_edge(ds[0]) <= furthest_down(ds, n as int));
        }
    }
    let width = (max_x - min_x) as u32;
    let height = (max_y - min_y) as u32;
    let mut composite = Image::new(width, height);
    proof {
        assert forall|qx: int, qy: int, c: int|
            0 <= qx < width && 0 <= qy < height && 0 <= c < 4 implies #[trigger] composite.spec_pixel(
            qx,
            qy,
            c,
        ) == 0 by {
            crate::raster::lemma_pixel_index_bounds(width as int, height as int, qx, qy, c);
        }
    }
    let mut k: usize = 0;
    while k < n
        invariant
            n == ds.len(),
            ds == screenshots@,
            n != 1,
            composable(ds),
            min_x == lowest_x(ds, n as int),
            min_y == lowest_y(ds, n as int),
            width == composite_width(ds),
            height == composite_height(ds),
            k <= n,
            composite.wf(),
            composite.width == width,
            composite.height == height,
            composite.data@ == composed(ds, k as int),
            forall|j: int, px: int, py: int, c: int|
                0 <= j < k && 0 <= px < ds[j].image.width && 0 <= py < ds[j].image.height && 0 <= c
                    < 4 && ds[j].image.spec_pixel(px, py, 3) == 255 && (forall|m: int|
                    j < m < k ==> !#[trigger] covers(ds[m], ds[j].x + px, ds[j].y + py))
                    ==> composite.spec_pixel(ds[j].x - min_x + px, ds[j].y - min_y + py, c)
                    == #[trigger] ds[j].image.spec_pixel(px, py, c),
            forall|qx: int, qy: int, c: int|
                0 <= qx < width && 0 <= qy < height && 0 <= c < 4 && (forall|m: int|
                    0 <= m < k ==> !#[trigger] covers(ds[m], qx + min_x, qy + min_y))
                    ==> #[trigger] composite.spec_pixel(qx, qy, c) == 0,
        decreases n - k,
    {
        let screen = &screenshots[k];
        assert(ds[k as int] == *screen);
        proof {
            lemma_bounds_enclose(ds, n as int);
            assert(ds[k as int].image.wf());
        }
        let x = (screen.x - min_x) as i64;
        let y = (screen.y - min_y) as i64;
        let ghost before = composite;
        overlay(&mut composite, &screen.image, x, y);
        proof {
            let d = ds[k as int];
            assert forall|j: int, px: int, py: int, c: int|
                0 <= j < k + 1 && 0 <= px < ds[j].image.width && 0 <= py < ds[j].image.height && 0
                    <= c < 4 && ds[j].image.spec_pixel(px, py, 3) == 255 && (forall|m: int|
                    j < m < k + 1 ==> !#[trigger] covers(ds[m], ds[j].x + px, ds[j].y + py))
                    implies composite.spec_pixel(ds[j].x - min_x + px, ds[j].y - min_y + py, c)
                    == #[trigger] ds[j].image.spec_pixel(px, py, c) by {
                let qx = ds[j].x - min_x + px;
                let qy = ds[j].y - min_y + py;
                assert(0 <= qx < width && 0 <= qy < height);
                if j < k {
                    assert(!covers(ds[k as int], ds[j].x + px, ds[j].y + py));
                    assert(forall|m: int|
                        j < m < k ==> !#[trigger] covers(ds[m], ds[j].x + px, ds[j].y + py));
                    assert(before.spec_pixel(qx, qy, c) == ds[j].image.spec_pixel(px, py, c));
                } else {
                    assert(j == k);
                    assert(qx - x == px && qy - y == py);
                }
            }
            assert forall|qx: int, qy: int, c: int|
                0 <= qx < width && 0 <= qy < height && 0 <= c < 4 && (forall|m: int|
                    0 <= m < k + 1 ==> !#[trigger] covers(ds[m], qx + min_x, qy + min_y))
                    implies #[trigger] composite.spec_pixel(qx, qy, c) == 0 by {
                assert(!covers(ds[k as int], qx + min_x, qy + min_y));
                assert(forall|m: int| 0 <= m < k ==> !#[trigger] covers(ds[m], qx + min_x, qy + min_y));
                assert(before.spec_pixel(qx, qy, c) == 0);
            }
        }
        k += 1;
    }
    composite
}

/// The composite spans exactly the displays: its left and top edges are the smallest `x` and
/// `y` of any display, its right and bottom edges the largest right and bottom edges, each
/// reached by some display.
pub proof fn lemma_composite_bounds_are_extremes(ds: Seq<ScreenshotDisplay>, k: int)
    requires
        1 <= k <= ds.len(),
    ensures
        forall|i: int|
            0 <= i < k ==> lowest_x(ds, k) <= (#[trigger] ds[i]).x && ds[i].x + ds[i].image.width
                <= furthest_right(ds, k) && lowest_y(ds, k) <= ds[i].y && ds[i].y + ds[i].image.height
                <= furthest_down(ds, k),
        exists|i: int| 0 <= i < k && lowest_x(ds, k) == (#[trigger] ds[i]).x,
        exists|i: int| 0 <= i < k && lowest_y(ds, k) == (#[trigger] ds[i]).y,
        exists|i: int| 0 <= i < k && furthest_right(ds, k) == (#[trigger] ds[i]).x + ds[i].image.width,
        exists|i: int| 0 <= i < k && furthest_down(ds, k) == (#[trigger] ds[i]).y + ds[i].image.height,
    decreases k,
{
    lemma_bounds_enclose(ds, k);
    if k == 1 {
        assert(lowest_x(ds, 1) == ds[0].x);
        assert(lowest_y(ds, 1) == ds[0].y);
        assert(furthest_right(ds, 1) == ds[0].x + ds[0].image.width);
        assert(furthest_down(ds, 1) == ds[0].y + ds[0].image.height);
    } else {
        lemma_composite_bounds_are_extremes(ds, k - 1);
        let last = ds[k - 1];
        if last.x < lowest_x(ds, k - 1) {
            assert(lowest_x(ds, k) == ds[k - 1].x);
        } else {
            let i = choose|i: int| 0 <= i < k - 1 && lowest_x(ds, k - 1) == (#[trigger] ds[i]).x;
            assert(lowest_x(ds, k) == ds[i].x);
        }
        if last.y < lowest_y(ds, k - 1) {
            assert(lowest_y(ds, k) == ds[k - 1].y);
        } else {
            let i = choose|i: int| 0 <= i < k - 1 && lowest_y(ds, k - 1) == (#[trigger] ds[i]).y;
            assert(lowest_y(ds, k) == ds[i].y);
        }
        if right_edge(last) > furthest_right(ds, k - 1) {
            assert(furthest_right(ds, k) == ds[k - 1].x + ds[k - 1].image.width);
        } else {
            let i = choose|i: int| 0 <= i < k - 1 && furthest_right(ds, k - 1) == (#[trigger] ds[i]).x + ds[i].image.width;
            assert(furthest_right(ds, k) == ds[i].x + ds[i].image.width);
        }
        if bottom_edge(last) > furthest_down(ds, k - 1) {
            assert(furthest_down(ds, k) == ds[k - 1].y + ds[k - 1].image.height);
        } else {
            let i = choose|i: int| 0 <= i < k - 1 && furthest_down(ds, k - 1) == (#[trigger] ds[i]).y + ds[i].image.height;
            assert(furthest_down(ds, k) == ds[i].y + ds[i].image.height);
        }
    }
}

/// The displays `shifted` are `ds`, each moved by `(dx, dy)` on the desktop.
pub open spec fn is_shifted(shifted: Seq<ScreenshotDisplay>, ds: Seq<ScreenshotDisplay>, dx: int, dy: int) -> bool {
    &&& shifted.len() == ds.len()
    &&& forall|i: int|
        0 <= i < ds.len() ==> {
            &&& (#[trigger] shifted[i]).x == ds[i].x + dx
            &&& shifted[i].y == ds[i].y + dy
            &&& shifted[i].image == ds[i].image
        }
}

/// Moving every display by the same offset moves all bounds by that offset.
proof fn lemma_shift_bounds(shifted: Seq<ScreenshotDisplay>, ds: Seq<ScreenshotDisplay>, dx: int, dy: int, k: int)
    requires
        is_shifted(shifted, ds, dx, dy),
        1 <= k <= ds.len(),
    ensures
        lowest_x(shifted, k) == lowest_x(ds, k) + dx,
        lowest_y(shifted, k) == lowest_y(ds, k) + dy,
        furthest_right(shifted, k) == furthest_right(ds, k) + dx,
        furthest_down(shifted, k) == furthest_down(ds, k) + dy,
    decreases k,
{
    assert(shifted[k - 1].x == ds[k - 1].x + dx);
    if k > 1 {
        lemma_shift_bounds(shifted, ds, dx, dy, k - 1);
    }
}

/// Only the relative placement of the displays matters: moving every display by the same offset
/// leaves the composite unchanged.
pub proof fn lemma_compose_shift_invariant(
    shifted: Seq<ScreenshotDisplay>,
    ds: Seq<ScreenshotDisplay>,
    dx: int,
    dy: int,
)
    requires
        is_shifted(shifted, ds, dx, dy),
    ensures
        composite_width(shifted) == composite_width(ds),
        composite_height(shifted) == composite_height(ds),
        composed(shifted, shifted.len() as int) == composed(ds, ds.len() as int),
        ds.len() == 1 ==> shifted[0].image == ds[0].image,
{
    let n = ds.len() as int;
    if n >= 1 {
        lemma_shift_bounds(shifted, ds, dx, dy, n);
    }
    lemma_composed_shift(shifted, ds, dx, dy, n);
    if n == 1 {
        assert(shifted[0].image == ds[0].image);
    }
}

/// The partial composites of shifted displays agree with those of the originals.
proof fn lemma_composed_shift(
    shifted: Seq<ScreenshotDisplay>,
    ds: Seq<ScreenshotDisplay>,
    dx: int,
    dy: int,
    k: int,
)
    requires
        is_shifted(shifted, ds, dx, dy),
        0 <= k <= ds.len(),
    ensures
        composed(shifted, k) == composed(ds, k),
    decreases k,
{
    let n = ds.len() as int;
    if n >= 1 {
        lemma_shift_bounds(shifted, ds, dx, dy, n);
    }
    if k > 0 {
        lemma_composed_shift(shifted, ds, dx, dy, k - 1);
        assert(shifted[k - 1].x == ds[k - 1].x + dx);
        assert(shifted[k - 1].image == ds[k - 1].image);
    }
}

/// Whether `compose_displays` can compose these displays without overflowing its 32-bit desktop
/// coordinates or the size of the composite buffer.
pub fn composable_displays(screenshots: &[ScreenshotDisplay]) -> (ok: bool)
    ensures
        ok == composable(screenshots@),
{
    let ghost ds = screenshots@;
    let n = screenshots.len();
    let mut min_x: i64 = 0;
    let mut min_y: i64 = 0;
    let mut max_x: i64 = 0;
    let mut max_y: i64 = 0;
    let mut i: usize = 0;
    while i < n
        invariant
            n == ds.len(),
            ds == screenshots@,
            i <= n,
            forall|j: int|
                0 <= j < i ==> {
                    &&& (#[trigger] ds[j]).image.wf()
                    &&& ds[j].image.width <= i32::MAX
                    &&& ds[j].image.height <= i32::MAX
                    &&& right_edge(ds[j]) <= i32::MAX
                    &&& bottom_edge(ds[j]) <= i32::MAX
                },
            min_x == lowest_x(ds, i as int),
            min_y == lowest_y(ds, i as int),
            max_x == furthest_right(ds, i as int),
            max_y == furthest_down(ds, i as int),
            i32::MIN <= min_x <= i32::MAX,
            i32::MIN <= min_y <= i32::MAX,
            i32::MIN <= max_x <= i32::MAX,
            i32::MIN <= max_y <= i32::MAX,
        decreases n - i,
    {
        let s = &screenshots[i];
        assert(ds[i as int] == *s);
        let len = s.image.data.len();
        proof {
            let a = s.image.width as int;
            let b = s.image.height as int;
            assert(a * b <= u64::MAX) by (nonlinear_arith)
                requires
                    0 <= a <= u32::MAX,
                    0 <= b <= u32::MAX,
            ;
        }
        let pixels = (s.image.width as u64) * (s.image.height as u64);
        let well_formed = pixels <= (usize::MAX / 4) as u64 && len == (pixels as usize) * 4;
        proof {
            if pixels <= (usize::MAX / 4) as u64 {
                assert(pixels * 4 <= usize::MAX);
            }
        }
        if !well_formed || s.image.width > 2147483647 || s.image.height > 2147483647 {
            return false;
        }
        let right = s.x as i64 + s.image.width as i64;
        let bottom = s.y as i64 + s.image.height as i64;
        if right > 2147483647 || bottom > 2147483647 {
            return false;
        }
        if i == 0 {
            min_x = s.x as i64;
            min_y = s.y as i64;
            max_x = right;
            max_y = bottom;
        } else {
            if (s.x as i64) < min_x {
                min_x = s.x as i64;
            }
            if (s.y as i64) < min_y {
                min_y = s.y as i64;
            }
            if right > max_x {
                max_x = right;
            }
            if bottom > max_y {
                max_y = bottom;
            }
        }
        i += 1;
    }
    let width = max_x - min_x;
    let height = max_y - min_y;
    if width > 2147483647 || height > 2147483647 {
        return false;
    }
    proof {
        if n >= 1 {
            lemma_bounds_enclose(ds, n as int);
            assert(ds[0].x <= right_edge(ds[0]));
            assert(ds[0].y <= bottom_edge(ds[0]));
        }
    }
    proof {
        assert(width * height <= u64::MAX) by (nonlinear_arith)
            requires
                0 <= width <= i32::MAX,
                0 <= height <= i32::MAX,
        ;
    }
    let area = (width as u64) * (height as u64);
    if area > (usize::MAX / 4) as u64 {
        proof {
            assert(width * height * 4 > usize::MAX);
        }
        return false;
    }
    true
}
} // verus!
