//! An RGBA raster: `width * height` pixels of four 8-bit channels, stored row by row.

use vstd::prelude::*;

verus! {

/// Position of channel `c` of pixel `(x, y)` in the row-major RGBA buffer of an image `w` pixels wide.
pub open spec fn pixel_index(w: int, x: int, y: int, c: int) -> int {
    (y * w + x) * 4 + c
}

/// Column of the pixel that byte `i` belongs to.
pub open spec fn pixel_x(w: int, i: int) -> int {
    (i / 4) % w
}

/// Row of the pixel that byte `i` belongs to.
pub open spec fn pixel_y(w: int, i: int) -> int {
    (i / 4) / w
}

/// Channel (0 = red, 1 = green, 2 = blue, 3 = alpha) that byte `i` holds.
pub open spec fn channel(i: int) -> int {
    i % 4
}

/// Byte `i` of a buffer sits at the pixel and channel that `pixel_x`, `pixel_y`, `channel` name.
pub proof fn lemma_pixel_index_decompose(w: int, x: int, y: int, c: int)
    requires
        0 <= x < w,
        0 <= y,
        0 <= c < 4,
    ensures
        pixel_x(w, pixel_index(w, x, y, c)) == x,
        pixel_y(w, pixel_index(w, x, y, c)) == y,
        channel(pixel_index(w, x, y, c)) == c,
{
    let i = pixel_index(w, x, y, c);
    vstd::arithmetic::div_mod::lemma_fundamental_div_mod_converse(i, 4, y * w + x, c);
    vstd::arithmetic::div_mod::lemma_fundamental_div_mod_converse(y * w + x, w, y, x);
}

/// Every byte of a `w * h` buffer is the channel of a pixel inside the image.
pub proof fn lemma_index_in_image(w: int, h: int, i: int)
    requires
        0 < w,
        0 <= h,
        0 <= i < w * h * 4,
    ensures
        0 <= pixel_x(w, i) < w,
        0 <= pixel_y(w, i) < h,
        0 <= channel(i) < 4,
        i == pixel_index(w, pixel_x(w, i), pixel_y(w, i), channel(i)),
{
    let p = i / 4;
    vstd::arithmetic::div_mod::lemma_fundamental_div_mod(i, 4);
    vstd::arithmetic::div_mod::lemma_fundamental_div_mod(p, w);
    vstd::arithmetic::div_mod::lemma_mod_pos_bound(i, 4);
    vstd::arithmetic::div_mod::lemma_mod_pos_bound(p, w);
    assert(p < w * h) by (nonlinear_arith)
        requires
            i == 4 * p + i % 4,
            0 <= i % 4,
            i < w * h * 4,
    ;
    assert(0 <= p) by (nonlinear_arith)
        requires
            i == 4 * p + i % 4,
            i % 4 < 4,
            0 <= i,
    ;
    assert((p / w) * w == w * (p / w)) by (nonlinear_arith);
    assert(0 <= p / w < h) by (nonlinear_arith)
        requires
            p == w * (p / w) + p % w,
            0 <= p % w < w,
            0 <= p < w * h,
    ;
}

/// Pixels inside a `w * h` image have their bytes inside its buffer.
pub proof fn lemma_pixel_index_bounds(w: int, h: int, x: int, y: int, c: int)
    requires
        0 <= x < w,
        0 <= y < h,
        0 <= c < 4,
    ensures
        0 <= pixel_index(w, x, y, c) < w * h * 4,
        pixel_index(w, x, y, c) == y * (w * 4) + x * 4 + c,
        0 <= y * w,
        y * w + x < w * h <= w * h * 4,
{
    assert(0 <= y * w <= (h - 1) * w) by (nonlinear_arith)
        requires
            0 <= y < h,
            0 < w,
    ;
    assert((h - 1) * w + w == w * h) by (nonlinear_arith);
    assert(y * (w * 4) == (y * w) * 4) by (nonlinear_arith);
    assert(w * h * 4 == (w * h) * 4);
}

/// An image: `data` holds `width * height` RGBA pixels, row by row.
pub struct Image {
    pub width: u32,
    pub height: u32,
    pub data: Vec<u8>,
}

impl Image {
    /// The buffer holds exactly four bytes per pixel.
    pub open spec fn wf(&self) -> bool {
        self.data@.len() == self.width * self.height * 4
    }

    /// Channel `c` of pixel `(x, y)`.
    pub open spec fn spec_pixel(&self, x: int, y: int, c: int) -> u8 {
        self.data@[pixel_index(self.width as int, x, y, c)]
    }

    /// A `width * height` image whose pixels are all transparent black.
    pub fn new(width: u32, height: u32) -> (img: Image)
        requires
            width * height * 4 <= usize::MAX,
        ensures
            img.wf(),
            img.width == width,
            img.height == height,
            forall|i: int| 0 <= i < img.data@.len() ==> img.data@[i] == 0,
    {
        let len = (width as usize) * (height as usize) * 4;
        let mut data: Vec<u8> = Vec::new();
        let mut i: usize = 0;
        while i < len
            invariant
                i <= len,
                data@.len() == i,
                forall|j: int| 0 <= j < i ==> data@[j] == 0,
            decreases len - i,
        {
            data.push(0);
            i += 1;
        }
        Image { width, height, data }
    }

    /// Wraps a buffer as an image; `None` when its length is not four bytes per pixel.
    pub fn from_raw(width: u32, height: u32, data: Vec<u8>) -> (img: Option<Image>)
        ensures
            img is Some <==> data@.len() == width * height * 4,
            img matches Some(m) ==> m.wf() && m.width == width && m.height == height && m.data@
                == data@,
    {
        match (width as usize).checked_mul(height as usize) {
            Some(pixels) => match pixels.checked_mul(4) {
                Some(needed) => {
                    if data.len() == needed {
                        Some(Image { width, height, data })
                    } else {
                        None
                    }
                },
                None => {
                    let l = data.len();
                    assert(l <= usize::MAX);
                    None
                },
            },
            None => {
                let l = data.len();
                assert(l <= usize::MAX);
                assert(width * height * 4 > usize::MAX) by (nonlinear_arith)
                    requires
                        width * height > usize::MAX,
                ;
                None
            },
        }
    }

    /// Width and height.
    pub fn dimensions(&self) -> (d: (u32, u32))
        ensures
            d == (self.width, self.height),
    {
        (self.width, self.height)
    }

    /// The four channels of pixel `(x, y)`.
    pub fn get_pixel(&self, x: u32, y: u32) -> (p: [u8; 4])
        requires
            self.wf(),
            x < self.width,
            y < self.height,
        ensures
            forall|c: int| 0 <= c < 4 ==> p[c] == self.spec_pixel(x as int, y as int, c),
    {
        proof {
            lemma_pixel_index_bounds(self.width as int, self.height as int, x as int, y as int, 0);
            lemma_pixel_index_bounds(self.width as int, self.height as int, x as int, y as int, 3);
            assert(self.data@.len() == self.data.len());
            assert(self.data.len() <= usize::MAX);
        }
        let i = ((y as usize) * (self.width as usize) + (x as usize)) * 4;
        [self.data[i], self.data[i + 1], self.data[i + 2], self.data[i + 3]]
    }

    /// Overwrites pixel `(x, y)` with `p`, leaving every other byte as it was.
    pub fn put_pixel(&mut self, x: u32, y: u32, p: [u8; 4])
        requires
            old(self).wf(),
            x < old(self).width,
            y < old(self).height,
        ensures
            final(self).wf(),
            final(self).width == old(self).width,
            final(self).height == old(self).height,
            forall|c: int|
                0 <= c < 4 ==> final(self).spec_pixel(x as int, y as int, c) == p[c],
            forall|i: int|
                0 <= i < old(self).data@.len() && !(pixel_index(old(self).width as int, x as int, y as int, 0) <= i
                    < pixel_index(old(self).width as int, x as int, y as int, 4))
                    ==> final(self).data@[i] == old(self).data@[i],
    {
        proof {
            lemma_pixel_index_bounds(self.width as int, self.height as int, x as int, y as int, 0);
            lemma_pixel_index_bounds(self.width as int, self.height as int, x as int, y as int, 3);
            assert(self.data@.len() == self.data.len());
            assert(self.data.len() <= usize::MAX);
        }
        let i = ((y as usize) * (self.width as usize) + (x as usize)) * 4;
        self.data.set(i, p[0]);
        self.data.set(i + 1, p[1]);
        self.data.set(i + 2, p[2]);
        self.data.set(i + 3, p[3]);
    }

    /// The raw buffer.
    pub fn as_raw(&self) -> (r: &Vec<u8>)
        ensures
            r@ == self.data@,
    {
        &self.data
    }

    /// A copy of this image.
    pub fn duplicate(&self) -> (r: Image)
        ensures
            r.width == self.width,
            r.height == self.height,
            r.data@ == self.data@,
    {
        Image { width: self.width, height: self.height, data: self.data.clone() }
    }
}

} // verus!
