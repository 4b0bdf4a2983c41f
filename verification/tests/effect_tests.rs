use lockscreen::effect::{
    box_blur_gaussian, box_downscale, clamp_radius, nearest_upscale, rgba_image_from_pixelate,
    thread_count, EffectType,
};
use lockscreen::raster::Image;
use lockscreen::window::blur_line;

fn image(w: u32, h: u32, data: Vec<u8>) -> Image {
    Image::from_raw(w, h, data).expect("buffer of the right size")
}

#[test]
fn clamp_radius_keeps_window_inside_axis() {
    assert_eq!(clamp_radius(3, 100), 3);
    assert_eq!(clamp_radius(10, 5), 2);
    assert_eq!(clamp_radius(10, 6), 2);
    assert_eq!(clamp_radius(7, 1), 0);
    assert_eq!(clamp_radius(7, 0), 0);
    assert_eq!(clamp_radius(2, 5), 2);
}

#[test]
fn thread_count_is_at_least_one_and_capped_by_work() {
    assert_eq!(thread_count(8, 1920), 8);
    assert_eq!(thread_count(8, 3), 3);
    assert_eq!(thread_count(8, 0), 1);
    assert_eq!(thread_count(0, 100), 1);
}

#[test]
fn from_raw_rejects_wrong_lengths() {
    assert!(Image::from_raw(2, 2, vec![0; 16]).is_some());
    assert!(Image::from_raw(2, 2, vec![0; 15]).is_none());
    assert!(Image::from_raw(2, 2, vec![0; 17]).is_none());
    assert!(Image::from_raw(0, 7, vec![]).is_some());
    assert!(Image::from_raw(u32::MAX, u32::MAX, vec![0; 4]).is_none());
}

#[test]
fn blur_line_repeats_edges() {
    // One channel, stride 1: radius 1, recip = 2^23 / 3, half = 2^22.
    let src = vec![0u8, 0, 255, 0];
    let out = blur_line(&src, 0, 1, 4, 1, 2796202, 4194304);
    assert_eq!(out, vec![0, 85, 85, 85]);
}

#[test]
fn horizontal_box_pass_values() {
    let img = image(
        4,
        1,
        vec![0, 0, 0, 255, 0, 0, 0, 255, 255, 0, 0, 255, 0, 0, 0, 255],
    );
    let once = box_blur_gaussian(&img, 1, 1, 0, 3, 4);
    assert_eq!(
        once.as_raw(),
        &vec![0, 0, 0, 255, 85, 0, 0, 255, 85, 0, 0, 255, 85, 0, 0, 255]
    );
    let twice = box_blur_gaussian(&img, 1, 2, 0, 3, 4);
    assert_eq!(
        twice.as_raw(),
        &vec![28, 0, 0, 255, 57, 0, 0, 255, 85, 0, 0, 255, 85, 0, 0, 255]
    );
}

fn gradient_5x4() -> Image {
    let mut data = Vec::new();
    for y in 0..4u32 {
        for x in 0..5u32 {
            data.push(((x * 50 + y * 10) % 256) as u8);
            data.push(((x * 7) % 256) as u8);
            data.push(((y * 13) % 256) as u8);
            data.push(255);
        }
    }
    image(5, 4, data)
}

#[test]
fn separable_blur_values() {
    let expected: Vec<u8> = vec![
        35, 4, 7, 255, 65, 8, 7, 255, 105, 14, 7, 255, 145, 20, 7, 255, 175, 24, 7, 255, 41, 4,
        14, 255, 71, 8, 14, 255, 111, 14, 14, 255, 151, 20, 14, 255, 181, 24, 14, 255, 49, 4, 25,
        255, 79, 8, 25, 255, 119, 14, 25, 255, 159, 20, 25, 255, 189, 24, 25, 255, 55, 4, 32, 255,
        85, 8, 32, 255, 125, 14, 32, 255, 165, 20, 32, 255, 195, 24, 32, 255,
    ];
    let out = box_blur_gaussian(&gradient_5x4(), 2, 1, 1, 2, 1);
    assert_eq!(out.dimensions(), (5, 4));
    assert_eq!(out.as_raw(), &expected);
}

#[test]
fn blur_does_not_depend_on_worker_count() {
    let img = gradient_5x4();
    let one = box_blur_gaussian(&img, 2, 2, 1, 3, 1);
    for workers in [2usize, 3, 4, 7, 64] {
        let many = box_blur_gaussian(&img, 2, 2, 1, 3, workers);
        assert_eq!(many.as_raw(), one.as_raw());
    }
}

#[test]
fn zero_radius_leaves_image_unchanged() {
    let img = gradient_5x4();
    let out = box_blur_gaussian(&img, 0, 5, 0, 5, 4);
    assert_eq!(out.as_raw(), img.as_raw());
}

#[test]
fn blur_passes_do_not_commute_under_rounding() {
    let mut data = vec![0u8; 36];
    data[(2 * 3 + 2) * 4] = 2;
    let img = image(3, 3, data);
    // Horizontal then vertical (the order this library uses).
    let hv = box_blur_gaussian(&img, 1, 1, 1, 1, 1);
    // Vertical first, then horizontal.
    let v = box_blur_gaussian(&img, 0, 0, 1, 1, 1);
    let vh = box_blur_gaussian(&v, 1, 1, 0, 0, 1);
    let reds = |im: &Image| -> Vec<u8> { im.as_raw().iter().step_by(4).copied().collect() };
    assert_eq!(reds(&hv), vec![0, 0, 0, 0, 0, 0, 0, 1, 1]);
    assert_eq!(reds(&vh), vec![0, 0, 0, 0, 0, 1, 0, 0, 1]);
    assert_ne!(hv.as_raw(), vh.as_raw());
}

#[test]
fn pixelate_averages_each_block() {
    let mut data = Vec::new();
    for y in 0..3u32 {
        for x in 0..3u32 {
            data.extend_from_slice(&[(x * 40 + y * 5) as u8, (100 - x * 10) as u8, (y * 30) as u8, (200 + x) as u8]);
        }
    }
    let out = rgba_image_from_pixelate(&image(3, 3, data), 2);
    let expected: Vec<u8> = vec![
        22, 95, 15, 200, 22, 95, 15, 200, 82, 80, 15, 202, 22, 95, 15, 200, 22, 95, 15, 200, 82,
        80, 15, 202, 30, 95, 60, 200, 30, 95, 60, 200, 90, 80, 60, 202,
    ];
    assert_eq!(out.dimensions(), (3, 3));
    assert_eq!(out.as_raw(), &expected);
}

#[test]
fn pixelate_block_of_one_or_zero_is_identity() {
    let img = gradient_5x4();
    assert_eq!(rgba_image_from_pixelate(&img, 1).as_raw(), img.as_raw());
    assert_eq!(rgba_image_from_pixelate(&img, 0).as_raw(), img.as_raw());
}

#[test]
fn pixelate_block_larger_than_image_is_one_flat_colour() {
    let img = image(2, 1, vec![10, 20, 30, 40, 21, 40, 61, 80]);
    let out = rgba_image_from_pixelate(&img, 1000);
    assert_eq!(out.as_raw(), &vec![15, 30, 45, 60, 15, 30, 45, 60]);
}

#[test]
fn box_downscale_averages_cells_and_drops_partial_edges() {
    let mut data = Vec::new();
    for y in 0..3u32 {
        for x in 0..5u32 {
            data.extend_from_slice(&[(x * 50) as u8, (y * 100) as u8, ((x + y) * 20) as u8, 255]);
        }
    }
    let out = box_downscale(&image(5, 3, data), 2);
    assert_eq!(out.dimensions(), (2, 1));
    assert_eq!(out.as_raw(), &vec![25, 50, 20, 255, 125, 50, 60, 255]);
}

#[test]
fn box_downscale_small_image_gives_one_pixel() {
    let img = image(2, 2, vec![0, 0, 0, 0, 4, 8, 12, 16, 8, 16, 24, 32, 12, 24, 36, 48]);
    let out = box_downscale(&img, 8);
    assert_eq!(out.dimensions(), (1, 1));
    assert_eq!(out.as_raw(), &vec![6, 12, 18, 24]);
}

#[test]
fn nearest_upscale_repeats_and_clamps() {
    let small = image(2, 2, vec![1, 2, 3, 4, 5, 6, 7, 8, 9, 10, 11, 12, 13, 14, 15, 16]);
    let out = nearest_upscale(&small, 5, 3, 2);
    let expected: Vec<u8> = vec![
        1, 2, 3, 4, 1, 2, 3, 4, 5, 6, 7, 8, 5, 6, 7, 8, 5, 6, 7, 8, 1, 2, 3, 4, 1, 2, 3, 4, 5,
        6, 7, 8, 5, 6, 7, 8, 5, 6, 7, 8, 9, 10, 11, 12, 9, 10, 11, 12, 13, 14, 15, 16, 13, 14, 15,
        16, 13, 14, 15, 16,
    ];
    assert_eq!(out.dimensions(), (5, 3));
    assert_eq!(out.as_raw(), &expected);
}

#[test]
fn effect_types_are_distinct() {
    assert_ne!(EffectType::Gaussian, EffectType::Pixelate);
    assert_eq!(EffectType::GaussianBoxBlur, EffectType::GaussianBoxBlur);
}

#[test]
fn pixelate_twice_equals_once() {
    let img = gradient_5x4();
    for block in [2u32, 3, 4] {
        let once = rgba_image_from_pixelate(&img, block);
        let twice = rgba_image_from_pixelate(&once, block);
        assert_eq!(twice.as_raw(), once.as_raw());
    }
}

#[test]
fn zero_passes_accept_any_radius() {
    let img = gradient_5x4();
    let out = box_blur_gaussian(&img, usize::MAX, 0, usize::MAX / 2, 0, 4);
    assert_eq!(out.as_raw(), img.as_raw());
}

#[test]
fn vertical_pass_is_horizontal_pass_of_transposed_image() {
    let img = gradient_5x4();
    // Transpose: the 4x5 image whose row x is column x of the original.
    let mut t = Vec::new();
    for x in 0..5u32 {
        for y in 0..4u32 {
            t.extend_from_slice(&img.get_pixel(x, y));
        }
    }
    let transposed = image(4, 5, t);
    let v = box_blur_gaussian(&img, 0, 0, 1, 2, 3);
    let h = box_blur_gaussian(&transposed, 1, 2, 0, 0, 3);
    for x in 0..5u32 {
        for y in 0..4u32 {
            assert_eq!(v.get_pixel(x, y), h.get_pixel(y, x));
        }
    }
}

#[test]
fn nearest_upscale_to_nothing_needs_no_source() {
    let empty = image(0, 0, vec![]);
    let out = nearest_upscale(&empty, 0, 0, 0);
    assert_eq!(out.dimensions(), (0, 0));
    let out = nearest_upscale(&empty, 7, 0, 0);
    assert_eq!(out.dimensions(), (7, 0));
}

#[test]
fn downscale_undoes_whole_block_upscale() {
    let small = image(2, 2, vec![1, 2, 3, 4, 5, 6, 7, 8, 9, 10, 11, 12, 13, 14, 15, 16]);
    for k in [1usize, 2, 3, 8] {
        let big = nearest_upscale(&small, 2 * k, 2 * k, k);
        let back = box_downscale(&big, k);
        assert_eq!(back.dimensions(), (2, 2));
        assert_eq!(back.as_raw(), small.as_raw());
    }
}

#[test]
fn downscale_ignores_trailing_partial_cells() {
    let img = gradient_5x4();
    let mut other = image(5, 4, img.as_raw().clone());
    // Column 4 and no row lie outside the whole 2x2 cells of a 5x4 image.
    for y in 0..4u32 {
        other.put_pixel(4, y, [255, 255, 255, 255]);
    }
    assert_eq!(box_downscale(&img, 2).as_raw(), box_downscale(&other, 2).as_raw());
}
