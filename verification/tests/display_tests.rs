use lockscreen::display::{ScreenshotDisplay, compose_displays};
use lockscreen::raster::Image;

fn new_display(x: i32, y: i32, w: u32, h: u32) -> ScreenshotDisplay {
    ScreenshotDisplay {
        x,
        y,
        image: Image::new(w, h),
    }
}

fn filled_display(x: i32, y: i32, w: u32, h: u32, p: [u8; 4]) -> ScreenshotDisplay {
    let mut image = Image::new(w, h);
    for py in 0..h {
        for px in 0..w {
            image.put_pixel(px, py, p);
        }
    }
    ScreenshotDisplay { x, y, image }
}

#[test]
fn compose_single_display_returns_same_dimensions() {
    let displays = new_display(0, 0, 100, 50);
    let result = compose_displays(&[displays]);

    assert_eq!(result.dimensions(), (100, 50));
}

#[test]
fn compose_two_displays_side_by_side() {
    let displays = vec![new_display(0, 0, 100, 50), new_display(100, 0, 100, 50)];
    let result = compose_displays(&displays);

    assert_eq!(result.dimensions(), (200, 50));
}

#[test]
fn compose_two_displays_stacked() {
    let displays = vec![new_display(0, 0, 100, 50), new_display(0, 50, 100, 50)];
    let result = compose_displays(&displays);

    assert_eq!(result.dimensions(), (100, 100));
}

#[test]
fn compose_offset_displays_computes_correct_size() {
    let displays = vec![new_display(10, 20, 100, 50), new_display(110, 20, 100, 50)];
    let result = compose_displays(&displays);

    assert_eq!(result.dimensions(), (200, 50));
}

#[test]
fn compose_single_display_clone_pixel_contents() {
    let mut image = new_display(50, 30, 300, 500);
    image.image.put_pixel(50, 30, [255, 0, 0, 255]);

    let result = compose_displays(&[image]);

    assert_eq!(result.get_pixel(50, 30), [255, 0, 0, 255]);
}

#[test]
fn compose_no_display_is_empty() {
    let result = compose_displays(&[]);
    assert_eq!(result.dimensions(), (0, 0));
    assert!(result.as_raw().is_empty());
}

#[test]
fn compose_places_opaque_displays_at_their_offsets() {
    // Two screens with a gap between them and a vertical offset.
    let displays = vec![
        filled_display(-10, 5, 3, 2, [10, 20, 30, 255]),
        filled_display(-5, 0, 2, 2, [200, 100, 50, 255]),
    ];
    let result = compose_displays(&displays);
    assert_eq!(result.dimensions(), (7, 7));
    // First display spans columns 0..3, rows 5..7.
    assert_eq!(result.get_pixel(0, 5), [10, 20, 30, 255]);
    assert_eq!(result.get_pixel(2, 6), [10, 20, 30, 255]);
    // Second display spans columns 5..7, rows 0..2.
    assert_eq!(result.get_pixel(5, 0), [200, 100, 50, 255]);
    assert_eq!(result.get_pixel(6, 1), [200, 100, 50, 255]);
    // Nothing covers the rest: transparent black.
    assert_eq!(result.get_pixel(3, 3), [0, 0, 0, 0]);
    assert_eq!(result.get_pixel(0, 0), [0, 0, 0, 0]);
    assert_eq!(result.get_pixel(6, 6), [0, 0, 0, 0]);
}

#[test]
fn compose_later_display_wins_where_they_overlap() {
    let displays = vec![
        filled_display(0, 0, 4, 4, [1, 2, 3, 255]),
        filled_display(2, 2, 4, 4, [9, 8, 7, 255]),
    ];
    let result = compose_displays(&displays);
    assert_eq!(result.dimensions(), (6, 6));
    assert_eq!(result.get_pixel(1, 1), [1, 2, 3, 255]);
    assert_eq!(result.get_pixel(3, 3), [9, 8, 7, 255]);
    assert_eq!(result.get_pixel(5, 5), [9, 8, 7, 255]);
    assert_eq!(result.get_pixel(5, 0), [0, 0, 0, 0]);
}

#[test]
fn compose_transparent_pixels_leave_what_is_below() {
    let displays = vec![
        filled_display(0, 0, 2, 1, [50, 60, 70, 255]),
        filled_display(1, 0, 2, 1, [1, 1, 1, 0]),
    ];
    let result = compose_displays(&displays);
    assert_eq!(result.dimensions(), (3, 1));
    assert_eq!(result.get_pixel(1, 0), [50, 60, 70, 255]);
    assert_eq!(result.get_pixel(2, 0), [0, 0, 0, 0]);
}

#[test]
fn compose_ignores_a_common_shift() {
    let make = |dx: i32, dy: i32| {
        vec![
            filled_display(-10 + dx, 5 + dy, 3, 2, [10, 20, 30, 255]),
            filled_display(-5 + dx, 0 + dy, 2, 2, [200, 100, 50, 255]),
        ]
    };
    let a = compose_displays(&make(0, 0));
    let b = compose_displays(&make(1000, -300));
    assert_eq!(a.dimensions(), b.dimensions());
    assert_eq!(a.as_raw(), b.as_raw());
}
