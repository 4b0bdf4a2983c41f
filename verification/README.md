# lockscreen

Effects for an i3 lock screen, verified with Verus: every screen is captured, blurred or
pixelated, and the captures are composed into one image that `i3lock` shows.

- `src/` is the verified library:
  - `raster`: the RGBA image type and its pixel indexing;
  - `window`: the one-dimensional fixed-point box filter (edges repeated);
  - `blur`: horizontal and vertical box passes, split into bands and strips, and the
    separable box-blur Gaussian approximation;
  - `block`, `pixelate`, `scale`: block sums, pixelation, box downscaling and nearest
    upscaling;
  - `display`: composition of the captures at their desktop positions (drawing goes through
    `image::imageops::overlay`);
  - `effect`, `lock`: the effect and locker kinds, and the `ScreenLocker` trait.
- `app/` is the program: argument parsing, screen capture with `xcap`, the effect strengths
  (floating point), saving the PNG and running `i3lock`.
- `tests/` exercises the library on concrete images.
