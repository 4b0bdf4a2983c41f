//! The effects a lock screen can apply, and where each is implemented.

use vstd::prelude::*;

pub use crate::blur::{blur_cols_v, blur_row_h, box_blur_gaussian, clamp_radius, run_round, thread_count};
pub use crate::pixelate::rgba_image_from_pixelate;
pub use crate::scale::{box_downscale, nearest_upscale};

verus! {

/// The effect applied to each captured screen.
#[derive(Clone, Copy, PartialEq, Eq, Debug)]
pub enum EffectType {
    Gaussian,
    GaussianAsymmetric,
    GaussianBoxBlur,
    Pixelate,
}

} // verus!
