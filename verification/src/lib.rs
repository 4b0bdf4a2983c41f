//! Lock-screen effects: box-blur Gaussian approximations, pixelation, down- and up-scaling,
//! and the composition of several screen captures into one image.

pub mod block;
pub mod blur;
pub mod display;
pub mod effect;
pub mod lock;
pub mod pixelate;
pub mod raster;
pub mod scale;
pub mod window;
