//! Screen lockers.

use vstd::prelude::*;

verus! {

/// A path on the file system, as `std` represents it.
#[verifier::external_type_specification]
#[verifier::external_body]
pub struct ExPathBuf(std::path::PathBuf);

/// An I/O error, as `std` reports it.
#[verifier::external_type_specification]
#[verifier::external_body]
pub struct ExIoError(std::io::Error);

/// The screen lockers that can be asked to show the composite.
#[derive(Clone, Copy, PartialEq, Eq, Debug)]
pub enum LockerBackend {
    I3,
}

/// Something that locks the screen behind the image stored at a path.
pub trait ScreenLocker {
    /// Locks the screen, showing the image at `path`.
    fn lock(&self, path: &std::path::PathBuf) -> Result<(), std::io::Error>;
}

} // verus!
