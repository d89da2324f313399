//! Prepares G-code for object cancellation: finds the objects that a slicer printed,
//! and patches the file with `EXCLUDE_OBJECT_DEFINE`, `EXCLUDE_OBJECT_START` and
//! `EXCLUDE_OBJECT_END` commands around them.
use vstd::prelude::*;

pub mod error;
pub mod gcode;
pub mod patch;
pub mod sort;
pub mod text;

pub use error::Error;
pub use gcode::slicers::Slicer;
pub use patch::Patch;

verus! {

/// The result of the library's operations.
pub type Result<T> = std::result::Result<T, Error>;

} // verus!
