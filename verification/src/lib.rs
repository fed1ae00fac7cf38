use vstd::prelude::*;

pub mod b3sum;
pub mod db;
mod error;
pub mod scan;
pub mod walk;

pub use error::FotosError;

verus! {

/// Result type used throughout the library.
pub type Result<T> = core::result::Result<T, FotosError>;

} // verus!
