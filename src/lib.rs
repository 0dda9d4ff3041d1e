//! Conversions between tile coordinates, pixel coordinates and quadkeys of the
//! spherical Mercator tiling scheme, with their mathematical model and laws.
use vstd::prelude::*;

pub mod model;
pub mod quadkey;

pub use quadkey::{Quadkey, QuadkeyError};

verus! {

} // verus!
