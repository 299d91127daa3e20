//! A compressed set of unsigned 32-bit integers.
//!
//! The 32-bit domain is cut into 65536 blocks of 65536 values. Each block
//! that has received a value is held by a [`Container`], which stores its
//! members as a sorted array of 16-bit indices while they are few and as a
//! fixed bit vector once they are many. A [`RoaringBitmap`] keeps the
//! containers ordered by block key.

pub mod location;
pub mod sparse;
pub mod dense;
pub mod container;
pub mod store;
pub mod bitmap;
pub mod laws;

pub use crate::bitmap::RoaringBitmap;
pub use crate::container::Container;
pub use crate::location::calc_loc;
