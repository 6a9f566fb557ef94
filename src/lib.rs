//! Columnar arrays of vector geometries and their conversion to and from
//! Well-Known Binary and Well-Known Text.
//!
//! Coordinates are held as IEEE-754 bit patterns. A geometry is modelled as
//! parts of rings of coordinates; each geometry kind fixes some of these
//! levels to a single entry and stores the others with offset buffers.

use vstd::prelude::*;

pub mod error;
pub mod metadata;
pub mod offsets;
pub mod geometry;
pub mod coord;
pub mod levels;
pub mod array;
pub mod wkb_array;
pub mod mixed;
pub mod native;
pub mod wkb;
pub mod codec;
pub mod wkt;
pub mod ewkb;
pub mod chunked;
pub mod collection;

verus! {

} // verus!
