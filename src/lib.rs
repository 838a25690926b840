//! The integer core of a raster-to-vector pipeline.
//!
//! - `algo`: boundary tracing, from an occupancy grid to closed polygons,
//!   each boundary edge walked exactly once.
//! - `edges`: the model of the direction grid the tracer walks, and the
//!   proofs about it.
//! - `min_heap`: a binary min-heap whose entries callers name by handles.
//! - `parsers`: the chunk structure of a PNG stream.
//! - `sums`: sums over rectangles, used to count boundary edges.
//! - `utils`, `vec2`, `structs`: identifiers, colour strings and small types.

pub mod algo;
pub mod edges;
pub mod min_heap;
pub mod parsers;
pub mod structs;
pub mod sums;
pub mod utils;
pub mod vec2;
