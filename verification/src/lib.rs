//! A region quadtree over exact integer coordinates: an adaptive spatial
//! index for 2-D points with insertion, automatic subdivision, enumeration of
//! stored positions and occupied leaf rectangles, and retrieval of the leaves
//! crossed by a line segment.
//!
//! All coordinates are integers and all geometric predicates are computed
//! exactly (segment intersections are reported as rational points), so the
//! half-open containment rule partitions every subdivided rectangle with no
//! gap and no overlap; no floating-point tolerance is involved anywhere.

pub mod structs;
pub mod tree;
