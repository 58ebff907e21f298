//! Exact planar geometry on the integer grid.
//!
//! Points have `i32` coordinates. Every predicate (turn direction, orderings,
//! segment containment and intersection) is decided exactly with wide integer
//! arithmetic, so no tolerance is involved anywhere. Where two segments cross
//! off the grid, the crossing is given exactly too, as a point with rational
//! coordinates. A caller that works with fractional coordinates picks a grid
//! unit (thousandths, say) and scales once at its own boundary.
//!
//! On top of the predicates stand three convex-hull constructions, the
//! reporting of all intersection points of a set of segments, the shoelace
//! area of a polygon, and a doubly connected edge list kept in index-addressed
//! arenas.
//!
//! - [`primitives2d`]: points, segments, and the predicates on them.
//! - [`segment_lemmas`]: the intersection test means having a point in common.
//! - [`algorithms`]: convex hulls, segment intersections, polygon area.
//! - [`dcel`]: the doubly connected edge list and its operations.
//! - [`dcel_model`]: what a doubly connected edge list is, and its invariants.
//! - [`dcel_split`]: what splitting a face does, and why it keeps the invariants.
//! - [`error`]: the errors.

pub mod algorithms;
pub mod dcel;
pub mod dcel_model;
pub mod dcel_split;
pub mod error;
pub mod primitives2d;
pub mod segment_lemmas;

pub use crate::algorithms::polygon_area::Area;
pub use crate::dcel::DCEL;
pub use crate::error::{GeometryError, Violation};
pub use crate::primitives2d::{ExactPoint, Line2D, Point2D, TurnDirection};
