//! Algorithms on sets of points and of segments.

pub mod convex_hull;
pub mod line_intersection;
pub mod point_sort;
pub mod polygon_area;
pub mod turn_lemmas;
