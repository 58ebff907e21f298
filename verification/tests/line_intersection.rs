//! The intersection points of a set of segments. Coordinates are given in
//! units and put on a grid of thousandths.

use cogeors::algorithms::line_intersection::bentley_ottmann;
use cogeors::error::GeometryError;
use cogeors::primitives2d::{ExactPoint, Line2D, Point2D};

fn cut_pt(x: f64, y: f64) -> Point2D {
    Point2D::new((x * 1000.0).round() as i32, (y * 1000.0).round() as i32)
}

/// The coordinates of exact points of the grid of thousandths, in units.
fn cuts_in_units(points: Vec<ExactPoint>) -> Vec<(f64, f64)> {
    points
        .into_iter()
        .map(|p| (p.x as f64 / p.d as f64 / 1000.0, p.y as f64 / p.d as f64 / 1000.0))
        .collect()
}

/// Whether `found` holds the points `(x / d, y / d)` given, in this order.
fn are_points(found: &[ExactPoint], expected: &[(i128, i128, i128)]) -> bool {
    found.len() == expected.len()
        && found
            .iter()
            .zip(expected)
            .all(|(p, &(x, y, d))| p.same_as(&ExactPoint { x, y, d }))
}

#[test]
fn bentley_ottmann_test() {
    let lines = vec![
        Line2D::new(cut_pt(0.0, 0.0), cut_pt(2.0, 2.0)),
        Line2D::new(cut_pt(2.0, 0.0), cut_pt(0.0, 2.0)),
    ];
    let expected_results = vec![(1.0, 1.0)];

    let result = cuts_in_units(bentley_ottmann(&lines).unwrap());
    assert_eq!(result, expected_results);
}

#[test]
fn a_segment_without_length_is_refused() {
    let lines = vec![
        Line2D::new(Point2D::new(0, 0), Point2D::new(2, 2)),
        Line2D::new(Point2D::new(1, 5), Point2D::new(1, 5)),
    ];
    assert_eq!(bentley_ottmann(&lines), Err(GeometryError::IllegalSegment));
}

#[test]
fn segments_apart_give_nothing() {
    let lines = vec![
        Line2D::new(Point2D::new(0, 0), Point2D::new(2, 0)),
        Line2D::new(Point2D::new(0, 1), Point2D::new(2, 1)),
        Line2D::new(Point2D::new(5, -3), Point2D::new(5, 3)),
    ];
    assert_eq!(bentley_ottmann(&lines), Ok(Vec::new()));
    let none: Vec<Line2D> = Vec::new();
    assert_eq!(bentley_ottmann(&none), Ok(Vec::new()));
}

#[test]
fn a_point_where_many_segments_cross_is_given_once() {
    let lines = vec![
        Line2D::new(Point2D::new(-2, -2), Point2D::new(2, 2)),
        Line2D::new(Point2D::new(-2, 2), Point2D::new(2, -2)),
        Line2D::new(Point2D::new(-3, 0), Point2D::new(3, 0)),
        Line2D::new(Point2D::new(0, -3), Point2D::new(0, 3)),
    ];
    let found = bentley_ottmann(&lines).unwrap();
    assert!(are_points(&found, &[(0, 0, 1)]));
    // The form is that of the first pair that meets there.
    assert_eq!(found, vec![ExactPoint { x: 0, y: 0, d: 32 }]);
}

#[test]
fn a_shared_end_point_is_an_intersection() {
    let lines = vec![
        Line2D::new(Point2D::new(0, 0), Point2D::new(4, 4)),
        Line2D::new(Point2D::new(4, 4), Point2D::new(8, 0)),
    ];
    assert!(are_points(&bentley_ottmann(&lines).unwrap(), &[(4, 4, 1)]));
}

#[test]
fn crossings_off_the_grid_are_given_exactly() {
    let lines = vec![
        Line2D::new(Point2D::new(0, 0), Point2D::new(1, 1)),
        Line2D::new(Point2D::new(1, 0), Point2D::new(0, 1)),
        Line2D::new(Point2D::new(0, 1), Point2D::new(3, 0)),
    ];
    // (1/2, 1/2), then (3/4, 3/4), then the end point (0, 1).
    let found = bentley_ottmann(&lines).unwrap();
    assert!(are_points(&found, &[(1, 1, 2), (3, 3, 4), (0, 1, 1)]));
    let first = Line2D::new(Point2D::new(0, 0), Point2D::new(1, 1));
    assert!(!first.contains_point(&Point2D::new(1, 0)));
}

#[test]
fn intersections_come_in_the_order_of_the_pairs() {
    let lines = vec![
        Line2D::new(Point2D::new(0, 0), Point2D::new(10, 0)),
        Line2D::new(Point2D::new(8, -1), Point2D::new(8, 1)),
        Line2D::new(Point2D::new(2, -1), Point2D::new(2, 5)),
        Line2D::new(Point2D::new(0, 4), Point2D::new(10, 4)),
        Line2D::new(Point2D::new(5, -2), Point2D::new(5, 6)),
    ];
    assert!(are_points(
        &bentley_ottmann(&lines).unwrap(),
        &[(8, 0, 1), (2, 0, 1), (5, 0, 1), (2, 4, 1), (5, 4, 1)]
    ));
}
