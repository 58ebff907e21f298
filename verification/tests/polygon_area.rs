//! The shoelace area. Coordinates are given in units and put on a grid of
//! thousandths; an area is read back in square units.

use cogeors::algorithms::polygon_area::{shoelace, signed_area, Area};
use cogeors::error::GeometryError;
use cogeors::primitives2d::Point2D;

fn area_pt(x: f64, y: f64) -> Point2D {
    Point2D::new((x * 1000.0).round() as i32, (y * 1000.0).round() as i32)
}

fn square_units(area: Area) -> f64 {
    area.doubled as f64 / (2.0 * 1000.0 * 1000.0)
}

#[test]
fn shoelace_test() {
    let polygon = vec![
        area_pt(0.0, 0.0),
        area_pt(0.0, 1.0),
        area_pt(1.0, 1.0),
        area_pt(1.0, 0.0),
    ];
    assert_eq!(square_units(shoelace(&polygon).unwrap()), 1.0);
    assert_eq!(square_units(shoelace(&polygon).unwrap()), 1.0);

    let polygon = vec![
        area_pt(-1.0, -1.0),
        area_pt(-1.0, 1.0),
        area_pt(1.0, 1.0),
        area_pt(1.0, -1.0),
    ];
    assert_eq!(square_units(shoelace(&polygon).unwrap()), 4.0);
    let polygon = vec![
        area_pt(-1.0, -1.0),
        area_pt(1.0, -1.0),
        area_pt(1.0, 1.0),
        area_pt(-1.0, 1.0),
    ];
    assert_eq!(square_units(shoelace(&polygon).unwrap()), 4.0);
    let polygon = vec![
        area_pt(-1.0, -1.0),
        area_pt(-1.0, 0.0),
        area_pt(0.0, 0.0),
        area_pt(0.0, 1.0),
        area_pt(1.0, 1.0),
        area_pt(1.0, -1.0),
    ];
    assert_eq!(square_units(shoelace(&polygon).unwrap()), 3.0);

    let polygon = vec![area_pt(0.0, 0.0), area_pt(10.0, 0.0), area_pt(-10.0, 100.0)];
    assert_eq!(square_units(shoelace(&polygon).unwrap()), 500.0);
}

#[test]
fn fewer_than_three_points_have_no_area() {
    let none: Vec<Point2D> = Vec::new();
    assert_eq!(shoelace(&none), Err(GeometryError::DegeneratePolygon));
    assert_eq!(signed_area(&none), Err(GeometryError::DegeneratePolygon));
    let two = vec![Point2D::new(0, 0), Point2D::new(5, 5)];
    assert_eq!(shoelace(&two), Err(GeometryError::DegeneratePolygon));
    assert_eq!(signed_area(&two), Err(GeometryError::DegeneratePolygon));
}

#[test]
fn signed_area_is_negative_clockwise() {
    let clockwise = vec![
        Point2D::new(0, 0),
        Point2D::new(0, 3),
        Point2D::new(4, 3),
        Point2D::new(4, 0),
    ];
    assert_eq!(signed_area(&clockwise), Ok(Area { doubled: -24 }));
    let mut counter: Vec<Point2D> = clockwise.clone();
    counter.reverse();
    assert_eq!(signed_area(&counter), Ok(Area { doubled: 24 }));
    assert_eq!(shoelace(&clockwise), Ok(Area { doubled: 24 }));
    assert_eq!(shoelace(&counter), Ok(Area { doubled: 24 }));
}

#[test]
fn area_does_not_depend_on_the_first_vertex() {
    let polygon = vec![
        Point2D::new(-3, 2),
        Point2D::new(1, 7),
        Point2D::new(6, 5),
        Point2D::new(4, -2),
        Point2D::new(0, -4),
    ];
    let whole = signed_area(&polygon).unwrap();
    for k in 0..polygon.len() {
        let mut turned: Vec<Point2D> = polygon[k..].to_vec();
        turned.extend_from_slice(&polygon[..k]);
        assert_eq!(signed_area(&turned).unwrap(), whole);
        assert_eq!(shoelace(&turned).unwrap().doubled, whole.doubled.abs());
    }
}

#[test]
fn a_triangle_with_odd_doubled_area() {
    // Half of a unit square and a half: area 3/2.
    let triangle = vec![Point2D::new(0, 0), Point2D::new(3, 0), Point2D::new(0, 1)];
    assert_eq!(signed_area(&triangle), Ok(Area { doubled: 3 }));
}

#[test]
fn area_at_the_ends_of_the_range() {
    let square = vec![
        Point2D::new(i32::MIN, i32::MIN),
        Point2D::new(i32::MIN, i32::MAX),
        Point2D::new(i32::MAX, i32::MAX),
        Point2D::new(i32::MAX, i32::MIN),
    ];
    let side: i128 = i32::MAX as i128 - i32::MIN as i128;
    assert_eq!(shoelace(&square), Ok(Area { doubled: 2 * side * side }));
    assert_eq!(signed_area(&square), Ok(Area { doubled: -2 * side * side }));
}
