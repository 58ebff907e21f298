//! Points, segments and the predicates on them. Coordinates are given in
//! units and put on a grid of thousandths.

use cogeors::primitives2d::{ExactPoint, Line2D, Point2D, TurnDirection};
use std::cmp::Ordering;

fn grid(v: f64) -> i32 {
    (v * 1000.0).round() as i32
}

fn pt(x: f64, y: f64) -> Point2D {
    Point2D::new(grid(x), grid(y))
}

/// The coordinates of an exact point of the grid of thousandths, in units.
fn in_units(p: ExactPoint) -> (f64, f64) {
    (p.x as f64 / p.d as f64 / 1000.0, p.y as f64 / p.d as f64 / 1000.0)
}

/// Whether `found` is the point `(x / d, y / d)` of the grid.
fn is_point(found: Option<ExactPoint>, x: i128, y: i128, d: i128) -> bool {
    match found {
        Some(p) => p.same_as(&ExactPoint { x, y, d }),
        None => false,
    }
}

#[test]
fn point_new_test() {
    let p = pt(2.3, 6.7);
    assert_eq!(p.x, grid(2.3));
    assert_eq!(p.y, grid(6.7));
}

#[test]
fn turn_direction_test() {
    let p = pt(0.0, 0.0);
    assert_eq!(p.turn_direction(&pt(1.0, 1.0), &pt(1.0, 0.0)), TurnDirection::RightTurn);
    assert_eq!(p.turn_direction(&pt(1.0, 1.0), &pt(1.0, 2.0)), TurnDirection::LeftTurn);
    assert_eq!(p.turn_direction(&pt(1.0, 1.0), &pt(2.0, 2.0)), TurnDirection::NoTurn);
}

#[test]
fn line_intersection_test() {
    let line1 = Line2D::new(pt(0.0, 0.0), pt(1.0, 1.0));
    let line2 = Line2D::new(pt(1.0, 0.0), pt(0.0, 1.0));
    let line3 = Line2D::new(pt(2.0, 0.0), pt(0.0, 2.0));
    let line4 = Line2D::new(pt(0.5, 0.5), pt(1.5, 1.5));
    let line5 = Line2D::new(pt(4.5, 4.5), pt(1.5, 1.5));
    assert!(line1.intersects_with_line(&line1));
    assert!(line1.intersects_with_line(&line2));
    assert!(line1.intersects_with_line(&line3));
    assert!(!line3.intersects_with_line(&line2));
    assert!(!line2.intersects_with_line(&line3));
    assert!(line1.intersects_with_line(&line4));
    assert!(!line1.intersects_with_line(&line5));

    assert_eq!(line1.intersection_point(&line2).map(in_units), Some((0.5, 0.5)));
    assert_eq!(line2.intersection_point(&line1).map(in_units), Some((0.5, 0.5)));
    assert_eq!(line1.intersection_point(&line3).map(in_units), Some((1.0, 1.0)));
    assert_eq!(line3.intersection_point(&line2), None);
    assert_eq!(line2.intersection_point(&line3), None);
    assert_eq!(line1.intersection_point(&line4).map(in_units), Some((1.0, 1.0)));
    assert_eq!(line1.intersection_point(&line5), None);
}

#[test]
fn line_contains_point_test() {
    let line1 = Line2D::new(pt(0.0, 0.0), pt(1.0, 1.0));
    let line2 = Line2D::new(pt(1.0, 1.0), pt(0.0, 0.0));
    assert!(line1.contains_point(&pt(0.5, 0.5)));
    assert!(line1.contains_point(&pt(0.0, 0.0)));
    assert!(!line1.contains_point(&pt(0.5, 0.4)));
    assert!(!line1.contains_point(&pt(1.5, 1.5)));
    assert!(line2.contains_point(&pt(0.5, 0.5)));
    assert!(line2.contains_point(&pt(0.0, 0.0)));
    assert!(!line2.contains_point(&pt(0.5, 0.4)));
    assert!(!line2.contains_point(&pt(1.5, 1.5)));
}

#[test]
fn turn_direction_at_the_ends_of_the_range() {
    let low = Point2D::new(i32::MIN, i32::MIN);
    let high = Point2D::new(i32::MAX, i32::MAX);
    let corner = Point2D::new(i32::MAX, i32::MIN);
    assert_eq!(low.turn_direction(&high, &corner), TurnDirection::RightTurn);
    assert_eq!(low.turn_direction(&corner, &high), TurnDirection::LeftTurn);
    assert_eq!(low.turn_direction(&high, &high), TurnDirection::NoTurn);
    assert_eq!(low.turn_direction(&low, &high), TurnDirection::NoTurn);
}

#[test]
fn x_then_y_order_is_by_x_first() {
    let a = Point2D::new(1, 5);
    let b = Point2D::new(2, 0);
    let c = Point2D::new(1, 7);
    assert_eq!(a.x_then_y_partial_cmp(&b), Some(Ordering::Less));
    assert_eq!(b.x_then_y_partial_cmp(&a), Some(Ordering::Greater));
    assert_eq!(a.x_then_y_partial_cmp(&c), Some(Ordering::Less));
    assert_eq!(c.x_then_y_partial_cmp(&a), Some(Ordering::Greater));
    assert_eq!(a.x_then_y_partial_cmp(&a), Some(Ordering::Equal));
    assert!(a.precedes(&b));
    assert!(!b.precedes(&a));
    assert!(!a.precedes(&a));
}

#[test]
fn rotation_order_is_clockwise_then_by_distance() {
    let pivot = Point2D::new(0, 0);
    let up = Point2D::new(0, 3);
    let right = Point2D::new(3, 0);
    let near = Point2D::new(1, 1);
    let far = Point2D::new(2, 2);
    // `right` lies clockwise of `up`, so `up` comes first.
    assert_eq!(up.rotation_point_cmp(&right, &pivot), Some(Ordering::Less));
    assert_eq!(right.rotation_point_cmp(&up, &pivot), Some(Ordering::Greater));
    assert_eq!(near.rotation_point_cmp(&far, &pivot), Some(Ordering::Less));
    assert_eq!(far.rotation_point_cmp(&near, &pivot), Some(Ordering::Greater));
    assert_eq!(far.rotation_point_cmp(&far, &pivot), Some(Ordering::Equal));
}

#[test]
fn contains_point_on_axis_parallel_segments() {
    let vertical = Line2D::new(Point2D::new(2, -1), Point2D::new(2, 4));
    assert!(vertical.contains_point(&Point2D::new(2, 0)));
    assert!(vertical.contains_point(&Point2D::new(2, 4)));
    assert!(!vertical.contains_point(&Point2D::new(2, 5)));
    assert!(!vertical.contains_point(&Point2D::new(3, 0)));
    let horizontal = Line2D::new(Point2D::new(4, 7), Point2D::new(-4, 7));
    assert!(horizontal.contains_point(&Point2D::new(0, 7)));
    assert!(!horizontal.contains_point(&Point2D::new(0, 8)));
    assert!(!horizontal.contains_point(&Point2D::new(5, 7)));
    let dot = Line2D::new(Point2D::new(1, 1), Point2D::new(1, 1));
    assert!(dot.contains_point(&Point2D::new(1, 1)));
    assert!(!dot.contains_point(&Point2D::new(1, 2)));
}

#[test]
fn segments_that_touch_intersect() {
    let a = Line2D::new(Point2D::new(0, 0), Point2D::new(4, 0));
    let tee = Line2D::new(Point2D::new(2, 0), Point2D::new(2, 5));
    let vee = Line2D::new(Point2D::new(4, 0), Point2D::new(6, 3));
    assert!(a.intersects_with_line(&tee));
    assert!(tee.intersects_with_line(&a));
    assert!(is_point(a.intersection_point(&tee), 2, 0, 1));
    assert!(is_point(tee.intersection_point(&a), 2, 0, 1));
    assert!(a.intersects_with_line(&vee));
    assert!(is_point(a.intersection_point(&vee), 4, 0, 1));
    assert!(is_point(vee.intersection_point(&a), 4, 0, 1));
}

#[test]
fn a_segment_inside_another_intersects_it() {
    let long = Line2D::new(Point2D::new(0, 0), Point2D::new(9, 9));
    let short = Line2D::new(Point2D::new(3, 3), Point2D::new(5, 5));
    assert!(long.intersects_with_line(&short));
    assert!(short.intersects_with_line(&long));
    // The end points that lie on both are those of `short`; the last is given.
    assert_eq!(short.intersection_point(&long), Some(ExactPoint { x: 5, y: 5, d: 1 }));
    assert_eq!(long.intersection_point(&short), Some(ExactPoint { x: 5, y: 5, d: 1 }));
}

#[test]
fn the_point_of_an_overlap_does_not_depend_on_order_or_direction() {
    let a = Line2D::new(Point2D::new(0, 0), Point2D::new(2, 0));
    let b = Line2D::new(Point2D::new(1, 0), Point2D::new(3, 0));
    let a_back = Line2D::new(a.p2, a.p1);
    let b_back = Line2D::new(b.p2, b.p1);
    let expected = Some(ExactPoint { x: 2, y: 0, d: 1 });
    assert_eq!(a.intersection_point(&b), expected);
    assert_eq!(b.intersection_point(&a), expected);
    assert_eq!(a_back.intersection_point(&b), expected);
    assert_eq!(b.intersection_point(&a_back), expected);
    assert_eq!(a_back.intersection_point(&b_back), expected);
    assert_eq!(b_back.intersection_point(&a), expected);
    // Upright segments that touch in one point.
    let c = Line2D::new(Point2D::new(4, 1), Point2D::new(4, 5));
    let d = Line2D::new(Point2D::new(4, 8), Point2D::new(4, 5));
    assert_eq!(c.intersection_point(&d), Some(ExactPoint { x: 4, y: 5, d: 1 }));
    assert_eq!(d.intersection_point(&c), Some(ExactPoint { x: 4, y: 5, d: 1 }));
}

#[test]
fn parallel_segments_apart_do_not_intersect() {
    let a = Line2D::new(Point2D::new(0, 0), Point2D::new(4, 4));
    let b = Line2D::new(Point2D::new(0, 1), Point2D::new(4, 5));
    assert!(!a.intersects_with_line(&b));
    assert_eq!(a.intersection_point(&b), None);
}

#[test]
fn a_crossing_off_the_grid_is_given_exactly() {
    // The segments cross at (1/2, 1/2).
    let a = Line2D::new(Point2D::new(0, 0), Point2D::new(1, 1));
    let b = Line2D::new(Point2D::new(1, 0), Point2D::new(0, 1));
    assert_eq!(a.intersection_point(&b), Some(ExactPoint { x: 1, y: 1, d: 2 }));
    assert!(is_point(b.intersection_point(&a), 1, 1, 2));
    assert!(is_point(b.intersection_point(&a), 50, 50, 100));
    assert!(!is_point(b.intersection_point(&a), 0, 0, 1));
    // These cross at (4/5, -1/5).
    let c = Line2D::new(Point2D::new(0, -1), Point2D::new(2, 1));
    let d = Line2D::new(Point2D::new(0, 1), Point2D::new(2, -2));
    assert!(is_point(c.intersection_point(&d), 4, -1, 5));
    assert!(is_point(d.intersection_point(&c), 4, -1, 5));
    assert!(!is_point(d.intersection_point(&c), 4, 1, 5));
    assert!(!is_point(d.intersection_point(&c), -4, -1, 5));
}

#[test]
fn forms_of_one_point_are_told_apart_from_other_points() {
    let half = ExactPoint { x: 1, y: -3, d: 2 };
    assert!(half.same_as(&ExactPoint { x: 7, y: -21, d: 14 }));
    assert!(half.same_as(&half));
    assert!(!half.same_as(&ExactPoint { x: 7, y: -20, d: 14 }));
    assert!(!half.same_as(&ExactPoint { x: -1, y: -3, d: 2 }));
    assert!(!half.same_as(&ExactPoint { x: 1, y: -3, d: 3 }));
    let big = ExactPoint { x: 1 << 97, y: -(1 << 96), d: (1 << 65) - 1 };
    let other = ExactPoint { x: (1 << 97) + 1, y: -(1 << 96), d: (1 << 65) - 1 };
    assert!(big.same_as(&big));
    assert!(!big.same_as(&other));
    assert!(ExactPoint::from_point(Point2D::new(3, 4)).same_as(&ExactPoint { x: 9, y: 12, d: 3 }));
    assert!(ExactPoint { x: 0, y: 0, d: 5 }.same_as(&ExactPoint { x: 0, y: 0, d: 7 }));
}

#[test]
fn a_crossing_at_the_ends_of_the_range() {
    let a = Line2D::new(Point2D::new(i32::MIN, i32::MIN), Point2D::new(i32::MAX, i32::MAX));
    let b = Line2D::new(Point2D::new(i32::MIN, i32::MAX), Point2D::new(i32::MAX, i32::MIN));
    // The diagonals of the square cross at (-1/2, -1/2).
    assert!(is_point(a.intersection_point(&b), -1, -1, 2));
    assert!(is_point(b.intersection_point(&a), -1, -1, 2));
}

#[test]
fn it_does_not_matter_which_segment_is_asked() {
    let segments = [
        Line2D::new(Point2D::new(0, 0), Point2D::new(6, 6)),
        Line2D::new(Point2D::new(6, 0), Point2D::new(0, 6)),
        Line2D::new(Point2D::new(2, 2), Point2D::new(4, 4)),
        Line2D::new(Point2D::new(7, 7), Point2D::new(9, 9)),
        Line2D::new(Point2D::new(3, 3), Point2D::new(3, 3)),
        Line2D::new(Point2D::new(0, 5), Point2D::new(1, 5)),
        Line2D::new(Point2D::new(6, 6), Point2D::new(6, -2)),
    ];
    for a in &segments {
        for b in &segments {
            assert_eq!(a.intersects_with_line(b), b.intersects_with_line(a));
            assert_eq!(a.intersection_point(b).is_some(), a.intersects_with_line(b));
        }
    }
    assert!(segments[0].intersects_with_line(&segments[4]));
    assert!(!segments[0].intersects_with_line(&segments[5]));
    assert!(segments[0].intersects_with_line(&segments[6]));
    assert!(!segments[2].intersects_with_line(&segments[3]));
}
