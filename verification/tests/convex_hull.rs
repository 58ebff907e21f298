//! The three hull constructions. Coordinates are given in units and put on
//! a grid of thousandths.

use cogeors::algorithms::convex_hull::{graham_scan, jarvis_march, monotone_chain};
use cogeors::primitives2d::Point2D;
use rand::Rng;

fn hull_pt(x: f64, y: f64) -> Point2D {
    Point2D::new((x * 1000.0).round() as i32, (y * 1000.0).round() as i32)
}

fn sample_points() -> Vec<Point2D> {
    vec![
        hull_pt(0.0, 0.0),
        hull_pt(0.0, 1.0),
        hull_pt(1.0, 0.0),
        hull_pt(1.0, 1.0),
        hull_pt(0.5, 0.5),
    ]
}

fn sample_hull() -> Vec<Point2D> {
    vec![hull_pt(0.0, 0.0), hull_pt(0.0, 1.0), hull_pt(1.0, 1.0), hull_pt(1.0, 0.0)]
}

fn all_three(points: &[Point2D]) -> Vec<Point2D> {
    let jarvis = jarvis_march(points);
    let mut copy = points.to_vec();
    let monotone = monotone_chain(&mut copy);
    let mut copy = points.to_vec();
    let graham = graham_scan(&mut copy);
    assert_eq!(jarvis, monotone);
    assert_eq!(jarvis, graham);
    jarvis
}

#[test]
fn jarvis_march_test() {
    let points = sample_points();
    let expected_results = sample_hull();
    assert_eq!(jarvis_march(&points), expected_results);
}

#[test]
fn monotone_chain_test() {
    let mut points = sample_points();
    let expected_results = sample_hull();
    assert_eq!(monotone_chain(&mut points), expected_results);
}

#[test]
fn graham_scan_test() {
    let mut points = sample_points();
    let expected_results = sample_hull();
    assert_eq!(graham_scan(&mut points), expected_results);
}

#[test]
fn random_stress_test() {
    let mut points = sample_points();

    for _ in 0..100000 {
        points.push(hull_pt(rand::thread_rng().gen(), rand::thread_rng().gen()));
    }

    let expected_results = sample_hull();

    assert_eq!(graham_scan(&mut points), expected_results);
    assert_eq!(monotone_chain(&mut points), expected_results);
    assert_eq!(jarvis_march(&mut points), expected_results);

    let mut points = Vec::new();
    points.push(hull_pt(0.5, 0.5));

    for _ in 0..100000 {
        points.push(hull_pt(rand::thread_rng().gen(), rand::thread_rng().gen()));
    }

    let graham = graham_scan(&mut points);
    let monotone = monotone_chain(&mut points);
    let jarvis = jarvis_march(&mut points);
    assert_eq!(graham, monotone);
    assert_eq!(graham, jarvis);
}

#[test]
fn monotone_chain_leaves_the_points_sorted() {
    let mut points = vec![
        Point2D::new(3, 1),
        Point2D::new(0, 2),
        Point2D::new(3, 0),
        Point2D::new(0, 0),
        Point2D::new(1, 5),
    ];
    monotone_chain(&mut points);
    assert_eq!(
        points,
        vec![
            Point2D::new(0, 0),
            Point2D::new(0, 2),
            Point2D::new(1, 5),
            Point2D::new(3, 0),
            Point2D::new(3, 1),
        ]
    );
}

#[test]
fn graham_scan_leaves_the_points_sorted_by_angle() {
    let mut points = vec![
        Point2D::new(3, 0),
        Point2D::new(2, 2),
        Point2D::new(0, 0),
        Point2D::new(0, 4),
        Point2D::new(1, 1),
        Point2D::new(1, 3),
    ];
    graham_scan(&mut points);
    assert_eq!(
        points,
        vec![
            Point2D::new(0, 0),
            Point2D::new(0, 4),
            Point2D::new(1, 3),
            Point2D::new(1, 1),
            Point2D::new(2, 2),
            Point2D::new(3, 0),
        ]
    );
}

#[test]
fn a_single_point_is_its_own_hull() {
    let points = vec![Point2D::new(7, -2)];
    assert_eq!(all_three(&points), vec![Point2D::new(7, -2)]);
}

#[test]
fn repeated_points_give_one_corner() {
    let points = vec![Point2D::new(4, 4), Point2D::new(4, 4), Point2D::new(4, 4)];
    assert_eq!(all_three(&points), vec![Point2D::new(4, 4)]);
}

#[test]
fn points_on_one_line_give_the_two_ends() {
    let points = vec![
        Point2D::new(2, 2),
        Point2D::new(0, 0),
        Point2D::new(3, 3),
        Point2D::new(1, 1),
        Point2D::new(3, 3),
    ];
    assert_eq!(all_three(&points), vec![Point2D::new(0, 0), Point2D::new(3, 3)]);
    let upright = vec![Point2D::new(5, 1), Point2D::new(5, -3), Point2D::new(5, 0)];
    assert_eq!(all_three(&upright), vec![Point2D::new(5, -3), Point2D::new(5, 1)]);
}

#[test]
fn points_on_the_edges_are_no_corners() {
    let points = vec![
        Point2D::new(0, 0),
        Point2D::new(2, 0),
        Point2D::new(4, 0),
        Point2D::new(4, 2),
        Point2D::new(4, 4),
        Point2D::new(2, 4),
        Point2D::new(0, 4),
        Point2D::new(0, 2),
        Point2D::new(2, 2),
        Point2D::new(0, 0),
        Point2D::new(4, 4),
    ];
    assert_eq!(
        all_three(&points),
        vec![Point2D::new(0, 0), Point2D::new(0, 4), Point2D::new(4, 4), Point2D::new(4, 0)]
    );
}

#[test]
fn hull_of_a_triangle_runs_clockwise_from_the_lowest_point() {
    let points = vec![Point2D::new(5, 0), Point2D::new(0, 0), Point2D::new(2, 6)];
    assert_eq!(
        all_three(&points),
        vec![Point2D::new(0, 0), Point2D::new(2, 6), Point2D::new(5, 0)]
    );
}

#[test]
fn hull_at_the_ends_of_the_range() {
    let points = vec![
        Point2D::new(i32::MAX, i32::MAX),
        Point2D::new(i32::MIN, i32::MAX),
        Point2D::new(0, 0),
        Point2D::new(i32::MAX, i32::MIN),
        Point2D::new(i32::MIN, i32::MIN),
        Point2D::new(i32::MIN, 0),
    ];
    assert_eq!(
        all_three(&points),
        vec![
            Point2D::new(i32::MIN, i32::MIN),
            Point2D::new(i32::MIN, i32::MAX),
            Point2D::new(i32::MAX, i32::MAX),
            Point2D::new(i32::MAX, i32::MIN),
        ]
    );
}

#[test]
fn every_point_lies_inside_the_hull() {
    let mut points = Vec::new();
    let mut seed: i64 = 12345;
    for _ in 0..400 {
        seed = (seed * 1103515245 + 12345) % 2147483648;
        let x = (seed % 41) as i32 - 20;
        seed = (seed * 1103515245 + 12345) % 2147483648;
        let y = (seed % 41) as i32 - 20;
        points.push(Point2D::new(x, y));
    }
    let hull = all_three(&points);
    for corner in &hull {
        assert!(points.contains(corner));
    }
    for i in 0..hull.len() {
        let from = hull[i];
        let to = hull[(i + 1) % hull.len()];
        for p in &points {
            let turn = (to.x as i64 - from.x as i64) * (p.y as i64 - from.y as i64)
                - (to.y as i64 - from.y as i64) * (p.x as i64 - from.x as i64);
            assert!(turn <= 0);
        }
    }
}
