//! The doubly connected edge list. Coordinates are given in units and put
//! on a grid of thousandths; an area is read back in square units.

use cogeors::algorithms::polygon_area::Area;
use cogeors::dcel::{PolygonIterator, DCEL};
use cogeors::dcel_model::{HalfEdge, Vertex};
use cogeors::error::{GeometryError, Violation};
use cogeors::primitives2d::Point2D;

fn dcel_pt(x: f64, y: f64) -> Point2D {
    Point2D::new((x * 1000.0).round() as i32, (y * 1000.0).round() as i32)
}

fn unit_square() -> Vec<Point2D> {
    vec![dcel_pt(0.0, 0.0), dcel_pt(0.0, 1.0), dcel_pt(1.0, 1.0), dcel_pt(1.0, 0.0)]
}

fn in_square_units(area: Area) -> f64 {
    area.doubled as f64 / (2.0 * 1000.0 * 1000.0)
}

#[test]
fn create_from_point_list_test() {
    let points = unit_square();
    let dcel = DCEL::create_from_point_list(&points).unwrap();
    assert!(dcel.verify().unwrap());
}

#[test]
fn unchecked_divide_face_test() {
    let points = unit_square();
    let mut dcel = DCEL::create_from_point_list(&points).unwrap();
    assert!(dcel.verify().unwrap());
    dcel.unchecked_divide_face(1, 5);
    assert!(dcel.verify().unwrap());
    assert_eq!(dcel.face_count(), 3);
}

#[test]
fn get_polygon_area_inclusive_test() {
    let points = unit_square();
    let dcel = DCEL::create_from_point_list(&points).unwrap();
    assert_eq!(in_square_units(dcel.get_polygon_area_inclusive(1).unwrap()), 1.0);
}

#[test]
fn the_unit_square_gives_two_faces_four_vertices_eight_half_edges() {
    let dcel = DCEL::create_from_point_list(&unit_square()).unwrap();
    assert_eq!(dcel.face_count(), 2);
    assert_eq!(dcel.vertex_count(), 4);
    assert_eq!(dcel.half_edge_count(), 8);
    assert_eq!(dcel.verify(), Ok(true));
}

#[test]
fn fewer_than_three_points_make_no_subdivision() {
    let two = vec![Point2D::new(0, 0), Point2D::new(1, 1)];
    assert!(matches!(DCEL::create_from_point_list(&two), Err(GeometryError::InsufficientPoints)));
    let none: Vec<Point2D> = Vec::new();
    assert!(matches!(DCEL::create_from_point_list(&none), Err(GeometryError::InsufficientPoints)));
}

#[test]
fn records_of_a_triangle() {
    let points = vec![Point2D::new(0, 0), Point2D::new(4, 0), Point2D::new(0, 3)];
    let dcel = DCEL::create_from_point_list(&points).unwrap();
    assert_eq!(
        dcel.vertex(1),
        Vertex { coordinate: Point2D::new(4, 0), incident_edge: Some(3) }
    );
    // The inner half-edge of the second edge runs from vertex 1 to vertex 2.
    assert_eq!(
        dcel.half_edge(3),
        HalfEdge {
            origin: Some(1),
            twin: Some(2),
            next: Some(5),
            prev: Some(1),
            incident_face: Some(1),
        }
    );
    // Its twin runs the other way around the outer face.
    assert_eq!(
        dcel.half_edge(2),
        HalfEdge {
            origin: Some(2),
            twin: Some(3),
            next: Some(0),
            prev: Some(4),
            incident_face: Some(0),
        }
    );
    assert_eq!(dcel.face(0).outer_component, None);
    assert_eq!(dcel.face(0).inner_component, vec![0]);
    assert_eq!(dcel.face(1).outer_component, Some(1));
    assert!(dcel.face(1).inner_component.is_empty());
}

#[test]
fn the_inner_face_has_the_polygon_as_its_boundary() {
    let points = vec![
        Point2D::new(0, 0),
        Point2D::new(6, 0),
        Point2D::new(6, 2),
        Point2D::new(3, 5),
        Point2D::new(0, 2),
    ];
    let dcel = DCEL::create_from_point_list(&points).unwrap();
    assert_eq!(dcel.get_polygon_points_from_face(1), Ok(points.clone()));
    assert_eq!(dcel.get_polygons(), vec![points]);
    assert_eq!(dcel.get_polygon_area_inclusive(1), Ok(Area { doubled: 42 }));
}

#[test]
fn the_unbounded_face_has_no_outer_boundary() {
    let dcel = DCEL::create_from_point_list(&unit_square()).unwrap();
    assert_eq!(dcel.get_polygon_points_from_face(0), Err(GeometryError::MissingBoundary));
    assert_eq!(dcel.get_polygon_area_inclusive(0), Err(GeometryError::MissingBoundary));
}

#[test]
fn splitting_the_square_along_a_diagonal() {
    let mut dcel = DCEL::create_from_point_list(&unit_square()).unwrap();
    let created = dcel.split_face(1, 5);
    assert_eq!(created, Ok((8, 9, 2)));
    assert_eq!(dcel.face_count(), 3);
    assert_eq!(dcel.half_edge_count(), 10);
    assert_eq!(dcel.vertex_count(), 4);
    assert_eq!(dcel.verify(), Ok(true));
    // The first new half-edge runs from vertex 2 to vertex 0 and stays with
    // the old face, the second runs back and bounds the new face.
    assert_eq!(
        dcel.half_edge(8),
        HalfEdge {
            origin: Some(2),
            twin: Some(9),
            next: Some(1),
            prev: Some(3),
            incident_face: Some(1),
        }
    );
    assert_eq!(
        dcel.half_edge(9),
        HalfEdge {
            origin: Some(0),
            twin: Some(8),
            next: Some(5),
            prev: Some(7),
            incident_face: Some(2),
        }
    );
    assert_eq!(dcel.half_edge(5).incident_face, Some(2));
    assert_eq!(dcel.half_edge(7).incident_face, Some(2));
    assert_eq!(dcel.half_edge(1).incident_face, Some(1));
    assert_eq!(dcel.half_edge(3).incident_face, Some(1));
    assert_eq!(
        dcel.get_polygon_points_from_face(1),
        Ok(vec![dcel_pt(0.0, 0.0), dcel_pt(0.0, 1.0), dcel_pt(1.0, 1.0)])
    );
    assert_eq!(
        dcel.get_polygon_points_from_face(2),
        Ok(vec![dcel_pt(0.0, 0.0), dcel_pt(1.0, 1.0), dcel_pt(1.0, 0.0)])
    );
    assert_eq!(in_square_units(dcel.get_polygon_area_inclusive(1).unwrap()), 0.5);
    assert_eq!(in_square_units(dcel.get_polygon_area_inclusive(2).unwrap()), 0.5);
}

#[test]
fn a_boundary_half_edge_that_moves_to_the_new_face_is_replaced() {
    let mut dcel = DCEL::create_from_point_list(&unit_square()).unwrap();
    // Half-edge 1, which face 1 names as its boundary, ends up on the
    // boundary of the new face.
    assert_eq!(dcel.split_face(5, 1), Ok((8, 9, 2)));
    assert_eq!(dcel.half_edge(1).incident_face, Some(2));
    assert_eq!(dcel.face(1).outer_component, Some(8));
    assert_eq!(dcel.face(2).outer_component, Some(9));
    assert_eq!(dcel.verify(), Ok(true));
}

#[test]
fn splits_that_cannot_be_made_are_refused() {
    let mut dcel = DCEL::create_from_point_list(&unit_square()).unwrap();
    // One half-edge twice.
    assert_eq!(dcel.split_face(1, 1), Err(GeometryError::InvalidSplit));
    // Half-edges of different faces.
    assert_eq!(dcel.split_face(1, 4), Err(GeometryError::InvalidSplit));
    // Half-edges that follow each other.
    assert_eq!(dcel.split_face(1, 3), Err(GeometryError::InvalidSplit));
    assert_eq!(dcel.split_face(3, 1), Err(GeometryError::InvalidSplit));
    assert_eq!(dcel.face_count(), 2);
    assert_eq!(dcel.half_edge_count(), 8);
    assert_eq!(dcel.verify(), Ok(true));
}

#[test]
fn a_diagonal_that_is_there_already_is_refused() {
    let mut dcel = DCEL::create_from_point_list(&unit_square()).unwrap();
    assert_eq!(dcel.split_face(1, 5), Ok((8, 9, 2)));
    // The half-edges 6 and 2 of the outer face start at the vertices 0 and
    // 2, which the diagonal joins by now.
    assert_eq!(dcel.half_edge(6).origin, Some(0));
    assert_eq!(dcel.half_edge(2).origin, Some(2));
    assert_eq!(dcel.split_face(6, 2), Err(GeometryError::InvalidSplit));
    assert_eq!(dcel.split_face(2, 6), Err(GeometryError::InvalidSplit));
    // The other diagonal of the square can be drawn through the outer face.
    assert_eq!(dcel.split_face(0, 4), Ok((10, 11, 3)));
    assert_eq!(dcel.verify(), Ok(true));
    assert_eq!(dcel.face_count(), 4);
}

#[test]
fn splitting_twice_gives_four_faces() {
    let points = vec![
        Point2D::new(0, 0),
        Point2D::new(4, 0),
        Point2D::new(6, 3),
        Point2D::new(4, 6),
        Point2D::new(0, 6),
        Point2D::new(-2, 3),
    ];
    let mut dcel = DCEL::create_from_point_list(&points).unwrap();
    assert_eq!(dcel.split_face(1, 7), Ok((12, 13, 2)));
    assert_eq!(dcel.verify(), Ok(true));
    // Face 1 keeps the half-edges 1, 3 and 5.
    assert_eq!(dcel.split_face(1, 5), Ok((14, 15, 3)));
    assert_eq!(dcel.verify(), Ok(true));
    assert_eq!(dcel.face_count(), 4);
    // Half-edges on different boundaries of what was one face.
    assert_eq!(dcel.split_face(9, 3), Err(GeometryError::InvalidSplit));
    let total: i128 = (1..4)
        .map(|face| dcel.get_polygon_area_inclusive(face).unwrap().doubled)
        .sum();
    assert_eq!(total, 72);
}

#[test]
fn unlinked_records_break_the_invariants() {
    let mut dcel = DCEL::create_empty();
    assert_eq!(dcel.verify(), Ok(true));
    assert_eq!(dcel.create_face(), 0);
    assert_eq!(dcel.verify(), Ok(true));
    assert_eq!(dcel.create_vertex(Point2D::new(1, 2)), 0);
    assert_eq!(
        dcel.verify(),
        Err(GeometryError::StructuralViolation(Violation::MissingIncidentEdge { vertex: 0 }))
    );
    assert_eq!(dcel.create_twin_edges(), (0, 1));
    assert_eq!(
        dcel.half_edge(1),
        HalfEdge { origin: None, twin: Some(0), next: None, prev: None, incident_face: None }
    );
    // Half-edges are looked at before vertices.
    assert_eq!(
        dcel.verify(),
        Err(GeometryError::StructuralViolation(Violation::MissingNext { edge: 0 }))
    );
}

#[test]
fn faces_without_boundary_can_be_asked_while_records_are_unlinked() {
    let mut dcel = DCEL::create_empty();
    assert_eq!(dcel.create_face(), 0);
    assert_eq!(dcel.create_vertex(Point2D::new(1, 2)), 0);
    assert_eq!(dcel.create_twin_edges(), (0, 1));
    assert_eq!(dcel.get_polygon_points_from_face(0), Err(GeometryError::MissingBoundary));
    assert_eq!(dcel.get_polygon_area_inclusive(0), Err(GeometryError::MissingBoundary));
    assert!(dcel.get_polygons().is_empty());
    // A walk over a half-edge without successor stays where it is.
    let mut walk = PolygonIterator::new(1);
    assert_eq!(walk.next(&dcel), Some(1));
    assert_eq!(walk.next(&dcel), None);
}

#[test]
fn clean_forgets_all_references() {
    let dcel = DCEL::create_from_point_list(&unit_square()).unwrap();
    let mut record = dcel.half_edge(3);
    record.clean();
    assert_eq!(
        record,
        HalfEdge { origin: None, twin: None, next: None, prev: None, incident_face: None }
    );
}

#[test]
fn a_walk_goes_once_around_the_boundary() {
    let dcel = DCEL::create_from_point_list(&unit_square()).unwrap();
    let mut walk = PolygonIterator::new(3);
    let mut met = Vec::new();
    while let Some(edge) = walk.next(&dcel) {
        met.push(edge);
    }
    assert_eq!(met, vec![3, 5, 7, 1]);
    assert_eq!(walk.next(&dcel), None);
    // The outer boundary runs the other way.
    let mut walk = PolygonIterator::new(0);
    let mut met = Vec::new();
    while let Some(edge) = walk.next(&dcel) {
        met.push(edge);
    }
    assert_eq!(met, vec![0, 6, 4, 2]);
}
