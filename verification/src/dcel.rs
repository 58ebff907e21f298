//! A doubly connected edge list: vertices, half-edges and faces of a planar
//! subdivision, kept in three arenas and referring to each other by index.
//! Records are only ever added, so an index stays valid for good.

use crate::algorithms::polygon_area::wrap_next;
use crate::algorithms::polygon_area::{doubled_unsigned_area, shoelace, Area};
use crate::dcel_model::{
    lemma_boundary_is_one_period, lemma_consistent_iff_no_violation, lemma_edge_violation_from,
    lemma_face_change_keeps_chained, lemma_linked_is_chained, lemma_uniform_consistent,
    lemma_period_exists, lemma_period_of, lemma_same_next_same_boundary,
    FaceModel, HalfEdge, Subdivision, Vertex,
};
use crate::dcel_split::{
    can_divide, divided_half_edge, divides, lemma_divide_keeps_consistent,
    lemma_divide_keeps_uniform, lemma_divide_setting,
    lemma_old_part_closed, lemma_relinked_chained, moved_component, relinked, relinked_half_edge,
    second_new,
};
use crate::error::{GeometryError, Violation};
use crate::primitives2d::Point2D;
use vstd::prelude::*;

verus! {

/// A face record.
pub struct Face {
    /// A half-edge of the outer boundary; absent for the unbounded face.
    pub outer_component: Option<usize>,
    /// One half-edge of the boundary of each hole.
    pub inner_component: Vec<usize>,
}

impl View for Face {
    type V = FaceModel;

    open spec fn view(&self) -> FaceModel {
        FaceModel {
            outer_component: self.outer_component,
            inner_component: self.inner_component@,
        }
    }
}

/// Doubly connected edge list.
pub struct DCEL {
    vertices: Vec<Vertex>,
    faces: Vec<Face>,
    half_edges: Vec<HalfEdge>,
}

impl View for DCEL {
    type V = Subdivision;

    closed spec fn view(&self) -> Subdivision {
        Subdivision {
            vertices: self.vertices@,
            half_edges: self.half_edges@,
            faces: Seq::new(self.faces@.len(), |f: int| self.faces@[f]@),
        }
    }
}

/// The index that precedes `i` on a closed polygon of `n` vertices.
pub open spec fn wrap_prev(i: int, n: int) -> int {
    if i == 0 {
        n - 1
    } else {
        i - 1
    }
}

/// Half-edge `e` of the subdivision built from a polygon of `n` vertices.
/// Polygon edge `i`, from vertex `i` to the vertex after it, gives the pair
/// `2 * i` and `2 * i + 1`. The odd one is incident to the inner face 1 and
/// runs with the polygon; the even one is incident to the outer face 0 and
/// runs against it.
pub open spec fn polygon_half_edge(n: int, e: int) -> HalfEdge {
    let i = e / 2;
    if e % 2 == 0 {
        HalfEdge {
            origin: Some(wrap_next(i, n) as usize),
            twin: Some((e + 1) as usize),
            next: Some((2 * wrap_prev(i, n)) as usize),
            prev: Some((2 * wrap_next(i, n)) as usize),
            incident_face: Some(0),
        }
    } else {
        HalfEdge {
            origin: Some(i as usize),
            twin: Some((e - 1) as usize),
            next: Some((2 * wrap_next(i, n) + 1) as usize),
            prev: Some((2 * wrap_prev(i, n) + 1) as usize),
            incident_face: Some(1),
        }
    }
}

/// Vertex `i` of the subdivision built from the polygon `points`.
pub open spec fn polygon_vertex(points: Seq<Point2D>, i: int) -> Vertex {
    Vertex { coordinate: points[i], incident_edge: Some((2 * i + 1) as usize) }
}

/// The subdivision built from the polygon `points`: one vertex per point,
/// one pair of half-edges per polygon edge, the unbounded face 0 with the
/// polygon as its only hole and the bounded face 1 inside the polygon.
pub open spec fn polygon_subdivision(points: Seq<Point2D>) -> Subdivision {
    Subdivision {
        vertices: Seq::new(points.len(), |i: int| polygon_vertex(points, i)),
        half_edges: Seq::new(2 * points.len(), |e: int| polygon_half_edge(points.len() as int, e)),
        faces: seq![
            FaceModel { outer_component: None, inner_component: seq![0usize] },
            FaceModel { outer_component: Some(1usize), inner_component: Seq::empty() },
        ],
    }
}

/// The two half-edges of polygon edge `i` keep their invariants.
proof fn lemma_polygon_edge_pair(points: Seq<Point2D>, i: int)
    requires
        1 <= points.len() <= usize::MAX / 2,
        0 <= i < points.len(),
    ensures
        polygon_subdivision(points).edge_in_bounds(2 * i),
        polygon_subdivision(points).edge_in_bounds(2 * i + 1),
        polygon_subdivision(points).edge_violation(2 * i) is None,
        polygon_subdivision(points).edge_violation(2 * i + 1) is None,
        polygon_subdivision(points).keeps_face(2 * i),
        polygon_subdivision(points).keeps_face(2 * i + 1),
{
    let m = polygon_subdivision(points);
    let n = points.len() as int;
    let a = wrap_next(i, n);
    let b = wrap_prev(i, n);
    assert(wrap_prev(a, n) == i && wrap_next(b, n) == i);
    assert((2 * i) / 2 == i && (2 * i) % 2 == 0);
    assert((2 * i + 1) / 2 == i && (2 * i + 1) % 2 == 1);
    assert((2 * a) / 2 == a && (2 * a) % 2 == 0);
    assert((2 * a + 1) / 2 == a && (2 * a + 1) % 2 == 1);
    assert((2 * b) / 2 == b && (2 * b) % 2 == 0);
    assert((2 * b + 1) / 2 == b && (2 * b + 1) % 2 == 1);
    assert(m.half_edges[2 * i] == polygon_half_edge(n, 2 * i));
    assert(m.half_edges[2 * i + 1] == polygon_half_edge(n, 2 * i + 1));
    assert(m.half_edges[2 * a] == polygon_half_edge(n, 2 * a));
    assert(m.half_edges[2 * a + 1] == polygon_half_edge(n, 2 * a + 1));
    assert(m.half_edges[2 * b] == polygon_half_edge(n, 2 * b));
    assert(m.half_edges[2 * b + 1] == polygon_half_edge(n, 2 * b + 1));
}

/// The subdivision built from a polygon keeps every invariant.
pub proof fn lemma_polygon_subdivision_consistent(points: Seq<Point2D>)
    requires
        1 <= points.len() <= usize::MAX / 2,
    ensures
        polygon_subdivision(points).consistent(),
        polygon_subdivision(points).uniform(),
{
    let m = polygon_subdivision(points);
    let n = points.len() as int;
    assert forall|e: int| 0 <= e < m.half_edges.len() implies #[trigger] m.edge_in_bounds(e) by {
        let i = e / 2;
        assert(e == 2 * i || e == 2 * i + 1);
        lemma_polygon_edge_pair(points, i);
    }
    assert forall|e: int| 0 <= e < m.half_edges.len() implies (#[trigger] m.edge_violation(
        e,
    )) is None by {
        let i = e / 2;
        assert(e == 2 * i || e == 2 * i + 1);
        lemma_polygon_edge_pair(points, i);
    }
    assert forall|v: int| 0 <= v < m.vertices.len() implies (#[trigger] m.vertex_violation(
        v,
    )) is None by {
        assert((2 * v + 1) / 2 == v && (2 * v + 1) % 2 == 1);
        assert(m.half_edges[2 * v + 1] == polygon_half_edge(n, 2 * v + 1));
    }
    assert(m.half_edges[0] == polygon_half_edge(n, 0));
    assert(m.half_edges[1] == polygon_half_edge(n, 1));
    assert forall|f: int| 0 <= f < m.faces.len() implies #[trigger] m.face_in_bounds(f) by {
        if f == 0 {
            assert(m.faces[0].inner_component[0] == 0);
        }
    }
    assert forall|f: int| 0 <= f < m.faces.len() implies #[trigger] m.names_its_own(f) by {
        if f == 0 {
            assert(m.faces[0].inner_component[0] == 0);
        }
    }
    assert forall|e: int| 0 <= e < m.half_edges.len() implies #[trigger] m.keeps_face(e) by {
        let i = e / 2;
        assert(e == 2 * i || e == 2 * i + 1);
        lemma_polygon_edge_pair(points, i);
    }
    assert(m.wf());
    assert(m.linked());
    lemma_uniform_consistent(m);
}

/// In the subdivision built from a polygon, `k` steps from the first
/// half-edge of the bounded face lead to the inner half-edge of polygon edge
/// `k`, and back to the first after as many steps as the polygon has
/// vertices.
proof fn lemma_polygon_inner_walk(points: Seq<Point2D>, k: nat)
    requires
        1 <= points.len() <= usize::MAX / 2,
        k <= points.len(),
    ensures
        polygon_subdivision(points).walk(1, k) == if k == points.len() {
            1
        } else {
            2 * k + 1
        },
    decreases k,
{
    let m = polygon_subdivision(points);
    let n = points.len() as int;
    if k > 0 {
        lemma_polygon_inner_walk(points, (k - 1) as nat);
        let e = 2 * (k - 1) + 1;
        assert(m.walk(1, (k - 1) as nat) == e);
        assert(e / 2 == k - 1 && e % 2 == 1);
        assert(m.half_edges[e] == polygon_half_edge(n, e));
        assert(m.walk(1, k) == m.next_of(e));
    }
}

/// In the subdivision built from a polygon the boundary of the bounded face
/// is the polygon.
pub proof fn lemma_polygon_is_boundary(points: Seq<Point2D>)
    requires
        1 <= points.len() <= usize::MAX / 2,
    ensures
        polygon_subdivision(points).faces[1].outer_component == Some(1usize),
        polygon_subdivision(points).boundary_points(1) == points,
{
    let m = polygon_subdivision(points);
    let n = points.len();
    lemma_polygon_inner_walk(points, n);
    assert forall|j: nat| 1 <= j < n implies #[trigger] m.walk(1, j) != 1 by {
        lemma_polygon_inner_walk(points, j);
    }
    assert(m.period(1, n));
    lemma_period_of(m, 1, n);
    assert forall|k: int| 0 <= k < n implies #[trigger] m.boundary_points(1)[k] == points[k] by {
        lemma_polygon_inner_walk(points, k as nat);
        let e = 2 * k + 1;
        assert(e / 2 == k && e % 2 == 1);
        assert(m.half_edges[e] == polygon_half_edge(n as int, e));
        assert(m.vertices[k] == polygon_vertex(points, k));
    }
    assert(m.boundary_points(1) =~= points);
}

impl HalfEdge {
    /// Forgets every reference the half-edge holds.
    pub fn clean(&mut self)
        ensures
            *final(self) == (HalfEdge {
                origin: None,
                twin: None,
                next: None,
                prev: None,
                incident_face: None,
            }),
    {
        self.origin = None;
        self.twin = None;
        self.next = None;
        self.prev = None;
        self.incident_face = None;
    }
}

impl DCEL {
    /// Creates a subdivision without any record.
    pub fn create_empty() -> (d: Self)
        ensures
            d@.vertices.len() == 0,
            d@.half_edges.len() == 0,
            d@.faces.len() == 0,
            d@.consistent(),
            d@.uniform(),
    {
        DCEL { vertices: Vec::new(), faces: Vec::new(), half_edges: Vec::new() }
    }

    /// Returns the number of vertices.
    pub fn vertex_count(&self) -> (n: usize)
        ensures
            n == self@.vertices.len(),
    {
        self.vertices.len()
    }

    /// Returns the number of half-edges.
    pub fn half_edge_count(&self) -> (n: usize)
        ensures
            n == self@.half_edges.len(),
    {
        self.half_edges.len()
    }

    /// Returns the number of faces.
    pub fn face_count(&self) -> (n: usize)
        ensures
            n == self@.faces.len(),
    {
        self.faces.len()
    }

    /// Returns the record of vertex `v`.
    pub fn vertex(&self, v: usize) -> (r: Vertex)
        requires
            v < self@.vertices.len(),
        ensures
            r == self@.vertices[v as int],
    {
        self.vertices[v]
    }

    /// Returns the record of half-edge `e`.
    pub fn half_edge(&self, e: usize) -> (r: HalfEdge)
        requires
            e < self@.half_edges.len(),
        ensures
            r == self@.half_edges[e as int],
    {
        self.half_edges[e]
    }

    /// Returns the record of face `f`.
    pub fn face(&self, f: usize) -> (r: &Face)
        requires
            f < self@.faces.len(),
        ensures
            r@ == self@.faces[f as int],
    {
        &self.faces[f]
    }

    /// Adds a vertex at `point`, not yet tied to any half-edge, and returns
    /// its index.
    pub fn create_vertex(&mut self, point: Point2D) -> (v: usize)
        ensures
            v == old(self)@.vertices.len(),
            final(self)@.vertices == old(self)@.vertices.push(
                Vertex { coordinate: point, incident_edge: None },
            ),
            final(self)@.half_edges == old(self)@.half_edges,
            final(self)@.faces == old(self)@.faces,
    {
        let index: usize = self.vertices.len();
        self.vertices.push(Vertex { coordinate: point, incident_edge: None });
        assert(self@.faces =~= old(self)@.faces);
        index
    }

    /// Adds a face without any boundary and returns its index.
    pub fn create_face(&mut self) -> (f: usize)
        ensures
            f == old(self)@.faces.len(),
            final(self)@.faces == old(self)@.faces.push(
                FaceModel { outer_component: None, inner_component: Seq::empty() },
            ),
            final(self)@.vertices == old(self)@.vertices,
            final(self)@.half_edges == old(self)@.half_edges,
    {
        let index: usize = self.faces.len();
        self.faces.push(Face { outer_component: None, inner_component: Vec::new() });
        assert(self@.faces =~= old(self)@.faces.push(
            FaceModel { outer_component: None, inner_component: Seq::empty() },
        ));
        index
    }

    /// Adds two half-edges that are twins of each other and hold no other
    /// reference yet, and returns their indices.
    pub fn create_twin_edges(&mut self) -> (pair: (usize, usize))
        ensures
            pair.0 == old(self)@.half_edges.len(),
            pair.1 == old(self)@.half_edges.len() + 1,
            final(self)@.half_edges == old(self)@.half_edges.push(
                HalfEdge {
                    origin: None,
                    twin: Some(pair.1),
                    next: None,
                    prev: None,
                    incident_face: None,
                },
            ).push(
                HalfEdge {
                    origin: None,
                    twin: Some(pair.0),
                    next: None,
                    prev: None,
                    incident_face: None,
                },
            ),
            final(self)@.vertices == old(self)@.vertices,
            final(self)@.faces == old(self)@.faces,
    {
        let first: usize = self.half_edges.len();
        self.half_edges.push(
            HalfEdge { origin: None, twin: None, next: None, prev: None, incident_face: None },
        );
        let second: usize = self.half_edges.len();
        self.half_edges.push(
            HalfEdge { origin: None, twin: Some(first), next: None, prev: None, incident_face: None },
        );
        self.half_edges.set(
            first,
            HalfEdge { origin: None, twin: Some(second), next: None, prev: None, incident_face: None },
        );
        assert(self@.faces =~= old(self)@.faces);
        assert(self@.half_edges =~= old(self)@.half_edges.push(
            HalfEdge {
                origin: None,
                twin: Some(second),
                next: None,
                prev: None,
                incident_face: None,
            },
        ).push(
            HalfEdge { origin: None, twin: Some(first), next: None, prev: None, incident_face: None },
        ));
        (first, second)
    }

    /// Makes `edge` the outer boundary half-edge of face `f`, or leaves the
    /// face without one.
    fn set_outer_component(&mut self, f: usize, edge: Option<usize>)
        requires
            f < old(self)@.faces.len(),
        ensures
            final(self)@.faces == old(self)@.faces.update(
                f as int,
                FaceModel {
                    outer_component: edge,
                    inner_component: old(self)@.faces[f as int].inner_component,
                },
            ),
            final(self)@.vertices == old(self)@.vertices,
            final(self)@.half_edges == old(self)@.half_edges,
    {
        assert(self.faces@.len() == self@.faces.len());
        assert(self@.faces[f as int] == self.faces@[f as int]@);
        self.faces[f].outer_component = edge;
        assert(self@.faces =~= old(self)@.faces.update(
            f as int,
            FaceModel {
                outer_component: edge,
                inner_component: old(self)@.faces[f as int].inner_component,
            },
        ));
    }

    /// Adds `edge` to the boundary half-edges of the holes of face `f`.
    fn add_inner_component(&mut self, f: usize, edge: usize)
        requires
            f < old(self)@.faces.len(),
        ensures
            final(self)@.faces == old(self)@.faces.update(
                f as int,
                FaceModel {
                    outer_component: old(self)@.faces[f as int].outer_component,
                    inner_component: old(self)@.faces[f as int].inner_component.push(edge),
                },
            ),
            final(self)@.vertices == old(self)@.vertices,
            final(self)@.half_edges == old(self)@.half_edges,
    {
        assert(self.faces@.len() == self@.faces.len());
        assert(self@.faces[f as int] == self.faces@[f as int]@);
        self.faces[f].inner_component.push(edge);
        assert(self@.faces =~= old(self)@.faces.update(
            f as int,
            FaceModel {
                outer_component: old(self)@.faces[f as int].outer_component,
                inner_component: old(self)@.faces[f as int].inner_component.push(edge),
            },
        ));
    }

    /// Builds the subdivision of the plane by the simple polygon whose
    /// vertices are `points` in order: the bounded face inside the polygon,
    /// whose boundary runs with the polygon, and the unbounded face around
    /// it, whose boundary runs against it. Fewer than three points make no
    /// polygon.
    pub fn create_from_point_list(points: &[Point2D]) -> (r: Result<DCEL, GeometryError>)
        ensures
            points@.len() < 3 ==> r == Err::<DCEL, GeometryError>(
                GeometryError::InsufficientPoints,
            ),
            points@.len() >= 3 ==> r is Ok && r->Ok_0@ == polygon_subdivision(points@)
                && r->Ok_0@.consistent() && r->Ok_0@.uniform() && r->Ok_0@.boundary_points(1)
                == points@,
    {
        let n: usize = points.len();
        if n < 3 {
            return Err(GeometryError::InsufficientPoints);
        }
        let mut dcel = DCEL::create_empty();
        let outer_face: usize = dcel.create_face();
        let inner_face: usize = dcel.create_face();
        dcel.add_inner_component(outer_face, 0);
        dcel.set_outer_component(inner_face, Some(1));
        proof {
            assert(dcel@.faces[0].inner_component =~= seq![0usize]);
            assert(dcel@.faces =~= polygon_subdivision(points@).faces);
        }
        // The records first, so that every index is known to exist.
        let mut i: usize = 0;
        while i < n
            invariant
                n == points@.len(),
                i <= n,
                dcel@.faces == polygon_subdivision(points@).faces,
                dcel@.vertices.len() == i,
                dcel@.half_edges.len() == 2 * i,
            decreases n - i,
        {
            dcel.create_vertex(points[i]);
            dcel.create_twin_edges();
            i = i + 1;
        }
        let created: usize = dcel.half_edges.len();
        assert(created == 2 * n);
        assert(n <= usize::MAX / 2);
        // Then what they hold.
        let mut i: usize = 0;
        while i < n
            invariant
                n == points@.len(),
                3 <= n <= usize::MAX / 2,
                i <= n,
                outer_face == 0,
                inner_face == 1,
                dcel@.faces == polygon_subdivision(points@).faces,
                dcel@.vertices.len() == n,
                dcel@.half_edges.len() == 2 * n,
                forall|j: int| 0 <= j < i ==> #[trigger] dcel@.vertices[j] == polygon_vertex(
                    points@,
                    j,
                ),
                forall|e: int|
                    0 <= e < 2 * i ==> #[trigger] dcel@.half_edges[e] == polygon_half_edge(
                        n as int,
                        e,
                    ),
            decreases n - i,
        {
            let after: usize = if i + 1 == n { 0 } else { i + 1 };
            let before: usize = if i == 0 { n - 1 } else { i - 1 };
            let out_edge: usize = 2 * i;
            let in_edge: usize = 2 * i + 1;
            dcel.vertices.set(i, Vertex { coordinate: points[i], incident_edge: Some(in_edge) });
            dcel.half_edges.set(
                out_edge,
                HalfEdge {
                    origin: Some(after),
                    twin: Some(in_edge),
                    next: Some(2 * before),
                    prev: Some(2 * after),
                    incident_face: Some(outer_face),
                },
            );
            dcel.half_edges.set(
                in_edge,
                HalfEdge {
                    origin: Some(i),
                    twin: Some(out_edge),
                    next: Some(2 * after + 1),
                    prev: Some(2 * before + 1),
                    incident_face: Some(inner_face),
                },
            );
            assert(dcel@.faces =~= polygon_subdivision(points@).faces);
            i = i + 1;
        }
        proof {
            assert(dcel@.vertices =~= polygon_subdivision(points@).vertices);
            assert(dcel@.half_edges =~= polygon_subdivision(points@).half_edges);
            lemma_polygon_subdivision_consistent(points@);
            lemma_polygon_is_boundary(points@);
        }
        Ok(dcel)
    }
}

/// Tells whether the reference `r` names index `e`.
fn refers_to(r: Option<usize>, e: usize) -> (b: bool)
    ensures
        b == (r == Some(e)),
{
    match r {
        Some(x) => x == e,
        None => false,
    }
}

/// Tells whether two references name the same index or are both absent.
fn same_reference(a: Option<usize>, b: Option<usize>) -> (r: bool)
    ensures
        r == (a == b),
{
    match a {
        Some(x) => refers_to(b, x),
        None => b.is_none(),
    }
}

impl DCEL {
    /// Returns the first invariant that half-edge `e` breaks, if any.
    fn check_half_edge(&self, e: usize) -> (r: Option<Violation>)
        requires
            self@.wf(),
            e < self@.half_edges.len(),
        ensures
            r == self@.edge_violation(e as int),
    {
        proof {
            assert(self@.edge_in_bounds(e as int));
        }
        let h: HalfEdge = self.half_edges[e];
        let twin: usize = match h.twin {
            Some(t) => t,
            None => { return Some(Violation::MissingTwin { edge: e }); },
        };
        if !refers_to(self.half_edges[twin].twin, e) {
            return Some(Violation::TwinMismatch { edge: e, twin });
        }
        let next: usize = match h.next {
            Some(n) => n,
            None => { return Some(Violation::MissingNext { edge: e }); },
        };
        if !refers_to(self.half_edges[next].prev, e) {
            return Some(Violation::NextMismatch { edge: e, next });
        }
        let prev: usize = match h.prev {
            Some(p) => p,
            None => { return Some(Violation::MissingPrev { edge: e }); },
        };
        if !refers_to(self.half_edges[prev].next, e) {
            return Some(Violation::PrevMismatch { edge: e, prev });
        }
        if h.origin.is_none() {
            return Some(Violation::MissingOrigin { edge: e });
        }
        if h.incident_face.is_none() {
            return Some(Violation::MissingFace { edge: e });
        }
        None
    }

    /// Returns the invariant that vertex `v` breaks, if any.
    fn check_vertex(&self, v: usize) -> (r: Option<Violation>)
        requires
            self@.wf(),
            v < self@.vertices.len(),
        ensures
            r == self@.vertex_violation(v as int),
    {
        match self.vertices[v].incident_edge {
            None => Some(Violation::MissingIncidentEdge { vertex: v }),
            Some(edge) => {
                proof {
                    assert(self@.edge_ref(self@.vertices[v as int].incident_edge));
                }
                if !refers_to(self.half_edges[edge].origin, v) {
                    Some(Violation::IncidentEdgeMismatch { vertex: v, edge })
                } else {
                    None
                }
            },
        }
    }

    /// Tells whether half-edge `edge` is incident to face `f`.
    fn is_incident(&self, edge: usize, f: usize) -> (r: bool)
        requires
            edge < self@.half_edges.len(),
        ensures
            r == self@.bounds_face(edge, f as int),
    {
        refers_to(self.half_edges[edge].incident_face, f)
    }

    /// Walks once around the boundary that starts at `start` and returns the
    /// first half-edge on it that is not incident to face `f`, as a
    /// violation, if there is one.
    fn check_boundary(&self, start: usize, f: usize) -> (r: Option<Violation>)
        requires
            self@.linked(),
            start < self@.half_edges.len(),
        ensures
            r == self@.boundary_violation(start as int, f as int),
    {
        proof {
            lemma_linked_is_chained(self@);
        }
        let ghost p = lemma_period_exists(self@, start as int);
        proof {
            lemma_period_of(self@, start as int, p);
        }
        let ghost mut k: nat = 0;
        let mut walk = PolygonIterator::new(start);
        loop
            invariant
                self@.chained(),
                start < self@.half_edges.len(),
                self@.period(start as int, p),
                self@.period_of(start as int) == p,
                walk.starting_edge == start,
                k <= p,
                walk.current_edge == self@.walk(start as int, k),
                walk.current_edge < self@.half_edges.len(),
                walk.finished == (k == p),
                self@.boundary_violation(start as int, f as int) == self@.boundary_violation_from(
                    start as int,
                    f as int,
                    k,
                ),
            ensures
                self@.boundary_violation(start as int, f as int) is None,
            decreases p - k,
        {
            match walk.next(self) {
                Some(edge) => {
                    assert(self@.walk(start as int, k + 1) == self@.next_of(
                        self@.walk(start as int, k),
                    ));
                    if !self.is_incident(edge, f) {
                        return Some(Violation::FaceMismatch { face: f, start, edge });
                    }
                    proof {
                        k = k + 1;
                    }
                },
                None => { break ; },
            }
        }
        None
    }

    /// Returns the first half-edge on a boundary of face `f` that is not
    /// incident to `f`, as a violation, if there is one.
    fn check_face(&self, f: usize) -> (r: Option<Violation>)
        requires
            self@.linked(),
            f < self@.faces.len(),
        ensures
            r == self@.face_violation(f as int),
    {
        proof {
            assert(self@.face_in_bounds(f as int));
            assert(self.faces@.len() == self@.faces.len());
            assert(self@.faces[f as int] == self.faces@[f as int]@);
        }
        let face: &Face = &self.faces[f];
        match face.outer_component {
            Some(edge) => {
                match self.check_boundary(edge, f) {
                    Some(found) => { return Some(found); },
                    None => {},
                }
            },
            None => {},
        }
        let holes: usize = face.inner_component.len();
        let mut j: usize = 0;
        while j < holes
            invariant
                self@.linked(),
                f < self@.faces.len(),
                self@.face_in_bounds(f as int),
                face@ == self@.faces[f as int],
                holes == face@.inner_component.len(),
                j <= holes,
                self@.face_violation(f as int) == self@.hole_violation_from(f as int, j as int),
            decreases holes - j,
        {
            let edge: usize = face.inner_component[j];
            assert(edge == self@.faces[f as int].inner_component[j as int]);
            match self.check_boundary(edge, f) {
                Some(found) => { return Some(found); },
                None => {},
            }
            j = j + 1;
        }
        None
    }

    /// Checks every invariant of the structure: those of the half-edges
    /// first, then those of the vertices, then those of the faces, each kind
    /// in index order. For a face every boundary that it names is walked
    /// once around. Succeeds if all hold, and fails with the first one that
    /// does not.
    pub fn verify(&self) -> (r: Result<bool, GeometryError>)
        requires
            self@.wf(),
        ensures
            r == match self@.first_violation() {
                None => Ok::<bool, GeometryError>(true),
                Some(v) => Err::<bool, GeometryError>(GeometryError::StructuralViolation(v)),
            },
            r is Ok <==> self@.consistent(),
    {
        proof {
            lemma_consistent_iff_no_violation(self@);
        }
        let edges: usize = self.half_edges.len();
        let mut e: usize = 0;
        while e < edges
            invariant
                self@.wf(),
                edges == self@.half_edges.len(),
                e <= edges,
                self@.edge_violation_from(0) == self@.edge_violation_from(e as int),
            decreases edges - e,
        {
            match self.check_half_edge(e) {
                Some(v) => { return Err(GeometryError::StructuralViolation(v)); },
                None => {},
            }
            e = e + 1;
        }
        proof {
            lemma_edge_violation_from(self@, 0);
            assert(self@.linked());
        }
        let vertices: usize = self.vertices.len();
        let mut v: usize = 0;
        while v < vertices
            invariant
                self@.wf(),
                vertices == self@.vertices.len(),
                v <= vertices,
                self@.edge_violation_from(0) is None,
                self@.vertex_violation_from(0) == self@.vertex_violation_from(v as int),
            decreases vertices - v,
        {
            match self.check_vertex(v) {
                Some(found) => { return Err(GeometryError::StructuralViolation(found)); },
                None => {},
            }
            v = v + 1;
        }
        let faces: usize = self.faces.len();
        let mut f: usize = 0;
        while f < faces
            invariant
                self@.linked(),
                faces == self@.faces.len(),
                f <= faces,
                self@.edge_violation_from(0) is None,
                self@.vertex_violation_from(0) is None,
                self@.face_violation_from(0) == self@.face_violation_from(f as int),
            decreases faces - f,
        {
            match self.check_face(f) {
                Some(found) => { return Err(GeometryError::StructuralViolation(found)); },
                None => {},
            }
            f = f + 1;
        }
        Ok(true)
    }
}

/// A walk once around the boundary that a half-edge lies on: it starts at
/// that half-edge, follows `next`, and ends when it is back at its start.
pub struct PolygonIterator {
    /// The half-edge the walk started at.
    pub starting_edge: usize,
    /// The half-edge that is handed out next.
    pub current_edge: usize,
    /// Whether the walk has come back to its start.
    pub finished: bool,
}

impl PolygonIterator {
    /// Starts a walk at `starting_edge`.
    pub fn new(starting_edge: usize) -> (it: Self)
        ensures
            it == (PolygonIterator { starting_edge, current_edge: starting_edge, finished: false }),
    {
        PolygonIterator { starting_edge, current_edge: starting_edge, finished: false }
    }

    /// Hands out the current half-edge and moves on to its successor, or
    /// returns `None` once the walk has come back to its start.
    pub fn next(&mut self, dcel: &DCEL) -> (r: Option<usize>)
        requires
            dcel@.wf(),
            old(self).current_edge < dcel@.half_edges.len(),
        ensures
            old(self).finished ==> r is None && *final(self) == *old(self),
            !old(self).finished ==> r == Some(old(self).current_edge) && final(self).starting_edge
                == old(self).starting_edge && final(self).current_edge == dcel@.next_of(
                old(self).current_edge as int,
            ) && final(self).finished == (final(self).current_edge == old(self).starting_edge),
            final(self).current_edge < dcel@.half_edges.len(),
    {
        if self.finished {
            return None;
        }
        let edge: usize = self.current_edge;
        proof {
            assert(dcel@.edge_in_bounds(edge as int));
        }
        match dcel.half_edges[edge].next {
            Some(n) => { self.current_edge = n; },
            None => {},
        }
        self.finished = self.current_edge == self.starting_edge;
        Some(edge)
    }
}

impl DCEL {
    /// Returns the point at which half-edge `e` starts.
    fn origin_of(&self, e: usize) -> (p: Point2D)
        requires
            self@.linked(),
            e < self@.half_edges.len(),
        ensures
            p == self@.origin_point(e as int),
    {
        proof {
            assert(self@.edge_in_bounds(e as int));
            assert(self@.edge_violation(e as int) is None);
        }
        match self.half_edges[e].origin {
            Some(v) => self.vertices[v].coordinate,
            None => Point2D { x: 0, y: 0 },
        }
    }

    /// Returns the origins of the half-edges on the boundary that `start`
    /// lies on, in order, that of `start` first.
    fn boundary_from(&self, start: usize) -> (points: Vec<Point2D>)
        requires
            self@.linked(),
            start < self@.half_edges.len(),
        ensures
            points@ == self@.boundary_points(start as int),
            self@.period(start as int, points@.len()),
    {
        proof {
            lemma_linked_is_chained(self@);
        }
        let ghost p = lemma_period_exists(self@, start as int);
        proof {
            lemma_period_of(self@, start as int, p);
        }
        let mut point_list: Vec<Point2D> = Vec::new();
        let mut walk = PolygonIterator::new(start);
        loop
            invariant
                self@.linked(),
                self@.chained(),
                start < self@.half_edges.len(),
                self@.period(start as int, p),
                walk.starting_edge == start,
                point_list@.len() <= p,
                walk.current_edge == self@.walk(start as int, point_list@.len()),
                walk.current_edge < self@.half_edges.len(),
                walk.finished == (point_list@.len() == p),
                forall|k: int|
                    0 <= k < point_list@.len() ==> point_list@[k] == self@.origin_point(
                        self@.walk(start as int, k as nat),
                    ),
            ensures
                point_list@.len() == p,
                forall|k: int|
                    0 <= k < point_list@.len() ==> point_list@[k] == self@.origin_point(
                        self@.walk(start as int, k as nat),
                    ),
            decreases p - point_list@.len(),
        {
            let ghost k = point_list@.len();
            match walk.next(self) {
                Some(edge) => {
                    assert(self@.walk(start as int, k + 1) == self@.next_of(
                        self@.walk(start as int, k),
                    ));
                    let point: Point2D = self.origin_of(edge);
                    point_list.push(point);
                },
                None => { break ; },
            }
        }
        assert(point_list@ =~= self@.boundary_points(start as int));
        point_list
    }

    /// Returns the points of the outer boundary of face `face`, in boundary
    /// order, starting at the origin of the face's outer boundary half-edge.
    /// A face without outer boundary has no such polygon.
    pub fn get_polygon_points_from_face(&self, face: usize) -> (r: Result<
        Vec<Point2D>,
        GeometryError,
    >)
        requires
            self@.wf(),
            face < self@.faces.len(),
            self@.faces[face as int].outer_component is Some ==> self@.linked(),
        ensures
            match self@.faces[face as int].outer_component {
                None => r == Err::<Vec<Point2D>, GeometryError>(GeometryError::MissingBoundary),
                Some(start) => r is Ok && r->Ok_0@ == self@.boundary_points(start as int),
            },
    {
        proof {
            assert(self@.face_in_bounds(face as int));
            assert(self.faces@.len() == self@.faces.len());
            assert(self@.faces[face as int] == self.faces@[face as int]@);
        }
        match self.faces[face].outer_component {
            None => Err(GeometryError::MissingBoundary),
            Some(start) => Ok(self.boundary_from(start)),
        }
    }

    /// Returns the area enclosed by the outer boundary of face `face`, holes
    /// included. A face without outer boundary has no such area, and neither
    /// has one whose boundary has fewer than three half-edges.
    pub fn get_polygon_area_inclusive(&self, face: usize) -> (r: Result<Area, GeometryError>)
        requires
            self@.wf(),
            face < self@.faces.len(),
            self@.faces[face as int].outer_component is Some ==> self@.linked(),
        ensures
            match self@.faces[face as int].outer_component {
                None => r == Err::<Area, GeometryError>(GeometryError::MissingBoundary),
                Some(start) => if self@.boundary_points(start as int).len() < 3 {
                    r == Err::<Area, GeometryError>(GeometryError::DegeneratePolygon)
                } else {
                    r is Ok && r->Ok_0.doubled == doubled_unsigned_area(
                        self@.boundary_points(start as int),
                    )
                },
            },
    {
        match self.get_polygon_points_from_face(face) {
            Err(e) => Err(e),
            Ok(points) => shoelace(points.as_slice()),
        }
    }

    /// Returns the outer boundaries of all faces that have one, in the order
    /// of the faces.
    pub fn get_polygons(&self) -> (polygons: Vec<Vec<Point2D>>)
        requires
            self@.wf(),
            (exists|f: int|
                0 <= f < self@.faces.len() && (#[trigger] self@.faces[f]).outer_component is Some)
                ==> self@.linked(),
        ensures
            polygons@.len() == self@.polygons_upto(self@.faces.len()).len(),
            forall|i: int|
                0 <= i < polygons@.len() ==> (#[trigger] polygons@[i])@ == self@.polygons_upto(
                    self@.faces.len(),
                )[i],
    {
        let mut polygon_list: Vec<Vec<Point2D>> = Vec::new();
        let faces: usize = self.faces.len();
        let mut f: usize = 0;
        while f < faces
            invariant
                self@.wf(),
                (exists|f: int|
                    0 <= f < self@.faces.len() && (
                    #[trigger] self@.faces[f]).outer_component is Some) ==> self@.linked(),
                faces == self@.faces.len(),
                f <= faces,
                polygon_list@.len() == self@.polygons_upto(f as nat).len(),
                forall|i: int|
                    0 <= i < polygon_list@.len() ==> (#[trigger] polygon_list@[i])@
                        == self@.polygons_upto(f as nat)[i],
            decreases faces - f,
        {
            assert(self@.faces[f as int].outer_component is Some ==> self@.linked());
            match self.get_polygon_points_from_face(f) {
                Ok(points) => { polygon_list.push(points); },
                Err(_) => {},
            }
            f = f + 1;
        }
        polygon_list
    }
}

/// The record of half-edge `e` once every half-edge on the boundary of
/// `start` has been made incident to `face`.
pub open spec fn retargeted(m: Subdivision, start: int, face: usize, e: int) -> HalfEdge {
    HalfEdge {
        incident_face: if m.same_boundary(start, e) {
            Some(face)
        } else {
            m.half_edges[e].incident_face
        },
        ..m.half_edges[e]
    }
}

/// The record of half-edge `e` once the first `k` half-edges of the walk
/// from `start` have been made incident to `face`.
pub open spec fn retargeted_so_far(m: Subdivision, start: int, k: nat, face: usize, e: int)
    -> HalfEdge {
    HalfEdge {
        incident_face: if m.met_within(start, k, e) {
            Some(face)
        } else {
            m.half_edges[e].incident_face
        },
        ..m.half_edges[e]
    }
}

/// The boundary half-edge `s` of a face after those that have become
/// incident to `new_face` have given way to `replacement`.
pub open spec fn replaced_component(m: Subdivision, new_face: usize, replacement: usize, s: usize)
    -> usize {
    if m.bounds_face(s, new_face as int) {
        replacement
    } else {
        s
    }
}

/// Half-edge `e` runs from vertex `from` to vertex `to`: it starts at the
/// one and its twin at the other.
pub open spec fn runs_between(m: Subdivision, e: int, from: usize, to: usize) -> bool {
    &&& 0 <= e < m.half_edges.len()
    &&& m.half_edges[e].origin == Some(from)
    &&& m.half_edges[m.half_edges[e].twin->0 as int].origin == Some(to)
}

/// An edge joins the vertices `from` and `to` already.
pub open spec fn joined(m: Subdivision, from: usize, to: usize) -> bool {
    exists|e: int| #[trigger] runs_between(m, e, from, to)
}

/// In a linked structure an edge that joins `from` and `to` joins `to` and
/// `from`: its other half-edge runs the other way.
pub proof fn lemma_joined_symmetric(m: Subdivision, from: usize, to: usize)
    requires
        m.linked(),
        joined(m, from, to),
    ensures
        joined(m, to, from),
{
    let e = choose|e: int| #[trigger] runs_between(m, e, from, to);
    assert(m.edge_in_bounds(e));
    assert(m.edge_violation(e) is None);
    let t = m.half_edges[e].twin->0 as int;
    assert(runs_between(m, t, to, from));
}

/// A diagonal can be drawn between the origins of `a` and `b`: the two are
/// incident to one face and lie on one boundary, neither follows the other,
/// their origins are different vertices, and no edge joins those vertices
/// yet.
pub open spec fn splittable(m: Subdivision, a: int, b: int) -> bool {
    &&& a != b
    &&& m.half_edges[a].incident_face == m.half_edges[b].incident_face
    &&& m.same_boundary(a, b)
    &&& m.next_of(a) != b
    &&& m.next_of(b) != a
    &&& m.half_edges[a].origin != m.half_edges[b].origin
    &&& !joined(m, m.half_edges[a].origin->0, m.half_edges[b].origin->0)
}

impl DCEL {
    /// Makes `next` the successor of half-edge `e`.
    fn set_next(&mut self, e: usize, next: usize)
        requires
            e < old(self)@.half_edges.len(),
        ensures
            final(self)@.half_edges == old(self)@.half_edges.update(
                e as int,
                HalfEdge { next: Some(next), ..old(self)@.half_edges[e as int] },
            ),
            final(self)@.vertices == old(self)@.vertices,
            final(self)@.faces == old(self)@.faces,
    {
        self.half_edges[e].next = Some(next);
    }

    /// Makes `prev` the predecessor of half-edge `e`.
    fn set_prev(&mut self, e: usize, prev: usize)
        requires
            e < old(self)@.half_edges.len(),
        ensures
            final(self)@.half_edges == old(self)@.half_edges.update(
                e as int,
                HalfEdge { prev: Some(prev), ..old(self)@.half_edges[e as int] },
            ),
            final(self)@.vertices == old(self)@.vertices,
            final(self)@.faces == old(self)@.faces,
    {
        self.half_edges[e].prev = Some(prev);
    }

    /// Makes `origin` the origin of half-edge `e`.
    fn set_origin(&mut self, e: usize, origin: Option<usize>)
        requires
            e < old(self)@.half_edges.len(),
        ensures
            final(self)@.half_edges == old(self)@.half_edges.update(
                e as int,
                HalfEdge { origin, ..old(self)@.half_edges[e as int] },
            ),
            final(self)@.vertices == old(self)@.vertices,
            final(self)@.faces == old(self)@.faces,
    {
        self.half_edges[e].origin = origin;
    }

    /// Makes `face` the incident face of half-edge `e`.
    fn set_incident_face(&mut self, e: usize, face: Option<usize>)
        requires
            e < old(self)@.half_edges.len(),
        ensures
            final(self)@.half_edges == old(self)@.half_edges.update(
                e as int,
                HalfEdge { incident_face: face, ..old(self)@.half_edges[e as int] },
            ),
            final(self)@.vertices == old(self)@.vertices,
            final(self)@.faces == old(self)@.faces,
    {
        self.half_edges[e].incident_face = face;
    }

    /// Makes `edge` the boundary half-edge of hole `j` of face `f`.
    fn set_inner_component(&mut self, f: usize, j: usize, edge: usize)
        requires
            f < old(self)@.faces.len(),
            j < old(self)@.faces[f as int].inner_component.len(),
        ensures
            final(self)@.faces == old(self)@.faces.update(
                f as int,
                FaceModel {
                    outer_component: old(self)@.faces[f as int].outer_component,
                    inner_component: old(self)@.faces[f as int].inner_component.update(
                        j as int,
                        edge,
                    ),
                },
            ),
            final(self)@.vertices == old(self)@.vertices,
            final(self)@.half_edges == old(self)@.half_edges,
    {
        assert(self.faces@.len() == self@.faces.len());
        assert(self@.faces[f as int] == self.faces@[f as int]@);
        self.faces[f].inner_component[j] = edge;
        assert(self@.faces =~= old(self)@.faces.update(
            f as int,
            FaceModel {
                outer_component: old(self)@.faces[f as int].outer_component,
                inner_component: old(self)@.faces[f as int].inner_component.update(
                    j as int,
                    edge,
                ),
            },
        ));
    }

    /// Tells whether `target` lies on the boundary that `start` lies on.
    fn lies_on_boundary_of(&self, start: usize, target: usize) -> (r: bool)
        requires
            self@.chained(),
            start < self@.half_edges.len(),
        ensures
            r == self@.same_boundary(start as int, target as int),
    {
        let ghost p = lemma_period_exists(self@, start as int);
        let ghost mut k: nat = 0;
        let mut walk = PolygonIterator::new(start);
        loop
            invariant
                self@.chained(),
                start < self@.half_edges.len(),
                self@.period(start as int, p),
                walk.starting_edge == start,
                k <= p,
                walk.current_edge == self@.walk(start as int, k),
                walk.current_edge < self@.half_edges.len(),
                walk.finished == (k == p),
                !self@.met_within(start as int, k, target as int),
            ensures
                k == p,
                !self@.met_within(start as int, k, target as int),
            decreases p - k,
        {
            match walk.next(self) {
                Some(edge) => {
                    assert(self@.walk(start as int, k + 1) == self@.next_of(
                        self@.walk(start as int, k),
                    ));
                    if edge == target {
                        return true;
                    }
                    proof {
                        k = k + 1;
                    }
                },
                None => { break ; },
            }
        }
        proof {
            lemma_boundary_is_one_period(self@, start as int, p, target as int);
        }
        false
    }

    /// Makes every half-edge on the boundary that `start` lies on incident
    /// to `face`.
    fn retarget_boundary(&mut self, start: usize, face: usize)
        requires
            old(self)@.chained(),
            start < old(self)@.half_edges.len(),
            face < old(self)@.faces.len(),
        ensures
            final(self)@.vertices == old(self)@.vertices,
            final(self)@.faces == old(self)@.faces,
            final(self)@.half_edges.len() == old(self)@.half_edges.len(),
            forall|e: int|
                0 <= e < old(self)@.half_edges.len() ==> #[trigger] final(self)@.half_edges[e]
                    == retargeted(old(self)@, start as int, face, e),
    {
        let ghost m1 = self@;
        let ghost p = lemma_period_exists(m1, start as int);
        let ghost mut k: nat = 0;
        let mut walk = PolygonIterator::new(start);
        loop
            invariant
                m1.chained(),
                self@.chained(),
                start < m1.half_edges.len(),
                face < m1.faces.len(),
                m1.period(start as int, p),
                self@.vertices == m1.vertices,
                self@.faces == m1.faces,
                self@.half_edges.len() == m1.half_edges.len(),
                forall|e: int|
                    0 <= e < m1.half_edges.len() ==> #[trigger] self@.half_edges[e]
                        == retargeted_so_far(m1, start as int, k, face, e),
                walk.starting_edge == start,
                k <= p,
                walk.current_edge == m1.walk(start as int, k),
                walk.current_edge < m1.half_edges.len(),
                walk.finished == (k == p),
            ensures
                k == p,
                self@.vertices == m1.vertices,
                self@.faces == m1.faces,
                self@.half_edges.len() == m1.half_edges.len(),
                forall|e: int|
                    0 <= e < m1.half_edges.len() ==> #[trigger] self@.half_edges[e]
                        == retargeted_so_far(m1, start as int, k, face, e),
            decreases p - k,
        {
            let ghost before = self@;
            match walk.next(self) {
                Some(edge) => {
                    assert(before.half_edges[edge as int] == retargeted_so_far(
                        m1,
                        start as int,
                        k,
                        face,
                        edge as int,
                    ));
                    assert(m1.walk(start as int, k + 1) == m1.next_of(m1.walk(start as int, k)));
                    self.set_incident_face(edge, Some(face));
                    proof {
                        assert forall|e: int|
                            0 <= e < m1.half_edges.len() implies #[trigger] self@.half_edges[e]
                            == retargeted_so_far(m1, start as int, k + 1, face, e) by {
                            assert(before.half_edges[e] == retargeted_so_far(
                                m1,
                                start as int,
                                k,
                                face,
                                e,
                            ));
                        }
                        assert forall|e: int| 0 <= e < m1.half_edges.len() implies {
                            let h = m1.half_edges[e];
                            let h2 = #[trigger] self@.half_edges[e];
                            &&& h2.origin == h.origin
                            &&& h2.twin == h.twin
                            &&& h2.next == h.next
                            &&& h2.prev == h.prev
                            &&& (h2.incident_face matches Some(f) ==> f < m1.faces.len())
                        } by {
                            assert(m1.edge_in_bounds(e));
                            assert(self@.half_edges[e] == retargeted_so_far(
                                m1,
                                start as int,
                                k + 1,
                                face,
                                e,
                            ));
                        }
                        lemma_face_change_keeps_chained(m1, self@);
                        k = k + 1;
                    }
                },
                None => { break ; },
            }
        }
        proof {
            assert forall|e: int| 0 <= e < m1.half_edges.len() implies #[trigger] self@.half_edges[e]
                == retargeted(m1, start as int, face, e) by {
                lemma_boundary_is_one_period(m1, start as int, p, e);
                assert(self@.half_edges[e] == retargeted_so_far(m1, start as int, k, face, e));
            }
        }
    }

    /// Among the boundary half-edges of face `face`, replaces those that are
    /// incident to `new_face` by `replacement`.
    fn replace_moved_components(&mut self, face: usize, new_face: usize, replacement: usize)
        requires
            face < old(self)@.faces.len(),
            old(self)@.face_in_bounds(face as int),
        ensures
            final(self)@.vertices == old(self)@.vertices,
            final(self)@.half_edges == old(self)@.half_edges,
            final(self)@.faces.len() == old(self)@.faces.len(),
            forall|f: int|
                0 <= f < old(self)@.faces.len() && f != face ==> #[trigger] final(self)@.faces[f]
                    == old(self)@.faces[f],
            final(self)@.faces[face as int].outer_component == match old(
                self,
            )@.faces[face as int].outer_component {
                Some(s) => Some(replaced_component(old(self)@, new_face, replacement, s)),
                None => None,
            },
            final(self)@.faces[face as int].inner_component.len() == old(
                self,
            )@.faces[face as int].inner_component.len(),
            forall|j: int|
                0 <= j < old(self)@.faces[face as int].inner_component.len()
                    ==> #[trigger] final(self)@.faces[face as int].inner_component[j]
                    == replaced_component(
                    old(self)@,
                    new_face,
                    replacement,
                    old(self)@.faces[face as int].inner_component[j],
                ),
    {
        let ghost m = self@;
        proof {
            assert(self.faces@.len() == self@.faces.len());
            assert(self@.faces[face as int] == self.faces@[face as int]@);
        }
        match self.faces[face].outer_component {
            Some(s) => {
                if self.is_incident(s, new_face) {
                    self.set_outer_component(face, Some(replacement));
                }
            },
            None => {},
        }
        proof {
            assert(self.faces@.len() == self@.faces.len());
            assert(self@.faces[face as int] == self.faces@[face as int]@);
        }
        let holes: usize = self.faces[face].inner_component.len();
        let mut j: usize = 0;
        while j < holes
            invariant
                face < m.faces.len(),
                m.face_in_bounds(face as int),
                self@.vertices == m.vertices,
                self@.half_edges == m.half_edges,
                self@.faces.len() == m.faces.len(),
                forall|f: int|
                    0 <= f < m.faces.len() && f != face ==> #[trigger] self@.faces[f] == m.faces[f],
                self@.faces[face as int].outer_component == match m.faces[face as int].outer_component {
                    Some(s) => Some(replaced_component(m, new_face, replacement, s)),
                    None => None,
                },
                holes == m.faces[face as int].inner_component.len(),
                self@.faces[face as int].inner_component.len() == holes,
                j <= holes,
                forall|i: int|
                    0 <= i < j ==> #[trigger] self@.faces[face as int].inner_component[i]
                        == replaced_component(
                        m,
                        new_face,
                        replacement,
                        m.faces[face as int].inner_component[i],
                    ),
                forall|i: int|
                    j <= i < holes ==> #[trigger] self@.faces[face as int].inner_component[i]
                        == m.faces[face as int].inner_component[i],
            decreases holes - j,
        {
            proof {
                assert(self.faces@.len() == self@.faces.len());
                assert(self@.faces[face as int] == self.faces@[face as int]@);
            }
            let s: usize = self.faces[face].inner_component[j];
            assert(s == m.faces[face as int].inner_component[j as int]);
            if self.is_incident(s, new_face) {
                self.set_inner_component(face, j, replacement);
            }
            j = j + 1;
        }
    }
}

impl DCEL {
    /// Splits the face on whose boundary `half_edge1` and `half_edge2` lie
    /// by a diagonal from the origin of `half_edge1` to the origin of
    /// `half_edge2`. Two half-edges and a face are added. The first new
    /// half-edge precedes `half_edge1` and stays with the old face; the
    /// second precedes `half_edge2`, and its boundary becomes the outer
    /// boundary of the new face. Holes stay with the old face. Returns the
    /// indices of the two new half-edges and of the new face.
    ///
    /// Nothing is asked of the geometry: whether the diagonal crosses edges
    /// of the subdivision is for the caller to find out.
    pub fn unchecked_divide_face(&mut self, half_edge1: usize, half_edge2: usize) -> (r: (
        usize,
        usize,
        usize,
    ))
        requires
            can_divide(old(self)@, half_edge1 as int, half_edge2 as int),
        ensures
            divides(old(self)@, final(self)@, half_edge1 as int, half_edge2 as int),
            final(self)@.consistent(),
            old(self)@.uniform() ==> final(self)@.uniform(),
            final(self)@.faces.len() == old(self)@.faces.len() + 1,
            r.0 == old(self)@.half_edges.len(),
            r.1 == old(self)@.half_edges.len() + 1,
            r.2 == old(self)@.faces.len(),
    {
        let ghost m0 = self@;
        let ghost a = half_edge1 as int;
        let ghost b = half_edge2 as int;
        proof {
            lemma_divide_setting(m0, a, b);
        }
        let h1: HalfEdge = self.half_edges[half_edge1];
        let h2: HalfEdge = self.half_edges[half_edge2];
        let half_edge1_prev: usize = match h1.prev {
            Some(e) => e,
            None => half_edge1,
        };
        let half_edge2_prev: usize = match h2.prev {
            Some(e) => e,
            None => half_edge2,
        };
        let old_face: usize = match h1.incident_face {
            Some(f) => f,
            None => 0,
        };
        let (old_face_edge, new_face_edge) = self.create_twin_edges();
        let new_face: usize = self.create_face();
        let edges_now: usize = self.half_edges.len();
        let faces_now: usize = self.faces.len();
        proof {
            assert(self.faces@.len() == self@.faces.len());
            assert(edges_now == m0.half_edges.len() + 2);
            assert(faces_now == m0.faces.len() + 1);
        }
        self.set_outer_component(new_face, Some(new_face_edge));

        self.set_prev(half_edge1, old_face_edge);
        self.set_next(old_face_edge, half_edge1);

        self.set_prev(half_edge2, new_face_edge);
        self.set_next(new_face_edge, half_edge2);

        self.set_next(half_edge1_prev, new_face_edge);
        self.set_prev(new_face_edge, half_edge1_prev);

        self.set_next(half_edge2_prev, old_face_edge);
        self.set_prev(old_face_edge, half_edge2_prev);

        self.set_origin(old_face_edge, h2.origin);
        self.set_origin(new_face_edge, h1.origin);

        self.set_incident_face(old_face_edge, Some(old_face));
        self.set_incident_face(new_face_edge, Some(new_face));

        let ghost m1 = self@;
        proof {
            assert forall|e: int| 0 <= e < m0.half_edges.len() implies #[trigger] m1.half_edges[e]
                == relinked_half_edge(m0, a, b, e, m0.half_edges[e].incident_face) by {}
            assert forall|f: int| 0 <= f <= m0.faces.len() implies #[trigger] m1.face_in_bounds(
                f,
            ) by {
                if f < m0.faces.len() {
                    assert(m0.face_in_bounds(f));
                    assert(m1.faces[f] == m0.faces[f]);
                }
            }
            assert(relinked(m0, m1, a, b));
            lemma_relinked_chained(m0, m1, a, b);
            lemma_old_part_closed(m0, m1, a, b);
        }
        self.retarget_boundary(new_face_edge, new_face);
        let ghost m2 = self@;
        proof {
            assert(m2.faces[old_face as int] == m0.faces[old_face as int]);
            assert(m0.face_in_bounds(old_face as int));
            assert(m2.face_in_bounds(old_face as int));
        }
        self.replace_moved_components(old_face, new_face, old_face_edge);
        proof {
            let m = self@;
            let s2 = second_new(m0);
            assert(m1.walk(s2, 0) == s2);
            assert(m1.same_boundary(s2, s2));
            assert forall|e: int| 0 <= e < m1.half_edges.len() implies (
            #[trigger] m.half_edges[e]).next == m1.half_edges[e].next by {
                assert(m2.half_edges[e] == retargeted(m1, s2, new_face, e));
            }
            assert forall|e: int| 0 <= e < m0.half_edges.len() implies #[trigger] m.half_edges[e]
                == divided_half_edge(m0, m, a, b, e) by {
                assert(m2.half_edges[e] == retargeted(m1, s2, new_face, e));
                lemma_same_next_same_boundary(m1, m, s2, e);
                assert(m0.edge_in_bounds(e));
            }
            assert(m2.half_edges[m0.half_edges.len() as int] == retargeted(
                m1,
                s2,
                new_face,
                m0.half_edges.len() as int,
            ));
            assert(m2.half_edges[s2] == retargeted(m1, s2, new_face, s2));
            assert forall|s: usize| s < m0.half_edges.len() implies replaced_component(
                m2,
                new_face,
                old_face_edge,
                s,
            ) == #[trigger] moved_component(m0, m, s) by {
                assert(m2.half_edges[s as int] == retargeted(m1, s2, new_face, s as int));
                lemma_same_next_same_boundary(m1, m, s2, s as int);
                assert(m0.edge_in_bounds(s as int));
            }
            assert forall|j: int|
                0 <= j < m0.faces[old_face as int].inner_component.len()
                    implies #[trigger] m.faces[old_face as int].inner_component[j]
                == moved_component(m0, m, m0.faces[old_face as int].inner_component[j]) by {
                assert(m2.faces[old_face as int].inner_component[j]
                    == m0.faces[old_face as int].inner_component[j]);
            }
            assert forall|f: int|
                0 <= f < m0.faces.len() && f != old_face implies #[trigger] m.faces[f]
                == m0.faces[f] by {
                assert(m2.faces[f] == m0.faces[f]);
            }
            assert(divides(m0, m, a, b));
            lemma_divide_keeps_consistent(m0, m, a, b);
            if m0.uniform() {
                lemma_divide_keeps_uniform(m0, m, a, b);
            }
        }
        (old_face_edge, new_face_edge, new_face)
    }

    /// Tells whether some half-edge runs from vertex `from` to vertex `to`.
    fn has_edge_between(&self, from: usize, to: usize) -> (r: bool)
        requires
            self@.linked(),
        ensures
            r == joined(self@, from, to),
    {
        let edges: usize = self.half_edges.len();
        let mut e: usize = 0;
        while e < edges
            invariant
                self@.linked(),
                edges == self@.half_edges.len(),
                e <= edges,
                forall|i: int| 0 <= i < e ==> !#[trigger] runs_between(self@, i, from, to),
            decreases edges - e,
        {
            proof {
                assert(self@.edge_in_bounds(e as int));
                assert(self@.edge_violation(e as int) is None);
            }
            let h: HalfEdge = self.half_edges[e];
            let twin: usize = match h.twin {
                Some(t) => t,
                None => e,
            };
            if refers_to(h.origin, from) && refers_to(self.half_edges[twin].origin, to) {
                assert(runs_between(self@, e as int, from, to));
                return true;
            }
            e = e + 1;
        }
        false
    }

    /// Splits a face by a diagonal, as `unchecked_divide_face` does, after
    /// making sure that the diagonal can be drawn: the two half-edges have to
    /// be incident to one face, to lie on one boundary and not to follow each
    /// other, and their origins have to be different vertices that no edge
    /// joins yet. Otherwise the subdivision is left as it is.
    ///
    /// Nothing is asked of the geometry: whether the diagonal crosses edges
    /// of the subdivision is for the caller to find out.
    pub fn split_face(&mut self, edge_a: usize, edge_b: usize) -> (r: Result<
        (usize, usize, usize),
        GeometryError,
    >)
        requires
            old(self)@.consistent(),
            edge_a < old(self)@.half_edges.len(),
            edge_b < old(self)@.half_edges.len(),
        ensures
            splittable(old(self)@, edge_a as int, edge_b as int) ==> r is Ok && divides(
                old(self)@,
                final(self)@,
                edge_a as int,
                edge_b as int,
            ) && final(self)@.consistent() && (old(self)@.uniform() ==> final(self)@.uniform())
                && final(self)@.faces.len() == old(self)@.faces.len() + 1 && r->Ok_0 == (
                old(self)@.half_edges.len() as usize,
                (old(self)@.half_edges.len() + 1) as usize,
                old(self)@.faces.len() as usize,
            ),
            !splittable(old(self)@, edge_a as int, edge_b as int) ==> r == Err::<
                (usize, usize, usize),
                GeometryError,
            >(GeometryError::InvalidSplit) && final(self)@ == old(self)@,
    {
        proof {
            lemma_linked_is_chained(self@);
            assert(self@.edge_violation(edge_a as int) is None);
            assert(self@.edge_violation(edge_b as int) is None);
        }
        if edge_a == edge_b {
            return Err(GeometryError::InvalidSplit);
        }
        let ha: HalfEdge = self.half_edges[edge_a];
        let hb: HalfEdge = self.half_edges[edge_b];
        if !same_reference(ha.incident_face, hb.incident_face) {
            return Err(GeometryError::InvalidSplit);
        }
        if refers_to(ha.next, edge_b) || refers_to(hb.next, edge_a) {
            return Err(GeometryError::InvalidSplit);
        }
        let (from, to) = match (ha.origin, hb.origin) {
            (Some(from), Some(to)) => (from, to),
            _ => { return Err(GeometryError::InvalidSplit); },
        };
        if from == to || self.has_edge_between(from, to) {
            return Err(GeometryError::InvalidSplit);
        }
        if !self.lies_on_boundary_of(edge_a, edge_b) {
            return Err(GeometryError::InvalidSplit);
        }
        let created = self.unchecked_divide_face(edge_a, edge_b);
        Ok(created)
    }
}

} // verus!
