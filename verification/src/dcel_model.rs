//! The mathematical model of a doubly connected edge list and its invariants.

use crate::error::Violation;
use crate::primitives2d::Point2D;
use vstd::prelude::*;
use vstd::set_lib::{lemma_int_range, lemma_len_subset, set_int_range};

verus! {

/// A vertex record: a point and one half-edge that starts at it.
#[derive(Copy, Clone, Debug, PartialEq, Eq, Structural)]
pub struct Vertex {
    /// Where the vertex lies.
    pub coordinate: Point2D,
    /// A half-edge whose origin is this vertex.
    pub incident_edge: Option<usize>,
}

/// A half-edge record. Every reference is an index into the arena of the
/// kind it names.
#[derive(Copy, Clone, Debug, PartialEq, Eq, Structural)]
pub struct HalfEdge {
    /// The vertex the half-edge starts at.
    pub origin: Option<usize>,
    /// The half-edge of the same edge that runs the other way.
    pub twin: Option<usize>,
    /// The half-edge that follows on the boundary of the incident face.
    pub next: Option<usize>,
    /// The half-edge that precedes on the boundary of the incident face.
    pub prev: Option<usize>,
    /// The face to the left of the half-edge.
    pub incident_face: Option<usize>,
}

/// The model of a face record.
pub struct FaceModel {
    /// A half-edge of the outer boundary; absent for the unbounded face.
    pub outer_component: Option<usize>,
    /// One half-edge of the boundary of each hole.
    pub inner_component: Seq<usize>,
}

/// The model of a doubly connected edge list: its three arenas.
pub struct Subdivision {
    /// The vertex records by index.
    pub vertices: Seq<Vertex>,
    /// The half-edge records by index.
    pub half_edges: Seq<HalfEdge>,
    /// The face records by index.
    pub faces: Seq<FaceModel>,
}

impl Subdivision {
    /// An absent reference, or an index of a half-edge.
    pub open spec fn edge_ref(self, r: Option<usize>) -> bool {
        r matches Some(e) ==> e < self.half_edges.len()
    }

    /// Every reference held by half-edge `e` names an existing record.
    pub open spec fn edge_in_bounds(self, e: int) -> bool {
        let h = self.half_edges[e];
        &&& (h.origin matches Some(v) ==> v < self.vertices.len())
        &&& self.edge_ref(h.twin)
        &&& self.edge_ref(h.next)
        &&& self.edge_ref(h.prev)
        &&& (h.incident_face matches Some(f) ==> f < self.faces.len())
    }

    /// Every reference held by face `f` names an existing half-edge.
    pub open spec fn face_in_bounds(self, f: int) -> bool {
        let face = self.faces[f];
        &&& self.edge_ref(face.outer_component)
        &&& forall|j: int|
            0 <= j < face.inner_component.len() ==> #[trigger] face.inner_component[j]
                < self.half_edges.len()
    }

    /// Every reference in the structure names an existing record, and every
    /// record has an index that a reference can hold.
    pub open spec fn wf(self) -> bool {
        &&& self.vertices.len() <= usize::MAX
        &&& self.half_edges.len() <= usize::MAX
        &&& self.faces.len() <= usize::MAX
        &&& forall|e: int| 0 <= e < self.half_edges.len() ==> #[trigger] self.edge_in_bounds(e)
        &&& forall|v: int|
            0 <= v < self.vertices.len() ==> self.edge_ref(#[trigger] self.vertices[v].incident_edge)
        &&& forall|f: int| 0 <= f < self.faces.len() ==> #[trigger] self.face_in_bounds(f)
    }

    /// The first invariant that half-edge `e` breaks, if any. In order: it
    /// has a twin, which names it as twin; it has a successor, which names
    /// it as predecessor; it has a predecessor, which names it as successor;
    /// it has an origin; it has an incident face.
    pub open spec fn edge_violation(self, e: int) -> Option<Violation> {
        let h = self.half_edges[e];
        let edge = e as usize;
        if h.twin is None {
            Some(Violation::MissingTwin { edge })
        } else if self.half_edges[h.twin->0 as int].twin != Some(edge) {
            Some(Violation::TwinMismatch { edge, twin: h.twin->0 })
        } else if h.next is None {
            Some(Violation::MissingNext { edge })
        } else if self.half_edges[h.next->0 as int].prev != Some(edge) {
            Some(Violation::NextMismatch { edge, next: h.next->0 })
        } else if h.prev is None {
            Some(Violation::MissingPrev { edge })
        } else if self.half_edges[h.prev->0 as int].next != Some(edge) {
            Some(Violation::PrevMismatch { edge, prev: h.prev->0 })
        } else if h.origin is None {
            Some(Violation::MissingOrigin { edge })
        } else if h.incident_face is None {
            Some(Violation::MissingFace { edge })
        } else {
            None
        }
    }

    /// The successor of half-edge `e`, if it has one, is incident to the
    /// face that `e` is incident to.
    pub open spec fn keeps_face(self, e: int) -> bool {
        self.half_edges[e].next matches Some(n) ==> self.half_edges[n as int].incident_face
            == self.half_edges[e].incident_face
    }

    /// Following `next` never leads from one face to another, on the
    /// boundaries that faces name and on all other closed walks.
    pub open spec fn uniform(self) -> bool {
        forall|e: int| 0 <= e < self.half_edges.len() ==> #[trigger] self.keeps_face(e)
    }

    /// Every boundary half-edge that face `f` names is incident to `f`.
    pub open spec fn names_its_own(self, f: int) -> bool {
        &&& (self.faces[f].outer_component matches Some(s) ==> self.bounds_face(s, f))
        &&& forall|j: int|
            0 <= j < self.faces[f].inner_component.len() ==> self.bounds_face(
                #[trigger] self.faces[f].inner_component[j],
                f,
            )
    }

    /// The invariant that vertex `v` breaks, if any: it has an incident
    /// half-edge, which starts at it.
    pub open spec fn vertex_violation(self, v: int) -> Option<Violation> {
        let vertex = v as usize;
        match self.vertices[v].incident_edge {
            None => Some(Violation::MissingIncidentEdge { vertex }),
            Some(edge) => if self.half_edges[edge as int].origin != Some(vertex) {
                Some(Violation::IncidentEdgeMismatch { vertex, edge })
            } else {
                None
            },
        }
    }

    /// Half-edge `edge`, a boundary half-edge of face `f`, is incident to `f`.
    pub open spec fn bounds_face(self, edge: usize, f: int) -> bool {
        self.half_edges[edge as int].incident_face == Some(f as usize)
    }

    /// The first half-edge, from the `k`-th on, of the boundary that starts
    /// at `start` that is not incident to face `f`. The boundary is looked
    /// at once around.
    pub open spec fn boundary_violation_from(self, start: int, f: int, k: nat) -> Option<Violation>
        decreases self.period_of(start) - k,
    {
        if k >= self.period_of(start) {
            None
        } else if !self.bounds_face(self.walk(start, k) as usize, f) {
            Some(
                Violation::FaceMismatch {
                    face: f as usize,
                    start: start as usize,
                    edge: self.walk(start, k) as usize,
                },
            )
        } else {
            self.boundary_violation_from(start, f, k + 1)
        }
    }

    /// The first half-edge of the boundary that starts at `start` that is
    /// not incident to face `f`.
    pub open spec fn boundary_violation(self, start: int, f: int) -> Option<Violation> {
        self.boundary_violation_from(start, f, 0)
    }

    /// The first violation on the boundaries of the holes of face `f`, from
    /// the `j`-th hole on.
    pub open spec fn hole_violation_from(self, f: int, j: int) -> Option<Violation>
        decreases self.faces[f].inner_component.len() - j,
    {
        let holes = self.faces[f].inner_component;
        if j < 0 || j >= holes.len() {
            None
        } else if self.boundary_violation(holes[j] as int, f) is Some {
            self.boundary_violation(holes[j] as int, f)
        } else {
            self.hole_violation_from(f, j + 1)
        }
    }

    /// The first half-edge on a boundary of face `f` that is not incident to
    /// `f`: the outer boundary is walked first, then the boundaries of the
    /// holes in order.
    pub open spec fn face_violation(self, f: int) -> Option<Violation> {
        match self.faces[f].outer_component {
            Some(start) => if self.boundary_violation(start as int, f) is Some {
                self.boundary_violation(start as int, f)
            } else {
                self.hole_violation_from(f, 0)
            },
            None => self.hole_violation_from(f, 0),
        }
    }

    /// The first violation among the half-edges from index `e` on.
    pub open spec fn edge_violation_from(self, e: int) -> Option<Violation>
        decreases self.half_edges.len() - e,
    {
        if e < 0 || e >= self.half_edges.len() {
            None
        } else if self.edge_violation(e) is Some {
            self.edge_violation(e)
        } else {
            self.edge_violation_from(e + 1)
        }
    }

    /// The first violation among the vertices from index `v` on.
    pub open spec fn vertex_violation_from(self, v: int) -> Option<Violation>
        decreases self.vertices.len() - v,
    {
        if v < 0 || v >= self.vertices.len() {
            None
        } else if self.vertex_violation(v) is Some {
            self.vertex_violation(v)
        } else {
            self.vertex_violation_from(v + 1)
        }
    }

    /// The first violation among the faces from index `f` on.
    pub open spec fn face_violation_from(self, f: int) -> Option<Violation>
        decreases self.faces.len() - f,
    {
        if f < 0 || f >= self.faces.len() {
            None
        } else if self.face_violation(f) is Some {
            self.face_violation(f)
        } else {
            self.face_violation_from(f + 1)
        }
    }

    /// The first broken invariant of the structure: half-edges are looked
    /// at first, then vertices, then faces, each kind in index order.
    pub open spec fn first_violation(self) -> Option<Violation> {
        if self.edge_violation_from(0) is Some {
            self.edge_violation_from(0)
        } else if self.vertex_violation_from(0) is Some {
            self.vertex_violation_from(0)
        } else {
            self.face_violation_from(0)
        }
    }

    /// Half-edge `e` has a successor and a predecessor, which name it in
    /// turn as their predecessor and successor.
    pub open spec fn chained_at(self, e: int) -> bool {
        let h = self.half_edges[e];
        &&& h.next is Some
        &&& self.half_edges[h.next->0 as int].prev == Some(e as usize)
        &&& h.prev is Some
        &&& self.half_edges[h.prev->0 as int].next == Some(e as usize)
    }

    /// All references are in bounds, and `next` and `prev` are inverse to
    /// each other on all half-edges, so that following `next` walks around
    /// closed boundaries.
    pub open spec fn chained(self) -> bool {
        &&& self.wf()
        &&& forall|e: int| 0 <= e < self.half_edges.len() ==> #[trigger] self.chained_at(e)
    }

    /// Every half-edge keeps its invariants: twins name each other, `next`
    /// and `prev` are inverse to each other, origin and incident face are
    /// present.
    pub open spec fn linked(self) -> bool {
        &&& self.wf()
        &&& forall|e: int|
            0 <= e < self.half_edges.len() ==> (#[trigger] self.edge_violation(e)) is None
    }

    /// Every invariant holds: those of the half-edges; every vertex has an
    /// incident half-edge that starts at it; every half-edge on a boundary
    /// that a face names is incident to that face.
    pub open spec fn consistent(self) -> bool {
        &&& self.linked()
        &&& forall|v: int|
            0 <= v < self.vertices.len() ==> (#[trigger] self.vertex_violation(v)) is None
        &&& forall|f: int| 0 <= f < self.faces.len() ==> (#[trigger] self.face_violation(f)) is None
    }

    /// The half-edge that follows `e`; `e` itself where it has none.
    pub open spec fn next_of(self, e: int) -> int {
        match self.half_edges[e].next {
            Some(n) => n as int,
            None => e,
        }
    }

    /// The half-edge reached from `start` by following `next` `k` times.
    pub open spec fn walk(self, start: int, k: nat) -> int
        decreases k,
    {
        if k == 0 {
            start
        } else {
            self.next_of(self.walk(start, (k - 1) as nat))
        }
    }

    /// `k` steps from `start` lead back to it, and no fewer do.
    pub open spec fn period(self, start: int, k: nat) -> bool {
        &&& k >= 1
        &&& self.walk(start, k) == start
        &&& forall|j: nat| 1 <= j < k ==> #[trigger] self.walk(start, j) != start
    }

    /// `other` lies on the boundary that `start` lies on.
    pub open spec fn same_boundary(self, start: int, other: int) -> bool {
        exists|k: nat| #[trigger] self.walk(start, k) == other
    }

    /// `e` is among the first `k` half-edges of the walk from `start`.
    pub open spec fn met_within(self, start: int, k: nat, e: int) -> bool
        decreases k,
    {
        if k == 0 {
            false
        } else {
            self.met_within(start, (k - 1) as nat, e) || self.walk(start, (k - 1) as nat) == e
        }
    }

    /// The number of half-edges on the boundary that `start` lies on.
    pub open spec fn period_of(self, start: int) -> nat {
        choose|p: nat| self.period(start, p)
    }

    /// The point at which half-edge `e` starts.
    pub open spec fn origin_point(self, e: int) -> Point2D {
        self.vertices[self.half_edges[e].origin->0 as int].coordinate
    }

    /// The origins of the half-edges on the boundary that `start` lies on,
    /// in order, that of `start` first.
    pub open spec fn boundary_points(self, start: int) -> Seq<Point2D> {
        Seq::new(self.period_of(start), |k: int| self.origin_point(self.walk(start, k as nat)))
    }

    /// The boundaries of the first `f` faces that have an outer boundary, in
    /// the order of the faces.
    pub open spec fn polygons_upto(self, f: nat) -> Seq<Seq<Point2D>>
        decreases f,
    {
        if f == 0 {
            Seq::empty()
        } else {
            let before = self.polygons_upto((f - 1) as nat);
            match self.faces[f - 1].outer_component {
                Some(start) => before.push(self.boundary_points(start as int)),
                None => before,
            }
        }
    }
}

/// No half-edge from `e` on breaks an invariant exactly when the search from
/// `e` finds nothing.
pub proof fn lemma_edge_violation_from(m: Subdivision, e: int)
    requires
        0 <= e,
    ensures
        m.edge_violation_from(e) is None <==> forall|i: int|
            e <= i < m.half_edges.len() ==> (#[trigger] m.edge_violation(i)) is None,
    decreases m.half_edges.len() - e,
{
    if e < m.half_edges.len() {
        lemma_edge_violation_from(m, e + 1);
    }
}

/// No vertex from `v` on breaks an invariant exactly when the search from
/// `v` finds nothing.
pub proof fn lemma_vertex_violation_from(m: Subdivision, v: int)
    requires
        0 <= v,
    ensures
        m.vertex_violation_from(v) is None <==> forall|i: int|
            v <= i < m.vertices.len() ==> (#[trigger] m.vertex_violation(i)) is None,
    decreases m.vertices.len() - v,
{
    if v < m.vertices.len() {
        lemma_vertex_violation_from(m, v + 1);
    }
}

/// No face from `f` on breaks an invariant exactly when the search from `f`
/// finds nothing.
pub proof fn lemma_face_violation_from(m: Subdivision, f: int)
    requires
        0 <= f,
    ensures
        m.face_violation_from(f) is None <==> forall|i: int|
            f <= i < m.faces.len() ==> (#[trigger] m.face_violation(i)) is None,
    decreases m.faces.len() - f,
{
    if f < m.faces.len() {
        lemma_face_violation_from(m, f + 1);
    }
}

/// A structure with all references in bounds is consistent exactly when it
/// has no first violation.
pub proof fn lemma_consistent_iff_no_violation(m: Subdivision)
    requires
        m.wf(),
    ensures
        m.consistent() <==> m.first_violation() is None,
{
    lemma_edge_violation_from(m, 0);
    lemma_vertex_violation_from(m, 0);
    lemma_face_violation_from(m, 0);
}

/// The boundaries of the holes of face `f` from the `j`-th on hold no
/// violation exactly when the search from `j` finds nothing.
pub proof fn lemma_hole_violation_from(m: Subdivision, f: int, j: int)
    requires
        0 <= j,
    ensures
        m.hole_violation_from(f, j) is None <==> forall|i: int|
            j <= i < m.faces[f].inner_component.len() ==> m.boundary_violation(
                #[trigger] m.faces[f].inner_component[i] as int,
                f,
            ) is None,
    decreases m.faces[f].inner_component.len() - j,
{
    if j < m.faces[f].inner_component.len() {
        lemma_hole_violation_from(m, f, j + 1);
    }
}

/// A linked structure is chained.
pub proof fn lemma_linked_is_chained(m: Subdivision)
    requires
        m.linked(),
    ensures
        m.chained(),
{
    assert forall|e: int| 0 <= e < m.half_edges.len() implies #[trigger] m.chained_at(e) by {
        assert(m.edge_violation(e) is None);
    }
}

/// Following `next` in a chained structure stays among its half-edges.
pub proof fn lemma_walk_in_bounds(m: Subdivision, start: int, k: nat)
    requires
        m.chained(),
        0 <= start < m.half_edges.len(),
    ensures
        0 <= m.walk(start, k) < m.half_edges.len(),
    decreases k,
{
    if k > 0 {
        lemma_walk_in_bounds(m, start, (k - 1) as nat);
        let e = m.walk(start, (k - 1) as nat);
        assert(m.edge_in_bounds(e));
        assert(m.chained_at(e));
    }
}

/// Walking `j` steps and then `k` more is walking `j + k` steps.
pub proof fn lemma_walk_add(m: Subdivision, start: int, j: nat, k: nat)
    ensures
        m.walk(start, j + k) == m.walk(m.walk(start, j), k),
    decreases k,
{
    if k > 0 {
        lemma_walk_add(m, start, j, (k - 1) as nat);
    }
}

/// In a chained structure two different half-edges have different successors.
pub proof fn lemma_next_injective(m: Subdivision, a: int, b: int)
    requires
        m.chained(),
        0 <= a < m.half_edges.len(),
        0 <= b < m.half_edges.len(),
        m.next_of(a) == m.next_of(b),
    ensures
        a == b,
{
    assert(m.chained_at(a));
    assert(m.chained_at(b));
}

/// In a chained structure, if walks of `i` and of `j >= i` steps from `start`
/// end at the same half-edge, then `j - i` steps lead back to `start`.
pub proof fn lemma_walk_cancel(m: Subdivision, start: int, i: nat, j: nat)
    requires
        m.chained(),
        0 <= start < m.half_edges.len(),
        i <= j,
        m.walk(start, i) == m.walk(start, j),
    ensures
        m.walk(start, (j - i) as nat) == start,
    decreases i,
{
    if i > 0 {
        lemma_walk_in_bounds(m, start, (i - 1) as nat);
        lemma_walk_in_bounds(m, start, (j - 1) as nat);
        lemma_next_injective(m, m.walk(start, (i - 1) as nat), m.walk(start, (j - 1) as nat));
        lemma_walk_cancel(m, start, (i - 1) as nat, (j - 1) as nat);
    }
}

/// More than `n` values below `n` cannot all differ.
pub proof fn lemma_pigeonhole(w: Seq<int>, n: int)
    requires
        w.len() > n >= 0,
        forall|i: int| 0 <= i < w.len() ==> 0 <= #[trigger] w[i] < n,
    ensures
        exists|i: int, j: int| 0 <= i < j < w.len() && w[i] == w[j],
{
    if w.no_duplicates() {
        w.unique_seq_to_set();
        lemma_int_range(0, n);
        assert(w.to_set().subset_of(set_int_range(0, n))) by {
            assert forall|a: int| w.to_set().contains(a) implies set_int_range(0, n).contains(
                a,
            ) by {
                let i = choose|i: int| 0 <= i < w.len() && w[i] == a;
                assert(0 <= w[i] < n);
            }
        }
        lemma_len_subset(w.to_set(), set_int_range(0, n));
        assert(false);
    } else {
        let (i, j) = choose|i: int, j: int|
            0 <= i < w.len() && 0 <= j < w.len() && i != j && w[i] == w[j];
        if i < j {
            assert(0 <= i < j < w.len() && w[i] == w[j]);
        } else {
            assert(0 <= j < i < w.len() && w[j] == w[i]);
        }
    }
}

/// In a chained structure every walk comes back to its start after at most
/// as many steps as there are half-edges.
pub proof fn lemma_walk_returns(m: Subdivision, start: int) -> (p: nat)
    requires
        m.chained(),
        0 <= start < m.half_edges.len(),
    ensures
        1 <= p <= m.half_edges.len(),
        m.walk(start, p) == start,
{
    let n = m.half_edges.len() as int;
    let w = Seq::new((n + 1) as nat, |i: int| m.walk(start, i as nat));
    assert forall|i: int| 0 <= i < w.len() implies 0 <= #[trigger] w[i] < n by {
        lemma_walk_in_bounds(m, start, i as nat);
    }
    lemma_pigeonhole(w, n);
    let (i, j) = choose|i: int, j: int| 0 <= i < j < w.len() && w[i] == w[j];
    lemma_walk_cancel(m, start, i as nat, j as nat);
    (j - i) as nat
}

/// In a chained structure every walk has a period: a least positive number
/// of steps that leads back to the start. It is at most the number of
/// half-edges.
pub proof fn lemma_period_exists(m: Subdivision, start: int) -> (p: nat)
    requires
        m.chained(),
        0 <= start < m.half_edges.len(),
    ensures
        m.period(start, p),
        p <= m.half_edges.len(),
{
    let q = lemma_walk_returns(m, start);
    lemma_least_return(m, start, q, 1)
}

/// The least number of steps, from `lo` on, that leads back to `start`.
proof fn lemma_least_return(m: Subdivision, start: int, q: nat, lo: nat) -> (p: nat)
    requires
        1 <= lo <= q,
        m.walk(start, q) == start,
        forall|j: nat| 1 <= j < lo ==> #[trigger] m.walk(start, j) != start,
    ensures
        m.period(start, p),
        p <= q,
    decreases q - lo,
{
    if m.walk(start, lo) == start {
        lo
    } else {
        lemma_least_return(m, start, q, lo + 1)
    }
}

/// In a uniform chained structure every half-edge reached from `start` is
/// incident to the face that `start` is incident to.
pub proof fn lemma_walk_keeps_face(m: Subdivision, start: int, k: nat)
    requires
        m.chained(),
        m.uniform(),
        0 <= start < m.half_edges.len(),
    ensures
        m.half_edges[m.walk(start, k)].incident_face == m.half_edges[start].incident_face,
    decreases k,
{
    if k > 0 {
        lemma_walk_keeps_face(m, start, (k - 1) as nat);
        lemma_walk_in_bounds(m, start, (k - 1) as nat);
        let e = m.walk(start, (k - 1) as nat);
        assert(m.chained_at(e));
        assert(m.keeps_face(e));
    }
}

/// The boundary that starts at `start` holds no violation from its `k`-th
/// half-edge on exactly when all its half-edges from there on are incident
/// to `f`.
pub proof fn lemma_boundary_violation_from(m: Subdivision, start: int, f: int, k: nat)
    ensures
        m.boundary_violation_from(start, f, k) is None <==> forall|i: nat|
            k <= i < m.period_of(start) ==> m.bounds_face(#[trigger] m.walk(start, i) as usize, f),
    decreases m.period_of(start) - k,
{
    if k < m.period_of(start) {
        lemma_boundary_violation_from(m, start, f, k + 1);
    }
}

/// In a chained structure, a boundary without violation has every one of
/// its half-edges incident to the face, however far one walks, its first
/// among them.
pub proof fn lemma_boundary_belongs(m: Subdivision, start: int, f: int, k: nat)
    requires
        m.chained(),
        0 <= start < m.half_edges.len(),
        m.boundary_violation(start, f) is None,
    ensures
        m.half_edges[m.walk(start, k)].incident_face == Some(f as usize),
        m.bounds_face(start as usize, f),
{
    let p = lemma_period_exists(m, start);
    lemma_period_of(m, start, p);
    lemma_boundary_violation_from(m, start, f, 0);
    let j = lemma_walk_within_period(m, start, p, k);
    lemma_walk_in_bounds(m, start, j);
    assert(m.bounds_face(m.walk(start, j) as usize, f));
    assert(m.bounds_face(m.walk(start, 0) as usize, f));
}

/// In a uniform chained structure the boundary of a half-edge that is
/// incident to `f` holds no violation.
pub proof fn lemma_uniform_boundary(m: Subdivision, start: int, f: int)
    requires
        m.chained(),
        m.uniform(),
        0 <= start < m.half_edges.len(),
        m.bounds_face(start as usize, f),
    ensures
        m.boundary_violation(start, f) is None,
{
    lemma_boundary_violation_from(m, start, f, 0);
    assert forall|i: nat| i < m.period_of(start) implies m.bounds_face(
        #[trigger] m.walk(start, i) as usize,
        f,
    ) by {
        lemma_walk_keeps_face(m, start, i);
        lemma_walk_in_bounds(m, start, i);
    }
}

/// In a uniform linked structure in which every face names half-edges of
/// its own and every vertex keeps its invariant, every invariant holds.
pub proof fn lemma_uniform_consistent(m: Subdivision)
    requires
        m.linked(),
        m.uniform(),
        forall|v: int| 0 <= v < m.vertices.len() ==> (#[trigger] m.vertex_violation(v)) is None,
        forall|f: int| 0 <= f < m.faces.len() ==> #[trigger] m.names_its_own(f),
    ensures
        m.consistent(),
{
    lemma_linked_is_chained(m);
    assert forall|f: int| 0 <= f < m.faces.len() implies (#[trigger] m.face_violation(
        f,
    )) is None by {
        assert(m.names_its_own(f));
        assert(m.face_in_bounds(f));
        lemma_hole_violation_from(m, f, 0);
        if m.faces[f].outer_component is Some {
            lemma_uniform_boundary(m, m.faces[f].outer_component->0 as int, f);
        }
        assert forall|i: int| 0 <= i < m.faces[f].inner_component.len() implies m.boundary_violation(
            #[trigger] m.faces[f].inner_component[i] as int,
            f,
        ) is None by {
            lemma_uniform_boundary(m, m.faces[f].inner_component[i] as int, f);
        }
    }
}

/// In a consistent structure the boundary of a face that starts at its outer
/// boundary half-edge leads back to that half-edge, and every half-edge on
/// it is incident to the face.
pub proof fn lemma_outer_boundary_belongs(m: Subdivision, f: int, k: nat)
    requires
        m.consistent(),
        0 <= f < m.faces.len(),
        m.faces[f].outer_component is Some,
    ensures
        m.half_edges[m.walk(m.faces[f].outer_component->0 as int, k)].incident_face == Some(
            f as usize,
        ),
        exists|p: nat| m.period(m.faces[f].outer_component->0 as int, p),
{
    let s = m.faces[f].outer_component->0 as int;
    assert(m.face_in_bounds(f));
    assert(m.face_violation(f) is None);
    lemma_linked_is_chained(m);
    lemma_boundary_belongs(m, s, f, k);
    let p = lemma_period_exists(m, s);
}

/// In a consistent structure the boundary of every hole of a face leads back
/// to its start, and every half-edge on it is incident to the face.
pub proof fn lemma_hole_boundary_belongs(m: Subdivision, f: int, j: int, k: nat)
    requires
        m.consistent(),
        0 <= f < m.faces.len(),
        0 <= j < m.faces[f].inner_component.len(),
    ensures
        m.half_edges[m.walk(m.faces[f].inner_component[j] as int, k)].incident_face == Some(
            f as usize,
        ),
        exists|p: nat| m.period(m.faces[f].inner_component[j] as int, p),
{
    let s = m.faces[f].inner_component[j] as int;
    assert(m.face_in_bounds(f));
    assert(m.face_violation(f) is None);
    lemma_hole_violation_from(m, f, 0);
    lemma_linked_is_chained(m);
    lemma_boundary_belongs(m, s, f, k);
    let p = lemma_period_exists(m, s);
}

/// A walk has at most one period.
pub proof fn lemma_period_unique(m: Subdivision, start: int, p: nat, q: nat)
    requires
        m.period(start, p),
        m.period(start, q),
    ensures
        p == q,
{
}

/// The period of a walk is what `period_of` names.
pub proof fn lemma_period_of(m: Subdivision, start: int, p: nat)
    requires
        m.period(start, p),
    ensures
        m.period_of(start) == p,
{
    lemma_period_unique(m, start, p, m.period_of(start));
}

/// Every half-edge of a walk is met within its first period.
pub proof fn lemma_walk_within_period(m: Subdivision, start: int, p: nat, k: nat) -> (j: nat)
    requires
        m.period(start, p),
    ensures
        j < p,
        m.walk(start, k) == m.walk(start, j),
    decreases k,
{
    if k == 0 {
        0
    } else {
        let i = lemma_walk_within_period(m, start, p, (k - 1) as nat);
        if i + 1 == p {
            0
        } else {
            (i + 1) as nat
        }
    }
}

/// In a chained structure, a half-edge that lies on the boundary of another
/// has that other on its own boundary.
pub proof fn lemma_same_boundary_symmetric(m: Subdivision, a: int, b: int)
    requires
        m.chained(),
        0 <= a < m.half_edges.len(),
        m.same_boundary(a, b),
    ensures
        m.same_boundary(b, a),
{
    let p = lemma_period_exists(m, a);
    let k = choose|k: nat| m.walk(a, k) == b;
    let j = lemma_walk_within_period(m, a, p, k);
    lemma_walk_add(m, a, j, (p - j) as nat);
    assert(m.walk(b, (p - j) as nat) == a);
}

/// Being on one boundary carries over: if `b` is on the boundary of `a` and
/// `c` on that of `b`, then `c` is on that of `a`.
pub proof fn lemma_same_boundary_transitive(m: Subdivision, a: int, b: int, c: int)
    requires
        m.same_boundary(a, b),
        m.same_boundary(b, c),
    ensures
        m.same_boundary(a, c),
{
    let j = choose|k: nat| m.walk(a, k) == b;
    let k = choose|k: nat| m.walk(b, k) == c;
    lemma_walk_add(m, a, j, k);
    assert(m.walk(a, j + k) == c);
}

/// What is among the first `k` half-edges of a walk is on its boundary.
pub proof fn lemma_met_is_on_boundary(m: Subdivision, start: int, k: nat, e: int)
    requires
        m.met_within(start, k, e),
    ensures
        m.same_boundary(start, e),
    decreases k,
{
    if k > 0 {
        if m.walk(start, (k - 1) as nat) == e {
        } else {
            lemma_met_is_on_boundary(m, start, (k - 1) as nat, e);
        }
    }
}

/// The half-edge after `j` steps is among the first `k > j` of the walk.
pub proof fn lemma_walk_is_met(m: Subdivision, start: int, k: nat, j: nat)
    requires
        j < k,
    ensures
        m.met_within(start, k, m.walk(start, j)),
    decreases k,
{
    if j + 1 < k {
        lemma_walk_is_met(m, start, (k - 1) as nat, j);
    }
}

/// The boundary of a half-edge is what its walk meets within one period.
pub proof fn lemma_boundary_is_one_period(m: Subdivision, start: int, p: nat, e: int)
    requires
        m.period(start, p),
    ensures
        m.same_boundary(start, e) <==> m.met_within(start, p, e),
{
    if m.same_boundary(start, e) {
        let k = choose|k: nat| m.walk(start, k) == e;
        let j = lemma_walk_within_period(m, start, p, k);
        lemma_walk_is_met(m, start, p, j);
    }
    if m.met_within(start, p, e) {
        lemma_met_is_on_boundary(m, start, p, e);
    }
}

/// Two chained structures whose half-edges have the same successors walk
/// alike.
pub proof fn lemma_same_next_same_walk(m: Subdivision, m2: Subdivision, start: int, k: nat)
    requires
        m.chained(),
        m2.half_edges.len() == m.half_edges.len(),
        forall|e: int|
            0 <= e < m.half_edges.len() ==> (#[trigger] m2.half_edges[e]).next
                == m.half_edges[e].next,
        0 <= start < m.half_edges.len(),
    ensures
        m2.walk(start, k) == m.walk(start, k),
    decreases k,
{
    if k > 0 {
        lemma_same_next_same_walk(m, m2, start, (k - 1) as nat);
        lemma_walk_in_bounds(m, start, (k - 1) as nat);
        let x = m.walk(start, (k - 1) as nat);
        assert(m2.half_edges[x].next == m.half_edges[x].next);
    }
}

/// Two chained structures whose half-edges have the same successors have the
/// same boundaries.
pub proof fn lemma_same_next_same_boundary(m: Subdivision, m2: Subdivision, start: int, e: int)
    requires
        m.chained(),
        m2.half_edges.len() == m.half_edges.len(),
        forall|e: int|
            0 <= e < m.half_edges.len() ==> (#[trigger] m2.half_edges[e]).next
                == m.half_edges[e].next,
        0 <= start < m.half_edges.len(),
    ensures
        m2.same_boundary(start, e) <==> m.same_boundary(start, e),
{
    if m2.same_boundary(start, e) {
        let k = choose|k: nat| m2.walk(start, k) == e;
        lemma_same_next_same_walk(m, m2, start, k);
        assert(m.walk(start, k) == e);
    }
    if m.same_boundary(start, e) {
        let k = choose|k: nat| m.walk(start, k) == e;
        lemma_same_next_same_walk(m, m2, start, k);
        assert(m2.walk(start, k) == e);
    }
}

/// Changing the incident faces of half-edges, to faces that exist, leaves a
/// chained structure chained.
pub proof fn lemma_face_change_keeps_chained(m: Subdivision, m2: Subdivision)
    requires
        m.chained(),
        m2.vertices == m.vertices,
        m2.faces == m.faces,
        m2.half_edges.len() == m.half_edges.len(),
        forall|e: int|
            0 <= e < m.half_edges.len() ==> {
                let h = m.half_edges[e];
                let h2 = #[trigger] m2.half_edges[e];
                &&& h2.origin == h.origin
                &&& h2.twin == h.twin
                &&& h2.next == h.next
                &&& h2.prev == h.prev
                &&& (h2.incident_face matches Some(f) ==> f < m.faces.len())
            },
    ensures
        m2.chained(),
{
    assert forall|e: int| 0 <= e < m2.half_edges.len() implies #[trigger] m2.edge_in_bounds(e) by {
        assert(m.edge_in_bounds(e));
    }
    assert forall|v: int| 0 <= v < m2.vertices.len() implies m2.edge_ref(
        #[trigger] m2.vertices[v].incident_edge,
    ) by {
        assert(m.edge_ref(m.vertices[v].incident_edge));
    }
    assert forall|f: int| 0 <= f < m2.faces.len() implies #[trigger] m2.face_in_bounds(f) by {
        assert(m.face_in_bounds(f));
    }
    assert forall|e: int| 0 <= e < m2.half_edges.len() implies #[trigger] m2.chained_at(e) by {
        assert(m.chained_at(e));
        assert(m.edge_in_bounds(e));
        let x = m.half_edges[e].next->0 as int;
        let y = m.half_edges[e].prev->0 as int;
        assert(m2.half_edges[x].prev == m.half_edges[x].prev);
        assert(m2.half_edges[y].next == m.half_edges[y].next);
    }
}

} // verus!
