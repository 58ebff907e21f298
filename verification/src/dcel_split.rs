//! What splitting a face by a diagonal does to a subdivision, and why the
//! result keeps every invariant.

use crate::dcel_model::{
    lemma_boundary_belongs, lemma_boundary_violation_from, lemma_hole_violation_from,
    lemma_linked_is_chained, lemma_next_injective,
    lemma_period_exists, lemma_same_boundary_symmetric, lemma_same_boundary_transitive,
    lemma_walk_add, lemma_walk_in_bounds, lemma_walk_keeps_face, lemma_walk_within_period,
    HalfEdge, Subdivision,
};
use vstd::prelude::*;

verus! {

/// The index that the second half-edge added to `m0` gets.
pub open spec fn second_new(m0: Subdivision) -> int {
    m0.half_edges.len() as int + 1
}

/// The record of the old half-edge `e` once a diagonal from the origin of
/// `a` to the origin of `b` has been linked into `m0`, with `face` as its
/// incident face. Origin and twin stay. The predecessors of `a` and `b` get
/// the new half-edges as their successors, and `a` and `b` get them as their
/// predecessors.
pub open spec fn relinked_half_edge(
    m0: Subdivision,
    a: int,
    b: int,
    e: int,
    face: Option<usize>,
) -> HalfEdge {
    let n = m0.half_edges.len() as int;
    let h = m0.half_edges[e];
    HalfEdge {
        origin: h.origin,
        twin: h.twin,
        next: if m0.half_edges[a].prev == Some(e as usize) {
            Some((n + 1) as usize)
        } else if m0.half_edges[b].prev == Some(e as usize) {
            Some(n as usize)
        } else {
            h.next
        },
        prev: if e == a {
            Some(n as usize)
        } else if e == b {
            Some((n + 1) as usize)
        } else {
            h.prev
        },
        incident_face: face,
    }
}

/// The record of the old half-edge `e` after the face of `a` and `b` in `m0`
/// has been split, giving `m`: it is linked as `relinked_half_edge` says,
/// and it is incident to the new face if it now lies on the boundary of the
/// second new half-edge, and to the face it was incident to otherwise.
pub open spec fn divided_half_edge(m0: Subdivision, m: Subdivision, a: int, b: int, e: int)
    -> HalfEdge {
    relinked_half_edge(
        m0,
        a,
        b,
        e,
        if m.same_boundary(second_new(m0), e) {
            Some(m0.faces.len() as usize)
        } else {
            m0.half_edges[e].incident_face
        },
    )
}

/// `m` is `m0` with a diagonal from the origin of `a` to the origin of `b`
/// linked in: the two new half-edges are there and `next` and `prev` run
/// through them, a new face is there, and every old half-edge is incident
/// to its old face or to the new one.
pub open spec fn relinked(m0: Subdivision, m: Subdivision, a: int, b: int) -> bool {
    let n = m0.half_edges.len() as int;
    let faces = m0.faces.len() as int;
    let ha = m0.half_edges[a];
    let hb = m0.half_edges[b];
    &&& m.vertices == m0.vertices
    &&& m.half_edges.len() == n + 2 <= usize::MAX
    &&& m.faces.len() == faces + 1 <= usize::MAX
    &&& m.half_edges[n] == (HalfEdge {
        origin: hb.origin,
        twin: Some((n + 1) as usize),
        next: Some(a as usize),
        prev: hb.prev,
        incident_face: ha.incident_face,
    })
    &&& m.half_edges[n + 1] == (HalfEdge {
        origin: ha.origin,
        twin: Some(n as usize),
        next: Some(b as usize),
        prev: ha.prev,
        incident_face: Some(faces as usize),
    })
    &&& forall|e: int|
        0 <= e < n ==> #[trigger] m.half_edges[e] == relinked_half_edge(
            m0,
            a,
            b,
            e,
            m.half_edges[e].incident_face,
        )
    &&& forall|e: int|
        0 <= e < n ==> (#[trigger] m.half_edges[e]).incident_face == m0.half_edges[e].incident_face
            || m.half_edges[e].incident_face == Some(faces as usize)
    &&& forall|f: int| 0 <= f <= faces ==> #[trigger] m.face_in_bounds(f)
}

/// A boundary half-edge `s` of the old face after the split: the first new
/// half-edge if `s` now lies on the boundary of the new face, else `s`.
pub open spec fn moved_component(m0: Subdivision, m: Subdivision, s: usize) -> usize {
    if m.same_boundary(m0.half_edges.len() as int + 1, s as int) {
        m0.half_edges.len() as usize
    } else {
        s
    }
}

/// `m` is `m0` with the face of `a` and `b` split by a diagonal from the
/// origin of `a` to the origin of `b`. Two half-edges are added at the end
/// of the arena: the first runs from the origin of `b` to that of `a` and
/// stays with the old face, the second runs from the origin of `a` to that
/// of `b` and bounds the new face, which is added at the end of the faces.
pub open spec fn divides(m0: Subdivision, m: Subdivision, a: int, b: int) -> bool {
    let n = m0.half_edges.len() as int;
    let faces = m0.faces.len() as int;
    let ha = m0.half_edges[a];
    let hb = m0.half_edges[b];
    let old_face = ha.incident_face->0 as int;
    &&& m.vertices == m0.vertices
    &&& m.half_edges.len() == n + 2 <= usize::MAX
    &&& m.faces.len() == faces + 1 <= usize::MAX
    &&& m.half_edges[n] == (HalfEdge {
        origin: hb.origin,
        twin: Some((n + 1) as usize),
        next: Some(a as usize),
        prev: hb.prev,
        incident_face: ha.incident_face,
    })
    &&& m.half_edges[n + 1] == (HalfEdge {
        origin: ha.origin,
        twin: Some(n as usize),
        next: Some(b as usize),
        prev: ha.prev,
        incident_face: Some(faces as usize),
    })
    &&& forall|e: int| 0 <= e < n ==> #[trigger] m.half_edges[e] == divided_half_edge(m0, m, a, b, e)
    &&& forall|f: int| 0 <= f < faces && f != old_face ==> #[trigger] m.faces[f] == m0.faces[f]
    &&& m.faces[faces].outer_component == Some((n + 1) as usize)
    &&& m.faces[faces].inner_component.len() == 0
    &&& m.faces[old_face].outer_component == match m0.faces[old_face].outer_component {
        Some(s) => Some(moved_component(m0, m, s)),
        None => None,
    }
    &&& m.faces[old_face].inner_component.len() == m0.faces[old_face].inner_component.len()
    &&& forall|j: int|
        0 <= j < m0.faces[old_face].inner_component.len()
            ==> #[trigger] m.faces[old_face].inner_component[j] == moved_component(
            m0,
            m,
            m0.faces[old_face].inner_component[j],
        )
}

/// What a split by a diagonal asks of the structure and of the two
/// half-edges: the structure is consistent, and the half-edges differ and
/// lie on one boundary.
pub open spec fn can_divide(m0: Subdivision, a: int, b: int) -> bool {
    &&& m0.consistent()
    &&& 0 <= a < m0.half_edges.len()
    &&& 0 <= b < m0.half_edges.len()
    &&& a != b
    &&& m0.same_boundary(a, b)
}

/// The facts about `a`, `b` and their predecessors in `m0` that the proofs
/// below start from.
pub proof fn lemma_divide_setting(m0: Subdivision, a: int, b: int)
    requires
        can_divide(m0, a, b),
    ensures
        m0.chained(),
        m0.half_edges[a].prev is Some,
        m0.half_edges[b].prev is Some,
        m0.half_edges[a].prev->0 < m0.half_edges.len(),
        m0.half_edges[b].prev->0 < m0.half_edges.len(),
        m0.half_edges[a].prev != m0.half_edges[b].prev,
        m0.half_edges[m0.half_edges[a].prev->0 as int].next == Some(a as usize),
        m0.half_edges[m0.half_edges[b].prev->0 as int].next == Some(b as usize),
        m0.half_edges[a].incident_face is Some,
        m0.half_edges[a].incident_face->0 < m0.faces.len(),
        m0.half_edges[a].origin is Some,
        m0.half_edges[b].origin is Some,
{
    lemma_linked_is_chained(m0);
    assert(m0.edge_in_bounds(a));
    assert(m0.edge_in_bounds(b));
    assert(m0.edge_violation(a) is None);
    assert(m0.edge_violation(b) is None);
    assert(m0.chained_at(a));
    assert(m0.chained_at(b));
}

/// A split links the diagonal in.
pub proof fn lemma_divides_relinked(m0: Subdivision, m: Subdivision, a: int, b: int)
    requires
        can_divide(m0, a, b),
        divides(m0, m, a, b),
    ensures
        relinked(m0, m, a, b),
{
    lemma_divide_setting(m0, a, b);
    let n = m0.half_edges.len() as int;
    let faces = m0.faces.len() as int;
    let old_face = m0.half_edges[a].incident_face->0 as int;
    assert forall|e: int| 0 <= e < n implies #[trigger] m.half_edges[e] == relinked_half_edge(
        m0,
        a,
        b,
        e,
        m.half_edges[e].incident_face,
    ) && (m.half_edges[e].incident_face == m0.half_edges[e].incident_face
        || m.half_edges[e].incident_face == Some(faces as usize)) by {
        assert(m.half_edges[e] == divided_half_edge(m0, m, a, b, e));
    }
    assert forall|f: int| 0 <= f <= faces implies #[trigger] m.face_in_bounds(f) by {
        if f < faces {
            assert(m0.face_in_bounds(f));
            if f == old_face {
                assert forall|j: int|
                    0 <= j < m.faces[f].inner_component.len() implies #[trigger] m.faces[f].inner_component[j]
                    < m.half_edges.len() by {
                    assert(m0.faces[f].inner_component[j] < n);
                }
            } else {
                assert(m.faces[f] == m0.faces[f]);
            }
        }
    }
}

/// With the diagonal linked in, `next` and `prev` are still inverse to each
/// other.
pub proof fn lemma_relinked_chained(m0: Subdivision, m: Subdivision, a: int, b: int)
    requires
        can_divide(m0, a, b),
        relinked(m0, m, a, b),
    ensures
        m.chained(),
{
    lemma_divide_setting(m0, a, b);
    let n = m0.half_edges.len() as int;
    let faces = m0.faces.len() as int;
    let old_face = m0.half_edges[a].incident_face->0 as int;
    let a_prev = m0.half_edges[a].prev->0 as int;
    let b_prev = m0.half_edges[b].prev->0 as int;
    assert(m.half_edges[a] == relinked_half_edge(m0, a, b, a, m.half_edges[a].incident_face));
    assert(m.half_edges[b] == relinked_half_edge(m0, a, b, b, m.half_edges[b].incident_face));
    assert(m.half_edges[a_prev] == relinked_half_edge(m0, a, b, a_prev, m.half_edges[a_prev].incident_face));
    assert(m.half_edges[b_prev] == relinked_half_edge(m0, a, b, b_prev, m.half_edges[b_prev].incident_face));
    assert(m0.edge_in_bounds(a));
    assert(m0.edge_in_bounds(b));
    assert forall|e: int| 0 <= e < m.half_edges.len() implies #[trigger] m.edge_in_bounds(e) by {
        if e < n {
            assert(m0.edge_in_bounds(e));
            assert(m.half_edges[e] == relinked_half_edge(m0, a, b, e, m.half_edges[e].incident_face));
        }
    }
    assert forall|v: int| 0 <= v < m.vertices.len() implies m.edge_ref(
        #[trigger] m.vertices[v].incident_edge,
    ) by {
        assert(m0.edge_ref(m0.vertices[v].incident_edge));
    }
    assert(m.wf());
    assert forall|e: int| 0 <= e < m.half_edges.len() implies #[trigger] m.chained_at(e) by {
        if e < n {
            assert(m0.chained_at(e));
            assert(m0.edge_in_bounds(e));
            assert(m.half_edges[e] == relinked_half_edge(m0, a, b, e, m.half_edges[e].incident_face));
            let x = m0.half_edges[e].next->0 as int;
            let y = m0.half_edges[e].prev->0 as int;
            assert(m.half_edges[x] == relinked_half_edge(m0, a, b, x, m.half_edges[x].incident_face));
            assert(m.half_edges[y] == relinked_half_edge(m0, a, b, y, m.half_edges[y].incident_face));
        }
    }
}

/// The least number of steps, from `lo` on, after which the walk from `s`
/// is at `t`.
proof fn lemma_first_hit(m: Subdivision, s: int, t: int, k: nat, lo: nat) -> (d: nat)
    requires
        lo <= k,
        m.walk(s, k) == t,
        forall|j: nat| j < lo ==> #[trigger] m.walk(s, j) != t,
    ensures
        d <= k,
        m.walk(s, d) == t,
        forall|j: nat| j < d ==> #[trigger] m.walk(s, j) != t,
    decreases k - lo,
{
    if m.walk(s, lo) == t {
        lo
    } else {
        lemma_first_hit(m, s, t, k, lo + 1)
    }
}

/// Before it reaches `b`, the walk from `a` is the same after the split as
/// before it.
proof fn lemma_old_part_walk(m0: Subdivision, m: Subdivision, a: int, b: int, d: nat, j: nat)
    requires
        can_divide(m0, a, b),
        relinked(m0, m, a, b),
        m0.walk(a, d) == b,
        forall|i: nat| i < d ==> #[trigger] m0.walk(a, i) != b,
        j < d,
    ensures
        m.walk(a, j) == m0.walk(a, j),
        0 <= m0.walk(a, j) < m0.half_edges.len(),
    decreases j,
{
    lemma_divide_setting(m0, a, b);
    lemma_walk_in_bounds(m0, a, j);
    if j > 0 {
        lemma_old_part_walk(m0, m, a, b, d, (j - 1) as nat);
        let x = m0.walk(a, (j - 1) as nat);
        assert(m0.walk(a, j) == m0.next_of(x));
        assert(m.walk(a, j) == m.next_of(m.walk(a, (j - 1) as nat)));
        assert(m0.chained_at(x));
        assert(m.half_edges[x] == relinked_half_edge(m0, a, b, x, m.half_edges[x].incident_face));
        if m0.half_edges[a].prev == Some(x as usize) {
            assert(m0.walk(a, j) == a);
            lemma_walk_add(m0, a, j, (d - j) as nat);
            assert(m0.walk(a, (d - j) as nat) == b);
            assert(false);
        }
        if m0.half_edges[b].prev == Some(x as usize) {
            assert(m0.walk(a, j) == b);
            assert(false);
        }
    }
}

/// After the split the boundary of `a` closes through the first new
/// half-edge and does not meet the second one.
pub proof fn lemma_old_part_closed(m0: Subdivision, m: Subdivision, a: int, b: int)
    requires
        can_divide(m0, a, b),
        relinked(m0, m, a, b),
    ensures
        !m.same_boundary(a, second_new(m0)),
        !m.same_boundary(second_new(m0), a),
        !m.same_boundary(second_new(m0), m0.half_edges.len() as int),
        !m.same_boundary(second_new(m0), m0.half_edges[b].prev->0 as int),
{
    lemma_divide_setting(m0, a, b);
    lemma_relinked_chained(m0, m, a, b);
    let n = m0.half_edges.len() as int;
    let s2 = second_new(m0);
    let b_prev = m0.half_edges[b].prev->0 as int;
    let k0 = choose|k: nat| m0.walk(a, k) == b;
    let d = lemma_first_hit(m0, a, b, k0, 0);
    assert(d >= 1);
    let last = (d - 1) as nat;
    lemma_old_part_walk(m0, m, a, b, d, last);
    let x = m0.walk(a, last);
    assert(m0.walk(a, d) == m0.next_of(x));
    assert(m0.chained_at(x));
    assert(x == b_prev);
    assert(m.half_edges[b_prev] == relinked_half_edge(m0, a, b, b_prev, m.half_edges[b_prev].incident_face));
    assert(m.walk(a, d) == m.next_of(m.walk(a, last)));
    assert(m.walk(a, d) == n);
    assert(m.walk(a, d + 1) == m.next_of(m.walk(a, d)));
    assert(m.walk(a, d + 1) == a);
    let p = lemma_period_exists(m, a);
    assert(p <= d + 1);
    if m.same_boundary(a, s2) {
        let k = choose|k: nat| m.walk(a, k) == s2;
        let j = lemma_walk_within_period(m, a, p, k);
        if j < d {
            lemma_old_part_walk(m0, m, a, b, d, j);
        }
        assert(false);
    }
    if m.same_boundary(s2, a) {
        lemma_same_boundary_symmetric(m, s2, a);
        assert(false);
    }
    if m.same_boundary(s2, n) {
        assert(m.walk(n, 1) == m.next_of(m.walk(n, 0)));
        assert(m.walk(n, 1) == a);
        lemma_same_boundary_transitive(m, s2, n, a);
        assert(false);
    }
    if m.same_boundary(s2, b_prev) {
        assert(m.walk(b_prev, 1) == m.next_of(m.walk(b_prev, 0)));
        assert(m.walk(b_prev, 1) == n);
        lemma_same_boundary_transitive(m, s2, b_prev, n);
        assert(false);
    }
}

/// After the split the walk from the second new half-edge runs, from its
/// second half-edge on, along the old walk from `b`.
proof fn lemma_new_part_walk(m0: Subdivision, m: Subdivision, a: int, b: int, p: nat, k: nat)
    requires
        can_divide(m0, a, b),
        relinked(m0, m, a, b),
        m.period(second_new(m0), p),
        1 <= k < p,
    ensures
        m.walk(second_new(m0), k) == m0.walk(b, (k - 1) as nat),
        0 <= m0.walk(b, (k - 1) as nat) < m0.half_edges.len(),
    decreases k,
{
    lemma_divide_setting(m0, a, b);
    let n = m0.half_edges.len() as int;
    let s2 = second_new(m0);
    lemma_walk_in_bounds(m0, b, (k - 1) as nat);
    assert(m.walk(s2, k) == m.next_of(m.walk(s2, (k - 1) as nat)));
    if k > 1 {
        lemma_new_part_walk(m0, m, a, b, p, (k - 1) as nat);
        let x = m0.walk(b, (k - 2) as nat);
        assert(m0.walk(b, (k - 1) as nat) == m0.next_of(x));
        assert(m.half_edges[x] == relinked_half_edge(m0, a, b, x, m.half_edges[x].incident_face));
        assert(m0.chained_at(x));
        if m0.half_edges[a].prev == Some(x as usize) {
            assert(m.walk(s2, k) == s2);
            assert(false);
        }
        if m0.half_edges[b].prev == Some(x as usize) {
            lemma_old_part_closed(m0, m, a, b);
            assert(m.walk(s2, (k - 1) as nat) == x);
            assert(false);
        }
    } else {
        assert(m.walk(s2, 0) == s2);
    }
}

/// After the split, what follows a half-edge on the boundary of the second
/// new half-edge lies on that boundary, and so does what precedes it.
proof fn lemma_new_part_closed(m0: Subdivision, m: Subdivision, a: int, b: int, e: int)
    requires
        can_divide(m0, a, b),
        relinked(m0, m, a, b),
        0 <= e < m.half_edges.len(),
    ensures
        m.same_boundary(second_new(m0), e) <==> m.same_boundary(
            second_new(m0),
            m.next_of(e),
        ),
{
    lemma_relinked_chained(m0, m, a, b);
    let n = m0.half_edges.len() as int;
    let s2 = second_new(m0);
    if m.same_boundary(s2, e) {
        let k = choose|k: nat| m.walk(s2, k) == e;
        assert(m.walk(s2, k + 1) == m.next_of(m.walk(s2, k)));
    }
    if m.same_boundary(s2, m.next_of(e)) {
        let p = lemma_period_exists(m, n + 1);
        let k = choose|k: nat| m.walk(s2, k) == m.next_of(e);
        let j = lemma_walk_within_period(m, s2, p, k);
        let i = if j == 0 {
            (p - 1) as nat
        } else {
            (j - 1) as nat
        };
        assert(m.walk(s2, i + 1) == m.next_of(m.walk(s2, i)));
        lemma_walk_in_bounds(m, s2, i);
        lemma_next_injective(m, m.walk(s2, i), e);
    }
}

/// After the split every half-edge keeps its invariants.
proof fn lemma_divide_linked(m0: Subdivision, m: Subdivision, a: int, b: int)
    requires
        can_divide(m0, a, b),
        divides(m0, m, a, b),
    ensures
        m.linked(),
{
    lemma_divide_setting(m0, a, b);
    lemma_divides_relinked(m0, m, a, b);
    lemma_relinked_chained(m0, m, a, b);
    let n = m0.half_edges.len() as int;
    let s2 = second_new(m0);
    assert forall|e: int| 0 <= e < m.half_edges.len() implies (#[trigger] m.edge_violation(
        e,
    )) is None by {
        assert(m.chained_at(e));
        assert(m.edge_in_bounds(e));
        if e < n {
            assert(m0.edge_violation(e) is None);
            assert(m0.edge_in_bounds(e));
            assert(m.half_edges[e] == divided_half_edge(m0, m, a, b, e));
            let t = m0.half_edges[e].twin->0 as int;
            assert(m.half_edges[t] == divided_half_edge(m0, m, a, b, t));
        }
    }
}

/// What lies, after the split, on the boundary of `a` is the first new
/// half-edge or an old half-edge that lay on the boundary of `a` before; it
/// does not lie on the boundary of the second new half-edge. The first new
/// half-edge lies on the boundary of `a`.
proof fn lemma_old_part_members(m0: Subdivision, m: Subdivision, a: int, b: int, y: int)
    requires
        can_divide(m0, a, b),
        relinked(m0, m, a, b),
        m.same_boundary(a, y),
    ensures
        y == m0.half_edges.len() || (0 <= y < m0.half_edges.len() && m0.same_boundary(a, y)),
        !m.same_boundary(second_new(m0), y),
        m.same_boundary(a, m0.half_edges.len() as int),
{
    lemma_divide_setting(m0, a, b);
    lemma_relinked_chained(m0, m, a, b);
    lemma_old_part_closed(m0, m, a, b);
    let n = m0.half_edges.len() as int;
    let s2 = second_new(m0);
    let b_prev = m0.half_edges[b].prev->0 as int;
    let k0 = choose|k: nat| m0.walk(a, k) == b;
    let d = lemma_first_hit(m0, a, b, k0, 0);
    assert(d >= 1);
    let last = (d - 1) as nat;
    lemma_old_part_walk(m0, m, a, b, d, last);
    let x = m0.walk(a, last);
    assert(m0.walk(a, d) == m0.next_of(x));
    assert(m0.chained_at(x));
    assert(x == b_prev);
    assert(m.half_edges[b_prev] == relinked_half_edge(
        m0,
        a,
        b,
        b_prev,
        m.half_edges[b_prev].incident_face,
    ));
    assert(m.walk(a, d) == m.next_of(m.walk(a, last)));
    assert(m.walk(a, d) == n);
    assert(m.walk(a, d + 1) == m.next_of(m.walk(a, d)));
    assert(m.walk(a, d + 1) == a);
    let p = lemma_period_exists(m, a);
    assert(p <= d + 1);
    let k = choose|k: nat| m.walk(a, k) == y;
    let j = lemma_walk_within_period(m, a, p, k);
    if j < d {
        lemma_old_part_walk(m0, m, a, b, d, j);
        assert(m0.walk(a, j) == y);
    }
    if m.same_boundary(s2, y) {
        lemma_same_boundary_symmetric(m, a, y);
        lemma_same_boundary_transitive(m, s2, y, a);
        assert(false);
    }
}

/// Before it reaches `a`, the walk from `b` is the same after the split as
/// before it, and it runs on the boundary of the second new half-edge.
proof fn lemma_new_part_walk_from_b(
    m0: Subdivision,
    m: Subdivision,
    a: int,
    b: int,
    d: nat,
    j: nat,
)
    requires
        can_divide(m0, a, b),
        relinked(m0, m, a, b),
        m0.walk(b, d) == a,
        forall|i: nat| i < d ==> #[trigger] m0.walk(b, i) != a,
        j < d,
    ensures
        m.walk(b, j) == m0.walk(b, j),
        0 <= m0.walk(b, j) < m0.half_edges.len(),
        m.same_boundary(second_new(m0), m0.walk(b, j)),
    decreases j,
{
    lemma_divide_setting(m0, a, b);
    lemma_walk_in_bounds(m0, b, j);
    let s2 = second_new(m0);
    if j > 0 {
        lemma_new_part_walk_from_b(m0, m, a, b, d, (j - 1) as nat);
        let x = m0.walk(b, (j - 1) as nat);
        assert(m0.walk(b, j) == m0.next_of(x));
        assert(m.walk(b, j) == m.next_of(m.walk(b, (j - 1) as nat)));
        assert(m0.chained_at(x));
        assert(m.half_edges[x] == relinked_half_edge(m0, a, b, x, m.half_edges[x].incident_face));
        if m0.half_edges[b].prev == Some(x as usize) {
            assert(m0.walk(b, j) == b);
            lemma_walk_add(m0, b, j, (d - j) as nat);
            assert(m0.walk(b, (d - j) as nat) == a);
            assert(false);
        }
        if m0.half_edges[a].prev == Some(x as usize) {
            assert(m0.walk(b, j) == a);
            assert(false);
        }
    }
    assert(m.walk(s2, 1) == m.next_of(m.walk(s2, 0)));
    assert(m.walk(s2, 1) == b);
    lemma_walk_add(m, s2, 1, j);
    assert(m.walk(s2, 1 + j) == m0.walk(b, j));
}

/// What lay on the boundary of `a` before the split lies, after it, on the
/// boundary of `a` or on that of the second new half-edge.
proof fn lemma_boundary_is_divided(m0: Subdivision, m: Subdivision, a: int, b: int, y: int)
    requires
        can_divide(m0, a, b),
        relinked(m0, m, a, b),
        m0.same_boundary(a, y),
    ensures
        m.same_boundary(a, y) || m.same_boundary(second_new(m0), y),
{
    lemma_divide_setting(m0, a, b);
    let p0 = lemma_period_exists(m0, a);
    let k0 = choose|k: nat| m0.walk(a, k) == y;
    let k = lemma_walk_within_period(m0, a, p0, k0);
    let kb = choose|k: nat| m0.walk(a, k) == b;
    let d = lemma_first_hit(m0, a, b, kb, 0);
    if k < d {
        lemma_old_part_walk(m0, m, a, b, d, k);
        assert(m.walk(a, k) == y);
    } else {
        lemma_same_boundary_symmetric(m0, a, b);
        let ka = choose|k: nat| m0.walk(b, k) == a;
        let e = lemma_first_hit(m0, b, a, ka, 0);
        let t = (k - d) as nat;
        lemma_walk_add(m0, a, d, t);
        assert(m0.walk(b, t) == y);
        if t >= e {
            lemma_walk_add(m0, a, d, e);
            assert(m0.walk(a, d + e) == a);
            assert(d + e >= 1);
            assert(false);
        }
        lemma_new_part_walk_from_b(m0, m, a, b, e, t);
    }
}

/// An old half-edge that lies, after the split, on the boundary of the
/// second new half-edge lay on the boundary of `b`, and so of `a`, before:
/// only half-edges of the boundary that is split change their face.
pub proof fn lemma_new_part_was_on_boundary(m0: Subdivision, m: Subdivision, a: int, b: int, e: int)
    requires
        can_divide(m0, a, b),
        relinked(m0, m, a, b),
        0 <= e < m0.half_edges.len(),
        m.same_boundary(second_new(m0), e),
    ensures
        m0.same_boundary(b, e),
        m0.same_boundary(a, e),
{
    lemma_divide_setting(m0, a, b);
    lemma_relinked_chained(m0, m, a, b);
    let s2 = second_new(m0);
    let p = lemma_period_exists(m, s2);
    let k = choose|k: nat| m.walk(s2, k) == e;
    let j = lemma_walk_within_period(m, s2, p, k);
    assert(j != 0);
    lemma_new_part_walk(m0, m, a, b, p, j);
    assert(m0.walk(b, (j - 1) as nat) == e);
    lemma_same_boundary_transitive(m0, a, b, e);
}

/// The walk from a half-edge that did not lie on the boundary of `a` is the
/// same after the split as before it, and does not meet the boundary of the
/// second new half-edge.
proof fn lemma_other_boundary_unchanged(
    m0: Subdivision,
    m: Subdivision,
    a: int,
    b: int,
    s: int,
    i: nat,
)
    requires
        can_divide(m0, a, b),
        relinked(m0, m, a, b),
        0 <= s < m0.half_edges.len(),
        !m0.same_boundary(a, s),
    ensures
        m.walk(s, i) == m0.walk(s, i),
        0 <= m0.walk(s, i) < m0.half_edges.len(),
        !m.same_boundary(second_new(m0), m0.walk(s, i)),
    decreases i,
{
    lemma_divide_setting(m0, a, b);
    lemma_walk_in_bounds(m0, s, i);
    let y = m0.walk(s, i);
    // `y` does not lie on the boundary of `a` either.
    assert(!m0.same_boundary(a, y)) by {
        if m0.same_boundary(a, y) {
            assert(m0.same_boundary(s, y));
            lemma_same_boundary_symmetric(m0, s, y);
            lemma_same_boundary_transitive(m0, a, y, s);
        }
    }
    if m.same_boundary(second_new(m0), y) {
        lemma_new_part_was_on_boundary(m0, m, a, b, y);
        assert(false);
    }
    if i > 0 {
        lemma_other_boundary_unchanged(m0, m, a, b, s, (i - 1) as nat);
        let x = m0.walk(s, (i - 1) as nat);
        assert(m0.walk(s, i) == m0.next_of(x));
        assert(m.walk(s, i) == m.next_of(m.walk(s, (i - 1) as nat)));
        assert(m0.chained_at(x));
        assert(m.half_edges[x] == relinked_half_edge(m0, a, b, x, m.half_edges[x].incident_face));
        if m0.half_edges[a].prev == Some(x as usize) {
            assert(y == a);
            assert(m0.walk(a, 0) == a);
            assert(false);
        }
        if m0.half_edges[b].prev == Some(x as usize) {
            assert(y == b);
            assert(false);
        }
    }
}

/// A boundary that a face named before the split, walked from where the
/// face names it after the split, holds half-edges of that face only.
proof fn lemma_divided_boundary(m0: Subdivision, m: Subdivision, a: int, b: int, f: int, s0: usize)
    requires
        can_divide(m0, a, b),
        divides(m0, m, a, b),
        0 <= f < m0.faces.len(),
        s0 < m0.half_edges.len(),
        m0.boundary_violation(s0 as int, f) is None,
    ensures
        m.boundary_violation(moved_component(m0, m, s0) as int, f) is None,
        f != m0.half_edges[a].incident_face->0 ==> moved_component(m0, m, s0) == s0,
{
    lemma_divide_setting(m0, a, b);
    lemma_divides_relinked(m0, m, a, b);
    lemma_relinked_chained(m0, m, a, b);
    let n = m0.half_edges.len() as int;
    let s2 = second_new(m0);
    let s = moved_component(m0, m, s0) as int;
    lemma_boundary_violation_from(m, s, f, 0);
    if !m0.same_boundary(a, s0 as int) {
        lemma_other_boundary_unchanged(m0, m, a, b, s0 as int, 0);
        assert(s == s0);
        assert forall|i: nat| i < m.period_of(s) implies m.bounds_face(
            #[trigger] m.walk(s, i) as usize,
            f,
        ) by {
            lemma_other_boundary_unchanged(m0, m, a, b, s0 as int, i);
            lemma_boundary_belongs(m0, s0 as int, f, i);
            let y = m0.walk(s0 as int, i);
            assert(m.half_edges[y] == divided_half_edge(m0, m, a, b, y));
        }
    } else {
        // The boundary is that of `a`, so the face is that of `a`.
        lemma_same_boundary_symmetric(m0, a, s0 as int);
        let back = choose|k: nat| m0.walk(s0 as int, k) == a;
        lemma_boundary_belongs(m0, s0 as int, f, back);
        assert(m0.half_edges[a].incident_face == Some(f as usize));
        assert(m.walk(a, 0) == a);
        assert(m.same_boundary(a, a));
        lemma_old_part_members(m0, m, a, b, a);
        if m.same_boundary(s2, s0 as int) {
            assert(s == n);
        } else {
            lemma_boundary_is_divided(m0, m, a, b, s0 as int);
        }
        assert(m.same_boundary(a, s));
        assert forall|i: nat| i < m.period_of(s) implies m.bounds_face(
            #[trigger] m.walk(s, i) as usize,
            f,
        ) by {
            let y = m.walk(s, i);
            assert(m.same_boundary(s, y));
            lemma_same_boundary_transitive(m, a, s, y);
            lemma_old_part_members(m0, m, a, b, y);
            if y != n {
                let k = choose|k: nat| m0.walk(a, k) == y;
                lemma_walk_add(m0, s0 as int, back, k);
                lemma_boundary_belongs(m0, s0 as int, f, back + k);
                assert(m.half_edges[y] == divided_half_edge(m0, m, a, b, y));
            }
        }
    }
}

/// After the split the boundary of the second new half-edge holds
/// half-edges of the new face only.
proof fn lemma_new_boundary(m0: Subdivision, m: Subdivision, a: int, b: int)
    requires
        can_divide(m0, a, b),
        divides(m0, m, a, b),
    ensures
        m.boundary_violation(second_new(m0), m0.faces.len() as int) is None,
{
    lemma_divide_setting(m0, a, b);
    lemma_divides_relinked(m0, m, a, b);
    lemma_relinked_chained(m0, m, a, b);
    lemma_old_part_closed(m0, m, a, b);
    let n = m0.half_edges.len() as int;
    let s2 = second_new(m0);
    let f = m0.faces.len() as int;
    lemma_boundary_violation_from(m, s2, f, 0);
    assert forall|i: nat| i < m.period_of(s2) implies m.bounds_face(
        #[trigger] m.walk(s2, i) as usize,
        f,
    ) by {
        let y = m.walk(s2, i);
        lemma_walk_in_bounds(m, s2, i);
        assert(m.same_boundary(s2, y));
        if y < n {
            assert(m.half_edges[y] == divided_half_edge(m0, m, a, b, y));
        }
    }
}

/// Splitting a face of a consistent subdivision by a diagonal between two
/// different half-edges of one boundary gives a consistent subdivision,
/// with one face more.
pub proof fn lemma_divide_keeps_consistent(m0: Subdivision, m: Subdivision, a: int, b: int)
    requires
        can_divide(m0, a, b),
        divides(m0, m, a, b),
    ensures
        m.consistent(),
        m.faces.len() == m0.faces.len() + 1,
{
    lemma_divide_setting(m0, a, b);
    lemma_divides_relinked(m0, m, a, b);
    lemma_divide_linked(m0, m, a, b);
    let n = m0.half_edges.len() as int;
    let faces = m0.faces.len() as int;
    let old_face = m0.half_edges[a].incident_face->0 as int;
    assert forall|v: int| 0 <= v < m.vertices.len() implies (#[trigger] m.vertex_violation(
        v,
    )) is None by {
        assert(m0.vertex_violation(v) is None);
        assert(m0.edge_ref(m0.vertices[v].incident_edge));
        let e = m0.vertices[v].incident_edge->0 as int;
        assert(m.half_edges[e] == divided_half_edge(m0, m, a, b, e));
    }
    assert forall|f: int| 0 <= f < m.faces.len() implies (#[trigger] m.face_violation(
        f,
    )) is None by {
        lemma_hole_violation_from(m, f, 0);
        if f < faces {
            assert(m0.face_violation(f) is None);
            assert(m0.face_in_bounds(f));
            lemma_hole_violation_from(m0, f, 0);
            if f != old_face {
                assert(m.faces[f] == m0.faces[f]);
            }
            if m0.faces[f].outer_component is Some {
                lemma_divided_boundary(m0, m, a, b, f, m0.faces[f].outer_component->0);
            }
            assert forall|j: int| 0 <= j < m.faces[f].inner_component.len() implies m.boundary_violation(
                #[trigger] m.faces[f].inner_component[j] as int,
                f,
            ) is None by {
                let s0 = m0.faces[f].inner_component[j];
                assert(m0.boundary_violation(s0 as int, f) is None);
                lemma_divided_boundary(m0, m, a, b, f, s0);
                if f == old_face {
                    assert(m.faces[f].inner_component[j] == moved_component(m0, m, s0));
                }
            }
        } else {
            lemma_new_boundary(m0, m, a, b);
        }
    }
}

/// In a uniform structure, an old half-edge that lies, after the split, on
/// the boundary of the second new half-edge was incident to the face of
/// `a`: only half-edges of the old face change their face.
pub proof fn lemma_new_part_was_old_face(m0: Subdivision, m: Subdivision, a: int, b: int, e: int)
    requires
        can_divide(m0, a, b),
        m0.uniform(),
        relinked(m0, m, a, b),
        0 <= e < m0.half_edges.len(),
        m.same_boundary(second_new(m0), e),
    ensures
        m0.half_edges[e].incident_face == m0.half_edges[a].incident_face,
{
    lemma_divide_setting(m0, a, b);
    lemma_new_part_was_on_boundary(m0, m, a, b, e);
    let k = choose|k: nat| m0.walk(a, k) == e;
    lemma_walk_keeps_face(m0, a, k);
}

/// Splitting a face of a uniform subdivision keeps it uniform.
pub proof fn lemma_divide_keeps_uniform(m0: Subdivision, m: Subdivision, a: int, b: int)
    requires
        can_divide(m0, a, b),
        m0.uniform(),
        divides(m0, m, a, b),
    ensures
        m.uniform(),
{
    lemma_divide_setting(m0, a, b);
    lemma_divides_relinked(m0, m, a, b);
    lemma_relinked_chained(m0, m, a, b);
    lemma_old_part_closed(m0, m, a, b);
    let n = m0.half_edges.len() as int;
    let s2 = second_new(m0);
    let a_prev = m0.half_edges[a].prev->0 as int;
    let b_prev = m0.half_edges[b].prev->0 as int;
    let kb = choose|k: nat| m0.walk(a, k) == b;
    lemma_walk_keeps_face(m0, a, kb);
    assert(m.walk(s2, 0) == s2);
    assert(m.same_boundary(s2, s2));
    assert(m.half_edges[a] == divided_half_edge(m0, m, a, b, a));
    assert(m.half_edges[b] == divided_half_edge(m0, m, a, b, b));
    assert(m.half_edges[a_prev] == divided_half_edge(m0, m, a, b, a_prev));
    assert(m.half_edges[b_prev] == divided_half_edge(m0, m, a, b, b_prev));
    assert forall|e: int| 0 <= e < m.half_edges.len() implies #[trigger] m.keeps_face(e) by {
        assert(m.chained_at(e));
        assert(m.edge_in_bounds(e));
        lemma_new_part_closed(m0, m, a, b, e);
        let x = m.next_of(e);
        if e == n {
            assert(x == a);
        } else if e == s2 {
            assert(x == b);
        } else {
            assert(m0.edge_violation(e) is None);
            assert(m0.edge_in_bounds(e));
            assert(m0.keeps_face(e));
            assert(m.half_edges[e] == divided_half_edge(m0, m, a, b, e));
            if e == a_prev {
                assert(x == s2);
            } else if e == b_prev {
                assert(x == n);
                assert(m0.keeps_face(b_prev));
            } else {
                assert(x == m0.next_of(e));
                assert(m.half_edges[x] == divided_half_edge(m0, m, a, b, x));
            }
        }
    }
}

} // verus!
