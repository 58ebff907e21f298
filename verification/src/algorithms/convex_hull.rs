//! Three constructions of the convex hull of a set of points. Each returns
//! the corners of the hull in clockwise order, starting at the lowest of the
//! leftmost points. Points on an edge of the hull are not corners, and no
//! corner is listed twice, so all three return the same sequence.

use crate::algorithms::polygon_area::wrap_next;
use crate::algorithms::turn_lemmas::{
    edge_wedge_dx, edge_wedge_dy, in_wedge, lemma_cross_along_edge, lemma_cross_is_vcross,
    lemma_cross_symmetries, lemma_edge_wedge, lemma_lex_wedge, lemma_three_vectors,
    lemma_vectors_left_of, lemma_vectors_same_direction, lemma_wedge_collinear,
    lemma_wedge_farther, lemma_wedge_left_of, reach, right_or_on, vcross,
};
use crate::algorithms::point_sort::{
    all_in_domain, lemma_ordered_transitive, ordered, sort_points, sorted_by, PointOrder,
};
use crate::dcel_model::lemma_pigeonhole;
use crate::primitives2d::{cross, cross_product, lex_le, lex_lt, on_segment, Line2D, Point2D};
use vstd::prelude::*;

verus! {

/// `m` is the first of `pts` in the order by `x`, then `y`.
pub open spec fn is_lowest(pts: Seq<Point2D>, m: Point2D) -> bool {
    &&& pts.contains(m)
    &&& forall|j: int| 0 <= j < pts.len() ==> lex_le(m, #[trigger] pts[j])
}

/// Every point of `pts` lies to the right of the directed line from `c` to
/// `d` or on the segment between them.
pub open spec fn bounds_all(c: Point2D, d: Point2D, pts: Seq<Point2D>) -> bool {
    forall|j: int| 0 <= j < pts.len() ==> right_or_on(c, d, #[trigger] pts[j])
}

/// Every point of `pts` lies to the right of edge `i` of the closed polygon
/// `h`, which runs from corner `i` to the corner after it, or on that edge.
pub open spec fn hull_edge(h: Seq<Point2D>, i: int, pts: Seq<Point2D>) -> bool {
    bounds_all(h[i], h[wrap_next(i, h.len() as int)], pts)
}

/// `h` lists the corners of the convex hull of `pts` clockwise from the
/// lowest point: the corners are points of `pts` and all different, and
/// every point of `pts` lies to the right of each edge or on it, the last
/// edge leading back to the first corner.
pub open spec fn is_hull_of(h: Seq<Point2D>, pts: Seq<Point2D>) -> bool {
    &&& h.len() >= 1
    &&& is_lowest(pts, h[0])
    &&& forall|i: int| 0 <= i < h.len() ==> pts.contains(#[trigger] h[i])
    &&& h.no_duplicates()
    &&& forall|i: int| 0 <= i < h.len() ==> #[trigger] hull_edge(h, i, pts)
}

/// `p` does not lie to the left of edge `i` of the closed polygon `h`.
pub open spec fn not_left_of_edge(h: Seq<Point2D>, i: int, p: Point2D) -> bool {
    cross(h[i], h[wrap_next(i, h.len() as int)], p) <= 0
}

/// `p` lies inside the closed polygon `h`, given clockwise, or on its
/// boundary: it lies to the left of none of its edges.
pub open spec fn inside_or_on(h: Seq<Point2D>, p: Point2D) -> bool {
    forall|i: int| 0 <= i < h.len() ==> #[trigger] not_left_of_edge(h, i, p)
}

/// Two points that each lie to the right of the line from `c` to the other,
/// or on the segment from `c` to the other, are one point.
pub proof fn lemma_successor_unique(c: Point2D, q1: Point2D, q2: Point2D)
    requires
        right_or_on(c, q1, q2),
        right_or_on(c, q2, q1),
    ensures
        q1 == q2,
{
    lemma_cross_symmetries(c, q1, q2);
}

/// If `c2` lies to the right of the line from `c1` to `q` or on the segment
/// between them, and `c1` likewise for the line from `c2` to `q`, then `c1`
/// and `c2` are one point.
pub proof fn lemma_predecessor_unique(c1: Point2D, c2: Point2D, q: Point2D)
    requires
        right_or_on(c1, q, c2),
        right_or_on(c2, q, c1),
    ensures
        c1 == c2,
{
    lemma_cross_symmetries(c1, q, c2);
    lemma_cross_symmetries(c2, q, c1);
    lemma_cross_symmetries(q, c1, c2);
}

/// Corner by corner, two hulls of one set of points are the same.
proof fn lemma_hull_prefix(pts: Seq<Point2D>, h1: Seq<Point2D>, h2: Seq<Point2D>, i: int)
    requires
        is_hull_of(h1, pts),
        is_hull_of(h2, pts),
        0 <= i < h1.len(),
        0 <= i < h2.len(),
    ensures
        h1[i] == h2[i],
    decreases i,
{
    if i == 0 {
        let j1 = choose|j: int| 0 <= j < pts.len() && pts[j] == h1[0];
        let j2 = choose|j: int| 0 <= j < pts.len() && pts[j] == h2[0];
        assert(lex_le(h1[0], pts[j2]));
        assert(lex_le(h2[0], pts[j1]));
    } else {
        lemma_hull_prefix(pts, h1, h2, i - 1);
        let c = h1[i - 1];
        assert(hull_edge(h1, i - 1, pts));
        assert(hull_edge(h2, i - 1, pts));
        let j1 = choose|j: int| 0 <= j < pts.len() && pts[j] == h1[i];
        let j2 = choose|j: int| 0 <= j < pts.len() && pts[j] == h2[i];
        assert(right_or_on(c, h1[i], pts[j2]));
        assert(right_or_on(c, h2[i], pts[j1]));
        lemma_successor_unique(c, h1[i], h2[i]);
    }
}

/// A hull is not a proper beginning of another hull of the same points.
proof fn lemma_hull_not_longer(pts: Seq<Point2D>, h1: Seq<Point2D>, h2: Seq<Point2D>)
    requires
        is_hull_of(h1, pts),
        is_hull_of(h2, pts),
    ensures
        h2.len() <= h1.len(),
{
    if h1.len() < h2.len() {
        let m = h1.len() as int;
        lemma_hull_prefix(pts, h1, h2, m - 1);
        lemma_hull_prefix(pts, h1, h2, 0);
        let c = h1[m - 1];
        assert(hull_edge(h1, m - 1, pts));
        assert(hull_edge(h2, m - 1, pts));
        let j1 = choose|j: int| 0 <= j < pts.len() && pts[j] == h1[0];
        let j2 = choose|j: int| 0 <= j < pts.len() && pts[j] == h2[m];
        assert(right_or_on(c, h1[0], pts[j2]));
        assert(right_or_on(c, h2[m], pts[j1]));
        lemma_successor_unique(c, h1[0], h2[m]);
        assert(h2[0] == h2[m]);
        assert(false);
    }
}

/// A set of points has one hull only: whatever lists the corners of the
/// hull clockwise from the lowest point lists the same corners in the same
/// order. It follows that the three constructions of this module agree.
pub proof fn lemma_hull_unique(pts: Seq<Point2D>, h1: Seq<Point2D>, h2: Seq<Point2D>)
    requires
        is_hull_of(h1, pts),
        is_hull_of(h2, pts),
    ensures
        h1 == h2,
{
    lemma_hull_not_longer(pts, h1, h2);
    lemma_hull_not_longer(pts, h2, h1);
    assert forall|i: int| 0 <= i < h1.len() implies h1[i] == h2[i] by {
        lemma_hull_prefix(pts, h1, h2, i);
    }
    assert(h1 =~= h2);
}

/// The corners of a hull are among the points it is the hull of, and each
/// of those points lies inside the hull or on its boundary.
pub proof fn lemma_hull_encloses(pts: Seq<Point2D>, h: Seq<Point2D>)
    requires
        is_hull_of(h, pts),
    ensures
        forall|i: int| 0 <= i < h.len() ==> pts.contains(#[trigger] h[i]),
        forall|j: int| 0 <= j < pts.len() ==> inside_or_on(h, #[trigger] pts[j]),
{
    assert forall|j: int| 0 <= j < pts.len() implies inside_or_on(h, #[trigger] pts[j]) by {
        assert forall|i: int| 0 <= i < h.len() implies #[trigger] not_left_of_edge(
            h,
            i,
            pts[j],
        ) by {
            assert(hull_edge(h, i, pts));
            assert(right_or_on(h[i], h[wrap_next(i, h.len() as int)], pts[j]));
        }
    }
}

/// Different points of `pts`, listed without repetition, are no more than
/// `pts` has entries.
pub proof fn lemma_distinct_members_bounded(h: Seq<Point2D>, pts: Seq<Point2D>)
    requires
        h.no_duplicates(),
        forall|i: int| 0 <= i < h.len() ==> pts.contains(#[trigger] h[i]),
    ensures
        h.len() <= pts.len(),
{
    if h.len() > pts.len() {
        let w = Seq::new(h.len(), |i: int| choose|j: int| 0 <= j < pts.len() && pts[j] == h[i]);
        assert forall|i: int| 0 <= i < w.len() implies 0 <= #[trigger] w[i] < pts.len() by {
            assert(pts.contains(h[i]));
        }
        lemma_pigeonhole(w, pts.len() as int);
        let (i, k) = choose|i: int, k: int| 0 <= i < k < w.len() && w[i] == w[k];
        assert(pts.contains(h[i]));
        assert(pts.contains(h[k]));
        assert(pts[w[i]] == h[i]);
        assert(pts[w[k]] == h[k]);
        assert(false);
    }
}

/// Returns the first of `points` in the order by `x`, then `y`.
fn lowest_point(points: &[Point2D]) -> (m: Point2D)
    requires
        points@.len() >= 1,
    ensures
        is_lowest(points@, m),
{
    let n: usize = points.len();
    let mut lowest: Point2D = points[0];
    let mut i: usize = 1;
    while i < n
        invariant
            n == points@.len(),
            1 <= i <= n,
            points@.contains(lowest),
            forall|j: int| 0 <= j < i ==> lex_le(lowest, #[trigger] points@[j]),
        decreases n - i,
    {
        if points[i].precedes(&lowest) {
            lowest = points[i];
        }
        i = i + 1;
    }
    lowest
}

/// Returns the point that follows `current` on the hull of `points`: the
/// one that has no point to the left of the ray from `current` through it,
/// and of those on that ray the farthest. All points are known to lie in one
/// wedge at `current`. If all points are `current`, that is returned.
fn wrap_step(points: &[Point2D], current: Point2D, Ghost(dx): Ghost<int>, Ghost(dy): Ghost<int>)
    -> (next: Point2D)
    requires
        points@.len() >= 1,
        points@.contains(current),
        forall|j: int| 0 <= j < points@.len() ==> in_wedge(current, dx, dy, #[trigger] points@[j]),
    ensures
        points@.contains(next),
        bounds_all(current, next, points@),
        next == current ==> forall|j: int| 0 <= j < points@.len() ==> #[trigger] points@[j] == current,
{
    let n: usize = points.len();
    let mut next: Point2D = current;
    let mut i: usize = 0;
    while i < n
        invariant
            n == points@.len(),
            i <= n,
            points@.contains(next),
            points@.contains(current),
            forall|j: int| 0 <= j < points@.len() ==> in_wedge(current, dx, dy, #[trigger] points@[j]),
            next == current ==> forall|j: int| 0 <= j < i ==> #[trigger] points@[j] == current,
            forall|j: int| 0 <= j < i ==> right_or_on(current, next, #[trigger] points@[j]),
        decreases n - i,
    {
        let p: Point2D = points[i];
        let ghost old_next = next;
        proof {
            assert(in_wedge(current, dx, dy, points@[i as int]));
            let k = choose|k: int| 0 <= k < points@.len() && points@[k] == next;
            assert(in_wedge(current, dx, dy, points@[k]));
            assert(cross(current, p, p) == 0) by (nonlinear_arith);
            assert(cross(current, p, current) == 0) by (nonlinear_arith);
            assert(cross(current, next, current) == 0) by (nonlinear_arith);
        }
        if next == current {
            next = p;
        } else {
            let turn: i128 = cross_product(&current, &next, &p);
            if turn > 0 {
                next = p;
                proof {
                    assert forall|j: int| 0 <= j < i implies right_or_on(
                        current,
                        p,
                        #[trigger] points@[j],
                    ) by {
                        let q = points@[j];
                        assert(in_wedge(current, dx, dy, q));
                        assert(right_or_on(current, old_next, q));
                        if q != current {
                            lemma_wedge_left_of(current, dx, dy, old_next, p, q);
                        }
                    }
                }
            } else if turn == 0 && p != next && (Line2D { p1: current, p2: p }).contains_point(
                &next,
            ) {
                next = p;
                proof {
                    assert forall|j: int| 0 <= j < i implies right_or_on(
                        current,
                        p,
                        #[trigger] points@[j],
                    ) by {
                        let q = points@[j];
                        assert(in_wedge(current, dx, dy, q));
                        assert(right_or_on(current, old_next, q));
                        lemma_wedge_farther(current, dx, dy, old_next, p, q);
                    }
                }
            } else {
                proof {
                    if turn == 0 {
                        lemma_wedge_collinear(current, dx, dy, next, p);
                    }
                }
            }
        }
        i = i + 1;
    }
    proof {
        if next == current {
            assert forall|j: int| 0 <= j < points@.len() implies right_or_on(
                current,
                next,
                #[trigger] points@[j],
            ) by {
                assert(cross(current, current, current) == 0) by (nonlinear_arith);
            }
        }
    }
    next
}

/// Returns the convex hull of `points` by gift wrapping: from the lowest
/// point on, the hull is followed corner by corner, each time taking the
/// point that has no other to the left of the ray through it. The effort
/// grows with the number of points times the number of corners.
pub fn jarvis_march(points: &[Point2D]) -> (hull: Vec<Point2D>)
    requires
        points@.len() >= 1,
    ensures
        is_hull_of(hull@, points@),
{
    let n: usize = points.len();
    let left_most_point: Point2D = lowest_point(points);
    let mut hull: Vec<Point2D> = Vec::new();
    hull.push(left_most_point);
    let mut current_point: Point2D = left_most_point;
    let ghost mut dx: int = -1;
    let ghost mut dy: int = 0x2_0000_0000;
    proof {
        assert forall|j: int| 0 <= j < points@.len() implies in_wedge(
            current_point,
            dx,
            dy,
            #[trigger] points@[j],
        ) by {
            lemma_lex_wedge(current_point, points@[j]);
        }
        lemma_distinct_members_bounded(hull@, points@);
    }
    loop
        invariant
            n == points@.len(),
            n >= 1,
            1 <= hull@.len() <= n,
            hull@[0] == left_most_point,
            is_lowest(points@, left_most_point),
            current_point == hull@[hull@.len() - 1],
            forall|i: int| 0 <= i < hull@.len() ==> points@.contains(#[trigger] hull@[i]),
            hull@.no_duplicates(),
            forall|i: int| 0 <= i < hull@.len() - 1 ==> #[trigger] hull_edge(hull@, i, points@),
            forall|j: int|
                0 <= j < points@.len() ==> in_wedge(current_point, dx, dy, #[trigger] points@[j]),
        ensures
            is_hull_of(hull@, points@),
        decreases n - hull@.len(),
    {
        let next_point: Point2D = wrap_step(points, current_point, Ghost(dx), Ghost(dy));
        if next_point == left_most_point {
            break ;
        }
        proof {
            let k = hull@.len() as int;
            assert(next_point != current_point) by {
                if next_point == current_point {
                    let j = choose|j: int| 0 <= j < points@.len() && points@[j] == left_most_point;
                    assert(points@[j] == current_point);
                }
            }
            assert forall|i: int| 0 <= i < k implies hull@[i] != next_point by {
                if hull@[i] == next_point {
                    assert(i >= 1);
                    assert(hull_edge(hull@, i - 1, points@));
                    let j1 = choose|j: int| 0 <= j < points@.len() && points@[j] == current_point;
                    let j2 = choose|j: int| 0 <= j < points@.len() && points@[j] == hull@[i - 1];
                    assert(right_or_on(hull@[i - 1], next_point, points@[j1]));
                    assert(right_or_on(current_point, next_point, points@[j2]));
                    lemma_predecessor_unique(hull@[i - 1], current_point, next_point);
                    assert(hull@[i - 1] == hull@[k - 1]);
                }
            }
            let grown = hull@.push(next_point);
            assert(grown.no_duplicates());
            assert forall|i: int| 0 <= i < grown.len() - 1 implies #[trigger] hull_edge(
                grown,
                i,
                points@,
            ) by {
                if i < k - 1 {
                    assert(hull_edge(hull@, i, points@));
                }
            }
            assert forall|i: int| 0 <= i < grown.len() implies points@.contains(
                #[trigger] grown[i],
            ) by {
                if i < k {
                    assert(grown[i] == hull@[i]);
                }
            }
            lemma_distinct_members_bounded(grown, points@);
            assert forall|j: int| 0 <= j < points@.len() implies in_wedge(
                next_point,
                edge_wedge_dx(current_point, next_point),
                edge_wedge_dy(current_point, next_point),
                #[trigger] points@[j],
            ) by {
                lemma_edge_wedge(current_point, next_point, points@[j]);
            }
            dx = edge_wedge_dx(current_point, next_point);
            dy = edge_wedge_dy(current_point, next_point);
        }
        hull.push(next_point);
        current_point = next_point;
    }
    hull
}

/// `b` comes strictly after `a` in the sweep: by `x`, then `y`, upwards if
/// `up` and downwards if not.
pub open spec fn ahead(up: bool, a: Point2D, b: Point2D) -> bool {
    if up {
        lex_lt(a, b)
    } else {
        lex_lt(b, a)
    }
}

/// `b` is `a` or comes after it in the sweep.
pub open spec fn not_before(up: bool, a: Point2D, b: Point2D) -> bool {
    a == b || ahead(up, a, b)
}

/// The direction to whose right all that is ahead in the sweep lies.
pub open spec fn sweep_dx(up: bool) -> int {
    if up {
        -1
    } else {
        1
    }
}

/// See `sweep_dx`.
pub open spec fn sweep_dy(up: bool) -> int {
    if up {
        0x2_0000_0000
    } else {
        -0x2_0000_0000
    }
}

/// How far ahead of `a` in the sweep `b` lies.
pub open spec fn lead(up: bool, a: Point2D, b: Point2D) -> int {
    reach(sweep_dx(up), sweep_dy(up), b.x - a.x, b.y - a.y)
}

/// What is ahead in the sweep lies to the right of the sweep's direction,
/// and the farther ahead, the farther to the right.
proof fn lemma_lead(up: bool, a: Point2D, b: Point2D)
    ensures
        ahead(up, a, b) <==> lead(up, a, b) > 0,
        a == b ==> lead(up, a, b) == 0,
        up ==> lead(up, a, b) == 0x2_0000_0000 * (b.x - a.x) + (b.y - a.y),
        !up ==> lead(up, a, b) == -(0x2_0000_0000 * (b.x - a.x) + (b.y - a.y)),
{
    assert(reach(-1, 0x2_0000_0000, b.x - a.x, b.y - a.y) == 0x2_0000_0000 * (b.x - a.x) + (b.y
        - a.y)) by (nonlinear_arith);
    assert(reach(1, -0x2_0000_0000, b.x - a.x, b.y - a.y) == -(0x2_0000_0000 * (b.x - a.x) + (b.y
        - a.y))) by (nonlinear_arith);
}

/// Corner `t + 1` of `st` is ahead of corner `t` in the sweep.
pub open spec fn step_ahead(st: Seq<Point2D>, t: int, up: bool) -> bool {
    ahead(up, st[t], st[t + 1])
}

/// The path through the corners `t`, `t + 1` and `t + 2` of `st` turns right.
pub open spec fn turns_right(st: Seq<Point2D>, t: int) -> bool {
    cross(st[t], st[t + 1], st[t + 2]) < 0
}

/// Every point of `seen` lies to the right of the edge from corner `t` of
/// `st` to corner `t + 1`, or on it.
pub open spec fn edge_bounds(st: Seq<Point2D>, t: int, seen: Seq<Point2D>) -> bool {
    bounds_all(st[t], st[t + 1], seen)
}

/// A chain of hull corners under construction. `st` holds corners; those
/// from index `floor` on are the chain. `seen` are the points swept so far,
/// the last of them the last corner. The chain runs ahead in the sweep and
/// turns right at every corner, all points seen lie between its first and
/// its last corner in the sweep, and each lies to the right of every edge of
/// the chain or on it.
pub open spec fn chain_ok(st: Seq<Point2D>, floor: int, seen: Seq<Point2D>, up: bool) -> bool {
    &&& 0 <= floor < st.len()
    &&& seen.len() >= 1
    &&& st[st.len() - 1] == seen[seen.len() - 1]
    &&& forall|t: int| floor <= t < st.len() - 1 ==> #[trigger] step_ahead(st, t, up)
    &&& forall|t: int| floor <= t < st.len() - 2 ==> #[trigger] turns_right(st, t)
    &&& forall|i: int|
        0 <= i < seen.len() ==> not_before(up, st[floor], #[trigger] seen[i]) && not_before(
            up,
            seen[i],
            st[st.len() - 1],
        )
    &&& forall|t: int| floor <= t < st.len() - 1 ==> #[trigger] edge_bounds(st, t, seen)
}

/// Along a chain, a later corner is ahead of an earlier one.
proof fn lemma_chain_ahead(st: Seq<Point2D>, floor: int, i: int, j: int, up: bool)
    requires
        0 <= floor <= i <= j < st.len(),
        forall|t: int| floor <= t < st.len() - 1 ==> #[trigger] step_ahead(st, t, up),
    ensures
        not_before(up, st[i], st[j]),
        i < j ==> ahead(up, st[i], st[j]),
    decreases j - i,
{
    if i < j {
        lemma_chain_ahead(st, floor, i + 1, j, up);
        assert(step_ahead(st, i, up));
    }
}

/// A point ahead of the corner `st[j]` that lies strictly to the right of
/// the edge into that corner lies strictly to the right of every earlier
/// edge of the chain.
proof fn lemma_chain_sees(st: Seq<Point2D>, floor: int, j: int, p: Point2D, up: bool, t: int)
    requires
        0 <= floor <= t < j < st.len(),
        forall|i: int| floor <= i < st.len() - 1 ==> #[trigger] step_ahead(st, i, up),
        forall|i: int| floor <= i < j - 1 ==> #[trigger] turns_right(st, i),
        ahead(up, st[j], p),
        cross(st[j - 1], st[j], p) < 0,
    ensures
        cross(st[t], st[t + 1], p) < 0,
    decreases j - t,
{
    if t < j - 1 {
        lemma_chain_sees(st, floor, j, p, up, t + 1);
        let f = st[t];
        let c = st[t + 1];
        let g = st[t + 2];
        assert(step_ahead(st, t, up));
        assert(step_ahead(st, t + 1, up));
        assert(turns_right(st, t));
        lemma_chain_ahead(st, floor, t + 1, j, up);
        lemma_lead(up, f, c);
        lemma_lead(up, c, g);
        lemma_lead(up, c, p);
        lemma_lead(up, c, st[j]);
        lemma_lead(up, st[j], p);
        let (ax, ay) = (c.x - f.x, c.y - f.y);
        let (nx, ny) = (g.x - c.x, g.y - c.y);
        let (qx, qy) = (p.x - c.x, p.y - c.y);
        lemma_cross_along_edge(f, c, g);
        lemma_cross_is_vcross(c, g, p);
        lemma_cross_along_edge(f, c, p);
        assert(vcross(nx, ny, ax, ay) == -vcross(ax, ay, nx, ny)) by (nonlinear_arith)
            requires
                vcross(nx, ny, ax, ay) == nx * ay - ny * ax,
                vcross(ax, ay, nx, ny) == ax * ny - ay * nx,
        ;
        lemma_vectors_left_of(sweep_dx(up), sweep_dy(up), nx, ny, ax, ay, qx, qy);
    }
}

/// After corners have been taken off the end of a chain because the new
/// point `p` does not turn right at them, every point seen lies to the right
/// of the edge from the corner `st[j]` that is left to `p`, or on it.
proof fn lemma_new_edge_bounds(
    st: Seq<Point2D>,
    floor: int,
    j: int,
    p: Point2D,
    seen: Seq<Point2D>,
    up: bool,
    i: int,
)
    requires
        chain_ok(st, floor, seen, up),
        floor <= j < st.len(),
        ahead(up, st[st.len() - 1], p),
        j + 1 < st.len() ==> cross(st[j], st[j + 1], p) >= 0,
        j > floor ==> cross(st[j - 1], st[j], p) < 0,
        0 <= i < seen.len(),
    ensures
        right_or_on(st[j], p, seen[i]),
{
    let c = st[j];
    let q = seen[i];
    let top = st[st.len() - 1];
    let (dx, dy) = (sweep_dx(up), sweep_dy(up));
    lemma_chain_ahead(st, floor, j, st.len() - 1, up);
    lemma_chain_ahead(st, floor, floor, j, up);
    lemma_lead(up, c, p);
    lemma_lead(up, c, q);
    lemma_lead(up, q, c);
    lemma_lead(up, c, top);
    lemma_lead(up, top, p);
    lemma_lead(up, q, top);
    lemma_lead(up, st[floor], q);
    lemma_lead(up, st[floor], c);
    assert(cross(c, p, c) == 0) by (nonlinear_arith);
    assert(not_before(up, st[floor], q) && not_before(up, q, top));
    if q == c {
    } else if ahead(up, c, q) {
        // `q` came after `c`, so corners after `c` have been taken off.
        assert(j + 1 < st.len());
        let m = st[j + 1];
        assert(step_ahead(st, j, up));
        assert(edge_bounds(st, j, seen));
        assert(right_or_on(c, m, q));
        lemma_lead(up, c, m);
        assert(in_wedge(c, dx, dy, m));
        assert(in_wedge(c, dx, dy, p));
        assert(in_wedge(c, dx, dy, q));
        if cross(c, m, p) > 0 {
            lemma_wedge_left_of(c, dx, dy, m, p, q);
        } else {
            lemma_cross_is_vcross(c, m, p);
            lemma_cross_is_vcross(c, m, q);
            lemma_cross_is_vcross(c, p, q);
            lemma_vectors_same_direction(
                dx,
                dy,
                m.x - c.x,
                m.y - c.y,
                p.x - c.x,
                p.y - c.y,
                q.x - c.x,
                q.y - c.y,
            );
            if cross(c, p, q) == 0 {
                lemma_wedge_collinear(c, dx, dy, p, q);
            }
        }
    } else {
        // `q` came before `c`, so `c` is not the first corner of the chain.
        assert(ahead(up, q, c));
        assert(j > floor);
        let f = st[j - 1];
        assert(step_ahead(st, j - 1, up));
        assert(edge_bounds(st, j - 1, seen));
        assert(right_or_on(f, c, q));
        lemma_lead(up, f, c);
        let (ux, uy) = (c.x - f.x, c.y - f.y);
        let (vx, vy) = (p.x - c.x, p.y - c.y);
        let (wx, wy) = (c.x - q.x, c.y - q.y);
        lemma_cross_along_edge(f, c, q);
        lemma_cross_along_edge(f, c, p);
        lemma_cross_is_vcross(c, p, q);
        assert(vcross(ux, uy, q.x - c.x, q.y - c.y) == -vcross(ux, uy, wx, wy)) by (nonlinear_arith)
            requires
                vcross(ux, uy, q.x - c.x, q.y - c.y) == ux * (q.y - c.y) - uy * (q.x - c.x),
                vcross(ux, uy, wx, wy) == ux * wy - uy * wx,
                wx == c.x - q.x,
                wy == c.y - q.y,
        ;
        assert(vcross(vx, vy, q.x - c.x, q.y - c.y) == vcross(wx, wy, vx, vy)) by (nonlinear_arith)
            requires
                vcross(vx, vy, q.x - c.x, q.y - c.y) == vx * (q.y - c.y) - vy * (q.x - c.x),
                vcross(wx, wy, vx, vy) == wx * vy - wy * vx,
                wx == c.x - q.x,
                wy == c.y - q.y,
        ;
        if vcross(ux, uy, wx, wy) > 0 {
            lemma_vectors_left_of(dx, dy, ux, uy, wx, wy, vx, vy);
        } else {
            lemma_vectors_same_direction(dx, dy, ux, uy, wx, wy, vx, vy);
        }
    }
}

/// The chain that is left when the corners after `st[j]` are taken off and
/// `p` is put on is a chain again, for the points seen and `p`.
proof fn lemma_chain_grows(
    st: Seq<Point2D>,
    floor: int,
    j: int,
    p: Point2D,
    seen: Seq<Point2D>,
    up: bool,
)
    requires
        chain_ok(st, floor, seen, up),
        floor <= j < st.len(),
        ahead(up, st[st.len() - 1], p),
        j + 1 < st.len() ==> cross(st[j], st[j + 1], p) >= 0,
        j > floor ==> cross(st[j - 1], st[j], p) < 0,
    ensures
        chain_ok(st.subrange(0, j + 1).push(p), floor, seen.push(p), up),
{
    let grown = st.subrange(0, j + 1).push(p);
    let all = seen.push(p);
    lemma_chain_ahead(st, floor, j, st.len() - 1, up);
    lemma_chain_ahead(st, floor, floor, j, up);
    assert(ahead(up, st[j], p));
    assert(grown.len() == j + 2);
    assert(grown[j + 1] == p);
    assert forall|t: int| 0 <= t <= j implies grown[t] == st[t] by {}
    assert forall|t: int| floor <= t < grown.len() - 1 implies #[trigger] step_ahead(
        grown,
        t,
        up,
    ) by {
        if t < j {
            assert(step_ahead(st, t, up));
        }
    }
    assert forall|t: int| floor <= t < grown.len() - 2 implies #[trigger] turns_right(grown, t) by {
        if t < j - 1 {
            assert(turns_right(st, t));
        }
    }
    assert forall|i: int| 0 <= i < all.len() implies not_before(
        up,
        grown[floor],
        #[trigger] all[i],
    ) && not_before(up, all[i], grown[grown.len() - 1]) by {
        if i < seen.len() {
            assert(all[i] == seen[i]);
            assert(not_before(up, st[floor], seen[i]) && not_before(up, seen[i], st[st.len() - 1]));
        }
    }
    assert forall|t: int| floor <= t < grown.len() - 1 implies #[trigger] edge_bounds(
        grown,
        t,
        all,
    ) by {
        lemma_chain_grows_edge(st, floor, j, p, seen, up, t);
    }
}

/// See `lemma_chain_grows`: all points lie to the right of the edge of the
/// new chain that starts at its corner `t`, or on it.
proof fn lemma_chain_grows_edge(
    st: Seq<Point2D>,
    floor: int,
    j: int,
    p: Point2D,
    seen: Seq<Point2D>,
    up: bool,
    t: int,
)
    requires
        chain_ok(st, floor, seen, up),
        floor <= j < st.len(),
        ahead(up, st[st.len() - 1], p),
        j + 1 < st.len() ==> cross(st[j], st[j + 1], p) >= 0,
        j > floor ==> cross(st[j - 1], st[j], p) < 0,
        floor <= t <= j,
    ensures
        bounds_all(st[t], if t < j {
            st[t + 1]
        } else {
            p
        }, seen.push(p)),
{
    let all = seen.push(p);
    let d = if t < j {
        st[t + 1]
    } else {
        p
    };
    lemma_chain_ahead(st, floor, j, st.len() - 1, up);
    assert(ahead(up, st[j], p));
    assert(cross(st[j], p, p) == 0) by (nonlinear_arith);
    assert forall|i: int| 0 <= i < all.len() implies right_or_on(st[t], d, #[trigger] all[i]) by {
        if i < seen.len() {
            assert(all[i] == seen[i]);
            if t < j {
                assert(edge_bounds(st, t, seen));
            } else {
                lemma_new_edge_bounds(st, floor, j, p, seen, up, i);
            }
        } else {
            assert(all[i] == p);
            if t < j {
                lemma_chain_sees(st, floor, j, p, up, t);
            }
        }
    }
}

/// Takes the next point of the sweep into the chain: corners at which the
/// path to `p` does not turn right are taken off the end of the chain, then
/// `p` becomes its last corner.
fn add_to_chain(
    stack: &mut Vec<Point2D>,
    floor: usize,
    p: Point2D,
    Ghost(seen): Ghost<Seq<Point2D>>,
    Ghost(up): Ghost<bool>,
)
    requires
        chain_ok(old(stack)@, floor as int, seen, up),
        ahead(up, old(stack)@[old(stack)@.len() - 1], p),
    ensures
        chain_ok(final(stack)@, floor as int, seen.push(p), up),
        floor + 2 <= final(stack)@.len() <= old(stack)@.len() + 1,
        final(stack)@.subrange(0, final(stack)@.len() - 1) == old(stack)@.subrange(
            0,
            final(stack)@.len() - 1,
        ),
        final(stack)@[final(stack)@.len() - 1] == p,
{
    let ghost st = stack@;
    while stack.len() - floor >= 2 && cross_product(
        &stack[stack.len() - 2],
        &stack[stack.len() - 1],
        &p,
    ) >= 0
        invariant
            floor < stack@.len() <= st.len(),
            stack@ == st.subrange(0, stack@.len() as int),
            stack@.len() < st.len() ==> cross(st[stack@.len() - 1], st[stack@.len() as int], p) >= 0,
        decreases stack@.len(),
    {
        stack.pop();
    }
    proof {
        let j = stack@.len() - 1;
        assert(stack@[j] == st[j]);
        if j > floor {
            assert(stack@[j - 1] == st[j - 1]);
        }
        lemma_chain_grows(st, floor as int, j, p, seen, up);
        assert(stack@.push(p) =~= st.subrange(0, j + 1).push(p));
    }
    stack.push(p);
    proof {
        let len = stack@.len() as int;
        assert(stack@.subrange(0, len - 1) =~= st.subrange(0, len - 1));
    }
}

/// A point that is the last corner of a chain can be seen once more.
proof fn lemma_chain_sees_again(st: Seq<Point2D>, floor: int, seen: Seq<Point2D>, up: bool)
    requires
        chain_ok(st, floor, seen, up),
    ensures
        chain_ok(st, floor, seen.push(st[st.len() - 1]), up),
{
    let p = st[st.len() - 1];
    let all = seen.push(p);
    assert forall|i: int| 0 <= i < all.len() implies not_before(up, st[floor], #[trigger] all[i])
        && not_before(up, all[i], st[st.len() - 1]) by {
        if i < seen.len() {
            assert(all[i] == seen[i]);
        } else {
            assert(all[i] == seen[seen.len() - 1]);
        }
    }
    assert forall|t: int| floor <= t < st.len() - 1 implies #[trigger] edge_bounds(st, t, all) by {
        assert(edge_bounds(st, t, seen));
        assert forall|i: int| 0 <= i < all.len() implies right_or_on(
            st[t],
            st[t + 1],
            #[trigger] all[i],
        ) by {
            if i < seen.len() {
                assert(all[i] == seen[i]);
            } else {
                assert(all[i] == seen[seen.len() - 1]);
            }
        }
    }
    assert forall|t: int| floor <= t < st.len() - 1 implies #[trigger] step_ahead(st, t, up) by {}
    assert forall|t: int| floor <= t < st.len() - 2 implies #[trigger] turns_right(st, t) by {}
}

/// Two sequences that hold the same points have the same hull.
pub proof fn lemma_hull_of_same_points(h: Seq<Point2D>, a: Seq<Point2D>, b: Seq<Point2D>)
    requires
        is_hull_of(h, a),
        forall|q: Point2D| a.contains(q) <==> b.contains(q),
    ensures
        is_hull_of(h, b),
{
    assert forall|j: int| 0 <= j < b.len() implies lex_le(h[0], #[trigger] b[j]) by {
        assert(b.contains(b[j]));
        assert(a.contains(b[j]));
        let k = choose|k: int| 0 <= k < a.len() && a[k] == b[j];
        assert(lex_le(h[0], a[k]));
    }
    assert forall|i: int| 0 <= i < h.len() implies #[trigger] hull_edge(h, i, b) by {
        assert(hull_edge(h, i, a));
        assert forall|j: int| 0 <= j < b.len() implies right_or_on(
            h[i],
            h[wrap_next(i, h.len() as int)],
            #[trigger] b[j],
        ) by {
            assert(b.contains(b[j]));
            assert(a.contains(b[j]));
            let k = choose|k: int| 0 <= k < a.len() && a[k] == b[j];
            assert(right_or_on(h[i], h[wrap_next(i, h.len() as int)], a[k]));
        }
    }
    assert forall|i: int| 0 <= i < h.len() implies b.contains(#[trigger] h[i]) by {
        assert(a.contains(h[i]));
    }
    assert(a.contains(h[0]));
}

/// Two sequences with the same points, each as often as in the other, hold
/// the same points.
pub proof fn lemma_same_multiset_same_points(a: Seq<Point2D>, b: Seq<Point2D>)
    requires
        a.to_multiset() == b.to_multiset(),
    ensures
        forall|q: Point2D| a.contains(q) <==> b.contains(q),
        a.len() == b.len(),
{
    a.to_multiset_ensures();
    b.to_multiset_ensures();
    assert forall|q: Point2D| a.contains(q) <==> b.contains(q) by {
        assert(a.contains(q) <==> a.to_multiset().count(q) > 0);
        assert(b.contains(q) <==> b.to_multiset().count(q) > 0);
    }
}

/// The upper chain from the lowest to the highest point and the lower chain
/// back, put one after the other, list the corners of the hull.
proof fn lemma_chains_make_hull(
    st: Seq<Point2D>,
    k: int,
    s: Seq<Point2D>,
    upper_seen: Seq<Point2D>,
    lower_seen: Seq<Point2D>,
)
    requires
        0 <= k < st.len(),
        s.len() >= 1,
        chain_ok(st.subrange(0, k + 1), 0, upper_seen, true),
        chain_ok(st, k, lower_seen, false),
        forall|j: int| 0 <= j < s.len() ==> upper_seen.contains(#[trigger] s[j]),
        forall|j: int| 0 <= j < s.len() ==> lower_seen.contains(#[trigger] s[j]),
        forall|j: int| 0 <= j < s.len() ==> lex_le(s[0], #[trigger] s[j]),
        forall|t: int| 0 <= t < st.len() ==> s.contains(#[trigger] st[t]),
        st[0] == s[0],
        st[st.len() - 1] == s[0],
    ensures
        st.len() > 1 ==> is_hull_of(st.drop_last(), s),
        st.len() == 1 ==> is_hull_of(st, s),
{
    let upper = st.subrange(0, k + 1);
    let n = st.len() as int;
    assert forall|t: int| 0 <= t <= k implies upper[t] == st[t] by {}
    assert(s.contains(s[0]));
    if n == 1 {
        assert forall|j: int| 0 <= j < s.len() implies right_or_on(st[0], st[0], #[trigger] s[j]) by {
            let i = choose|i: int| 0 <= i < upper_seen.len() && upper_seen[i] == s[j];
            assert(not_before(true, upper[0], upper_seen[i]) && not_before(
                true,
                upper_seen[i],
                upper[upper.len() - 1],
            ));
            assert(s[j] == st[0]);
            assert(cross(st[0], st[0], st[0]) == 0) by (nonlinear_arith);
        }
        assert(hull_edge(st, 0, s));
    } else {
        let h = st.drop_last();
        let m = h.len() as int;
        assert forall|t: int| 0 <= t < m implies h[t] == st[t] by {}
        // With more than one corner the chains are proper ones.
        if k == 0 {
            lemma_chain_ahead(st, k, 0, n - 1, false);
            assert(false);
        }
        if k == n - 1 {
            lemma_chain_ahead(upper, 0, 0, k, true);
            assert(false);
        }
        assert forall|i: int| 0 <= i < m implies #[trigger] hull_edge(h, i, s) by {
            let d = h[wrap_next(i, m)];
            assert(d == st[i + 1]);
            assert forall|j: int| 0 <= j < s.len() implies right_or_on(h[i], d, #[trigger] s[j]) by {
                if i < k {
                    assert(edge_bounds(upper, i, upper_seen));
                    let a = choose|a: int| 0 <= a < upper_seen.len() && upper_seen[a] == s[j];
                    assert(right_or_on(upper[i], upper[i + 1], upper_seen[a]));
                } else {
                    assert(edge_bounds(st, i, lower_seen));
                    let a = choose|a: int| 0 <= a < lower_seen.len() && lower_seen[a] == s[j];
                    assert(right_or_on(st[i], st[i + 1], lower_seen[a]));
                }
            }
        }
        assert forall|i: int, j: int| 0 <= i < j < m implies h[i] != h[j] by {
            if j <= k {
                lemma_chain_ahead(upper, 0, i, j, true);
            } else if i >= k {
                lemma_chain_ahead(st, k, i, j, false);
            } else {
                if h[i] == h[j] {
                    lemma_chain_ahead(st, k, j, n - 1, false);
                    lemma_chain_ahead(st, k, k, j, false);
                    lemma_chain_ahead(upper, 0, 0, i, true);
                    lemma_chain_ahead(upper, 0, i, k, true);
                    assert(i >= 1);
                    assert(j >= k + 1);
                    lemma_chain_ahead(upper, 0, i - 1, i, true);
                    lemma_chain_ahead(st, k, j - 1, j, false);
                    assert(hull_edge(h, i - 1, s));
                    assert(hull_edge(h, j - 1, s));
                    let a = choose|a: int| 0 <= a < s.len() && s[a] == st[i - 1];
                    let b = choose|b: int| 0 <= b < s.len() && s[b] == st[j - 1];
                    assert(h[wrap_next(i - 1, m)] == st[i]);
                    assert(h[wrap_next(j - 1, m)] == st[j]);
                    assert(right_or_on(st[i - 1], st[i], s[b]));
                    assert(right_or_on(st[j - 1], st[j], s[a]));
                    lemma_predecessor_unique(st[i - 1], st[j - 1], st[i]);
                    assert(false);
                }
            }
        }
    }
}

/// Returns the convex hull of `points` by the monotone chain construction:
/// the points are sorted by `x`, then `y`; a sweep upwards builds the upper
/// side of the hull and a sweep back the lower side, each taking off the
/// corners at which the path to the next point does not turn right. The
/// effort is that of sorting. `points` is left sorted.
pub fn monotone_chain(points: &mut Vec<Point2D>) -> (hull: Vec<Point2D>)
    requires
        old(points)@.len() >= 1,
    ensures
        sorted_by(PointOrder::ByXThenY, final(points)@),
        final(points)@.to_multiset() == old(points)@.to_multiset(),
        is_hull_of(hull@, old(points)@),
{
    sort_points(points, &PointOrder::ByXThenY);
    proof {
        lemma_same_multiset_same_points(points@, old(points)@);
    }
    let n: usize = points.len();
    let ghost s = points@;
    let mut stack: Vec<Point2D> = Vec::new();
    stack.push(points[0]);
    let ghost mut seen: Seq<Point2D> = seq![s[0]];
    proof {
        assert(chain_ok(stack@, 0, seen, true));
        assert(s.contains(s[0]));
    }
    let mut i: usize = 1;
    while i < n
        invariant
            n == s.len(),
            points@ == s,
            1 <= i <= n,
            sorted_by(PointOrder::ByXThenY, s),
            chain_ok(stack@, 0, seen, true),
            seen == s.subrange(0, i as int),
            stack@[0] == s[0],
            forall|t: int| 0 <= t < stack@.len() ==> s.contains(#[trigger] stack@[t]),
        decreases n - i,
    {
        let p: Point2D = points[i];
        let top: Point2D = stack[stack.len() - 1];
        let ghost before = stack@;
        proof {
            assert(seen[seen.len() - 1] == s[i - 1]);
            assert(lex_le(s[i - 1], s[i as int]));
            assert(s.contains(s[i as int]));
            assert(s.subrange(0, i + 1) =~= seen.push(p));
        }
        if p != top {
            add_to_chain(&mut stack, 0, p, Ghost(seen), Ghost(true));
            proof {
                assert forall|t: int| 0 <= t < stack@.len() implies s.contains(
                    #[trigger] stack@[t],
                ) by {
                    if t < stack@.len() - 1 {
                        assert(stack@[t] == stack@.subrange(0, stack@.len() - 1)[t]);
                        assert(stack@[t] == before[t]);
                    }
                }
                assert(stack@[0] == stack@.subrange(0, stack@.len() - 1)[0]);
            }
        } else {
            proof {
                lemma_chain_sees_again(stack@, 0, seen, true);
            }
        }
        proof {
            seen = seen.push(p);
        }
        i = i + 1;
    }
    let floor: usize = stack.len() - 1;
    let ghost upper = stack@;
    let ghost upper_seen = seen;
    proof {
        assert(upper_seen =~= s);
        assert(stack@[floor as int] == s[n - 1]);
        seen = seq![s[n - 1]];
        assert(chain_ok(stack@, floor as int, seen, false));
    }
    let mut i: usize = n - 1;
    while i > 0
        invariant
            n == s.len(),
            points@ == s,
            i < n,
            sorted_by(PointOrder::ByXThenY, s),
            floor < stack@.len(),
            upper.len() == floor + 1,
            stack@.subrange(0, floor + 1) == upper,
            chain_ok(stack@, floor as int, seen, false),
            seen.len() == n - i,
            forall|m: int| i <= m < n ==> #[trigger] seen[n - 1 - m] == s[m],
            forall|t: int| 0 <= t < stack@.len() ==> s.contains(#[trigger] stack@[t]),
        decreases i,
    {
        i = i - 1;
        let p: Point2D = points[i];
        let top: Point2D = stack[stack.len() - 1];
        let ghost before = stack@;
        let ghost seen_before = seen;
        proof {
            assert(seen[n - 1 - (i + 1)] == s[i + 1]);
            assert(lex_le(s[i as int], s[i + 1]));
            assert(s.contains(s[i as int]));
        }
        if p != top {
            add_to_chain(&mut stack, floor, p, Ghost(seen), Ghost(false));
            proof {
                assert forall|t: int| 0 <= t < stack@.len() implies s.contains(
                    #[trigger] stack@[t],
                ) by {
                    if t < stack@.len() - 1 {
                        assert(stack@[t] == stack@.subrange(0, stack@.len() - 1)[t]);
                        assert(stack@[t] == before[t]);
                    }
                }
                assert(stack@.subrange(0, floor + 1) =~= upper) by {
                    assert forall|t: int| 0 <= t <= floor implies stack@[t] == upper[t] by {
                        assert(stack@[t] == stack@.subrange(0, stack@.len() - 1)[t]);
                        assert(before[t] == before.subrange(0, floor + 1)[t]);
                    }
                }
            }
        } else {
            proof {
                lemma_chain_sees_again(stack@, floor as int, seen, false);
            }
        }
        proof {
            seen = seen.push(p);
            assert forall|m: int| i <= m < n implies #[trigger] seen[n - 1 - m] == s[m] by {
                if m > i {
                    assert(seen_before[n - 1 - m] == s[m]);
                }
            }
        }
    }
    proof {
        assert forall|j: int| 0 <= j < s.len() implies seen.contains(#[trigger] s[j]) by {
            assert(seen[n - 1 - j] == s[j]);
        }
        assert forall|j: int| 0 <= j < s.len() implies upper_seen.contains(#[trigger] s[j]) by {
            assert(upper_seen[j] == s[j]);
        }
        assert forall|j: int| 0 <= j < s.len() implies lex_le(s[0], #[trigger] s[j]) by {
            if j > 0 {
                assert(lex_le(s[0], s[j]));
            }
        }
        assert(seen[n - 1 - 0] == s[0]);
        assert(stack@[0] == stack@.subrange(0, floor + 1)[0]);
        assert(upper[0] == s[0]);
        lemma_chains_make_hull(stack@, floor as int, s, upper_seen, seen);
    }
    if stack.len() > 1 {
        stack.pop();
    }
    proof {
        lemma_hull_of_same_points(stack@, s, old(points)@);
    }
    stack
}

/// Corner `t + 1` of `st` lies strictly clockwise of corner `t`, as seen
/// from `pivot`.
pub open spec fn swings_right(st: Seq<Point2D>, t: int, pivot: Point2D) -> bool {
    cross(pivot, st[t], st[t + 1]) < 0
}

/// The order by angle around `pivot`.
pub open spec fn around(pivot: Point2D) -> PointOrder {
    PointOrder::ByAngleAround(pivot)
}

/// A hull under construction by a sweep around `pivot`. `st` holds its
/// corners, `pivot` first. `seen` are the points swept so far, the last of
/// them the last corner; none comes before `pivot` by `x`, then `y`, and
/// none after the last corner in the order around `pivot`. From the second
/// corner on each corner lies strictly clockwise of the one before, the path
/// turns right at every corner, and each point seen lies to the right of
/// every edge between corners or on it.
pub open spec fn scan_ok(st: Seq<Point2D>, seen: Seq<Point2D>, pivot: Point2D) -> bool {
    &&& st.len() >= 1
    &&& st[0] == pivot
    &&& seen.len() >= 1
    &&& st[st.len() - 1] == seen[seen.len() - 1]
    &&& forall|i: int|
        0 <= i < seen.len() ==> lex_le(pivot, #[trigger] seen[i]) && ordered(
            around(pivot),
            seen[i],
            st[st.len() - 1],
        )
    &&& forall|t: int| 0 <= t < st.len() ==> seen.contains(#[trigger] st[t])
    &&& (st.len() >= 2 ==> st[1] != pivot)
    &&& forall|t: int| 1 <= t < st.len() - 1 ==> #[trigger] swings_right(st, t, pivot)
    &&& forall|t: int| 0 <= t < st.len() - 2 ==> #[trigger] turns_right(st, t)
    &&& forall|t: int| 0 <= t < st.len() - 1 ==> #[trigger] edge_bounds(st, t, seen)
}

/// Among the corners of a sweep after the first, a later one lies strictly
/// clockwise of an earlier one, and none is the pivot.
proof fn lemma_swing_chain(st: Seq<Point2D>, seen: Seq<Point2D>, pivot: Point2D, i: int, j: int)
    requires
        scan_ok(st, seen, pivot),
        1 <= i <= j < st.len(),
    ensures
        st[i] != pivot,
        lex_le(pivot, st[i]),
        i < j ==> cross(pivot, st[i], st[j]) < 0,
    decreases j - i, i,
{
    assert(seen.contains(st[i]));
    assert(seen.contains(st[j]));
    assert(cross(pivot, st[1], pivot) == 0) by (nonlinear_arith);
    assert(cross(pivot, pivot, st[i]) == 0) by (nonlinear_arith);
    if i > 1 {
        assert(swings_right(st, i - 1, pivot));
        assert(cross(pivot, st[i - 1], pivot) == 0) by (nonlinear_arith);
    }
    if i < j {
        assert(swings_right(st, i, pivot));
        if i + 1 < j {
            lemma_swing_chain(st, seen, pivot, i + 1, j);
            assert(seen.contains(st[i + 1]));
            lemma_lex_wedge(pivot, st[i]);
            lemma_lex_wedge(pivot, st[i + 1]);
            lemma_lex_wedge(pivot, st[j]);
            lemma_cross_symmetries(pivot, st[i], st[i + 1]);
            assert(st[j] != pivot) by {
                assert(cross(pivot, st[i + 1], pivot) == 0) by (nonlinear_arith);
            }
            lemma_wedge_left_of(pivot, -1, 0x2_0000_0000, st[i + 1], st[i], st[j]);
        }
    }
}

/// A new point `p` that turns right at the corner `st[j]`, after the last
/// corner in the order around the pivot, lies strictly clockwise of
/// `st[j]`.
proof fn lemma_new_corner_swings(
    st: Seq<Point2D>,
    seen: Seq<Point2D>,
    pivot: Point2D,
    j: int,
    p: Point2D,
)
    requires
        scan_ok(st, seen, pivot),
        1 <= j < st.len(),
        lex_le(pivot, p),
        p != st[st.len() - 1],
        ordered(around(pivot), st[st.len() - 1], p),
        cross(st[j - 1], st[j], p) < 0,
    ensures
        cross(pivot, st[j], p) < 0,
        p != pivot,
{
    let c = st[j];
    let f = st[j - 1];
    let top = st[st.len() - 1];
    lemma_swing_chain(st, seen, pivot, j, st.len() - 1);
    lemma_swing_chain(st, seen, pivot, st.len() - 1, st.len() - 1);
    assert(seen.contains(c));
    assert(seen.contains(top));
    assert(ordered(around(pivot), c, top)) by {
        if j == st.len() - 1 {
            assert(cross(pivot, c, c) == 0) by (nonlinear_arith);
        }
    }
    lemma_ordered_transitive(around(pivot), c, top, p);
    assert(cross(pivot, c, pivot) == 0) by (nonlinear_arith);
    if cross(pivot, c, p) == 0 {
        // `p` lies beyond `c` on the ray from the pivot, so the path into
        // `c` cannot turn right towards it.
        assert(lex_le(c, p));
        assert(seen.contains(st[0]));
        let i0 = choose|i: int| 0 <= i < seen.len() && seen[i] == pivot;
        assert(edge_bounds(st, j - 1, seen));
        assert(right_or_on(f, c, seen[i0]));
        assert(p != c) by {
            assert(cross(f, c, c) == 0) by (nonlinear_arith);
        }
        let (ax, ay) = (c.x - pivot.x, c.y - pivot.y);
        let (bx, by) = (p.x - c.x, p.y - c.y);
        let (ux, uy) = (c.x - f.x, c.y - f.y);
        lemma_cross_along_edge(pivot, c, p);
        lemma_cross_along_edge(f, c, p);
        lemma_cross_along_edge(f, c, pivot);
        assert(reach(-1, 0x2_0000_0000, ax, ay) == 0x2_0000_0000 * ax + ay) by (nonlinear_arith);
        assert(reach(-1, 0x2_0000_0000, bx, by) == 0x2_0000_0000 * bx + by) by (nonlinear_arith);
        lemma_vectors_same_direction(-1, 0x2_0000_0000, ax, ay, bx, by, ux, uy);
        assert(vcross(ux, uy, bx, by) == -vcross(bx, by, ux, uy)) by (nonlinear_arith)
            requires
                vcross(ux, uy, bx, by) == ux * by - uy * bx,
                vcross(bx, by, ux, uy) == bx * uy - by * ux,
        ;
        assert(vcross(ux, uy, pivot.x - c.x, pivot.y - c.y) == vcross(ax, ay, ux, uy))
            by (nonlinear_arith)
            requires
                vcross(ux, uy, pivot.x - c.x, pivot.y - c.y) == ux * (pivot.y - c.y) - uy * (pivot.x
                    - c.x),
                vcross(ax, ay, ux, uy) == ax * uy - ay * ux,
                ax == c.x - pivot.x,
                ay == c.y - pivot.y,
        ;
        assert(false);
    }
}

/// A new point `p` that lies strictly clockwise of the corner `st[j]` and
/// turns right at it lies strictly to the right of every edge between the
/// corners up to `st[j]`.
proof fn lemma_scan_sees(
    st: Seq<Point2D>,
    seen: Seq<Point2D>,
    pivot: Point2D,
    j: int,
    p: Point2D,
    t: int,
)
    requires
        scan_ok(st, seen, pivot),
        0 <= t < j < st.len(),
        cross(st[j - 1], st[j], p) < 0,
        cross(pivot, st[j], p) < 0,
        lex_le(pivot, p),
    ensures
        cross(st[t], st[t + 1], p) < 0,
    decreases j - t,
{
    lemma_swing_chain(st, seen, pivot, t + 1, j);
    lemma_swing_chain(st, seen, pivot, j, j);
    assert(p != pivot) by {
        assert(cross(pivot, st[j], pivot) == 0) by (nonlinear_arith);
    }
    // `p` lies strictly clockwise of corner `t + 1`.
    assert(cross(pivot, st[t + 1], p) < 0) by {
        if t + 1 < j {
            lemma_lex_wedge(pivot, st[t + 1]);
            lemma_lex_wedge(pivot, st[j]);
            lemma_lex_wedge(pivot, p);
            lemma_cross_symmetries(pivot, st[t + 1], st[j]);
            lemma_wedge_left_of(pivot, -1, 0x2_0000_0000, st[j], st[t + 1], p);
        }
    }
    if t == 0 {
    } else if t < j - 1 {
        lemma_scan_sees(st, seen, pivot, j, p, t + 1);
        let f = st[t];
        let c = st[t + 1];
        let g = st[t + 2];
        assert(turns_right(st, t));
        assert(swings_right(st, t, pivot));
        assert(swings_right(st, t + 1, pivot));
        let (ax, ay) = (c.x - f.x, c.y - f.y);
        let (nx, ny) = (g.x - c.x, g.y - c.y);
        let (qx, qy) = (p.x - c.x, p.y - c.y);
        let (rx, ry) = (c.x - pivot.x, c.y - pivot.y);
        lemma_cross_along_edge(f, c, g);
        lemma_cross_is_vcross(c, g, p);
        lemma_cross_along_edge(f, c, p);
        lemma_cross_along_edge(pivot, c, p);
        lemma_cross_along_edge(pivot, c, g);
        lemma_cross_is_vcross(pivot, f, c);
        // (a x q)(r x n) == (a x n)(r x q) + (n x q)(r x a)
        lemma_three_vectors(-rx, -ry, ax, ay, nx, ny, qx, qy);
        let an = vcross(ax, ay, nx, ny);
        let nq = vcross(nx, ny, qx, qy);
        let aq = vcross(ax, ay, qx, qy);
        let rn = vcross(rx, ry, nx, ny);
        let rq = vcross(rx, ry, qx, qy);
        let ra = vcross(rx, ry, ax, ay);
        assert(reach(-rx, -ry, nx, ny) == rn && reach(-rx, -ry, qx, qy) == rq && reach(
            -rx,
            -ry,
            ax,
            ay,
        ) == ra) by (nonlinear_arith)
            requires
                rn == rx * ny - ry * nx,
                rq == rx * qy - ry * qx,
                ra == rx * ay - ry * ax,
                reach(-rx, -ry, nx, ny) == (-ry) * nx - (-rx) * ny,
                reach(-rx, -ry, qx, qy) == (-ry) * qx - (-rx) * qy,
                reach(-rx, -ry, ax, ay) == (-ry) * ax - (-rx) * ay,
        ;
        assert(ra == cross(pivot, f, c)) by (nonlinear_arith)
            requires
                ra == rx * ay - ry * ax,
                cross(pivot, f, c) == (f.x - pivot.x) * (c.y - pivot.y) - (f.y - pivot.y) * (c.x
                    - pivot.x),
                rx == c.x - pivot.x,
                ry == c.y - pivot.y,
                ax == c.x - f.x,
                ay == c.y - f.y,
        ;
        assert(aq < 0) by (nonlinear_arith)
            requires
                aq * rn == an * rq + nq * ra,
                rn < 0,
                an < 0,
                rq < 0,
                nq < 0,
                ra < 0,
        ;
    }
}

/// Of two points on one ray from `c` that both lie in a wedge at `c`, one
/// that does not come later in the order around `pivot`, where `c` comes
/// strictly before the other, is not the farther one.
proof fn lemma_farther_on_ray_is_later(
    pivot: Point2D,
    c: Point2D,
    dx: int,
    dy: int,
    p: Point2D,
    q: Point2D,
)
    requires
        in_wedge(c, dx, dy, p),
        in_wedge(c, dx, dy, q),
        p != c,
        q != c,
        cross(c, p, q) == 0,
        cross(pivot, c, p) < 0,
        cross(pivot, p, q) >= 0,
    ensures
        on_segment(Line2D { p1: c, p2: p }, q),
{
    let (px, py) = (p.x - c.x, p.y - c.y);
    let (qx, qy) = (q.x - c.x, q.y - c.y);
    let (zx, zy) = (pivot.x - c.x, pivot.y - c.y);
    let sp = reach(dx, dy, px, py);
    let sq = reach(dx, dy, qx, qy);
    let cp = cross(pivot, c, p);
    let pq = cross(pivot, p, q);
    assert(sq * px == qx * sp && sq * py == qy * sp) by (nonlinear_arith)
        requires
            px * qy - py * qx == 0,
            sp == dy * px - dx * py,
            sq == dy * qx - dx * qy,
    ;
    assert(cp == px * zy - py * zx) by (nonlinear_arith)
        requires
            cp == (c.x - pivot.x) * (p.y - pivot.y) - (c.y - pivot.y) * (p.x - pivot.x),
            px == p.x - c.x,
            py == p.y - c.y,
            zx == pivot.x - c.x,
            zy == pivot.y - c.y,
    ;
    assert(pq == (px * qy - py * qx) - (px * zy - py * zx) + (qx * zy - qy * zx))
        by (nonlinear_arith)
        requires
            pq == (p.x - pivot.x) * (q.y - pivot.y) - (p.y - pivot.y) * (q.x - pivot.x),
            px == p.x - c.x,
            py == p.y - c.y,
            qx == q.x - c.x,
            qy == q.y - c.y,
            zx == pivot.x - c.x,
            zy == pivot.y - c.y,
    ;
    let a1 = px * zy;
    let a2 = py * zx;
    let b1 = qx * zy;
    let b2 = qy * zx;
    assert(sp * b1 == sq * a1) by (nonlinear_arith)
        requires
            sq * px == qx * sp,
            b1 == qx * zy,
            a1 == px * zy,
    ;
    assert(sp * b2 == sq * a2) by (nonlinear_arith)
        requires
            sq * py == qy * sp,
            b2 == qy * zx,
            a2 == py * zx,
    ;
    assert(sp * pq == (sq - sp) * cp) by (nonlinear_arith)
        requires
            pq == -(a1 - a2) + (b1 - b2),
            cp == a1 - a2,
            sp * b1 == sq * a1,
            sp * b2 == sq * a2,
    ;
    assert(sq <= sp) by (nonlinear_arith)
        requires
            sp * pq == (sq - sp) * cp,
            sp > 0,
            pq >= 0,
            cp < 0,
    ;
    lemma_wedge_collinear(c, dx, dy, p, q);
}

/// After corners have been taken off the end of a sweep because the new
/// point `p` does not turn right at them, every point seen lies to the right
/// of the edge from the corner `st[j]` that is left to `p`, or on it.
proof fn lemma_scan_new_edge(
    st: Seq<Point2D>,
    seen: Seq<Point2D>,
    pivot: Point2D,
    j: int,
    p: Point2D,
    i: int,
)
    requires
        scan_ok(st, seen, pivot),
        0 <= j < st.len(),
        lex_le(pivot, p),
        p != st[st.len() - 1],
        ordered(around(pivot), st[st.len() - 1], p),
        j + 1 < st.len() ==> cross(st[j], st[j + 1], p) >= 0,
        j >= 1 ==> cross(st[j - 1], st[j], p) < 0,
        0 <= i < seen.len(),
    ensures
        right_or_on(st[j], p, seen[i]),
{
    let c = st[j];
    let q = seen[i];
    let top = st[st.len() - 1];
    assert(seen.contains(top));
    assert(seen.contains(c));
    assert(lex_le(pivot, q) && ordered(around(pivot), q, top));
    lemma_ordered_transitive(around(pivot), q, top, p);
    lemma_cross_symmetries(pivot, q, p);
    assert(cross(c, p, c) == 0) by (nonlinear_arith);
    if q == c {
    } else if j == 0 {
        lemma_lex_wedge(pivot, p);
        lemma_lex_wedge(pivot, q);
        if st.len() == 1 {
            assert(cross(pivot, q, pivot) == 0) by (nonlinear_arith);
        } else {
            let m = st[1];
            assert(seen.contains(m));
            lemma_lex_wedge(pivot, m);
            assert(edge_bounds(st, 0, seen));
            assert(right_or_on(pivot, m, q));
            if cross(pivot, m, p) > 0 {
                lemma_wedge_left_of(pivot, -1, 0x2_0000_0000, m, p, q);
            } else {
                lemma_cross_is_vcross(pivot, m, p);
                lemma_cross_is_vcross(pivot, m, q);
                lemma_cross_is_vcross(pivot, p, q);
                assert(p != pivot) by {
                    assert(cross(pivot, pivot, pivot) == 0) by (nonlinear_arith);
                    if p == pivot {
                        assert(cross(pivot, top, pivot) == 0) by (nonlinear_arith);
                    }
                }
                lemma_vectors_same_direction(
                    -1,
                    0x2_0000_0000,
                    m.x - pivot.x,
                    m.y - pivot.y,
                    p.x - pivot.x,
                    p.y - pivot.y,
                    q.x - pivot.x,
                    q.y - pivot.y,
                );
                if cross(pivot, p, q) == 0 {
                    assert(lex_le(q, p));
                    assert(reach(-1, 0x2_0000_0000, q.x - pivot.x, q.y - pivot.y) == 0x2_0000_0000
                        * (q.x - pivot.x) + (q.y - pivot.y)) by (nonlinear_arith);
                    assert(reach(-1, 0x2_0000_0000, p.x - pivot.x, p.y - pivot.y) == 0x2_0000_0000
                        * (p.x - pivot.x) + (p.y - pivot.y)) by (nonlinear_arith);
                    lemma_wedge_collinear(pivot, -1, 0x2_0000_0000, p, q);
                }
            }
        }
    } else {
        let f = st[j - 1];
        lemma_swing_chain(st, seen, pivot, j, j);
        lemma_new_corner_swings(st, seen, pivot, j, p);
        assert(f != c) by {
            if j == 1 {
            } else {
                assert(swings_right(st, j - 1, pivot));
                assert(cross(pivot, c, c) == 0) by (nonlinear_arith);
            }
        }
        let dx = edge_wedge_dx(f, c);
        let dy = edge_wedge_dy(f, c);
        assert(edge_bounds(st, j - 1, seen));
        assert(right_or_on(f, c, q));
        lemma_edge_wedge(f, c, q);
        lemma_edge_wedge(f, c, p);
        assert(seen.contains(st[0]));
        let i0 = choose|i: int| 0 <= i < seen.len() && seen[i] == pivot;
        assert(right_or_on(f, c, seen[i0]));
        lemma_edge_wedge(f, c, pivot);
        lemma_cross_symmetries(c, pivot, p);
        lemma_cross_symmetries(pivot, p, c);
        lemma_cross_symmetries(c, pivot, q);
        lemma_cross_symmetries(pivot, q, c);
        if cross(c, pivot, q) <= 0 {
            lemma_wedge_left_of(c, dx, dy, pivot, p, q);
        } else {
            // `q` lies strictly clockwise of `c`, so it was seen after `c`
            // became a corner, and corners after `c` have been taken off.
            assert(j + 1 < st.len());
            let m = st[j + 1];
            assert(seen.contains(m));
            let i1 = choose|i: int| 0 <= i < seen.len() && seen[i] == m;
            assert(right_or_on(f, c, seen[i1]));
            lemma_edge_wedge(f, c, m);
            assert(edge_bounds(st, j, seen));
            assert(right_or_on(c, m, q));
            assert(m != c) by {
                assert(swings_right(st, j, pivot));
                assert(cross(pivot, c, c) == 0) by (nonlinear_arith);
            }
            if cross(c, m, p) > 0 {
                lemma_wedge_left_of(c, dx, dy, m, p, q);
            } else {
                lemma_cross_is_vcross(c, m, p);
                lemma_cross_is_vcross(c, m, q);
                lemma_cross_is_vcross(c, p, q);
                assert(p != c) by {
                    assert(cross(pivot, c, c) == 0) by (nonlinear_arith);
                }
                lemma_vectors_same_direction(
                    dx,
                    dy,
                    m.x - c.x,
                    m.y - c.y,
                    p.x - c.x,
                    p.y - c.y,
                    q.x - c.x,
                    q.y - c.y,
                );
                if cross(c, p, q) == 0 {
                    lemma_cross_symmetries(pivot, p, q);
                    lemma_farther_on_ray_is_later(pivot, c, dx, dy, p, q);
                }
            }
        }
    }
}

/// The sweep that is left when the corners after `st[j]` are taken off and
/// `p` is put on is a sweep again, for the points seen and `p`.
proof fn lemma_scan_grows(st: Seq<Point2D>, seen: Seq<Point2D>, pivot: Point2D, j: int, p: Point2D)
    requires
        scan_ok(st, seen, pivot),
        0 <= j < st.len(),
        lex_le(pivot, p),
        p != st[st.len() - 1],
        ordered(around(pivot), st[st.len() - 1], p),
        j + 1 < st.len() ==> cross(st[j], st[j + 1], p) >= 0,
        j >= 1 ==> cross(st[j - 1], st[j], p) < 0,
    ensures
        scan_ok(st.subrange(0, j + 1).push(p), seen.push(p), pivot),
{
    let grown = st.subrange(0, j + 1).push(p);
    let all = seen.push(p);
    let top = st[st.len() - 1];
    assert(grown.len() == j + 2);
    assert(grown[j + 1] == p);
    assert forall|t: int| 0 <= t <= j implies grown[t] == st[t] by {}
    assert(seen.contains(top));
    assert(cross(pivot, p, p) == 0) by (nonlinear_arith);
    assert(cross(pivot, top, pivot) == 0) by (nonlinear_arith);
    assert(p != pivot);
    assert forall|i: int| 0 <= i < all.len() implies lex_le(pivot, #[trigger] all[i]) && ordered(
        around(pivot),
        all[i],
        grown[grown.len() - 1],
    ) by {
        if i < seen.len() {
            assert(all[i] == seen[i]);
            assert(lex_le(pivot, seen[i]) && ordered(around(pivot), seen[i], top));
            lemma_ordered_transitive(around(pivot), seen[i], top, p);
        }
    }
    assert forall|t: int| 0 <= t < grown.len() implies all.contains(#[trigger] grown[t]) by {
        if t <= j {
            assert(seen.contains(st[t]));
            let i = choose|i: int| 0 <= i < seen.len() && seen[i] == st[t];
            assert(all[i] == st[t]);
        } else {
            assert(all[seen.len() as int] == p);
        }
    }
    if j >= 1 {
        lemma_new_corner_swings(st, seen, pivot, j, p);
    }
    assert forall|t: int| 1 <= t < grown.len() - 1 implies #[trigger] swings_right(
        grown,
        t,
        pivot,
    ) by {
        if t < j {
            assert(swings_right(st, t, pivot));
        }
    }
    assert forall|t: int| 0 <= t < grown.len() - 2 implies #[trigger] turns_right(grown, t) by {
        if t < j - 1 {
            assert(turns_right(st, t));
        }
    }
    assert forall|t: int| 0 <= t < grown.len() - 1 implies #[trigger] edge_bounds(
        grown,
        t,
        all,
    ) by {
        let d = grown[t + 1];
        assert(cross(st[j], p, p) == 0) by (nonlinear_arith);
        assert forall|i: int| 0 <= i < all.len() implies right_or_on(
            grown[t],
            d,
            #[trigger] all[i],
        ) by {
            if i < seen.len() {
                assert(all[i] == seen[i]);
                if t < j {
                    assert(edge_bounds(st, t, seen));
                } else {
                    lemma_scan_new_edge(st, seen, pivot, j, p, i);
                }
            } else {
                assert(all[i] == p);
                if t < j {
                    lemma_scan_sees(st, seen, pivot, j, p, t);
                }
            }
        }
    }
}

/// A point that is the last corner of a sweep can be seen once more.
proof fn lemma_scan_sees_again(st: Seq<Point2D>, seen: Seq<Point2D>, pivot: Point2D)
    requires
        scan_ok(st, seen, pivot),
    ensures
        scan_ok(st, seen.push(st[st.len() - 1]), pivot),
{
    let p = st[st.len() - 1];
    let all = seen.push(p);
    assert forall|i: int| 0 <= i < all.len() implies lex_le(pivot, #[trigger] all[i]) && ordered(
        around(pivot),
        all[i],
        st[st.len() - 1],
    ) by {
        if i < seen.len() {
            assert(all[i] == seen[i]);
        } else {
            assert(all[i] == seen[seen.len() - 1]);
        }
    }
    assert forall|t: int| 0 <= t < st.len() implies all.contains(#[trigger] st[t]) by {
        assert(seen.contains(st[t]));
        let i = choose|i: int| 0 <= i < seen.len() && seen[i] == st[t];
        assert(all[i] == st[t]);
    }
    assert forall|t: int| 0 <= t < st.len() - 1 implies #[trigger] edge_bounds(st, t, all) by {
        assert(edge_bounds(st, t, seen));
        assert forall|i: int| 0 <= i < all.len() implies right_or_on(
            st[t],
            st[t + 1],
            #[trigger] all[i],
        ) by {
            if i < seen.len() {
                assert(all[i] == seen[i]);
            } else {
                assert(all[i] == seen[seen.len() - 1]);
            }
        }
    }
    assert forall|t: int| 1 <= t < st.len() - 1 implies #[trigger] swings_right(st, t, pivot) by {}
    assert forall|t: int| 0 <= t < st.len() - 2 implies #[trigger] turns_right(st, t) by {}
}

/// The corners of a sweep that has seen all points are the corners of the
/// hull.
proof fn lemma_scan_makes_hull(st: Seq<Point2D>, s: Seq<Point2D>, pivot: Point2D)
    requires
        scan_ok(st, s, pivot),
    ensures
        is_hull_of(st, s),
{
    let n = st.len() as int;
    let top = st[n - 1];
    assert(s.contains(st[0]));
    assert forall|i: int| 0 <= i < n implies #[trigger] hull_edge(st, i, s) by {
        if i < n - 1 {
            assert(edge_bounds(st, i, s));
        } else {
            assert forall|j: int| 0 <= j < s.len() implies right_or_on(top, pivot, #[trigger] s[j]) by {
                let q = s[j];
                assert(lex_le(pivot, q) && ordered(around(pivot), q, top));
                lemma_cross_symmetries(top, pivot, q);
                assert(s.contains(top));
                if cross(pivot, q, top) == 0 {
                    lemma_lex_wedge(pivot, q);
                    lemma_lex_wedge(pivot, top);
                    assert(reach(-1, 0x2_0000_0000, q.x - pivot.x, q.y - pivot.y) == 0x2_0000_0000
                        * (q.x - pivot.x) + (q.y - pivot.y)) by (nonlinear_arith);
                    assert(reach(-1, 0x2_0000_0000, top.x - pivot.x, top.y - pivot.y)
                        == 0x2_0000_0000 * (top.x - pivot.x) + (top.y - pivot.y))
                        by (nonlinear_arith);
                    lemma_cross_symmetries(pivot, q, top);
                    lemma_wedge_collinear(pivot, -1, 0x2_0000_0000, top, q);
                }
            }
        }
    }
    assert forall|i: int, j: int| 0 <= i < j < n implies st[i] != st[j] by {
        lemma_swing_chain(st, s, pivot, j, j);
        if i >= 1 {
            lemma_swing_chain(st, s, pivot, i, j);
            assert(cross(pivot, st[i], st[i]) == 0) by (nonlinear_arith);
        }
    }
}

/// Takes the next point of the sweep around `pivot` into the hull: corners
/// at which the path to `p` does not turn right are taken off the end, then
/// `p` becomes the last corner.
fn add_to_scan(
    stack: &mut Vec<Point2D>,
    p: Point2D,
    Ghost(seen): Ghost<Seq<Point2D>>,
    Ghost(pivot): Ghost<Point2D>,
)
    requires
        scan_ok(old(stack)@, seen, pivot),
        lex_le(pivot, p),
        p != old(stack)@[old(stack)@.len() - 1],
        ordered(around(pivot), old(stack)@[old(stack)@.len() - 1], p),
    ensures
        scan_ok(final(stack)@, seen.push(p), pivot),
{
    let ghost st = stack@;
    while stack.len() >= 2 && cross_product(&stack[stack.len() - 2], &stack[stack.len() - 1], &p)
        >= 0
        invariant
            1 <= stack@.len() <= st.len(),
            stack@ == st.subrange(0, stack@.len() as int),
            stack@.len() < st.len() ==> cross(st[stack@.len() - 1], st[stack@.len() as int], p) >= 0,
        decreases stack@.len(),
    {
        stack.pop();
    }
    proof {
        let j = stack@.len() - 1;
        assert(stack@[j] == st[j]);
        if j >= 1 {
            assert(stack@[j - 1] == st[j - 1]);
        }
        lemma_scan_grows(st, seen, pivot, j, p);
        assert(stack@.push(p) =~= st.subrange(0, j + 1).push(p));
    }
    stack.push(p);
}

/// Returns the convex hull of `points` by Graham's scan: the points are
/// sorted clockwise by their angle around the lowest point, and a sweep in
/// that order takes off the corners at which the path to the next point does
/// not turn right. The effort is that of sorting. `points` is left sorted.
pub fn graham_scan(points: &mut Vec<Point2D>) -> (hull: Vec<Point2D>)
    requires
        old(points)@.len() >= 1,
    ensures
        exists|pivot: Point2D|
            is_lowest(old(points)@, pivot) && sorted_by(around(pivot), final(points)@),
        final(points)@.to_multiset() == old(points)@.to_multiset(),
        is_hull_of(hull@, old(points)@),
{
    let left_lowest_most_point: Point2D = lowest_point(points.as_slice());
    let ghost pivot = left_lowest_most_point;
    let key = PointOrder::ByAngleAround(left_lowest_most_point);
    proof {
        assert(all_in_domain(key, points@));
    }
    sort_points(points, &key);
    proof {
        lemma_same_multiset_same_points(points@, old(points)@);
    }
    let n: usize = points.len();
    let ghost s = points@;
    proof {
        // The pivot comes first.
        assert(s.contains(pivot));
        let k = choose|k: int| 0 <= k < s.len() && s[k] == pivot;
        assert(s.contains(s[0]));
        assert(lex_le(pivot, s[0]));
        assert(cross(pivot, s[0], pivot) == 0) by (nonlinear_arith);
        assert(cross(pivot, pivot, pivot) == 0) by (nonlinear_arith);
        if k > 0 {
            assert(ordered(key, s[0], s[k]));
        }
        assert(s[0] == pivot);
    }
    let mut stack: Vec<Point2D> = Vec::new();
    stack.push(points[0]);
    let ghost mut seen: Seq<Point2D> = seq![s[0]];
    proof {
        assert(seen[0] == pivot);
        assert(seen.contains(stack@[0]));
        assert(scan_ok(stack@, seen, pivot));
    }
    let mut i: usize = 1;
    while i < n
        invariant
            n == s.len(),
            points@ == s,
            1 <= i <= n,
            sorted_by(around(pivot), s),
            forall|q: Point2D| s.contains(q) ==> lex_le(pivot, q),
            scan_ok(stack@, seen, pivot),
            seen == s.subrange(0, i as int),
        decreases n - i,
    {
        let p: Point2D = points[i];
        let top: Point2D = stack[stack.len() - 1];
        proof {
            assert(seen[seen.len() - 1] == s[i - 1]);
            assert(ordered(around(pivot), s[i - 1], s[i as int]));
            assert(s.contains(s[i as int]));
            assert(s.subrange(0, i + 1) =~= seen.push(p));
        }
        if p != top {
            add_to_scan(&mut stack, p, Ghost(seen), Ghost(pivot));
        } else {
            proof {
                lemma_scan_sees_again(stack@, seen, pivot);
            }
        }
        proof {
            seen = seen.push(p);
        }
        i = i + 1;
    }
    proof {
        assert(seen =~= s);
        lemma_scan_makes_hull(stack@, s, pivot);
        lemma_hull_of_same_points(stack@, s, old(points)@);
    }
    stack
}

} // verus!
