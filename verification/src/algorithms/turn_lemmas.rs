//! Facts about turns among points that all lie in one half-plane through a
//! common point. There the order by angle is a proper order, which is what
//! the hull constructions rest on.

use crate::primitives2d::{cross, in_bounding_box, lex_le, lex_lt, on_segment, Line2D, Point2D};
use vstd::prelude::*;

verus! {

/// The cross product of the vectors `(ax, ay)` and `(bx, by)`.
pub open spec fn vcross(ax: int, ay: int, bx: int, by: int) -> int {
    ax * by - ay * bx
}

/// How far the vector `(vx, vy)` reaches to the right of the direction
/// `(dx, dy)`: positive exactly when it points strictly to the right.
pub open spec fn reach(dx: int, dy: int, vx: int, vy: int) -> int {
    dy * vx - dx * vy
}

/// `q` is `c` or lies strictly to the right of the line through `c` with
/// direction `(dx, dy)`.
pub open spec fn in_wedge(c: Point2D, dx: int, dy: int, q: Point2D) -> bool {
    q == c || reach(dx, dy, q.x - c.x, q.y - c.y) > 0
}

/// `p` lies strictly to the right of the directed line from `c` to `d`, or
/// on the segment between them.
pub open spec fn right_or_on(c: Point2D, d: Point2D, p: Point2D) -> bool {
    cross(c, d, p) < 0 || on_segment(Line2D { p1: c, p2: d }, p)
}

/// For three vectors `a`, `b`, `c` and a direction `d`:
/// `(a x c) * reach(b) == (a x b) * reach(c) + (b x c) * reach(a)`.
pub proof fn lemma_three_vectors(
    dx: int,
    dy: int,
    ax: int,
    ay: int,
    bx: int,
    by: int,
    cx: int,
    cy: int,
)
    ensures
        vcross(ax, ay, cx, cy) * reach(dx, dy, bx, by) == vcross(ax, ay, bx, by) * reach(
            dx,
            dy,
            cx,
            cy,
        ) + vcross(bx, by, cx, cy) * reach(dx, dy, ax, ay),
{
    let l1 = ax * cy;
    let l2 = ay * cx;
    let l3 = dy * bx;
    let l4 = dx * by;
    let r1 = ax * by;
    let r2 = ay * bx;
    let r3 = dy * cx;
    let r4 = dx * cy;
    let t1 = bx * cy;
    let t2 = by * cx;
    let t3 = dy * ax;
    let t4 = dx * ay;
    assert((l1 - l2) * (l3 - l4) == l1 * l3 - l1 * l4 - l2 * l3 + l2 * l4) by (nonlinear_arith);
    assert((r1 - r2) * (r3 - r4) == r1 * r3 - r1 * r4 - r2 * r3 + r2 * r4) by (nonlinear_arith);
    assert((t1 - t2) * (t3 - t4) == t1 * t3 - t1 * t4 - t2 * t3 + t2 * t4) by (nonlinear_arith);
    assert((ax * cy) * (dy * bx) == (bx * cy) * (dy * ax)) by (nonlinear_arith);
    assert((ax * cy) * (dx * by) == (ax * by) * (dx * cy)) by (nonlinear_arith);
    assert((ay * cx) * (dy * bx) == (ay * bx) * (dy * cx)) by (nonlinear_arith);
    assert((ay * cx) * (dx * by) == (by * cx) * (dx * ay)) by (nonlinear_arith);
    assert((ax * by) * (dy * cx) == (by * cx) * (dy * ax)) by (nonlinear_arith);
    assert((ay * bx) * (dx * cy) == (bx * cy) * (dx * ay)) by (nonlinear_arith);
}

/// Turning around a point of the plane: `cross(c, a, b) == -cross(c, b, a)`,
/// and taking the points in cyclic order does not change the cross product.
pub proof fn lemma_cross_symmetries(c: Point2D, a: Point2D, b: Point2D)
    ensures
        cross(c, a, b) == -cross(c, b, a),
        cross(c, a, b) == cross(a, b, c),
        cross(c, a, b) == cross(b, c, a),
{
    let (cx, cy) = (c.x as int, c.y as int);
    let (ax, ay) = (a.x as int, a.y as int);
    let (bx, by) = (b.x as int, b.y as int);
    assert((ax - cx) * (by - cy) - (ay - cy) * (bx - cx) == -((bx - cx) * (ay - cy) - (by - cy) * (
    ax - cx))) by (nonlinear_arith);
    assert((ax - cx) * (by - cy) - (ay - cy) * (bx - cx) == (bx - ax) * (cy - ay) - (by - ay) * (cx
        - ax)) by (nonlinear_arith);
    assert((ax - cx) * (by - cy) - (ay - cy) * (bx - cx) == (cx - bx) * (ay - by) - (cy - by) * (ax
        - bx)) by (nonlinear_arith);
}

/// In a wedge at `c`, if `p` lies strictly to the left of the line from
/// `c` to `n` and `q` does not lie to its left, then `q` lies strictly to
/// the right of the line from `c` to `p`.
pub proof fn lemma_wedge_left_of(c: Point2D, dx: int, dy: int, n: Point2D, p: Point2D, q: Point2D)
    requires
        in_wedge(c, dx, dy, n),
        in_wedge(c, dx, dy, p),
        in_wedge(c, dx, dy, q),
        n != c,
        q != c,
        cross(c, n, p) > 0,
        cross(c, n, q) <= 0,
    ensures
        cross(c, p, q) < 0,
{
    let (nx, ny) = (n.x - c.x, n.y - c.y);
    let (px, py) = (p.x - c.x, p.y - c.y);
    let (qx, qy) = (q.x - c.x, q.y - c.y);
    lemma_three_vectors(dx, dy, px, py, nx, ny, qx, qy);
    let sn = reach(dx, dy, nx, ny);
    let sp = reach(dx, dy, px, py);
    let sq = reach(dx, dy, qx, qy);
    let pn = vcross(px, py, nx, ny);
    let nq = vcross(nx, ny, qx, qy);
    let pq = vcross(px, py, qx, qy);
    assert(pn == -cross(c, n, p)) by {
        lemma_cross_symmetries(c, n, p);
    }
    assert(p != c) by {
        if p == c {
            assert(cross(c, n, c) == 0) by (nonlinear_arith);
        }
    }
    assert(pq < 0) by (nonlinear_arith)
        requires
            pq * sn == pn * sq + nq * sp,
            sn > 0,
            sp > 0,
            sq > 0,
            pn < 0,
            nq <= 0,
    ;
}

/// In a wedge at `c`, two points on one line through `c` lie on the same
/// side of `c`: one of them lies on the segment from `c` to the other.
pub proof fn lemma_wedge_collinear(c: Point2D, dx: int, dy: int, a: Point2D, b: Point2D)
    requires
        in_wedge(c, dx, dy, a),
        in_wedge(c, dx, dy, b),
        cross(c, a, b) == 0,
    ensures
        on_segment(Line2D { p1: c, p2: a }, b) || on_segment(Line2D { p1: c, p2: b }, a),
        reach(dx, dy, b.x - c.x, b.y - c.y) <= reach(dx, dy, a.x - c.x, a.y - c.y) ==> on_segment(
            Line2D { p1: c, p2: a },
            b,
        ),
{
    let (ax, ay) = (a.x - c.x, a.y - c.y);
    let (bx, by) = (b.x - c.x, b.y - c.y);
    lemma_cross_symmetries(c, a, b);
    if a == c || b == c {
        assert(cross(c, a, c) == 0) by (nonlinear_arith);
        assert(cross(c, b, c) == 0) by (nonlinear_arith);
        assert(reach(dx, dy, 0, 0) == 0) by (nonlinear_arith);
    } else {
        let sa = reach(dx, dy, ax, ay);
        let sb = reach(dx, dy, bx, by);
        assert(sb * ax == bx * sa && sb * ay == by * sa) by (nonlinear_arith)
            requires
                ax * by - ay * bx == 0,
                sa == dy * ax - dx * ay,
                sb == dy * bx - dx * by,
        ;
        if sb <= sa {
            assert((0 <= bx <= ax || ax <= bx <= 0) && (0 <= by <= ay || ay <= by <= 0))
                by (nonlinear_arith)
                requires
                    sb * ax == bx * sa,
                    sb * ay == by * sa,
                    0 < sb <= sa,
            ;
            assert(in_bounding_box(Line2D { p1: c, p2: a }, b));
        } else {
            assert((0 <= ax <= bx || bx <= ax <= 0) && (0 <= ay <= by || by <= ay <= 0))
                by (nonlinear_arith)
                requires
                    sb * ax == bx * sa,
                    sb * ay == by * sa,
                    0 < sa <= sb,
            ;
            assert(in_bounding_box(Line2D { p1: c, p2: b }, a));
        }
    }
}

/// In a wedge at `c`, if `n` lies on the segment from `c` to `p` and is not
/// `c`, then whatever lies to the right of the line from `c` to `n` or on
/// the segment up to `n` lies to the right of the line from `c` to `p` or on
/// the segment up to `p`.
pub proof fn lemma_wedge_farther(c: Point2D, dx: int, dy: int, n: Point2D, p: Point2D, q: Point2D)
    requires
        in_wedge(c, dx, dy, n),
        in_wedge(c, dx, dy, p),
        in_wedge(c, dx, dy, q),
        n != c,
        on_segment(Line2D { p1: c, p2: p }, n),
        right_or_on(c, n, q),
    ensures
        right_or_on(c, p, q),
{
    let (nx, ny) = (n.x - c.x, n.y - c.y);
    let (px, py) = (p.x - c.x, p.y - c.y);
    let (qx, qy) = (q.x - c.x, q.y - c.y);
    if q == c {
        assert(cross(c, p, c) == 0) by (nonlinear_arith);
    } else {
        lemma_three_vectors(dx, dy, px, py, nx, ny, qx, qy);
        let sn = reach(dx, dy, nx, ny);
        let sp = reach(dx, dy, px, py);
        let sq = reach(dx, dy, qx, qy);
        let pn = vcross(px, py, nx, ny);
        let nq = vcross(nx, ny, qx, qy);
        let pq = vcross(px, py, qx, qy);
        assert(p != c);
        assert(pn == 0) by {
            lemma_cross_symmetries(c, p, n);
        }
        if cross(c, n, q) < 0 {
            assert(pq < 0) by (nonlinear_arith)
                requires
                    pq * sn == pn * sq + nq * sp,
                    sn > 0,
                    sp > 0,
                    pn == 0,
                    nq < 0,
            ;
        } else {
            assert(pq == 0) by (nonlinear_arith)
                requires
                    pq * sn == pn * sq + nq * sp,
                    sn > 0,
                    pn == 0,
                    nq == 0,
            ;
        }
    }
}

/// Every point that does not come before `c` in the order by `x`, then `y`,
/// lies in one wedge at `c`.
pub proof fn lemma_lex_wedge(c: Point2D, q: Point2D)
    requires
        lex_le(c, q),
    ensures
        in_wedge(c, -1, 0x2_0000_0000, q),
{
    if q != c {
        assert(lex_lt(c, q));
        assert(reach(-1, 0x2_0000_0000, q.x - c.x, q.y - c.y) == 0x2_0000_0000 * (q.x - c.x) + (q.y
            - c.y)) by (nonlinear_arith);
    }
}

/// The direction of the wedge behind a hull edge from `f` to `c`: that of
/// the edge, turned a little to the right.
pub open spec fn edge_wedge_dx(f: Point2D, c: Point2D) -> int {
    0x8_0000_0000_0000_0000 * (c.x - f.x) + (c.y - f.y)
}

/// See `edge_wedge_dx`.
pub open spec fn edge_wedge_dy(f: Point2D, c: Point2D) -> int {
    0x8_0000_0000_0000_0000 * (c.y - f.y) - (c.x - f.x)
}

/// Every point that lies to the right of the line from `f` to `c` or on the
/// segment between them lies in one wedge at `c`.
pub proof fn lemma_edge_wedge(f: Point2D, c: Point2D, q: Point2D)
    requires
        f != c,
        right_or_on(f, c, q),
    ensures
        in_wedge(c, edge_wedge_dx(f, c), edge_wedge_dy(f, c), q),
{
    if q != c {
        let m = 0x8_0000_0000_0000_0000int;
        let (ex, ey) = (c.x - f.x, c.y - f.y);
        let (vx, vy) = (q.x - c.x, q.y - c.y);
        let cr = vcross(ex, ey, vx, vy);
        let dot = ex * vx + ey * vy;
        assert((m * ey - ex) * vx - (m * ex + ey) * vy == -(m * cr) - dot) by (nonlinear_arith)
            requires
                cr == ex * vy - ey * vx,
                dot == ex * vx + ey * vy,
        ;
        assert(cr == cross(f, c, q)) by (nonlinear_arith)
            requires
                cr == ex * vy - ey * vx,
                ex == c.x - f.x,
                ey == c.y - f.y,
                vx == q.x - c.x,
                vy == q.y - c.y,
                cross(f, c, q) == (c.x - f.x) * (q.y - f.y) - (c.y - f.y) * (q.x - f.x),
        ;
        assert(-0x2_0000_0000_0000_0000 <= dot <= 0x2_0000_0000_0000_0000) by (nonlinear_arith)
            requires
                dot == ex * vx + ey * vy,
                -0x1_0000_0000 <= ex <= 0x1_0000_0000,
                -0x1_0000_0000 <= ey <= 0x1_0000_0000,
                -0x1_0000_0000 <= vx <= 0x1_0000_0000,
                -0x1_0000_0000 <= vy <= 0x1_0000_0000,
        ;
        if cr < 0 {
            assert(-(m * cr) >= m) by (nonlinear_arith)
                requires
                    cr <= -1,
                    m > 0,
            ;
        } else {
            assert(cr == 0);
            assert(m * cr == 0);
            assert(dot < 0) by (nonlinear_arith)
                requires
                    dot == ex * vx + ey * vy,
                    (ex >= 0 && -ex <= vx <= 0) || (ex <= 0 && 0 <= vx <= -ex),
                    (ey >= 0 && -ey <= vy <= 0) || (ey <= 0 && 0 <= vy <= -ey),
                    vx != 0 || vy != 0,
            ;
        }
    }
}

/// Among three vectors that point strictly to the right of one direction,
/// if `p` turns left from `n` and `q` does not, then `q` turns right from
/// `p`.
pub proof fn lemma_vectors_left_of(
    dx: int,
    dy: int,
    nx: int,
    ny: int,
    px: int,
    py: int,
    qx: int,
    qy: int,
)
    requires
        reach(dx, dy, nx, ny) > 0,
        reach(dx, dy, px, py) > 0,
        reach(dx, dy, qx, qy) > 0,
        vcross(nx, ny, px, py) > 0,
        vcross(nx, ny, qx, qy) <= 0,
    ensures
        vcross(px, py, qx, qy) < 0,
{
    lemma_three_vectors(dx, dy, px, py, nx, ny, qx, qy);
    let sn = reach(dx, dy, nx, ny);
    let sp = reach(dx, dy, px, py);
    let sq = reach(dx, dy, qx, qy);
    let pn = vcross(px, py, nx, ny);
    let nq = vcross(nx, ny, qx, qy);
    let pq = vcross(px, py, qx, qy);
    assert(pn == -vcross(nx, ny, px, py)) by (nonlinear_arith)
        requires
            pn == px * ny - py * nx,
            vcross(nx, ny, px, py) == nx * py - ny * px,
    ;
    assert(pq < 0) by (nonlinear_arith)
        requires
            pq * sn == pn * sq + nq * sp,
            sn > 0,
            sp > 0,
            sq > 0,
            pn < 0,
            nq <= 0,
    ;
}

/// Two parallel vectors that point strictly to the right of one direction
/// see every third vector on the same side.
pub proof fn lemma_vectors_same_direction(
    dx: int,
    dy: int,
    ax: int,
    ay: int,
    bx: int,
    by: int,
    rx: int,
    ry: int,
)
    requires
        reach(dx, dy, ax, ay) > 0,
        reach(dx, dy, bx, by) > 0,
        vcross(ax, ay, bx, by) == 0,
    ensures
        vcross(ax, ay, rx, ry) < 0 <==> vcross(bx, by, rx, ry) < 0,
        vcross(ax, ay, rx, ry) == 0 <==> vcross(bx, by, rx, ry) == 0,
{
    lemma_three_vectors(dx, dy, ax, ay, bx, by, rx, ry);
    let sa = reach(dx, dy, ax, ay);
    let sb = reach(dx, dy, bx, by);
    let sr = reach(dx, dy, rx, ry);
    let ar = vcross(ax, ay, rx, ry);
    let br = vcross(bx, by, rx, ry);
    let ab = vcross(ax, ay, bx, by);
    assert((ar < 0 <==> br < 0) && (ar == 0 <==> br == 0)) by (nonlinear_arith)
        requires
            ar * sb == ab * sr + br * sa,
            ab == 0,
            sa > 0,
            sb > 0,
    ;
}

/// The cross product at `c` is the cross product of the vectors from `c`.
pub proof fn lemma_cross_is_vcross(c: Point2D, a: Point2D, b: Point2D)
    ensures
        cross(c, a, b) == vcross(a.x - c.x, a.y - c.y, b.x - c.x, b.y - c.y),
{
}

/// The cross product at `f` of `c` and `q` is the cross product of the
/// vector from `f` to `c` and the vector from `c` to `q`.
pub proof fn lemma_cross_along_edge(f: Point2D, c: Point2D, q: Point2D)
    ensures
        cross(f, c, q) == vcross(c.x - f.x, c.y - f.y, q.x - c.x, q.y - c.y),
{
    let (ex, ey) = (c.x - f.x, c.y - f.y);
    let (vx, vy) = (q.x - c.x, q.y - c.y);
    assert(ex * (vy + ey) - ey * (vx + ex) == ex * vy - ey * vx) by (nonlinear_arith);
}

} // verus!
