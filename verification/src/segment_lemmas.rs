//! Why the test for intersecting segments is right: two segments pass it
//! exactly when they have a point in common.

use crate::primitives2d::{
    intersection_of, lemma_crossing_fits, lemma_overlap_representative_is_last,
    ExactPoint,
    cross, crossing_divisor, crossing_x, crossing_y, direction_cross, fraction_on_segment,
    lemma_cross_differences, lemma_crossing_is_exact, lemma_grid_point_on_segment,
    lemma_overlap_is_common, on_segment, orientation, overlap_representative, segments_intersect,
    Line2D, Point2D,
};
use vstd::prelude::*;

verus! {

/// Some point of the plane, with rational coordinates, lies on both
/// segments.
pub open spec fn have_common_point(a: Line2D, b: Line2D) -> bool {
    exists|nx: int, ny: int, d: int|
        d > 0 && #[trigger] fraction_on_segment(a, nx, ny, d) && fraction_on_segment(b, nx, ny, d)
}

/// Segments that pass the test have a point in common.
pub proof fn lemma_intersecting_have_common_point(a: Line2D, b: Line2D)
    requires
        segments_intersect(a, b),
    ensures
        have_common_point(a, b),
{
    if direction_cross(a, b) != 0 {
        lemma_crossing_is_exact(a, b);
        assert(fraction_on_segment(a, crossing_x(a, b), crossing_y(a, b), crossing_divisor(a, b)));
    } else {
        lemma_overlap_is_common(a, b);
        let p = overlap_representative(a, b);
        lemma_grid_point_on_segment(a, p);
        lemma_grid_point_on_segment(b, p);
        assert(fraction_on_segment(a, p.x as int, p.y as int, 1));
    }
}

/// A vector `(wx, wy)` that is parallel to `(sx, sy)` and lies between the
/// null vector and `d` times `(sx, sy)` has a cross product with `(rx, ry)`
/// that lies between zero and `d` times that of `(sx, sy)`.
proof fn lemma_part_of_direction(rx: int, ry: int, sx: int, sy: int, wx: int, wy: int, d: int)
    requires
        d > 0,
        sx * wy - sy * wx == 0,
        0 <= wx <= d * sx || d * sx <= wx <= 0,
        0 <= wy <= d * sy || d * sy <= wy <= 0,
    ensures
        ({
            let t = rx * wy - ry * wx;
            let d0 = rx * sy - ry * sx;
            (0 <= t <= d * d0 || d * d0 <= t <= 0)
        }),
{
    let t = rx * wy - ry * wx;
    let d0 = rx * sy - ry * sx;
    if sx == 0 && sy == 0 {
        assert(d * sx == 0 && d * sy == 0) by (nonlinear_arith)
            requires
                sx == 0,
                sy == 0,
        ;
        assert(t == 0 && d0 == 0) by (nonlinear_arith)
            requires
                wx == 0,
                wy == 0,
                sx == 0,
                sy == 0,
                t == rx * wy - ry * wx,
                d0 == rx * sy - ry * sx,
        ;
        assert(d * d0 == 0) by (nonlinear_arith)
            requires
                d0 == 0,
        ;
    } else if sx != 0 {
        assert(t * sx == wx * d0) by (nonlinear_arith)
            requires
                t == rx * wy - ry * wx,
                d0 == rx * sy - ry * sx,
                sx * wy - sy * wx == 0,
        {
            assert((rx * wy) * sx == rx * (sx * wy));
            assert((ry * wx) * sx == (ry * sx) * wx);
            assert(rx * (sy * wx) == (rx * sy) * wx);
        }
        assert(0 <= t <= d * d0 || d * d0 <= t <= 0) by (nonlinear_arith)
            requires
                t * sx == wx * d0,
                sx != 0,
                d > 0,
                0 <= wx <= d * sx || d * sx <= wx <= 0,
        {
            if sx > 0 {
                assert(0 <= wx <= d * sx);
                if d0 >= 0 {
                    assert(0 <= wx * d0 <= (d * sx) * d0);
                    assert((d * sx) * d0 == (d * d0) * sx);
                } else {
                    assert((d * sx) * d0 <= wx * d0 <= 0);
                    assert((d * sx) * d0 == (d * d0) * sx);
                }
            } else {
                assert(d * sx <= wx <= 0);
                if d0 >= 0 {
                    assert((d * sx) * d0 <= wx * d0 <= 0);
                    assert((d * sx) * d0 == (d * d0) * sx);
                } else {
                    assert(0 <= wx * d0 <= (d * sx) * d0);
                    assert((d * sx) * d0 == (d * d0) * sx);
                }
            }
        }
    } else {
        assert(t * sy == wy * d0) by (nonlinear_arith)
            requires
                t == rx * wy - ry * wx,
                d0 == rx * sy - ry * sx,
                sx * wy - sy * wx == 0,
        {
            assert((rx * wy) * sy == (rx * sy) * wy);
            assert((ry * wx) * sy == ry * (sy * wx));
            assert(ry * (sx * wy) == (ry * sx) * wy);
        }
        assert(0 <= t <= d * d0 || d * d0 <= t <= 0) by (nonlinear_arith)
            requires
                t * sy == wy * d0,
                sy != 0,
                d > 0,
                0 <= wy <= d * sy || d * sy <= wy <= 0,
        {
            if sy > 0 {
                assert(0 <= wy <= d * sy);
                if d0 >= 0 {
                    assert(0 <= wy * d0 <= (d * sy) * d0);
                    assert((d * sy) * d0 == (d * d0) * sy);
                } else {
                    assert((d * sy) * d0 <= wy * d0 <= 0);
                    assert((d * sy) * d0 == (d * d0) * sy);
                }
            } else {
                assert(d * sy <= wy <= 0);
                if d0 >= 0 {
                    assert((d * sy) * d0 <= wy * d0 <= 0);
                    assert((d * sy) * d0 == (d * d0) * sy);
                } else {
                    assert(0 <= wy * d0 <= (d * sy) * d0);
                    assert((d * sy) * d0 == (d * d0) * sy);
                }
            }
        }
    }
}

/// If a point of `b` lies on the line of `a`, the end points of `b` do not
/// lie strictly on one side of `a`; if `a` and `b` are parallel, they lie on
/// the line of `a`.
proof fn lemma_common_point_sides(a: Line2D, b: Line2D, nx: int, ny: int, d: int)
    requires
        d > 0,
        fraction_on_segment(a, nx, ny, d),
        fraction_on_segment(b, nx, ny, d),
    ensures
        direction_cross(a, b) != 0 ==> orientation(a.p1, a.p2, b.p1) != orientation(
            a.p1,
            a.p2,
            b.p2,
        ),
        direction_cross(a, b) == 0 ==> cross(a.p1, a.p2, b.p1) == 0 && cross(a.p1, a.p2, b.p2)
            == 0,
{
    let rx = a.p2.x - a.p1.x;
    let ry = a.p2.y - a.p1.y;
    let sx = b.p2.x - b.p1.x;
    let sy = b.p2.y - b.p1.y;
    let ax = nx - a.p1.x * d;
    let ay = ny - a.p1.y * d;
    let bx = nx - b.p1.x * d;
    let by = ny - b.p1.y * d;
    let d0 = direction_cross(a, b);
    let c1 = cross(a.p1, a.p2, b.p1);
    let c2 = cross(a.p1, a.p2, b.p2);
    lemma_cross_differences(a, b);
    assert(b.p2.x * d == b.p1.x * d + d * sx && b.p2.y * d == b.p1.y * d + d * sy)
        by (nonlinear_arith)
        requires
            sx == b.p2.x - b.p1.x,
            sy == b.p2.y - b.p1.y,
    ;
    lemma_part_of_direction(rx, ry, sx, sy, bx, by, d);
    let t = rx * by - ry * bx;
    // d * c1 == -t
    assert(d * c1 == (rx * ay - ry * ax) - t) by (nonlinear_arith)
        requires
            c1 == rx * (b.p1.y - a.p1.y) - ry * (b.p1.x - a.p1.x),
            ax == nx - a.p1.x * d,
            ay == ny - a.p1.y * d,
            bx == nx - b.p1.x * d,
            by == ny - b.p1.y * d,
            t == rx * by - ry * bx,
    {
        assert(rx * (ay - by) == rx * ay - rx * by);
        assert(ry * (ax - bx) == ry * ax - ry * bx);
        assert(ay - by == d * (b.p1.y - a.p1.y));
        assert(ax - bx == d * (b.p1.x - a.p1.x));
        assert(rx * (d * (b.p1.y - a.p1.y)) == d * (rx * (b.p1.y - a.p1.y)));
        assert(ry * (d * (b.p1.x - a.p1.x)) == d * (ry * (b.p1.x - a.p1.x)));
    }
    assert(d * c1 == -t);
    assert(d * c2 == d * d0 - t) by (nonlinear_arith)
        requires
            c2 == c1 + d0,
            d * c1 == -t,
    ;
    if d0 != 0 {
        assert((c1 <= 0 && c2 >= 0) || (c1 >= 0 && c2 <= 0)) by (nonlinear_arith)
            requires
                d > 0,
                d * c1 == -t,
                d * c2 == d * d0 - t,
                0 <= t <= d * d0 || d * d0 <= t <= 0,
        ;
        assert(c1 != c2);
    } else {
        assert(d * d0 == 0) by (nonlinear_arith)
            requires
                d0 == 0,
        ;
        assert(c1 == 0) by (nonlinear_arith)
            requires
                d > 0,
                d * c1 == -t,
                t == 0,
        ;
    }
}

/// A point on the line of a segment that has a length lies on the segment
/// if it lies within the segment's range of `x` or, where the segment is
/// upright, within its range of `y`.
proof fn lemma_collinear_in_box(l: Line2D, e: Point2D)
    requires
        cross(l.p1, l.p2, e) == 0,
        l.p1 != l.p2,
        l.p1.x != l.p2.x ==> (l.p1.x <= e.x <= l.p2.x || l.p2.x <= e.x <= l.p1.x),
        l.p1.x == l.p2.x ==> (l.p1.y <= e.y <= l.p2.y || l.p2.y <= e.y <= l.p1.y),
    ensures
        on_segment(l, e),
{
    let rx = l.p2.x - l.p1.x;
    let ry = l.p2.y - l.p1.y;
    let ux = e.x - l.p1.x;
    let uy = e.y - l.p1.y;
    assert(rx * uy == ry * ux);
    if rx != 0 {
        assert(0 <= uy <= ry || ry <= uy <= 0) by (nonlinear_arith)
            requires
                rx * uy == ry * ux,
                rx != 0,
                0 <= ux <= rx || rx <= ux <= 0,
        ;
    } else {
        assert(ry != 0);
        assert(ux == 0) by (nonlinear_arith)
            requires
                rx * uy == ry * ux,
                rx == 0,
                ry != 0,
        ;
    }
}

/// Two segments of one line that have a point in common have an end point
/// of one on the other.
proof fn lemma_common_point_on_one_line(a: Line2D, b: Line2D, nx: int, ny: int, d: int)
    requires
        d > 0,
        fraction_on_segment(a, nx, ny, d),
        fraction_on_segment(b, nx, ny, d),
        cross(a.p1, a.p2, b.p1) == 0,
        cross(a.p1, a.p2, b.p2) == 0,
        cross(b.p1, b.p2, a.p1) == 0,
        cross(b.p1, b.p2, a.p2) == 0,
    ensures
        on_segment(a, b.p1) || on_segment(a, b.p2) || on_segment(b, a.p1) || on_segment(b, a.p2),
{
    if a.p1 == a.p2 {
        // `a` is one point, and that is the point in common.
        assert(nx == a.p1.x * d && ny == a.p1.y * d);
        assert((b.p1.x <= a.p1.x <= b.p2.x || b.p2.x <= a.p1.x <= b.p1.x) && (b.p1.y <= a.p1.y
            <= b.p2.y || b.p2.y <= a.p1.y <= b.p1.y)) by (nonlinear_arith)
            requires
                d > 0,
                b.p1.x * d <= a.p1.x * d <= b.p2.x * d || b.p2.x * d <= a.p1.x * d <= b.p1.x * d,
                b.p1.y * d <= a.p1.y * d <= b.p2.y * d || b.p2.y * d <= a.p1.y * d <= b.p1.y * d,
        ;
        assert(on_segment(b, a.p1));
    } else if b.p1 == b.p2 {
        assert(nx == b.p1.x * d && ny == b.p1.y * d);
        assert((a.p1.x <= b.p1.x <= a.p2.x || a.p2.x <= b.p1.x <= a.p1.x) && (a.p1.y <= b.p1.y
            <= a.p2.y || a.p2.y <= b.p1.y <= a.p1.y)) by (nonlinear_arith)
            requires
                d > 0,
                a.p1.x * d <= b.p1.x * d <= a.p2.x * d || a.p2.x * d <= b.p1.x * d <= a.p1.x * d,
                a.p1.y * d <= b.p1.y * d <= a.p2.y * d || a.p2.y * d <= b.p1.y * d <= a.p1.y * d,
        ;
        assert(on_segment(a, b.p1));
    } else {
        // Both have a length and lie on one line; they are upright
        // together or not at all.
        let rx = a.p2.x - a.p1.x;
        let ry = a.p2.y - a.p1.y;
        let sx = b.p2.x - b.p1.x;
        let sy = b.p2.y - b.p1.y;
        lemma_cross_differences(a, b);
        assert(rx * sy - ry * sx == 0);
        assert((rx == 0) == (sx == 0)) by (nonlinear_arith)
            requires
                rx * sy - ry * sx == 0,
                rx != 0 || ry != 0,
                sx != 0 || sy != 0,
        ;
        if rx != 0 {
            // The ranges of `x` of the two meet, so an end of one lies in
            // the range of the other.
            let a_lo = if a.p1.x <= a.p2.x {
                a.p1
            } else {
                a.p2
            };
            let b_lo = if b.p1.x <= b.p2.x {
                b.p1
            } else {
                b.p2
            };
            let a_hi = if a.p1.x <= a.p2.x {
                a.p2
            } else {
                a.p1
            };
            let b_hi = if b.p1.x <= b.p2.x {
                b.p2
            } else {
                b.p1
            };
            assert(a_lo.x * d <= a_hi.x * d && b_lo.x * d <= b_hi.x * d) by (nonlinear_arith)
                requires
                    d > 0,
                    a_lo.x <= a_hi.x,
                    b_lo.x <= b_hi.x,
            ;
            assert(a_lo.x <= b_hi.x && b_lo.x <= a_hi.x) by (nonlinear_arith)
                requires
                    d > 0,
                    a_lo.x * d <= nx <= a_hi.x * d,
                    b_lo.x * d <= nx <= b_hi.x * d,
            ;
            if a_lo.x >= b_lo.x {
                lemma_collinear_in_box(b, a_lo);
            } else {
                lemma_collinear_in_box(a, b_lo);
            }
        } else {
            let a_lo = if a.p1.y <= a.p2.y {
                a.p1
            } else {
                a.p2
            };
            let b_lo = if b.p1.y <= b.p2.y {
                b.p1
            } else {
                b.p2
            };
            let a_hi = if a.p1.y <= a.p2.y {
                a.p2
            } else {
                a.p1
            };
            let b_hi = if b.p1.y <= b.p2.y {
                b.p2
            } else {
                b.p1
            };
            assert(a_lo.y * d <= a_hi.y * d && b_lo.y * d <= b_hi.y * d) by (nonlinear_arith)
                requires
                    d > 0,
                    a_lo.y <= a_hi.y,
                    b_lo.y <= b_hi.y,
            ;
            assert(a_lo.y <= b_hi.y && b_lo.y <= a_hi.y) by (nonlinear_arith)
                requires
                    d > 0,
                    a_lo.y * d <= ny <= a_hi.y * d,
                    b_lo.y * d <= ny <= b_hi.y * d,
            ;
            if a_lo.y >= b_lo.y {
                lemma_collinear_in_box(b, a_lo);
            } else {
                lemma_collinear_in_box(a, b_lo);
            }
        }
    }
}

/// Segments that have a point in common pass the test.
pub proof fn lemma_common_point_intersecting(a: Line2D, b: Line2D)
    requires
        have_common_point(a, b),
    ensures
        segments_intersect(a, b),
{
    let (nx, ny, d) = choose|nx: int, ny: int, d: int|
        d > 0 && #[trigger] fraction_on_segment(a, nx, ny, d) && fraction_on_segment(b, nx, ny, d);
    lemma_common_point_sides(a, b, nx, ny, d);
    lemma_common_point_sides(b, a, nx, ny, d);
    lemma_cross_differences(a, b);
    lemma_cross_differences(b, a);
    assert(direction_cross(b, a) == -direction_cross(a, b)) by (nonlinear_arith)
        requires
            direction_cross(b, a) == (b.p2.x - b.p1.x) * (a.p2.y - a.p1.y) - (b.p2.y - b.p1.y) * (
            a.p2.x - a.p1.x),
            direction_cross(a, b) == (a.p2.x - a.p1.x) * (b.p2.y - b.p1.y) - (a.p2.y - a.p1.y) * (
            b.p2.x - b.p1.x),
    ;
    if direction_cross(a, b) == 0 {
        lemma_common_point_on_one_line(a, b, nx, ny, d);
    }
}

/// Two segments that are not parallel have one point in common at most: a
/// point that lies on both is the point in which they cross.
pub proof fn lemma_crossing_is_only_common_point(a: Line2D, b: Line2D, q: ExactPoint)
    requires
        q.d > 0,
        q.lies_on(a),
        q.lies_on(b),
        direction_cross(a, b) != 0,
    ensures
        segments_intersect(a, b),
        intersection_of(a, b) matches Some(p) && q.same_point(p),
{
    assert(fraction_on_segment(a, q.x as int, q.y as int, q.d as int));
    assert(have_common_point(a, b));
    lemma_common_point_intersecting(a, b);
    lemma_crossing_fits(a, b);
    let p = intersection_of(a, b)->0;
    let dd = q.d as int;
    let rx = a.p2.x - a.p1.x;
    let ry = a.p2.y - a.p1.y;
    let sx = b.p2.x - b.p1.x;
    let sy = b.p2.y - b.p1.y;
    let ax = q.x - a.p1.x * dd;
    let ay = q.y - a.p1.y * dd;
    let bx = q.x - b.p1.x * dd;
    let by = q.y - b.p1.y * dd;
    let d0 = direction_cross(a, b);
    let n0 = cross(b.p1, b.p2, a.p1);
    assert(rx * ay == ry * ax);
    assert(sx * by == sy * bx);
    let uy = a.p1.y - b.p1.y;
    let ux = a.p1.x - b.p1.x;
    assert(by - ay == dd * uy && bx - ax == dd * ux) by (nonlinear_arith)
        requires
            ax == q.x - a.p1.x * dd,
            ay == q.y - a.p1.y * dd,
            bx == q.x - b.p1.x * dd,
            by == q.y - b.p1.y * dd,
            uy == a.p1.y - b.p1.y,
            ux == a.p1.x - b.p1.x,
    ;
    let t = sy * ax - sx * ay;
    assert(dd * n0 == t) by (nonlinear_arith)
        requires
            n0 == sx * uy - sy * ux,
            by - ay == dd * uy,
            bx - ax == dd * ux,
            sx * by == sy * bx,
            t == sy * ax - sx * ay,
    {
        assert(sx * (by - ay) == sx * by - sx * ay);
        assert(sy * (bx - ax) == sy * bx - sy * ax);
        assert(sx * (dd * uy) == dd * (sx * uy));
        assert(sy * (dd * ux) == dd * (sy * ux));
    }
    let m1 = rx * sy;
    let m2 = ry * sx;
    assert((sy * ax) * rx == ax * m1) by (nonlinear_arith)
        requires
            m1 == rx * sy,
    ;
    assert((sx * ay) * rx == ax * m2) by (nonlinear_arith)
        requires
            m2 == ry * sx,
            rx * ay == ry * ax,
    {
        assert((sx * ay) * rx == sx * (rx * ay));
        assert(sx * (ry * ax) == (ry * sx) * ax);
    }
    assert((sy * ax) * ry == ay * m1) by (nonlinear_arith)
        requires
            m1 == rx * sy,
            rx * ay == ry * ax,
    {
        assert((sy * ax) * ry == sy * (ry * ax));
        assert(sy * (rx * ay) == (rx * sy) * ay);
    }
    assert((sx * ay) * ry == ay * m2) by (nonlinear_arith)
        requires
            m2 == ry * sx,
    ;
    assert(t * rx == ax * d0 && t * ry == ay * d0) by (nonlinear_arith)
        requires
            t == sy * ax - sx * ay,
            d0 == m1 - m2,
            (sy * ax) * rx == ax * m1,
            (sx * ay) * rx == ax * m2,
            (sy * ax) * ry == ay * m1,
            (sx * ay) * ry == ay * m2,
    ;
    assert(ax * d0 == (n0 * rx) * dd && ay * d0 == (n0 * ry) * dd) by (nonlinear_arith)
        requires
            dd * n0 == t,
            t * rx == ax * d0,
            t * ry == ay * d0,
    ;
    let cd = crossing_divisor(a, b);
    let n = if d0 > 0 {
        n0
    } else {
        -n0
    };
    assert(ax * cd == (n * rx) * dd && ay * cd == (n * ry) * dd) by (nonlinear_arith)
        requires
            ax * d0 == (n0 * rx) * dd,
            ay * d0 == (n0 * ry) * dd,
            (d0 > 0 && cd == d0 && n == n0) || (d0 < 0 && cd == -d0 && n == -n0),
    ;
    assert(q.x * cd == (a.p1.x * cd + n * rx) * dd && q.y * cd == (a.p1.y * cd + n * ry) * dd)
        by (nonlinear_arith)
        requires
            ax == q.x - a.p1.x * dd,
            ay == q.y - a.p1.y * dd,
            ax * cd == (n * rx) * dd,
            ay * cd == (n * ry) * dd,
    ;
}

/// Forms that name the point that a third form names name one point.
pub proof fn lemma_same_point_transitive(p: ExactPoint, q: ExactPoint, r: ExactPoint)
    requires
        q.d > 0,
        p.same_point(q),
        q.same_point(r),
    ensures
        p.same_point(r),
{
    assert(p.x * r.d == r.x * p.d) by (nonlinear_arith)
        requires
            p.x * q.d == q.x * p.d,
            q.x * r.d == r.x * q.d,
            q.d > 0,
    {
        assert((p.x * r.d) * q.d == (p.x * q.d) * r.d);
        assert((q.x * p.d) * r.d == (q.x * r.d) * p.d);
        assert((r.x * q.d) * p.d == (r.x * p.d) * q.d);
    }
    assert(p.y * r.d == r.y * p.d) by (nonlinear_arith)
        requires
            p.y * q.d == q.y * p.d,
            q.y * r.d == r.y * q.d,
            q.d > 0,
    {
        assert((p.y * r.d) * q.d == (p.y * q.d) * r.d);
        assert((q.y * p.d) * r.d == (q.y * r.d) * p.d);
        assert((r.y * q.d) * p.d == (r.y * p.d) * q.d);
    }
}

/// The point in which two segments intersect does not depend on which of
/// the two is asked about the other.
pub proof fn lemma_intersection_does_not_depend_on_order(a: Line2D, b: Line2D)
    ensures
        intersection_of(a, b) is Some <==> intersection_of(b, a) is Some,
        intersection_of(a, b) is Some ==> intersection_of(a, b)->0.same_point(
            intersection_of(b, a)->0,
        ),
{
    lemma_intersect_iff_common_point(a, b);
    lemma_cross_differences(a, b);
    lemma_cross_differences(b, a);
    assert(direction_cross(b, a) == -direction_cross(a, b)) by (nonlinear_arith)
        requires
            direction_cross(b, a) == (b.p2.x - b.p1.x) * (a.p2.y - a.p1.y) - (b.p2.y - b.p1.y) * (
            a.p2.x - a.p1.x),
            direction_cross(a, b) == (a.p2.x - a.p1.x) * (b.p2.y - b.p1.y) - (a.p2.y - a.p1.y) * (
            b.p2.x - b.p1.x),
    ;
    if segments_intersect(a, b) {
        if direction_cross(a, b) != 0 {
            lemma_crossing_is_exact(a, b);
            lemma_crossing_fits(a, b);
            let p = intersection_of(a, b)->0;
            lemma_crossing_is_only_common_point(b, a, p);
        } else {
            lemma_overlap_is_common(a, b);
            lemma_overlap_representative_is_last(a, b);
        }
    }
}

/// A point lies on a segment whichever way the segment holds its end
/// points.
pub proof fn lemma_fraction_on_reversed(l: Line2D, nx: int, ny: int, d: int)
    ensures
        fraction_on_segment(l, nx, ny, d) == fraction_on_segment(
            Line2D { p1: l.p2, p2: l.p1 },
            nx,
            ny,
            d,
        ),
{
    let rx = l.p2.x - l.p1.x;
    let ry = l.p2.y - l.p1.y;
    let ux = nx - l.p1.x * d;
    let uy = ny - l.p1.y * d;
    let e1 = rx * uy - ry * ux;
    let e2 = (l.p1.x - l.p2.x) * (ny - l.p2.y * d) - (l.p1.y - l.p2.y) * (nx - l.p2.x * d);
    assert(l.p2.x * d == l.p1.x * d + rx * d && l.p2.y * d == l.p1.y * d + ry * d)
        by (nonlinear_arith)
        requires
            rx == l.p2.x - l.p1.x,
            ry == l.p2.y - l.p1.y,
    ;
    assert(e2 == -e1) by (nonlinear_arith)
        requires
            e1 == rx * uy - ry * ux,
            e2 == (-rx) * (uy - ry * d) - (-ry) * (ux - rx * d),
    {
        assert(rx * (uy - ry * d) == rx * uy - rx * (ry * d));
        assert(ry * (ux - rx * d) == ry * ux - ry * (rx * d));
        assert(rx * (ry * d) == ry * (rx * d));
    }
}

/// The point in which two segments intersect does not depend on the order
/// in which a segment holds its end points.
pub proof fn lemma_intersection_does_not_depend_on_direction(a: Line2D, b: Line2D)
    ensures
        intersection_of(a, b) is Some <==> intersection_of(Line2D { p1: a.p2, p2: a.p1 }, b) is Some,
        intersection_of(a, b) is Some ==> intersection_of(a, b)->0.same_point(
            intersection_of(Line2D { p1: a.p2, p2: a.p1 }, b)->0,
        ),
{
    let ar = Line2D { p1: a.p2, p2: a.p1 };
    lemma_intersect_iff_common_point(a, b);
    lemma_intersect_iff_common_point(ar, b);
    assert(have_common_point(a, b) == have_common_point(ar, b)) by {
        if have_common_point(a, b) {
            let (nx, ny, d) = choose|nx: int, ny: int, d: int|
                d > 0 && #[trigger] fraction_on_segment(a, nx, ny, d) && fraction_on_segment(
                    b,
                    nx,
                    ny,
                    d,
                );
            lemma_fraction_on_reversed(a, nx, ny, d);
            assert(fraction_on_segment(ar, nx, ny, d));
        }
        if have_common_point(ar, b) {
            let (nx, ny, d) = choose|nx: int, ny: int, d: int|
                d > 0 && #[trigger] fraction_on_segment(ar, nx, ny, d) && fraction_on_segment(
                    b,
                    nx,
                    ny,
                    d,
                );
            lemma_fraction_on_reversed(a, nx, ny, d);
            assert(fraction_on_segment(a, nx, ny, d));
        }
    }
    assert(direction_cross(ar, b) == -direction_cross(a, b)) by (nonlinear_arith)
        requires
            direction_cross(ar, b) == (a.p1.x - a.p2.x) * (b.p2.y - b.p1.y) - (a.p1.y - a.p2.y) * (
            b.p2.x - b.p1.x),
            direction_cross(a, b) == (a.p2.x - a.p1.x) * (b.p2.y - b.p1.y) - (a.p2.y - a.p1.y) * (
            b.p2.x - b.p1.x),
    ;
    if segments_intersect(a, b) {
        if direction_cross(a, b) != 0 {
            lemma_crossing_is_exact(a, b);
            lemma_crossing_fits(a, b);
            let p = intersection_of(a, b)->0;
            lemma_fraction_on_reversed(a, p.x as int, p.y as int, p.d as int);
            lemma_crossing_is_only_common_point(ar, b, p);
        } else {
            lemma_overlap_is_common(a, b);
            lemma_overlap_representative_is_last(a, b);
        }
    }
}

/// Two segments intersect exactly when they have a point in common. So it
/// does not matter which of the two is asked about the other.
pub proof fn lemma_intersect_iff_common_point(a: Line2D, b: Line2D)
    ensures
        segments_intersect(a, b) <==> have_common_point(a, b),
        segments_intersect(a, b) <==> segments_intersect(b, a),
{
    if segments_intersect(a, b) {
        lemma_intersecting_have_common_point(a, b);
    }
    if have_common_point(a, b) {
        lemma_common_point_intersecting(a, b);
        let (nx, ny, d) = choose|nx: int, ny: int, d: int|
            d > 0 && #[trigger] fraction_on_segment(a, nx, ny, d) && fraction_on_segment(
                b,
                nx,
                ny,
                d,
            );
        assert(fraction_on_segment(b, nx, ny, d) && fraction_on_segment(a, nx, ny, d));
        lemma_common_point_intersecting(b, a);
    }
    if segments_intersect(b, a) {
        lemma_intersecting_have_common_point(b, a);
        let (nx, ny, d) = choose|nx: int, ny: int, d: int|
            d > 0 && #[trigger] fraction_on_segment(b, nx, ny, d) && fraction_on_segment(
                a,
                nx,
                ny,
                d,
            );
        assert(fraction_on_segment(a, nx, ny, d) && fraction_on_segment(b, nx, ny, d));
        lemma_common_point_intersecting(a, b);
    }
}

} // verus!
