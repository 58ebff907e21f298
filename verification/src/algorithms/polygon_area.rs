//! The area of a polygon by the shoelace formula.

use crate::error::GeometryError;
use crate::primitives2d::{lemma_product_bound, Point2D};
use vstd::prelude::*;

verus! {

/// An exact area. A polygon with grid vertices has an area that is a multiple
/// of one half, so twice the area is kept. A signed area is negative for a
/// polygon given clockwise and positive for one given counter-clockwise.
#[derive(Copy, Clone, Debug, PartialEq, Eq, Structural)]
pub struct Area {
    /// Twice the area.
    pub doubled: i128,
}

/// The contribution of the edge from `p` to `q` to twice the signed area.
pub open spec fn trapezoid_term(p: Point2D, q: Point2D) -> int {
    (p.x + q.x) * (q.y - p.y)
}

/// The index that follows `i` on a closed polygon of `n` vertices.
pub open spec fn wrap_next(i: int, n: int) -> int {
    if i + 1 == n {
        0
    } else {
        i + 1
    }
}

/// The sum of the contributions of the first `k` edges of the closed polygon
/// `s`, where edge `i` runs from `s[i]` to the vertex that follows it, the
/// last edge leading back to `s[0]`.
pub open spec fn shoelace_partial(s: Seq<Point2D>, k: nat) -> int
    decreases k,
{
    if k == 0 {
        0
    } else {
        shoelace_partial(s, (k - 1) as nat) + trapezoid_term(
            s[k - 1],
            s[wrap_next(k - 1, s.len() as int)],
        )
    }
}

/// Twice the signed area of the closed polygon `s`.
pub open spec fn doubled_signed_area(s: Seq<Point2D>) -> int {
    shoelace_partial(s, s.len())
}

/// Twice the area of the closed polygon `s`.
pub open spec fn doubled_unsigned_area(s: Seq<Point2D>) -> int {
    if doubled_signed_area(s) < 0 {
        -doubled_signed_area(s)
    } else {
        doubled_signed_area(s)
    }
}

/// `s` started `k` places later: `s[k], .., s[n - 1], s[0], .., s[k - 1]`.
pub open spec fn rotated(s: Seq<Point2D>, k: int) -> Seq<Point2D> {
    s.subrange(k, s.len() as int) + s.subrange(0, k)
}

/// What the first `k` edges contribute when the polygon is started one
/// place later.
proof fn lemma_partial_rotated_once(s: Seq<Point2D>, k: nat)
    requires
        s.len() >= 1,
        k < s.len(),
    ensures
        shoelace_partial(rotated(s, 1), k) == shoelace_partial(s, k + 1) - trapezoid_term(
            s[0],
            s[wrap_next(0, s.len() as int)],
        ),
    decreases k,
{
    let n = s.len() as int;
    let t = rotated(s, 1);
    assert(t.len() == n);
    if k == 0 {
        assert(shoelace_partial(s, 1) == shoelace_partial(s, 0) + trapezoid_term(
            s[0],
            s[wrap_next(0, n)],
        ));
    } else {
        let ki = k as int;
        lemma_partial_rotated_once(s, (k - 1) as nat);
        assert(t[ki - 1] == s[ki]);
        assert(t[ki] == s[wrap_next(ki, n)]);
        assert(shoelace_partial(s, k + 1) == shoelace_partial(s, k) + trapezoid_term(
            s[ki],
            s[wrap_next(ki, n)],
        ));
    }
}

/// Starting a polygon one place later does not change its signed area.
proof fn lemma_area_rotated_once(s: Seq<Point2D>)
    requires
        s.len() >= 1,
    ensures
        doubled_signed_area(rotated(s, 1)) == doubled_signed_area(s),
{
    let n = s.len() as int;
    let t = rotated(s, 1);
    assert(t.len() == n);
    lemma_partial_rotated_once(s, (n - 1) as nat);
    assert(t[n - 1] == s[0]);
    assert(t[0] == s[wrap_next(0, n)]);
}

/// The signed area of a polygon does not depend on the vertex it is started at.
pub proof fn lemma_signed_area_rotation(s: Seq<Point2D>, k: nat)
    requires
        k <= s.len(),
    ensures
        doubled_signed_area(rotated(s, k as int)) == doubled_signed_area(s),
    decreases k,
{
    if k == 0 {
        assert(rotated(s, 0) =~= s);
    } else {
        lemma_signed_area_rotation(s, (k - 1) as nat);
        let t = rotated(s, k - 1);
        assert(t.len() == s.len());
        lemma_area_rotated_once(t);
        assert(rotated(t, 1) =~= rotated(s, k as int));
    }
}

/// What the first `k` edges of the reversed polygon contribute.
proof fn lemma_partial_reversed(s: Seq<Point2D>, k: nat)
    requires
        s.len() >= 1,
        k < s.len(),
    ensures
        shoelace_partial(s.reverse(), k) == shoelace_partial(s, (s.len() - 1 - k) as nat)
            - shoelace_partial(s, (s.len() - 1) as nat),
    decreases k,
{
    let n = s.len() as int;
    let t = s.reverse();
    if k > 0 {
        let ki = k as int;
        lemma_partial_reversed(s, (k - 1) as nat);
        assert(t[ki - 1] == s[n - ki]);
        assert(t[ki] == s[n - 1 - ki]);
        assert(shoelace_partial(s, (n - ki) as nat) == shoelace_partial(s, (n - 1 - ki) as nat)
            + trapezoid_term(s[n - 1 - ki], s[wrap_next(n - 1 - ki, n)]));
        assert(trapezoid_term(s[n - ki], s[n - 1 - ki]) == -trapezoid_term(
            s[n - 1 - ki],
            s[n - ki],
        )) by (nonlinear_arith);
    }
}

/// Traversing a polygon in the opposite sense negates its signed area.
pub proof fn lemma_signed_area_reversal(s: Seq<Point2D>)
    ensures
        doubled_signed_area(s.reverse()) == -doubled_signed_area(s),
{
    let n = s.len() as int;
    let t = s.reverse();
    if n >= 1 {
        lemma_partial_reversed(s, (n - 1) as nat);
        assert(t[n - 1] == s[0]);
        assert(t[0] == s[n - 1]);
        assert(shoelace_partial(s, n as nat) == shoelace_partial(s, (n - 1) as nat)
            + trapezoid_term(s[n - 1], s[0]));
        assert(shoelace_partial(t, n as nat) == shoelace_partial(t, (n - 1) as nat)
            + trapezoid_term(t[n - 1], t[0]));
        assert(trapezoid_term(s[0], s[n - 1]) == -trapezoid_term(s[n - 1], s[0]))
            by (nonlinear_arith);
    }
}

/// The area of a polygon depends neither on the vertex it is started at nor
/// on the sense in which it is traversed.
pub proof fn lemma_unsigned_area_invariant(s: Seq<Point2D>, k: nat)
    requires
        k <= s.len(),
    ensures
        doubled_unsigned_area(rotated(s, k as int)) == doubled_unsigned_area(s),
        doubled_unsigned_area(s.reverse()) == doubled_unsigned_area(s),
{
    lemma_signed_area_rotation(s, k);
    lemma_signed_area_reversal(s);
}

/// The product of the coordinates of `p`.
pub open spec fn corner(p: Point2D) -> int {
    p.x * p.y
}

/// The contribution of an edge is the cross product of its end points plus
/// the difference of their corners, so that around a closed polygon the
/// corners cancel.
proof fn lemma_trapezoid_term_split(p: Point2D, q: Point2D)
    ensures
        trapezoid_term(p, q) == (p.x * q.y - q.x * p.y) + corner(q) - corner(p),
{
    assert((p.x + q.x) * (q.y - p.y) == (p.x * q.y - q.x * p.y) + q.x * q.y - p.x * p.y)
        by (nonlinear_arith);
}

/// Computes twice the signed area of the closed polygon `points` in one
/// forward pass.
fn doubled_sum(points: &[Point2D]) -> (r: i128)
    requires
        points@.len() >= 1,
    ensures
        r == doubled_signed_area(points@),
        -i128::MAX <= r <= i128::MAX,
{
    let n: usize = points.len();
    let mut acc: i128 = 0;
    let mut i: usize = 0;
    while i < n
        invariant
            n == points@.len(),
            n >= 1,
            i <= n,
            acc + corner(points@[if i == n { 0 } else { i as int }]) - corner(points@[0])
                == shoelace_partial(points@, i as nat),
            -(i * 0x8000_0000_0000_0000) <= acc <= i * 0x8000_0000_0000_0000,
        decreases n - i,
    {
        let p: Point2D = points[i];
        let q: Point2D = if i + 1 == n { points[0] } else { points[i + 1] };
        let px: i128 = p.x as i128;
        let py: i128 = p.y as i128;
        let qx: i128 = q.x as i128;
        let qy: i128 = q.y as i128;
        proof {
            lemma_product_bound(px as int, qy as int, 0x8000_0000, 0x8000_0000);
            lemma_product_bound(qx as int, py as int, 0x8000_0000, 0x8000_0000);
            lemma_trapezoid_term_split(p, q);
            assert(q == points@[wrap_next(i as int, n as int)]);
            assert(shoelace_partial(points@, (i + 1) as nat) == shoelace_partial(points@, i as nat)
                + trapezoid_term(p, q));
        }
        acc = acc + (px * qy - qx * py);
        i = i + 1;
    }
    acc
}

/// Returns the signed area of the closed polygon whose vertices are `points`
/// in order: negative if they run clockwise, positive if counter-clockwise.
/// Fewer than three points have no area.
pub fn signed_area(points: &[Point2D]) -> (r: Result<Area, GeometryError>)
    ensures
        points@.len() < 3 ==> r == Err::<Area, GeometryError>(GeometryError::DegeneratePolygon),
        points@.len() >= 3 ==> r is Ok && r->Ok_0.doubled == doubled_signed_area(points@),
{
    if points.len() < 3 {
        return Err(GeometryError::DegeneratePolygon);
    }
    Ok(Area { doubled: doubled_sum(points) })
}

/// Returns the area of the closed polygon whose vertices are `points` in
/// order, whichever way they run. Fewer than three points have no area.
pub fn shoelace(points: &[Point2D]) -> (r: Result<Area, GeometryError>)
    ensures
        points@.len() < 3 ==> r == Err::<Area, GeometryError>(GeometryError::DegeneratePolygon),
        points@.len() >= 3 ==> r is Ok && r->Ok_0.doubled == doubled_unsigned_area(points@),
{
    if points.len() < 3 {
        return Err(GeometryError::DegeneratePolygon);
    }
    let sum: i128 = doubled_sum(points);
    if sum < 0 {
        Ok(Area { doubled: -sum })
    } else {
        Ok(Area { doubled: sum })
    }
}

} // verus!
