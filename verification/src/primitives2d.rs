//! Points, segments and the exact predicates every algorithm is built on.

use core::cmp::Ordering;
use vstd::arithmetic::div_mod::{lemma_fundamental_div_mod, lemma_mod_pos_bound};
use vstd::prelude::*;

verus! {

/// A point of the integer grid.
#[derive(Copy, Clone, Debug, PartialEq, Eq, Structural)]
pub struct Point2D {
    /// Horizontal coordinate.
    pub x: i32,
    /// Vertical coordinate.
    pub y: i32,
}

/// A segment between two grid points, which it keeps in the order given.
#[derive(Copy, Clone, Debug, PartialEq, Eq, Structural)]
pub struct Line2D {
    /// First end point.
    pub p1: Point2D,
    /// Second end point.
    pub p2: Point2D,
}

/// The sense in which a path turns at its middle point.
#[derive(Copy, Clone, Debug, PartialEq, Eq, Structural)]
pub enum TurnDirection {
    /// Clockwise.
    RightTurn,
    /// Counter-clockwise.
    LeftTurn,
    /// The three points are collinear.
    NoTurn,
}

/// A point of the plane with the rational coordinates `x / d` and `y / d`.
/// Where segments cross off the grid, this is what names the crossing.
///
/// One point has many such forms; `==` compares forms, and `same_as`
/// compares points.
#[derive(Copy, Clone, Debug, PartialEq, Eq, Structural)]
pub struct ExactPoint {
    /// The horizontal coordinate times `d`.
    pub x: i128,
    /// The vertical coordinate times `d`.
    pub y: i128,
    /// The divisor, which is positive.
    pub d: i128,
}

impl ExactPoint {
    /// The divisor is positive, and all three numbers are of a size that
    /// the comparison of points can work with.
    pub open spec fn wf(self) -> bool {
        &&& 0 < self.d <= 0x10_0000_0000_0000_0000_0000_0000
        &&& -0x10_0000_0000_0000_0000_0000_0000 <= self.x <= 0x10_0000_0000_0000_0000_0000_0000
        &&& -0x10_0000_0000_0000_0000_0000_0000 <= self.y <= 0x10_0000_0000_0000_0000_0000_0000
    }

    /// The two forms name one point.
    pub open spec fn same_point(self, other: ExactPoint) -> bool {
        self.x * other.d == other.x * self.d && self.y * other.d == other.y * self.d
    }

    /// The point lies on the closed segment `l`.
    pub open spec fn lies_on(self, l: Line2D) -> bool {
        fraction_on_segment(l, self.x as int, self.y as int, self.d as int)
    }

    /// The grid point `p` as an exact point.
    pub open spec fn of_grid(p: Point2D) -> ExactPoint {
        ExactPoint { x: p.x as i128, y: p.y as i128, d: 1 }
    }
}

/// The cross product of `a - pivot` and `b - pivot`.
pub open spec fn cross(pivot: Point2D, a: Point2D, b: Point2D) -> int {
    (a.x - pivot.x) * (b.y - pivot.y) - (a.y - pivot.y) * (b.x - pivot.x)
}

/// The turn made at `pivot` between the directions to `a` and to `b`: the
/// sign of `cross(pivot, a, b)`.
pub open spec fn orientation(pivot: Point2D, a: Point2D, b: Point2D) -> TurnDirection {
    if cross(pivot, a, b) < 0 {
        TurnDirection::RightTurn
    } else if cross(pivot, a, b) > 0 {
        TurnDirection::LeftTurn
    } else {
        TurnDirection::NoTurn
    }
}

/// `p` comes strictly before `q` when ordered by `x`, ties broken by `y`.
pub open spec fn lex_lt(p: Point2D, q: Point2D) -> bool {
    p.x < q.x || (p.x == q.x && p.y < q.y)
}

/// `p` comes before `q` or equals it when ordered by `x`, ties broken by `y`.
pub open spec fn lex_le(p: Point2D, q: Point2D) -> bool {
    p.x < q.x || (p.x == q.x && p.y <= q.y)
}

/// The order by `x`, ties broken by `y`.
pub open spec fn x_then_y_order(p: Point2D, q: Point2D) -> Ordering {
    if lex_lt(p, q) {
        Ordering::Less
    } else if lex_lt(q, p) {
        Ordering::Greater
    } else {
        Ordering::Equal
    }
}

/// The order by polar angle around `pivot`: what turns right of the other
/// comes first, and collinear points are ordered by `x`, then `y`.
pub open spec fn rotation_order(p: Point2D, q: Point2D, pivot: Point2D) -> Ordering {
    match orientation(pivot, p, q) {
        TurnDirection::LeftTurn => Ordering::Greater,
        TurnDirection::RightTurn => Ordering::Less,
        TurnDirection::NoTurn => x_then_y_order(p, q),
    }
}

/// `p` lies in the axis-parallel box spanned by the end points of `l`.
pub open spec fn in_bounding_box(l: Line2D, p: Point2D) -> bool {
    &&& (l.p1.x <= p.x <= l.p2.x || l.p2.x <= p.x <= l.p1.x)
    &&& (l.p1.y <= p.y <= l.p2.y || l.p2.y <= p.y <= l.p1.y)
}

/// `p` lies on the closed segment `l`.
pub open spec fn on_segment(l: Line2D, p: Point2D) -> bool {
    in_bounding_box(l, p) && cross(l.p1, l.p2, p) == 0
}

/// The cross product of the directions of `a` and `b`; zero exactly when
/// the two are parallel (or one of them has no length).
pub open spec fn direction_cross(a: Line2D, b: Line2D) -> int {
    (a.p2.x - a.p1.x) * (b.p2.y - b.p1.y) - (a.p2.y - a.p1.y) * (b.p2.x - b.p1.x)
}

/// The two segments have a point in common: either each separates the end
/// points of the other, or they lie on one line and an end point of one lies
/// on the other.
pub open spec fn segments_intersect(a: Line2D, b: Line2D) -> bool {
    let o1 = orientation(a.p1, a.p2, b.p1);
    let o2 = orientation(a.p1, a.p2, b.p2);
    let o3 = orientation(b.p1, b.p2, a.p1);
    let o4 = orientation(b.p1, b.p2, a.p2);
    ||| (o1 != o2 && o3 != o4)
    ||| (o1 == TurnDirection::NoTurn && o2 == TurnDirection::NoTurn && (on_segment(a, b.p1)
        || on_segment(a, b.p2) || on_segment(b, a.p1) || on_segment(b, a.p2)))
}

/// `p` lies on both segments.
pub open spec fn on_both(a: Line2D, b: Line2D, p: Point2D) -> bool {
    on_segment(a, p) && on_segment(b, p)
}

/// Of `best` and `candidate`, the one to keep in the search for the last
/// point, by `x` then `y`, that lies on both segments.
pub open spec fn later_on_both(a: Line2D, b: Line2D, best: Point2D, candidate: Point2D)
    -> Point2D {
    if on_both(a, b, candidate) && (!on_both(a, b, best) || lex_lt(best, candidate)) {
        candidate
    } else {
        best
    }
}

/// For two overlapping segments of one line: the last, by `x` then `y`, of
/// the four end points that lie on both segments.
pub open spec fn overlap_representative(a: Line2D, b: Line2D) -> Point2D {
    later_on_both(a, b, later_on_both(a, b, later_on_both(a, b, a.p1, a.p2), b.p1), b.p2)
}

/// The point reported for the intersection of `a` and `b`, if they
/// intersect: the point in which they cross, or, for overlapping segments of
/// one line, the last end point that lies on both.
pub open spec fn intersection_of(a: Line2D, b: Line2D) -> Option<ExactPoint> {
    if !segments_intersect(a, b) {
        None
    } else if direction_cross(a, b) == 0 {
        Some(ExactPoint::of_grid(overlap_representative(a, b)))
    } else {
        Some(
            ExactPoint {
                x: crossing_x(a, b) as i128,
                y: crossing_y(a, b) as i128,
                d: crossing_divisor(a, b) as i128,
            },
        )
    }
}

/// A product of a number of magnitude at most `ma` and one of magnitude at
/// most `mb` has magnitude at most `ma * mb`.
pub proof fn lemma_product_bound(a: int, b: int, ma: int, mb: int)
    requires
        -ma <= a <= ma,
        -mb <= b <= mb,
    ensures
        -(ma * mb) <= a * b <= ma * mb,
{
    assert(-(ma * mb) <= a * b <= ma * mb) by (nonlinear_arith)
        requires
            -ma <= a <= ma,
            -mb <= b <= mb,
    {
        assert((ma - a) * (mb - b) >= 0);
        assert((ma + a) * (mb + b) >= 0);
        assert((ma - a) * (mb + b) >= 0);
        assert((ma + a) * (mb - b) >= 0);
    }
}

/// Computes `cross(pivot, a, b)`.
pub fn cross_product(pivot: &Point2D, a: &Point2D, b: &Point2D) -> (r: i128)
    ensures
        r == cross(*pivot, *a, *b),
        -0x2_0000_0000_0000_0000 <= r <= 0x2_0000_0000_0000_0000,
{
    let ax: i128 = a.x as i128 - pivot.x as i128;
    let ay: i128 = a.y as i128 - pivot.y as i128;
    let bx: i128 = b.x as i128 - pivot.x as i128;
    let by: i128 = b.y as i128 - pivot.y as i128;
    proof {
        lemma_product_bound(ax as int, by as int, 0x1_0000_0000, 0x1_0000_0000);
        lemma_product_bound(ay as int, bx as int, 0x1_0000_0000, 0x1_0000_0000);
    }
    ax * by - ay * bx
}

impl Point2D {
    /// Creates a point.
    pub fn new(x: i32, y: i32) -> (p: Self)
        ensures
            p.x == x,
            p.y == y,
    {
        Point2D { x, y }
    }

    /// Returns the turn made at `self` between the directions to `p1` and to `p2`.
    pub fn turn_direction(&self, p1: &Point2D, p2: &Point2D) -> (r: TurnDirection)
        ensures
            r == orientation(*self, *p1, *p2),
    {
        let det: i128 = cross_product(self, p1, p2);
        if det < 0 {
            TurnDirection::RightTurn
        } else if det > 0 {
            TurnDirection::LeftTurn
        } else {
            TurnDirection::NoTurn
        }
    }

    /// Tells whether `self` comes strictly before `other` by `x`, then `y`.
    pub fn precedes(&self, other: &Point2D) -> (r: bool)
        ensures
            r == lex_lt(*self, *other),
    {
        self.x < other.x || (self.x == other.x && self.y < other.y)
    }

    /// Compares by `x`, ties broken by `y`. The order is total, so the
    /// result is never `None`.
    pub fn x_then_y_partial_cmp(&self, other: &Point2D) -> (r: Option<Ordering>)
        ensures
            r == Some(x_then_y_order(*self, *other)),
    {
        if self.precedes(other) {
            Some(Ordering::Less)
        } else if other.precedes(self) {
            Some(Ordering::Greater)
        } else {
            Some(Ordering::Equal)
        }
    }

    /// Compares by polar angle around `rotational_point`; collinear points
    /// are compared by `x`, then `y`. The result is never `None`.
    pub fn rotation_point_cmp(&self, other: &Point2D, rotational_point: &Point2D) -> (r: Option<
        Ordering,
    >)
        ensures
            r == Some(rotation_order(*self, *other, *rotational_point)),
    {
        match rotational_point.turn_direction(self, other) {
            TurnDirection::LeftTurn => Some(Ordering::Greater),
            TurnDirection::RightTurn => Some(Ordering::Less),
            TurnDirection::NoTurn => self.x_then_y_partial_cmp(other),
        }
    }
}

/// The cross products that tell on which side of `a` the end points of `b`
/// lie differ by `direction_cross(a, b)`, and so do, with the opposite sign,
/// those that tell on which side of `b` the end points of `a` lie.
pub proof fn lemma_cross_differences(a: Line2D, b: Line2D)
    ensures
        cross(a.p1, a.p2, b.p2) - cross(a.p1, a.p2, b.p1) == direction_cross(a, b),
        cross(b.p1, b.p2, a.p1) - cross(b.p1, b.p2, a.p2) == direction_cross(a, b),
{
    let rx = a.p2.x - a.p1.x;
    let ry = a.p2.y - a.p1.y;
    let sx = b.p2.x - b.p1.x;
    let sy = b.p2.y - b.p1.y;
    let ux = b.p1.x - a.p1.x;
    let uy = b.p1.y - a.p1.y;
    assert(cross(a.p1, a.p2, b.p1) == rx * uy - ry * ux);
    assert(cross(a.p1, a.p2, b.p2) == rx * (uy + sy) - ry * (ux + sx));
    assert(rx * (uy + sy) - ry * (ux + sx) - (rx * uy - ry * ux) == rx * sy - ry * sx)
        by (nonlinear_arith);
    assert(cross(b.p1, b.p2, a.p1) == sx * (-uy) - sy * (-ux));
    assert(cross(b.p1, b.p2, a.p2) == sx * (ry - uy) - sy * (rx - ux));
    assert(sx * (-uy) - sy * (-ux) - (sx * (ry - uy) - sy * (rx - ux)) == rx * sy - ry * sx)
        by (nonlinear_arith);
}

/// Two intersecting segments that are not parallel cross properly: with the
/// sign taken so that the divisor is positive, the crossing lies at a
/// fraction `n / d` of the way along `a` with `0 <= n <= d`.
pub proof fn lemma_crossing_fraction(a: Line2D, b: Line2D)
    requires
        segments_intersect(a, b),
        direction_cross(a, b) != 0,
    ensures
        direction_cross(a, b) > 0 ==> 0 <= cross(b.p1, b.p2, a.p1) <= direction_cross(a, b),
        direction_cross(a, b) < 0 ==> direction_cross(a, b) <= cross(b.p1, b.p2, a.p1) <= 0,
{
    lemma_cross_differences(a, b);
}

/// The point with the coordinates `nx / d` and `ny / d`, for a positive
/// `d`, lies on the closed segment `l`: within its bounding box and on its
/// line.
pub open spec fn fraction_on_segment(l: Line2D, nx: int, ny: int, d: int) -> bool {
    &&& (l.p1.x * d <= nx <= l.p2.x * d || l.p2.x * d <= nx <= l.p1.x * d)
    &&& (l.p1.y * d <= ny <= l.p2.y * d || l.p2.y * d <= ny <= l.p1.y * d)
    &&& (l.p2.x - l.p1.x) * (ny - l.p1.y * d) - (l.p2.y - l.p1.y) * (nx - l.p1.x * d) == 0
}

/// The divisor of the coordinates of the point in which two segments that
/// are not parallel cross.
pub open spec fn crossing_divisor(a: Line2D, b: Line2D) -> int {
    if direction_cross(a, b) > 0 {
        direction_cross(a, b)
    } else {
        -direction_cross(a, b)
    }
}

/// The part, in `crossing_divisor`-ths, of `a` that lies before the point in
/// which `a` and `b` cross.
pub open spec fn crossing_part(a: Line2D, b: Line2D) -> int {
    if direction_cross(a, b) > 0 {
        cross(b.p1, b.p2, a.p1)
    } else {
        -cross(b.p1, b.p2, a.p1)
    }
}

/// The `x` coordinate of the crossing point of `a` and `b`, times
/// `crossing_divisor`.
pub open spec fn crossing_x(a: Line2D, b: Line2D) -> int {
    a.p1.x * crossing_divisor(a, b) + crossing_part(a, b) * (a.p2.x - a.p1.x)
}

/// The `y` coordinate of the crossing point of `a` and `b`, times
/// `crossing_divisor`.
pub open spec fn crossing_y(a: Line2D, b: Line2D) -> int {
    a.p1.y * crossing_divisor(a, b) + crossing_part(a, b) * (a.p2.y - a.p1.y)
}

/// The vector from `a.p1` to `b.p1`, the direction of `a` and the direction
/// of `b` are tied together by the three cross products among them.
proof fn lemma_crossing_balance(a: Line2D, b: Line2D)
    ensures
        (a.p1.x - b.p1.x) * direction_cross(a, b) + cross(b.p1, b.p2, a.p1) * (a.p2.x - a.p1.x)
            + cross(a.p1, a.p2, b.p1) * (b.p2.x - b.p1.x) == 0,
        (a.p1.y - b.p1.y) * direction_cross(a, b) + cross(b.p1, b.p2, a.p1) * (a.p2.y - a.p1.y)
            + cross(a.p1, a.p2, b.p1) * (b.p2.y - b.p1.y) == 0,
{
    let rx = a.p2.x - a.p1.x;
    let ry = a.p2.y - a.p1.y;
    let sx = b.p2.x - b.p1.x;
    let sy = b.p2.y - b.p1.y;
    let ux = b.p1.x - a.p1.x;
    let uy = b.p1.y - a.p1.y;
    let d = direction_cross(a, b);
    let n = cross(b.p1, b.p2, a.p1);
    let c = cross(a.p1, a.p2, b.p1);
    assert(d == rx * sy - ry * sx);
    assert(n == sx * (-uy) - sy * (-ux));
    assert(c == rx * uy - ry * ux);
    let rs = rx * sy;
    let sr = ry * sx;
    assert((-ux) * (rs - sr) == sr * ux - rs * ux) by (nonlinear_arith);
    assert((sx * (-uy) - sy * (-ux)) * rx == rs * ux - (rx * uy) * sx) by (nonlinear_arith)
        requires
            rs == rx * sy,
    ;
    assert((rx * uy - ry * ux) * sx == (rx * uy) * sx - sr * ux) by (nonlinear_arith)
        requires
            sr == ry * sx,
    ;
    assert((-uy) * (rs - sr) == sr * uy - rs * uy) by (nonlinear_arith);
    assert((sx * (-uy) - sy * (-ux)) * ry == (ry * ux) * sy - sr * uy) by (nonlinear_arith)
        requires
            sr == ry * sx,
    ;
    assert((rx * uy - ry * ux) * sy == rs * uy - (ry * ux) * sy) by (nonlinear_arith)
        requires
            rs == rx * sy,
    ;
}

/// Two intersecting segments that are not parallel cross in one point. Its
/// coordinates are `crossing_x / crossing_divisor` and `crossing_y /
/// crossing_divisor`, and it lies on both segments.
pub proof fn lemma_crossing_is_exact(a: Line2D, b: Line2D)
    requires
        segments_intersect(a, b),
        direction_cross(a, b) != 0,
    ensures
        crossing_divisor(a, b) > 0,
        0 <= crossing_part(a, b) <= crossing_divisor(a, b),
        fraction_on_segment(a, crossing_x(a, b), crossing_y(a, b), crossing_divisor(a, b)),
        fraction_on_segment(b, crossing_x(a, b), crossing_y(a, b), crossing_divisor(a, b)),
{
    lemma_crossing_fraction(a, b);
    lemma_cross_differences(a, b);
    lemma_crossing_balance(a, b);
    let d = crossing_divisor(a, b);
    let n = crossing_part(a, b);
    let d0 = direction_cross(a, b);
    let rx = a.p2.x - a.p1.x;
    let ry = a.p2.y - a.p1.y;
    let sx = b.p2.x - b.p1.x;
    let sy = b.p2.y - b.p1.y;
    let nx = crossing_x(a, b);
    let ny = crossing_y(a, b);
    // On `a`.
    assert(0 <= n <= d);
    assert((0 <= n * rx <= d * rx || d * rx <= n * rx <= 0) && (0 <= n * ry <= d * ry || d * ry
        <= n * ry <= 0)) by (nonlinear_arith)
        requires
            0 <= n <= d,
    ;
    assert(a.p2.x * d == a.p1.x * d + d * rx && a.p2.y * d == a.p1.y * d + d * ry)
        by (nonlinear_arith)
        requires
            rx == a.p2.x - a.p1.x,
            ry == a.p2.y - a.p1.y,
    ;
    assert(rx * (n * ry) - ry * (n * rx) == 0) by (nonlinear_arith);
    // On `b`: the crossing lies `m / d` of the way along `b`.
    let c1 = cross(a.p1, a.p2, b.p1);
    let m = if d0 > 0 {
        -c1
    } else {
        c1
    };
    assert(0 <= m <= d);
    assert(nx == b.p1.x * d + m * sx && ny == b.p1.y * d + m * sy) by (nonlinear_arith)
        requires
            (a.p1.x - b.p1.x) * d0 + cross(b.p1, b.p2, a.p1) * rx + c1 * sx == 0,
            (a.p1.y - b.p1.y) * d0 + cross(b.p1, b.p2, a.p1) * ry + c1 * sy == 0,
            nx == a.p1.x * d + n * rx,
            ny == a.p1.y * d + n * ry,
            (d0 > 0 && d == d0 && n == cross(b.p1, b.p2, a.p1) && m == -c1) || (d0 < 0 && d == -d0
                && n == -cross(b.p1, b.p2, a.p1) && m == c1),
    ;
    assert((0 <= m * sx <= d * sx || d * sx <= m * sx <= 0) && (0 <= m * sy <= d * sy || d * sy
        <= m * sy <= 0)) by (nonlinear_arith)
        requires
            0 <= m <= d,
    ;
    assert(b.p2.x * d == b.p1.x * d + d * sx && b.p2.y * d == b.p1.y * d + d * sy)
        by (nonlinear_arith)
        requires
            sx == b.p2.x - b.p1.x,
            sy == b.p2.y - b.p1.y,
    ;
    assert(sx * (m * sy) - sy * (m * sx) == 0) by (nonlinear_arith);
}

/// The numbers that name the crossing point of two segments are of a size
/// that an exact point can hold.
pub proof fn lemma_crossing_fits(a: Line2D, b: Line2D)
    requires
        segments_intersect(a, b),
        direction_cross(a, b) != 0,
    ensures
        intersection_of(a, b) matches Some(p) && p.wf() && p.x == crossing_x(a, b) && p.y
            == crossing_y(a, b) && p.d == crossing_divisor(a, b),
{
    lemma_crossing_is_exact(a, b);
    let d = crossing_divisor(a, b);
    let n = crossing_part(a, b);
    let rx = a.p2.x - a.p1.x;
    let ry = a.p2.y - a.p1.y;
    lemma_product_bound(rx, b.p2.y - b.p1.y, 0x1_0000_0000, 0x1_0000_0000);
    lemma_product_bound(ry, b.p2.x - b.p1.x, 0x1_0000_0000, 0x1_0000_0000);
    lemma_product_bound(a.p1.x as int, d, 0x8000_0000, 0x2_0000_0000_0000_0000);
    lemma_product_bound(a.p1.y as int, d, 0x8000_0000, 0x2_0000_0000_0000_0000);
    lemma_product_bound(n, rx, 0x2_0000_0000_0000_0000, 0x1_0000_0000);
    lemma_product_bound(n, ry, 0x2_0000_0000_0000_0000, 0x1_0000_0000);
}

/// A grid point lies on a segment exactly when it does so as an exact
/// point.
pub proof fn lemma_grid_point_on_segment(l: Line2D, p: Point2D)
    ensures
        on_segment(l, p) <==> fraction_on_segment(l, p.x as int, p.y as int, 1),
        on_segment(l, p) <==> ExactPoint::of_grid(p).lies_on(l),
{
    assert(l.p1.x * 1 == l.p1.x && l.p2.x * 1 == l.p2.x && l.p1.y * 1 == l.p1.y && l.p2.y * 1
        == l.p2.y);
}

/// Two overlapping segments of one line have the point reported for them in
/// common.
pub proof fn lemma_overlap_is_common(a: Line2D, b: Line2D)
    requires
        segments_intersect(a, b),
        direction_cross(a, b) == 0,
    ensures
        on_both(a, b, overlap_representative(a, b)),
{
    lemma_cross_differences(a, b);
    assert(cross(a.p1, a.p2, a.p1) == 0) by (nonlinear_arith);
    assert(cross(a.p1, a.p2, a.p2) == 0) by (nonlinear_arith);
    assert(cross(b.p1, b.p2, b.p1) == 0) by (nonlinear_arith);
    assert(cross(b.p1, b.p2, b.p2) == 0) by (nonlinear_arith);
}

/// The point reported for two overlapping segments of one line is, among
/// their end points that lie on both, the last by `x` then `y`. So it does
/// not depend on which segment is asked about the other, nor on the order
/// in which a segment holds its end points.
pub proof fn lemma_overlap_representative_is_last(a: Line2D, b: Line2D)
    requires
        on_both(a, b, a.p1) || on_both(a, b, a.p2) || on_both(a, b, b.p1) || on_both(a, b, b.p2),
    ensures
        on_both(a, b, overlap_representative(a, b)),
        on_both(a, b, a.p1) ==> lex_le(a.p1, overlap_representative(a, b)),
        on_both(a, b, a.p2) ==> lex_le(a.p2, overlap_representative(a, b)),
        on_both(a, b, b.p1) ==> lex_le(b.p1, overlap_representative(a, b)),
        on_both(a, b, b.p2) ==> lex_le(b.p2, overlap_representative(a, b)),
        overlap_representative(a, b) == overlap_representative(b, a),
        overlap_representative(a, b) == overlap_representative(
            Line2D { p1: a.p2, p2: a.p1 },
            b,
        ),
        overlap_representative(a, b) == overlap_representative(
            a,
            Line2D { p1: b.p2, p2: b.p1 },
        ),
{
    let ar = Line2D { p1: a.p2, p2: a.p1 };
    let br = Line2D { p1: b.p2, p2: b.p1 };
    assert forall|p: Point2D| on_segment(ar, p) == on_segment(a, p) by {
        assert(cross(a.p2, a.p1, p) == -cross(a.p1, a.p2, p)) by (nonlinear_arith)
            requires
                cross(a.p2, a.p1, p) == (a.p1.x - a.p2.x) * (p.y - a.p2.y) - (a.p1.y - a.p2.y) * (
                p.x - a.p2.x),
                cross(a.p1, a.p2, p) == (a.p2.x - a.p1.x) * (p.y - a.p1.y) - (a.p2.y - a.p1.y) * (
                p.x - a.p1.x),
        ;
    }
    assert forall|p: Point2D| on_segment(br, p) == on_segment(b, p) by {
        assert(cross(b.p2, b.p1, p) == -cross(b.p1, b.p2, p)) by (nonlinear_arith)
            requires
                cross(b.p2, b.p1, p) == (b.p1.x - b.p2.x) * (p.y - b.p2.y) - (b.p1.y - b.p2.y) * (
                p.x - b.p2.x),
                cross(b.p1, b.p2, p) == (b.p2.x - b.p1.x) * (p.y - b.p1.y) - (b.p2.y - b.p1.y) * (
                p.x - b.p1.x),
        ;
    }
    assert(on_both(ar, b, a.p1) == on_both(a, b, a.p1));
    assert(on_both(ar, b, a.p2) == on_both(a, b, a.p2));
    assert(on_both(ar, b, b.p1) == on_both(a, b, b.p1));
    assert(on_both(ar, b, b.p2) == on_both(a, b, b.p2));
    assert(on_both(a, br, a.p1) == on_both(a, b, a.p1));
    assert(on_both(a, br, a.p2) == on_both(a, b, a.p2));
    assert(on_both(a, br, b.p1) == on_both(a, b, b.p1));
    assert(on_both(a, br, b.p2) == on_both(a, b, b.p2));
}

/// Tells whether the fractions `a / b` and `c / d` are equal, by comparing
/// their whole parts and going on with the inverted remainders.
fn same_fraction(a0: i128, b0: i128, c0: i128, d0: i128) -> (r: bool)
    requires
        a0 >= 0,
        c0 >= 0,
        b0 > 0,
        d0 > 0,
    ensures
        r == (a0 * d0 == c0 * b0),
{
    let mut a: i128 = a0;
    let mut b: i128 = b0;
    let mut c: i128 = c0;
    let mut d: i128 = d0;
    loop
        invariant
            a >= 0,
            c >= 0,
            b > 0,
            d > 0,
            (a0 * d0 == c0 * b0) == (a * d == c * b),
        decreases a,
    {
        if a == 0 || c == 0 {
            proof {
                assert((a * d == c * b) == (a == 0 && c == 0)) by (nonlinear_arith)
                    requires
                        a == 0 || c == 0,
                        a >= 0,
                        c >= 0,
                        b > 0,
                        d > 0,
                ;
            }
            return a == 0 && c == 0;
        }
        let q1: i128 = b / a;
        let r1: i128 = b % a;
        let q2: i128 = d / c;
        let r2: i128 = d % c;
        proof {
            lemma_fundamental_div_mod(b as int, a as int);
            lemma_fundamental_div_mod(d as int, c as int);
            lemma_mod_pos_bound(b as int, a as int);
            lemma_mod_pos_bound(d as int, c as int);
            let ac = a * c;
            assert(a * d == ac * q2 + a * r2 && c * b == ac * q1 + c * r1) by (nonlinear_arith)
                requires
                    b == a * q1 + r1,
                    d == c * q2 + r2,
                    ac == a * c,
            ;
            assert(0 <= a * r2 < ac && 0 <= c * r1 < ac) by (nonlinear_arith)
                requires
                    0 <= r1 < a,
                    0 <= r2 < c,
                    ac == a * c,
            ;
            if q1 != q2 {
                assert(ac * q2 + a * r2 != ac * q1 + c * r1) by (nonlinear_arith)
                    requires
                        q1 != q2,
                        ac > 0,
                        0 <= a * r2 < ac,
                        0 <= c * r1 < ac,
                {
                    if q2 > q1 {
                        assert(ac * q2 >= ac * q1 + ac);
                    } else {
                        assert(ac * q1 >= ac * q2 + ac);
                    }
                }
            } else {
                assert((a * d == c * b) == (r1 * c == r2 * a)) by (nonlinear_arith)
                    requires
                        a * d == ac * q2 + a * r2,
                        c * b == ac * q1 + c * r1,
                        q1 == q2,
                ;
            }
        }
        if q1 != q2 {
            return false;
        }
        b = a;
        a = r1;
        d = c;
        c = r2;
    }
}

/// Tells whether `x1 / d1` and `x2 / d2` are one number.
fn same_coordinate(x1: i128, d1: i128, x2: i128, d2: i128) -> (r: bool)
    requires
        d1 > 0,
        d2 > 0,
        x1 > i128::MIN,
        x2 > i128::MIN,
    ensures
        r == (x1 * d2 == x2 * d1),
{
    if x1 >= 0 && x2 >= 0 {
        same_fraction(x1, d1, x2, d2)
    } else if x1 < 0 && x2 < 0 {
        proof {
            assert(((-x1) * d2 == (-x2) * d1) == (x1 * d2 == x2 * d1)) by (nonlinear_arith);
        }
        same_fraction(-x1, d1, -x2, d2)
    } else {
        proof {
            assert(x1 * d2 != x2 * d1) by (nonlinear_arith)
                requires
                    d1 > 0,
                    d2 > 0,
                    (x1 < 0 && x2 >= 0) || (x1 >= 0 && x2 < 0),
            ;
        }
        false
    }
}

impl ExactPoint {
    /// Returns the grid point `p` as an exact point.
    pub fn from_point(p: Point2D) -> (r: Self)
        ensures
            r == ExactPoint::of_grid(p),
            r.wf(),
    {
        ExactPoint { x: p.x as i128, y: p.y as i128, d: 1 }
    }

    /// Tells whether the two forms name one point.
    pub fn same_as(&self, other: &ExactPoint) -> (r: bool)
        requires
            self.wf(),
            other.wf(),
        ensures
            r == self.same_point(*other),
    {
        same_coordinate(self.x, self.d, other.x, other.d) && same_coordinate(
            self.y,
            self.d,
            other.y,
            other.d,
        )
    }
}

/// Computes `direction_cross(a, b)`.
pub fn direction_cross_product(a: &Line2D, b: &Line2D) -> (r: i128)
    ensures
        r == direction_cross(*a, *b),
        -0x2_0000_0000_0000_0000 <= r <= 0x2_0000_0000_0000_0000,
{
    let rx: i128 = a.p2.x as i128 - a.p1.x as i128;
    let ry: i128 = a.p2.y as i128 - a.p1.y as i128;
    let sx: i128 = b.p2.x as i128 - b.p1.x as i128;
    let sy: i128 = b.p2.y as i128 - b.p1.y as i128;
    proof {
        lemma_product_bound(rx as int, sy as int, 0x1_0000_0000, 0x1_0000_0000);
        lemma_product_bound(ry as int, sx as int, 0x1_0000_0000, 0x1_0000_0000);
    }
    rx * sy - ry * sx
}

impl Line2D {
    /// Creates the segment from `p1` to `p2`.
    pub fn new(p1: Point2D, p2: Point2D) -> (l: Self)
        ensures
            l.p1 == p1,
            l.p2 == p2,
    {
        Line2D { p1, p2 }
    }

    /// Tells whether `point` lies on the closed segment.
    pub fn contains_point(&self, point: &Point2D) -> (r: bool)
        ensures
            r == on_segment(*self, *point),
    {
        let in_x: bool = (self.p1.x <= point.x && point.x <= self.p2.x) || (self.p2.x <= point.x
            && point.x <= self.p1.x);
        let in_y: bool = (self.p1.y <= point.y && point.y <= self.p2.y) || (self.p2.y <= point.y
            && point.y <= self.p1.y);
        in_x && in_y && cross_product(&self.p1, &self.p2, point) == 0
    }

    /// Tells whether the two segments have a point in common.
    pub fn intersects_with_line(&self, other: &Line2D) -> (r: bool)
        ensures
            r == segments_intersect(*self, *other),
    {
        let o1 = self.p1.turn_direction(&self.p2, &other.p1);
        let o2 = self.p1.turn_direction(&self.p2, &other.p2);
        let o3 = other.p1.turn_direction(&other.p2, &self.p1);
        let o4 = other.p1.turn_direction(&other.p2, &self.p2);
        (o1 != o2 && o3 != o4) || (o1 == TurnDirection::NoTurn && o2 == TurnDirection::NoTurn && (
        self.contains_point(&other.p1) || self.contains_point(&other.p2) || other.contains_point(
            &self.p1,
        ) || other.contains_point(&self.p2)))
    }

    /// Returns the point in which the two segments intersect, or `None` if
    /// they do not intersect. Segments that cross give their crossing point,
    /// wherever it lies; overlapping segments of one line give the last, by
    /// `x` then `y`, of the end points that lie on both.
    pub fn intersection_point(&self, other: &Line2D) -> (r: Option<ExactPoint>)
        ensures
            r == intersection_of(*self, *other),
            r is Some ==> r->0.wf() && r->0.lies_on(*self) && r->0.lies_on(*other),
    {
        if !self.intersects_with_line(other) {
            return None;
        }
        let d0: i128 = direction_cross_product(self, other);
        if d0 == 0 {
            let mut best: Point2D = self.p1;
            let mut found: bool = other.contains_point(&self.p1);
            proof {
                lemma_overlap_is_common(*self, *other);
                assert(cross(self.p1, self.p2, self.p1) == 0) by (nonlinear_arith);
                assert(cross(self.p1, self.p2, self.p2) == 0) by (nonlinear_arith);
                assert(cross(other.p1, other.p2, other.p1) == 0) by (nonlinear_arith);
                assert(cross(other.p1, other.p2, other.p2) == 0) by (nonlinear_arith);
            }
            if other.contains_point(&self.p2) && (!found || best.precedes(&self.p2)) {
                best = self.p2;
                found = true;
            }
            if self.contains_point(&other.p1) && (!found || best.precedes(&other.p1)) {
                best = other.p1;
                found = true;
            }
            if self.contains_point(&other.p2) && (!found || best.precedes(&other.p2)) {
                best = other.p2;
            }
            proof {
                lemma_grid_point_on_segment(*self, best);
                lemma_grid_point_on_segment(*other, best);
            }
            Some(ExactPoint::from_point(best))
        } else {
            let n0: i128 = cross_product(&other.p1, &other.p2, &self.p1);
            proof {
                lemma_crossing_is_exact(*self, *other);
            }
            let d: i128 = if d0 > 0 { d0 } else { -d0 };
            let n: i128 = if d0 > 0 { n0 } else { -n0 };
            let rx: i128 = self.p2.x as i128 - self.p1.x as i128;
            let ry: i128 = self.p2.y as i128 - self.p1.y as i128;
            proof {
                lemma_product_bound(self.p1.x as int, d as int, 0x8000_0000, 0x2_0000_0000_0000_0000);
                lemma_product_bound(self.p1.y as int, d as int, 0x8000_0000, 0x2_0000_0000_0000_0000);
                lemma_product_bound(n as int, rx as int, 0x2_0000_0000_0000_0000, 0x1_0000_0000);
                lemma_product_bound(n as int, ry as int, 0x2_0000_0000_0000_0000, 0x1_0000_0000);
            }
            let x: i128 = self.p1.x as i128 * d + n * rx;
            let y: i128 = self.p1.y as i128 * d + n * ry;
            Some(ExactPoint { x, y, d })
        }
    }
}

} // verus!
