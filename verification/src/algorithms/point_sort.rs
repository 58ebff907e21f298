//! Sorting points, by `x` then `y` or by angle around a point.

use crate::algorithms::turn_lemmas::{
    lemma_cross_symmetries, lemma_lex_wedge, lemma_three_vectors, lemma_wedge_left_of, reach,
    vcross,
};
use crate::primitives2d::{cross, lex_le, Point2D};
use core::cmp::Ordering;
use vstd::prelude::*;
use vstd::seq_lib::lemma_multiset_commutative;

verus! {

/// An order in which points can be sorted.
#[derive(Copy, Clone, Debug, PartialEq, Eq, Structural)]
pub enum PointOrder {
    /// By `x`, ties broken by `y`.
    ByXThenY,
    /// Clockwise by the angle around the given point, points in one
    /// direction from it by `x`, then `y`. It orders the points that do not
    /// come before the given point by `x`, then `y`.
    ByAngleAround(Point2D),
}

/// `p` may stand before `q` in the order `key`.
pub open spec fn ordered(key: PointOrder, p: Point2D, q: Point2D) -> bool {
    match key {
        PointOrder::ByXThenY => lex_le(p, q),
        PointOrder::ByAngleAround(c) => cross(c, p, q) < 0 || (cross(c, p, q) == 0 && lex_le(p, q)),
    }
}

/// `p` is one of the points that `key` orders.
pub open spec fn in_domain(key: PointOrder, p: Point2D) -> bool {
    match key {
        PointOrder::ByXThenY => true,
        PointOrder::ByAngleAround(c) => lex_le(c, p),
    }
}

/// All points of `s` are points that `key` orders.
pub open spec fn all_in_domain(key: PointOrder, s: Seq<Point2D>) -> bool {
    forall|i: int| 0 <= i < s.len() ==> in_domain(key, #[trigger] s[i])
}

/// `s` is in the order `key`.
pub open spec fn sorted_by(key: PointOrder, s: Seq<Point2D>) -> bool {
    forall|i: int, j: int| 0 <= i < j < s.len() ==> ordered(key, #[trigger] s[i], #[trigger] s[j])
}

/// Of two points that `key` orders, one may stand before the other.
pub proof fn lemma_ordered_total(key: PointOrder, p: Point2D, q: Point2D)
    ensures
        ordered(key, p, q) || ordered(key, q, p),
{
    match key {
        PointOrder::ByXThenY => {},
        PointOrder::ByAngleAround(c) => {
            lemma_cross_symmetries(c, p, q);
        },
    }
}

/// Two points in one direction from `c`, in a wedge at `c`, see every third
/// point of the wedge on the same side.
proof fn lemma_same_direction_same_turn(c: Point2D, a: Point2D, b: Point2D, r: Point2D)
    requires
        lex_le(c, a),
        lex_le(c, b),
        lex_le(c, r),
        a != c,
        b != c,
        cross(c, a, b) == 0,
    ensures
        cross(c, a, r) < 0 <==> cross(c, b, r) < 0,
        cross(c, a, r) == 0 <==> cross(c, b, r) == 0,
{
    lemma_lex_wedge(c, a);
    lemma_lex_wedge(c, b);
    lemma_lex_wedge(c, r);
    let (dx, dy) = (-1int, 0x2_0000_0000int);
    let (ax, ay) = (a.x - c.x, a.y - c.y);
    let (bx, by) = (b.x - c.x, b.y - c.y);
    let (rx, ry) = (r.x - c.x, r.y - c.y);
    lemma_three_vectors(dx, dy, ax, ay, bx, by, rx, ry);
    let sa = reach(dx, dy, ax, ay);
    let sb = reach(dx, dy, bx, by);
    let sr = reach(dx, dy, rx, ry);
    let ar = vcross(ax, ay, rx, ry);
    let br = vcross(bx, by, rx, ry);
    let ab = vcross(ax, ay, bx, by);
    assert((ar < 0 <==> br < 0) && (ar == 0 <==> br == 0)) by (nonlinear_arith)
        requires
            ar * sb == ab * sr + br * sa,
            ab == 0,
            sa > 0,
            sb > 0,
    ;
}

/// What may stand before a point that may stand before a third may stand
/// before the third.
pub proof fn lemma_ordered_transitive(key: PointOrder, p: Point2D, q: Point2D, r: Point2D)
    requires
        in_domain(key, p),
        in_domain(key, q),
        in_domain(key, r),
        ordered(key, p, q),
        ordered(key, q, r),
    ensures
        ordered(key, p, r),
{
    match key {
        PointOrder::ByXThenY => {},
        PointOrder::ByAngleAround(c) => {
            lemma_lex_wedge(c, p);
            lemma_lex_wedge(c, q);
            lemma_lex_wedge(c, r);
            lemma_cross_symmetries(c, p, q);
            assert(cross(c, c, r) == 0) by (nonlinear_arith);
            assert(cross(c, p, c) == 0) by (nonlinear_arith);
            assert(cross(c, q, c) == 0) by (nonlinear_arith);
            assert(cross(c, c, q) == 0) by (nonlinear_arith);
            if cross(c, p, q) < 0 {
                lemma_wedge_left_of(c, -1, 0x2_0000_0000, q, p, r);
            } else if p == c {
            } else if q == c {
            } else if r == c {
            } else {
                lemma_same_direction_same_turn(c, q, p, r);
            }
        },
    }
}

/// Tells whether `p` may stand before `q` in the order `key`.
pub fn is_ordered(key: &PointOrder, p: &Point2D, q: &Point2D) -> (r: bool)
    ensures
        r == ordered(*key, *p, *q),
{
    match key {
        PointOrder::ByXThenY => match p.x_then_y_partial_cmp(q) {
            Some(Ordering::Greater) => false,
            _ => true,
        },
        PointOrder::ByAngleAround(c) => match p.rotation_point_cmp(q, c) {
            Some(Ordering::Greater) => false,
            _ => true,
        },
    }
}

/// Merges two sorted sequences of points into one.
fn merge(a: &Vec<Point2D>, b: &Vec<Point2D>, key: &PointOrder) -> (out: Vec<Point2D>)
    requires
        sorted_by(*key, a@),
        sorted_by(*key, b@),
        all_in_domain(*key, a@),
        all_in_domain(*key, b@),
    ensures
        sorted_by(*key, out@),
        all_in_domain(*key, out@),
        out@.to_multiset() == a@.to_multiset().add(b@.to_multiset()),
{
    let mut out: Vec<Point2D> = Vec::new();
    let mut i: usize = 0;
    let mut j: usize = 0;
    proof {
        assert(a@.subrange(0, 0) =~= Seq::<Point2D>::empty());
        assert(b@.subrange(0, 0) =~= Seq::<Point2D>::empty());
        lemma_multiset_commutative(a@.subrange(0, 0), b@.subrange(0, 0));
    }
    while i < a.len() || j < b.len()
        invariant
            i <= a@.len(),
            j <= b@.len(),
            sorted_by(*key, a@),
            sorted_by(*key, b@),
            all_in_domain(*key, a@),
            all_in_domain(*key, b@),
            sorted_by(*key, out@),
            all_in_domain(*key, out@),
            out@.to_multiset() == a@.subrange(0, i as int).to_multiset().add(
                b@.subrange(0, j as int).to_multiset(),
            ),
            forall|k: int, m: int|
                0 <= k < out@.len() && i <= m < a@.len() ==> ordered(
                    *key,
                    #[trigger] out@[k],
                    #[trigger] a@[m],
                ),
            forall|k: int, m: int|
                0 <= k < out@.len() && j <= m < b@.len() ==> ordered(
                    *key,
                    #[trigger] out@[k],
                    #[trigger] b@[m],
                ),
        decreases a@.len() - i + b@.len() - j,
    {
        let take_a: bool = if i >= a.len() {
            false
        } else if j >= b.len() {
            true
        } else {
            is_ordered(key, &a[i], &b[j])
        };
        let ghost before = out@;
        if take_a {
            let x: Point2D = a[i];
            proof {
                assert(a@.subrange(0, i + 1) =~= a@.subrange(0, i as int).push(x));
                vstd::seq_lib::to_multiset_build(a@.subrange(0, i as int), x);
                vstd::seq_lib::to_multiset_build(before, x);
                assert(before.push(x).to_multiset() =~= a@.subrange(0, i + 1).to_multiset().add(
                    b@.subrange(0, j as int).to_multiset(),
                ));
                assert forall|m: int| j <= m < b@.len() implies ordered(*key, x, #[trigger] b@[m]) by {
                    assert(in_domain(*key, a@[i as int]));
                    assert(in_domain(*key, b@[j as int]));
                    assert(in_domain(*key, b@[m]));
                    if m > j {
                        assert(ordered(*key, b@[j as int], b@[m]));
                    }
                    lemma_ordered_total(*key, b@[j as int], b@[j as int]);
                    lemma_ordered_transitive(*key, x, b@[j as int], b@[m]);
                }
                assert(in_domain(*key, a@[i as int]));
            }
            out.push(x);
            i = i + 1;
        } else {
            let x: Point2D = b[j];
            proof {
                assert(b@.subrange(0, j + 1) =~= b@.subrange(0, j as int).push(x));
                vstd::seq_lib::to_multiset_build(b@.subrange(0, j as int), x);
                vstd::seq_lib::to_multiset_build(before, x);
                assert(before.push(x).to_multiset() =~= a@.subrange(0, i as int).to_multiset().add(
                    b@.subrange(0, j + 1).to_multiset(),
                ));
                assert forall|m: int| i <= m < a@.len() implies ordered(*key, x, #[trigger] a@[m]) by {
                    assert(in_domain(*key, a@[i as int]));
                    assert(in_domain(*key, b@[j as int]));
                    assert(in_domain(*key, a@[m]));
                    if m > i {
                        assert(ordered(*key, a@[i as int], a@[m]));
                    }
                    lemma_ordered_total(*key, a@[i as int], b@[j as int]);
                    lemma_ordered_total(*key, a@[i as int], a@[i as int]);
                    lemma_ordered_transitive(*key, x, a@[i as int], a@[m]);
                }
                assert(in_domain(*key, b@[j as int]));
            }
            out.push(x);
            j = j + 1;
        }
    }
    proof {
        assert(a@.subrange(0, a@.len() as int) =~= a@);
        assert(b@.subrange(0, b@.len() as int) =~= b@);
    }
    out
}

/// Returns the points of `v` from index `lo` up to `hi`, in the order `key`.
fn merge_sort(v: &Vec<Point2D>, lo: usize, hi: usize, key: &PointOrder) -> (out: Vec<Point2D>)
    requires
        lo <= hi <= v@.len(),
        all_in_domain(*key, v@),
    ensures
        sorted_by(*key, out@),
        all_in_domain(*key, out@),
        out@.to_multiset() == v@.subrange(lo as int, hi as int).to_multiset(),
    decreases hi - lo,
{
    if hi - lo <= 1 {
        let mut out: Vec<Point2D> = Vec::new();
        if hi - lo == 1 {
            out.push(v[lo]);
            assert(out@ =~= v@.subrange(lo as int, hi as int));
        } else {
            assert(out@ =~= v@.subrange(lo as int, hi as int));
        }
        return out;
    }
    let mid: usize = lo + (hi - lo) / 2;
    let left: Vec<Point2D> = merge_sort(v, lo, mid, key);
    let right: Vec<Point2D> = merge_sort(v, mid, hi, key);
    proof {
        assert(v@.subrange(lo as int, hi as int) =~= v@.subrange(lo as int, mid as int)
            + v@.subrange(mid as int, hi as int));
        lemma_multiset_commutative(
            v@.subrange(lo as int, mid as int),
            v@.subrange(mid as int, hi as int),
        );
    }
    merge(&left, &right, key)
}

/// Puts `points` into the order `key`.
pub fn sort_points(points: &mut Vec<Point2D>, key: &PointOrder)
    requires
        all_in_domain(*key, old(points)@),
    ensures
        sorted_by(*key, final(points)@),
        final(points)@.to_multiset() == old(points)@.to_multiset(),
{
    let sorted: Vec<Point2D> = merge_sort(points, 0, points.len(), key);
    proof {
        assert(points@.subrange(0, points@.len() as int) =~= points@);
    }
    *points = sorted;
}

} // verus!
