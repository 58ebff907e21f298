//! All intersection points of a set of segments.

use crate::error::GeometryError;
use crate::primitives2d::{
    direction_cross, intersection_of, lemma_crossing_is_exact, lemma_grid_point_on_segment,
    lemma_overlap_is_common, overlap_representative, segments_intersect, ExactPoint, Line2D,
};
use crate::segment_lemmas::{
    have_common_point, lemma_crossing_is_only_common_point, lemma_intersect_iff_common_point,
    lemma_same_point_transitive,
};
use vstd::prelude::*;

verus! {

/// The segments with the indices `a < b` intersect in `p`.
pub open spec fn pair_gives(lines: Seq<Line2D>, a: int, b: int, p: ExactPoint) -> bool {
    0 <= a < b < lines.len() && intersection_of(lines[a], lines[b]) == Some(p)
}

/// `p` is the point in which two of the segments intersect.
pub open spec fn is_reported(lines: Seq<Line2D>, p: ExactPoint) -> bool {
    exists|a: int, b: int| #[trigger] pair_gives(lines, a, b, p)
}

/// The pair of segments `a < b` comes before the pair `i < j` when pairs are
/// taken by their first segment, then by their second.
pub open spec fn pair_before(a: int, b: int, i: int, j: int) -> bool {
    a < i || (a == i && b < j)
}

/// `out` holds the point `p`, in some form.
pub open spec fn holds(out: Seq<ExactPoint>, p: ExactPoint) -> bool {
    exists|k: int| 0 <= k < out.len() && #[trigger] out[k].same_point(p)
}

/// `acc` with the point `found`, if there is one and `acc` does not hold it
/// yet.
pub open spec fn with_point(acc: Seq<ExactPoint>, found: Option<ExactPoint>) -> Seq<ExactPoint> {
    match found {
        Some(p) => if holds(acc, p) {
            acc
        } else {
            acc.push(p)
        },
        None => acc,
    }
}

/// `acc` with the points in which segment `i` intersects the segments from
/// `j` on, each in the form in which it is met first.
pub open spec fn with_row(lines: Seq<Line2D>, acc: Seq<ExactPoint>, i: int, j: int) -> Seq<
    ExactPoint,
>
    decreases lines.len() - j,
{
    if j < 0 || j >= lines.len() {
        acc
    } else {
        with_row(lines, with_point(acc, intersection_of(lines[i], lines[j])), i, j + 1)
    }
}

/// `acc` with the points in which the segments from `i` on intersect those
/// after them.
pub open spec fn with_rows(lines: Seq<Line2D>, acc: Seq<ExactPoint>, i: int) -> Seq<ExactPoint>
    decreases lines.len() - i,
{
    if i < 0 || i >= lines.len() {
        acc
    } else {
        with_rows(lines, with_row(lines, acc, i, i + 1), i + 1)
    }
}

/// The points in which segments of `lines` intersect: the pairs of segments
/// are gone through by their first segment, then by their second, and a
/// point is listed where it is met first, in the form it has there.
pub open spec fn intersections(lines: Seq<Line2D>) -> Seq<ExactPoint> {
    with_rows(lines, Seq::empty(), 0)
}

/// `acc` lists, each once, points in which segments of `lines` intersect,
/// among them the points of all pairs before the pair `i < j`.
pub open spec fn lists_up_to(lines: Seq<Line2D>, acc: Seq<ExactPoint>, i: int, j: int) -> bool {
    &&& forall|k: int| 0 <= k < acc.len() ==> (#[trigger] acc[k]).wf() && is_reported(lines, acc[k])
    &&& forall|k: int, l: int|
        0 <= k < l < acc.len() ==> !(#[trigger] acc[k]).same_point(#[trigger] acc[l])
    &&& forall|a: int, b: int, p: ExactPoint|
        #[trigger] pair_gives(lines, a, b, p) && pair_before(a, b, i, j) ==> holds(acc, p)
}

/// `out` lists the points in which segments of `lines` intersect, each
/// once: every point of `out` is the point of two of the segments, no two
/// points of `out` are the same, and the point of every two segments that
/// intersect is in `out`.
pub open spec fn reports_intersections(lines: Seq<Line2D>, out: Seq<ExactPoint>) -> bool {
    lists_up_to(lines, out, lines.len() as int, 0)
}

/// One of the segments has no length.
pub open spec fn has_point_segment(lines: Seq<Line2D>) -> bool {
    exists|i: int| 0 <= i < lines.len() && (#[trigger] lines[i]).p1 == lines[i].p2
}

/// The point in which two segments intersect lies on both.
pub proof fn lemma_intersection_on_both(a: Line2D, b: Line2D)
    requires
        segments_intersect(a, b),
    ensures
        intersection_of(a, b) matches Some(p) && p.d > 0 && p.lies_on(a) && p.lies_on(b),
{
    if direction_cross(a, b) != 0 {
        lemma_crossing_is_exact(a, b);
        crate::primitives2d::lemma_crossing_fits(a, b);
    } else {
        lemma_overlap_is_common(a, b);
        lemma_grid_point_on_segment(a, overlap_representative(a, b));
        lemma_grid_point_on_segment(b, overlap_representative(a, b));
    }
}

/// Every point of a list of intersection points lies on two of the
/// segments.
pub proof fn lemma_reported_lies_on_two(lines: Seq<Line2D>, out: Seq<ExactPoint>, k: int)
    requires
        reports_intersections(lines, out),
        0 <= k < out.len(),
    ensures
        exists|a: int, b: int|
            0 <= a < b < lines.len() && #[trigger] out[k].lies_on(lines[a]) && #[trigger] out[k].lies_on(
                lines[b],
            ),
{
    assert(is_reported(lines, out[k]));
    let (a, b) = choose|a: int, b: int| #[trigger] pair_gives(lines, a, b, out[k]);
    lemma_intersection_on_both(lines[a], lines[b]);
    assert(out[k].lies_on(lines[a]) && out[k].lies_on(lines[b]));
}

/// Segments of which no two have a point in common have no intersection
/// points.
pub proof fn lemma_nothing_reported_for_segments_apart(lines: Seq<Line2D>, out: Seq<ExactPoint>)
    requires
        reports_intersections(lines, out),
        forall|i: int, j: int|
            0 <= i < j < lines.len() ==> !have_common_point(#[trigger] lines[i], #[trigger] lines[j]),
    ensures
        out.len() == 0,
{
    if out.len() > 0 {
        let p = out[0];
        assert(is_reported(lines, p));
        let (a, b) = choose|a: int, b: int| #[trigger] pair_gives(lines, a, b, p);
        lemma_intersect_iff_common_point(lines[a], lines[b]);
        assert(false);
    }
}

/// For every two segments that have a point in common, the point in which
/// they intersect is listed.
pub proof fn lemma_every_meeting_pair_reported(
    lines: Seq<Line2D>,
    out: Seq<ExactPoint>,
    i: int,
    j: int,
)
    requires
        reports_intersections(lines, out),
        0 <= i < j < lines.len(),
        have_common_point(lines[i], lines[j]),
    ensures
        intersection_of(lines[i], lines[j]) is Some,
        holds(out, intersection_of(lines[i], lines[j])->0),
{
    lemma_intersect_iff_common_point(lines[i], lines[j]);
    let p = intersection_of(lines[i], lines[j])->0;
    assert(pair_gives(lines, i, j, p) && pair_before(i, j, lines.len() as int, 0));
}

/// A point that lies on two segments that are not parallel is listed.
/// Together with `lemma_reported_lies_on_two`: where no two segments lie on
/// one line, the points listed are exactly the points that lie on two
/// segments.
pub proof fn lemma_point_on_two_is_reported(
    lines: Seq<Line2D>,
    out: Seq<ExactPoint>,
    i: int,
    j: int,
    q: ExactPoint,
)
    requires
        reports_intersections(lines, out),
        0 <= i < j < lines.len(),
        q.d > 0,
        q.lies_on(lines[i]),
        q.lies_on(lines[j]),
        direction_cross(lines[i], lines[j]) != 0,
    ensures
        holds(out, q),
{
    lemma_crossing_is_only_common_point(lines[i], lines[j], q);
    let p = intersection_of(lines[i], lines[j])->0;
    lemma_intersection_on_both(lines[i], lines[j]);
    assert(pair_gives(lines, i, j, p) && pair_before(i, j, lines.len() as int, 0));
    let k = choose|k: int| 0 <= k < out.len() && #[trigger] out[k].same_point(p);
    assert(p.same_point(q));
    lemma_same_point_transitive(out[k], p, q);
}

/// Tells whether `out` holds the point `p`, in some form.
fn holds_point(out: &Vec<ExactPoint>, p: &ExactPoint) -> (r: bool)
    requires
        p.wf(),
        forall|k: int| 0 <= k < out@.len() ==> (#[trigger] out@[k]).wf(),
    ensures
        r == holds(out@, *p),
{
    let mut k: usize = 0;
    while k < out.len()
        invariant
            k <= out@.len(),
            p.wf(),
            forall|i: int| 0 <= i < out@.len() ==> (#[trigger] out@[i]).wf(),
            forall|i: int| 0 <= i < k ==> !(#[trigger] out@[i]).same_point(*p),
        decreases out@.len() - k,
    {
        if out[k].same_as(p) {
            return true;
        }
        k = k + 1;
    }
    false
}

/// Returns the points in which segments of `lines` intersect, each once.
/// Two segments that cross give their crossing point; two that share an end
/// point give that point; two that overlap on one line give the last end
/// point that lies on both. The pairs of segments are gone through by their
/// first segment, then by their second, and a point is listed where it is
/// met first. A segment without length is refused.
///
/// Every pair of segments is looked at, so the effort grows with the square
/// of their number.
pub fn bentley_ottmann(lines: &[Line2D]) -> (r: Result<Vec<ExactPoint>, GeometryError>)
    ensures
        has_point_segment(lines@) ==> r == Err::<Vec<ExactPoint>, GeometryError>(
            GeometryError::IllegalSegment,
        ),
        !has_point_segment(lines@) ==> r is Ok && r->Ok_0@ == intersections(lines@)
            && reports_intersections(lines@, r->Ok_0@),
{
    let n: usize = lines.len();
    let mut i: usize = 0;
    while i < n
        invariant
            n == lines@.len(),
            i <= n,
            forall|k: int| 0 <= k < i ==> (#[trigger] lines@[k]).p1 != lines@[k].p2,
        decreases n - i,
    {
        if lines[i].p1 == lines[i].p2 {
            return Err(GeometryError::IllegalSegment);
        }
        i = i + 1;
    }
    let mut result: Vec<ExactPoint> = Vec::new();
    let mut i: usize = 0;
    while i < n
        invariant
            n == lines@.len(),
            i <= n,
            with_rows(lines@, result@, i as int) == intersections(lines@),
            lists_up_to(lines@, result@, i as int, 0),
        decreases n - i,
    {
        let mut j: usize = i + 1;
        while j < n
            invariant
                n == lines@.len(),
                i < n,
                i < j <= n,
                with_rows(lines@, with_row(lines@, result@, i as int, j as int), i + 1)
                    == intersections(lines@),
                lists_up_to(lines@, result@, i as int, j as int),
            decreases n - j,
        {
            let ghost before = result@;
            match lines[i].intersection_point(&lines[j]) {
                Some(point) => {
                    assert(pair_gives(lines@, i as int, j as int, point));
                    if !holds_point(&result, &point) {
                        result.push(point);
                        proof {
                            assert(point.same_point(point));
                            assert forall|a: int, b: int, p: ExactPoint|
                                #[trigger] pair_gives(lines@, a, b, p) && pair_before(
                                    a,
                                    b,
                                    i as int,
                                    j + 1,
                                ) implies holds(result@, p) by {
                                if a == i && b == j {
                                    assert(result@[before.len() as int].same_point(p));
                                } else {
                                    assert(pair_before(a, b, i as int, j as int));
                                    assert(holds(before, p));
                                    let k = choose|k: int|
                                        0 <= k < before.len() && #[trigger] before[k].same_point(p);
                                    assert(result@[k].same_point(p));
                                }
                            }
                            assert forall|k: int, l: int| 0 <= k < l < result@.len() implies !(
                            #[trigger] result@[k]).same_point(#[trigger] result@[l]) by {
                                if l == before.len() {
                                    assert(result@[k] == before[k]);
                                    if before[k].same_point(point) {
                                        assert(holds(before, point));
                                    }
                                } else {
                                    assert(!before[k].same_point(before[l]));
                                }
                            }
                            assert forall|k: int| 0 <= k < result@.len() implies (
                            #[trigger] result@[k]).wf() && is_reported(lines@, result@[k]) by {
                                if k < before.len() {
                                    assert(before[k].wf() && is_reported(lines@, before[k]));
                                }
                            }
                        }
                    } else {
                        proof {
                            assert forall|a: int, b: int, p: ExactPoint|
                                #[trigger] pair_gives(lines@, a, b, p) && pair_before(
                                    a,
                                    b,
                                    i as int,
                                    j + 1,
                                ) implies holds(result@, p) by {
                                if !(a == i && b == j) {
                                    assert(pair_before(a, b, i as int, j as int));
                                }
                            }
                        }
                    }
                },
                None => {
                    proof {
                        assert forall|a: int, b: int, p: ExactPoint|
                            #[trigger] pair_gives(lines@, a, b, p) && pair_before(
                                a,
                                b,
                                i as int,
                                j + 1,
                            ) implies holds(result@, p) by {
                            assert(pair_before(a, b, i as int, j as int));
                        }
                    }
                },
            }
            j = j + 1;
        }
        proof {
            assert forall|a: int, b: int, p: ExactPoint|
                #[trigger] pair_gives(lines@, a, b, p) && pair_before(a, b, i + 1, 0) implies holds(
                result@,
                p,
            ) by {
                assert(pair_before(a, b, i as int, n as int));
            }
        }
        i = i + 1;
    }
    Ok(result)
}

} // verus!
