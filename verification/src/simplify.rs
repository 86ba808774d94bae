//! Thinning of an outline: points that lie too close to the last point kept
//! are dropped.

use vstd::prelude::*;
use crate::geometry::{dist_sq, Point};

verus! {

/// Whether two points are farther apart than `threshold`.
pub open spec fn farther(a: Point, b: Point, threshold: u32) -> bool {
    dist_sq(a, b) > threshold * threshold
}

/// The positions of the points that are kept among the first `n` points of
/// `polygon`: position 0, and then every position whose point is farther than
/// `threshold` from the point kept last before it. Of no points none is kept.
pub open spec fn kept_indices(polygon: Seq<Point>, threshold: u32, n: int) -> Seq<int>
    decreases n,
{
    if n <= 0 {
        Seq::empty()
    } else if n == 1 {
        seq![0int]
    } else {
        let prev = kept_indices(polygon, threshold, n - 1);
        if farther(polygon[n - 1], polygon[prev.last()], threshold) {
            prev.push(n - 1)
        } else {
            prev
        }
    }
}

/// The thinned outline: the points of `polygon` at the kept positions.
pub open spec fn simplified(polygon: Seq<Point>, threshold: u32) -> Seq<Point> {
    let kept = kept_indices(polygon, threshold, polygon.len() as int);
    Seq::new(kept.len(), |i: int| polygon[kept[i]])
}

/// The kept positions begin with 0, increase strictly and stay below `n`, and
/// two positions that follow each other hold points farther apart than
/// `threshold`.
proof fn lemma_kept_indices(polygon: Seq<Point>, threshold: u32, n: int)
    requires
        1 <= n <= polygon.len(),
    ensures
        kept_indices(polygon, threshold, n).len() >= 1,
        kept_indices(polygon, threshold, n).len() <= n,
        kept_indices(polygon, threshold, n)[0] == 0,
        forall|i: int|
            0 <= i < kept_indices(polygon, threshold, n).len() ==> 0 <= #[trigger] kept_indices(
                polygon,
                threshold,
                n,
            )[i] < n,
        forall|i: int, j: int|
            0 <= i < j < kept_indices(polygon, threshold, n).len() ==> #[trigger] kept_indices(
                polygon,
                threshold,
                n,
            )[i] < #[trigger] kept_indices(polygon, threshold, n)[j],
        forall|i: int|
            0 < i < kept_indices(polygon, threshold, n).len() ==> farther(
                polygon[#[trigger] kept_indices(polygon, threshold, n)[i]],
                polygon[kept_indices(polygon, threshold, n)[i - 1]],
                threshold,
            ),
    decreases n,
{
    if n > 1 {
        lemma_kept_indices(polygon, threshold, n - 1);
    }
}

/// The thinned outline is a subsequence of the outline that begins with its
/// first point: `kept_indices` gives, in increasing order, the position of
/// each of its points. Any two of its points that follow each other are farther
/// apart than `threshold`. Nothing is said of its last point against its
/// first, the pair that closes the loop. An outline without points stays
/// without points.
pub proof fn lemma_simplified_is_spaced_subsequence(polygon: Seq<Point>, threshold: u32)
    ensures
        ({
            let kept = kept_indices(polygon, threshold, polygon.len() as int);
            let out = simplified(polygon, threshold);
            &&& out.len() == kept.len() <= polygon.len()
            &&& polygon.len() == 0 <==> out.len() == 0
            &&& polygon.len() >= 1 ==> out[0] == polygon[0]
            &&& forall|i: int| 0 <= i < out.len() ==> 0 <= #[trigger] kept[i] < polygon.len()
            &&& forall|i: int| 0 <= i < out.len() ==> #[trigger] out[i] == polygon[kept[i]]
            &&& forall|i: int, j: int|
                0 <= i < j < out.len() ==> #[trigger] kept[i] < #[trigger] kept[j]
            &&& forall|i: int| 0 < i < out.len() ==> farther(#[trigger] out[i], out[i - 1], threshold)
        }),
{
    if polygon.len() >= 1 {
        lemma_kept_indices(polygon, threshold, polygon.len() as int);
    }
}

/// Tells whether `a` and `b` are farther apart than `threshold`.
pub fn is_farther(a: Point, b: Point, threshold: u32) -> (r: bool)
    ensures
        r == farther(a, b, threshold),
{
    let dx: i128 = a.x as i128 - b.x as i128;
    let dy: i128 = a.y as i128 - b.y as i128;
    let t: i128 = threshold as i128;
    if dx > t || dx < -t {
        proof {
            assert(dx * dx > t * t) by (nonlinear_arith)
                requires
                    t >= 0,
                    dx > t || dx < -t,
            ;
            assert(dy * dy >= 0) by (nonlinear_arith);
        }
        true
    } else if dy > t || dy < -t {
        proof {
            assert(dy * dy > t * t) by (nonlinear_arith)
                requires
                    t >= 0,
                    dy > t || dy < -t,
            ;
            assert(dx * dx >= 0) by (nonlinear_arith);
        }
        true
    } else {
        proof {
            assert(0 <= dx * dx <= 0x1_0000_0000 * 0x1_0000_0000) by (nonlinear_arith)
                requires
                    -0x1_0000_0000 <= dx <= 0x1_0000_0000,
            ;
            assert(0 <= dy * dy <= 0x1_0000_0000 * 0x1_0000_0000) by (nonlinear_arith)
                requires
                    -0x1_0000_0000 <= dy <= 0x1_0000_0000,
            ;
            assert(0 <= t * t <= 0x1_0000_0000 * 0x1_0000_0000) by (nonlinear_arith)
                requires
                    0 <= t <= 0x1_0000_0000,
            ;
        }
        dx * dx + dy * dy > t * t
    }
}

/// Thins an outline in one pass: the first point is kept, and each later point
/// is kept exactly when it is farther than `threshold` from the point kept
/// last. The result is not closed: its last point is not its first. An
/// outline without points gives an outline without points.
pub fn simplify_polygon(polygon: &Vec<Point>, threshold: u32) -> (out: Vec<Point>)
    ensures
        out@ == simplified(polygon@, threshold),
{
    let mut out: Vec<Point> = Vec::new();
    if polygon.len() == 0 {
        proof {
            assert(out@ =~= simplified(polygon@, threshold));
        }
        return out;
    }
    let mut last_point = polygon[0];
    out.push(last_point);
    let mut n: usize = 1;
    while n < polygon.len()
        invariant
            1 <= n <= polygon@.len(),
            out@.len() == kept_indices(polygon@, threshold, n as int).len(),
            out@.len() >= 1,
            forall|i: int|
                0 <= i < out@.len() ==> #[trigger] out@[i] == polygon@[kept_indices(
                    polygon@,
                    threshold,
                    n as int,
                )[i]],
            last_point == polygon@[kept_indices(polygon@, threshold, n as int).last()],
        decreases polygon.len() - n,
    {
        let point = polygon[n];
        if is_farther(point, last_point, threshold) {
            out.push(point);
            last_point = point;
        }
        n += 1;
    }
    proof {
        assert(out@ =~= simplified(polygon@, threshold));
    }
    out
}

} // verus!
