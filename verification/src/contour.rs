//! Outlines of regions: which pixels of a region lie on its edge, and the
//! order in which they are joined when they are swept around the region's
//! centroid.
//!
//! The sweep is exact. The centroid is kept as the sums of the coordinates and
//! their count, and two directions are compared by the signs of whole numbers,
//! so no rounding can put two points in the wrong order.

use vstd::prelude::*;
use crate::grid::{Image, Pixel, MAX_SIDE};
use crate::pixel::is_solid;

verus! {

/// Whether the pixel at `(x, y)` lies on the edge of its region: it lies in
/// the first or last row or column of the image, or one of the eight
/// positions around it is outside the image or holds background. Whether the
/// pixels around it belong to the same region is not asked.
pub open spec fn outer(image: &Image, x: int, y: int) -> bool {
    ||| x == 0
    ||| y == 0
    ||| x == image.width - 1
    ||| y == image.spec_height() - 1
    ||| exists|nx: int, ny: int|
        -1 <= nx - x <= 1 && -1 <= ny - y <= 1 && !(nx == x && ny == y) && !#[trigger] image.solid_at(
            nx,
            ny,
        )
}

/// Tells whether the pixel at `(x, y)` lies on the edge of its region.
pub fn is_outer_pixel(image: &Image, x: usize, y: usize) -> (r: bool)
    requires
        image.wf(),
        image.contains(x as int, y as int),
    ensures
        r == outer(image, x as int, y as int),
{
    let w = image.width();
    let h = image.height();
    if x == 0 || y == 0 || x == w - 1 || y == h - 1 {
        return true;
    }
    let mut dy: usize = 0;
    while dy < 3
        invariant
            image.wf(),
            w == image.width,
            h == image.spec_height(),
            0 < x < w - 1,
            0 < y < h - 1,
            dy <= 3,
            forall|nx: int, ny: int|
                -1 <= nx - x <= 1 && 0 <= ny - y + 1 < dy && !(nx == x && ny == y)
                    ==> #[trigger] image.solid_at(nx, ny),
        decreases 3 - dy,
    {
        let mut dx: usize = 0;
        while dx < 3
            invariant
                image.wf(),
                w == image.width,
                h == image.spec_height(),
                0 < x < w - 1,
                0 < y < h - 1,
                dy < 3,
                dx <= 3,
                forall|nx: int, ny: int|
                    -1 <= nx - x <= 1 && 0 <= ny - y + 1 < dy && !(nx == x && ny == y)
                        ==> #[trigger] image.solid_at(nx, ny),
                forall|nx: int, ny: int|
                    0 <= nx - x + 1 < dx && ny - y + 1 == dy && !(nx == x && ny == y)
                        ==> #[trigger] image.solid_at(nx, ny),
            decreases 3 - dx,
        {
            let nx: usize = x + dx - 1;
            let ny: usize = y + dy - 1;
            if !(dx == 1 && dy == 1) && !is_solid(image.get_pixel(nx, ny)) {
                proof {
                    assert(!image.solid_at(nx as int, ny as int));
                }
                return true;
            }
            dx += 1;
        }
        dy += 1;
    }
    false
}

/// The mean position of the pixels of a region, kept as the sums of their
/// coordinates and their number: the mean is `(sum_x / count, sum_y / count)`.
#[derive(Clone, Copy, Debug, PartialEq, Eq, Structural)]
pub struct Centroid {
    pub sum_x: u128,
    pub sum_y: u128,
    pub count: u64,
}

/// The sum of the `x` coordinates of the first `n` pixels.
pub open spec fn sum_x(pixels: Seq<Pixel>, n: int) -> int
    decreases n,
{
    if n <= 0 {
        0
    } else {
        sum_x(pixels, n - 1) + pixels[n - 1].x
    }
}

/// The sum of the `y` coordinates of the first `n` pixels.
pub open spec fn sum_y(pixels: Seq<Pixel>, n: int) -> int
    decreases n,
{
    if n <= 0 {
        0
    } else {
        sum_y(pixels, n - 1) + pixels[n - 1].y
    }
}

/// The centroid of a sequence of pixels.
pub open spec fn centroid_of(pixels: Seq<Pixel>) -> Centroid {
    Centroid {
        sum_x: sum_x(pixels, pixels.len() as int) as u128,
        sum_y: sum_y(pixels, pixels.len() as int) as u128,
        count: pixels.len() as u64,
    }
}

/// Pixels that can be swept: each has coordinates of at most `MAX_SIDE`, as
/// every pixel of an image has.
pub open spec fn sweepable(pixels: Seq<Pixel>) -> bool {
    forall|i: int|
        0 <= i < pixels.len() ==> (#[trigger] pixels[i]).x <= MAX_SIDE && pixels[i].y <= MAX_SIDE
}

/// The sums of `n` coordinates of at most `MAX_SIDE` each are at most
/// `n * MAX_SIDE`.
proof fn lemma_sum_bound(pixels: Seq<Pixel>, n: int)
    requires
        0 <= n <= pixels.len(),
        forall|i: int|
            0 <= i < pixels.len() ==> (#[trigger] pixels[i]).x <= MAX_SIDE && pixels[i].y <= MAX_SIDE,
    ensures
        0 <= sum_x(pixels, n) <= n * MAX_SIDE,
        0 <= sum_y(pixels, n) <= n * MAX_SIDE,
    decreases n,
{
    if n > 0 {
        lemma_sum_bound(pixels, n - 1);
    }
}

/// Computes the centroid of a region: the plain mean of its pixels' positions.
pub fn calculate_centroid(group: &Vec<Pixel>) -> (c: Centroid)
    requires
        sweepable(group@),
    ensures
        c == centroid_of(group@),
{
    let mut sx: u128 = 0;
    let mut sy: u128 = 0;
    let mut n: usize = 0;
    while n < group.len()
        invariant
            sweepable(group@),
            n <= group@.len(),
            sx == sum_x(group@, n as int),
            sy == sum_y(group@, n as int),
        decreases group.len() - n,
    {
        proof {
            lemma_sum_bound(group@, n as int);
        }
        sx = sx + group[n].x as u128;
        sy = sy + group[n].y as u128;
        n += 1;
    }
    Centroid { sum_x: sx, sum_y: sy, count: group.len() as u64 }
}

/// A direction in the plane, as a vector. Its angle is the angle that
/// `atan2(dy, dx)` stands for, between -pi (excluded) and pi (included); the
/// vector's length does not matter.
#[derive(Clone, Copy, Debug, PartialEq, Eq, Structural)]
pub struct Angle {
    pub dx: i128,
    pub dy: i128,
}

/// The direction from the centroid to a pixel. The vector is scaled by the
/// centroid's count, which leaves its angle as it is.
pub open spec fn direction_of(origin: Centroid, point: Pixel) -> Angle {
    Angle {
        dx: (origin.count * point.x - origin.sum_x) as i128,
        dy: (origin.count * point.y - origin.sum_y) as i128,
    }
}

/// The part of the circle in which a direction lies, in the order of
/// increasing angle: 0 below the x axis, 1 along the positive x axis (where
/// the zero vector is put too), 2 above the x axis, 3 along the negative x
/// axis.
pub open spec fn quarter(a: Angle) -> int {
    if a.dy < 0 {
        0
    } else if a.dy > 0 {
        2
    } else if a.dx >= 0 {
        1
    } else {
        3
    }
}

/// Twice the signed area of the triangle spanned by `a` and `b`: positive
/// where `b` lies counter-clockwise of `a`.
pub open spec fn cross(a: Angle, b: Angle) -> int {
    a.dx * b.dy - a.dy * b.dx
}

/// Whether the angle of `a` is at most the angle of `b`.
pub open spec fn angle_le(a: Angle, b: Angle) -> bool {
    quarter(a) < quarter(b) || (quarter(a) == quarter(b) && (quarter(a) == 1 || quarter(a) == 3
        || cross(a, b) >= 0))
}

/// Of two directions, one has an angle that is at most the other's.
pub proof fn lemma_angle_total(a: Angle, b: Angle)
    ensures
        angle_le(a, b) || angle_le(b, a),
{
    assert(cross(b, a) == -cross(a, b)) by (nonlinear_arith)
        requires
            cross(b, a) == b.dx * a.dy - b.dy * a.dx,
            cross(a, b) == a.dx * b.dy - a.dy * b.dx,
    ;
}

/// The order of directions by angle is transitive.
pub proof fn lemma_angle_transitive(a: Angle, b: Angle, c: Angle)
    requires
        angle_le(a, b),
        angle_le(b, c),
    ensures
        angle_le(a, c),
{
    if quarter(a) == quarter(b) && quarter(b) == quarter(c) && (quarter(a) == 0 || quarter(a)
        == 2) {
        let (ax, ay, bx, by, cx, cy) = (
            a.dx as int,
            a.dy as int,
            b.dx as int,
            b.dy as int,
            c.dx as int,
            c.dy as int,
        );
        assert(ax * cy - ay * cx >= 0) by (nonlinear_arith)
            requires
                ax * by - ay * bx >= 0,
                bx * cy - by * cx >= 0,
                (ay > 0 && by > 0 && cy > 0) || (ay < 0 && by < 0 && cy < 0),
        {
            assert(by * (ax * cy - ay * cx) == cy * (ax * by - ay * bx) + ay * (bx * cy - by * cx));
            if by > 0 {
                assert(cy * (ax * by - ay * bx) >= 0);
                assert(ay * (bx * cy - by * cx) >= 0);
            } else {
                assert(cy * (ax * by - ay * bx) <= 0);
                assert(ay * (bx * cy - by * cx) <= 0);
            }
        }
    }
}

/// A centroid that `calculate_angle` can take: its sums are those of `count`
/// coordinates of at most `MAX_SIDE` each.
pub open spec fn centroid_in_range(c: Centroid) -> bool {
    &&& c.sum_x <= c.count * MAX_SIDE
    &&& c.sum_y <= c.count * MAX_SIDE
}

/// The largest part that a direction from a centroid to a pixel can have.
pub open spec fn max_part() -> int {
    0xffff_ffff_ffff_ffffint * 0xffff_ffffint
}

/// A direction as `calculate_angle` gives it: no part is beyond `max_part`.
pub open spec fn angle_in_range(a: Angle) -> bool {
    &&& -max_part() <= a.dx <= max_part()
    &&& -max_part() <= a.dy <= max_part()
}

/// Computes the direction from the centroid `origin` to `point`.
pub fn calculate_angle(origin: &Centroid, point: Pixel) -> (a: Angle)
    requires
        centroid_in_range(*origin),
        point.x <= MAX_SIDE,
        point.y <= MAX_SIDE,
    ensures
        a == direction_of(*origin, point),
        angle_in_range(a),
{
    let n: i128 = origin.count as i128;
    let px: i128 = point.x as i128;
    let py: i128 = point.y as i128;
    proof {
        assert(0 <= n * px <= 0xffff_ffff_ffff_ffff * 0xffff_ffff) by (nonlinear_arith)
            requires
                0 <= n <= 0xffff_ffff_ffff_ffff,
                0 <= px <= 0xffff_ffff,
        ;
        assert(0 <= n * py <= 0xffff_ffff_ffff_ffff * 0xffff_ffff) by (nonlinear_arith)
            requires
                0 <= n <= 0xffff_ffff_ffff_ffff,
                0 <= py <= 0xffff_ffff,
        ;
    }
    Angle { dx: n * px - origin.sum_x as i128, dy: n * py - origin.sum_y as i128 }
}

/// The size of a number, without its sign.
pub fn magnitude(a: i128) -> (m: u128)
    requires
        -max_part() <= a <= max_part(),
    ensures
        m == if a < 0 {
            -a
        } else {
            a as int
        },
{
    if a < 0 {
        (-a) as u128
    } else {
        a as u128
    }
}

/// Tells whether the product `a * b` is at least the product `c * d`. The
/// products are compared by sign and size, so that none has to fit a signed
/// number.
pub fn product_not_below(a: i128, b: i64, c: i128, d: i64) -> (r: bool)
    requires
        -max_part() <= a <= max_part(),
        -max_part() <= c <= max_part(),
        -0xffff_ffff <= b <= 0xffff_ffff,
        -0xffff_ffff <= d <= 0xffff_ffff,
    ensures
        r == (a * b >= c * d),
{
    let ma: u128 = magnitude(a);
    let mb: u128 = magnitude(b as i128);
    let mc: u128 = magnitude(c);
    let md: u128 = magnitude(d as i128);
    let left_negative = (a < 0) != (b < 0);
    let right_negative = (c < 0) != (d < 0);
    proof {
        assert(0 <= ma * mb <= 0xffff_ffff_ffff_ffff * 0xffff_ffff * 0xffff_ffff)
            by (nonlinear_arith)
            requires
                0 <= ma <= 0xffff_ffff_ffff_ffff * 0xffff_ffff,
                0 <= mb <= 0xffff_ffff,
        ;
        assert(0 <= mc * md <= 0xffff_ffff_ffff_ffff * 0xffff_ffff * 0xffff_ffff)
            by (nonlinear_arith)
            requires
                0 <= mc <= 0xffff_ffff_ffff_ffff * 0xffff_ffff,
                0 <= md <= 0xffff_ffff,
        ;
        lemma_signed_product(a as int, b as int, ma as int, mb as int);
        lemma_signed_product(c as int, d as int, mc as int, md as int);
    }
    let left: u128 = ma * mb;
    let right: u128 = mc * md;
    if left_negative {
        if right_negative {
            left <= right
        } else {
            left == 0 && right == 0
        }
    } else {
        if right_negative {
            true
        } else {
            left >= right
        }
    }
}

proof fn lemma_signed_product(a: int, b: int, ma: int, mb: int)
    requires
        ma == if a < 0 {
            -a
        } else {
            a
        },
        mb == if b < 0 {
            -b
        } else {
            b
        },
    ensures
        ma * mb >= 0,
        a * b == if (a < 0) != (b < 0) {
            -(ma * mb)
        } else {
            ma * mb
        },
{
    assert(ma * mb >= 0) by (nonlinear_arith)
        requires
            ma >= 0,
            mb >= 0,
    ;
    assert((-a) * b == -(a * b)) by (nonlinear_arith);
    assert(a * (-b) == -(a * b)) by (nonlinear_arith);
    assert((-a) * (-b) == a * b) by (nonlinear_arith);
}

/// The cross product of the directions from one centroid to two pixels is
/// the centroid's count times a number that takes one direction only.
proof fn lemma_cross_scales(origin: Centroid, p: Pixel, q: Pixel)
    requires
        centroid_in_range(origin),
        p.x <= MAX_SIDE,
        p.y <= MAX_SIDE,
        q.x <= MAX_SIDE,
        q.y <= MAX_SIDE,
    ensures
        cross(direction_of(origin, p), direction_of(origin, q)) == origin.count * (direction_of(
            origin,
            p,
        ).dx * (q.y - p.y) - direction_of(origin, p).dy * (q.x - p.x)),
{
    let n = origin.count as int;
    let (px, py, qx, qy) = (p.x as int, p.y as int, q.x as int, q.y as int);
    let (sx, sy) = (origin.sum_x as int, origin.sum_y as int);
    lemma_direction_parts(origin, p);
    lemma_direction_parts(origin, q);
    assert((n * px - sx) * (n * qy - sy) - (n * py - sy) * (n * qx - sx) == n * ((n * px - sx) * (qy
        - py) - (n * py - sy) * (qx - px))) by (nonlinear_arith);
}

/// The parts of a direction, as whole numbers.
proof fn lemma_direction_parts(origin: Centroid, p: Pixel)
    requires
        centroid_in_range(origin),
        p.x <= MAX_SIDE,
        p.y <= MAX_SIDE,
    ensures
        direction_of(origin, p).dx == origin.count * p.x - origin.sum_x,
        direction_of(origin, p).dy == origin.count * p.y - origin.sum_y,
        angle_in_range(direction_of(origin, p)),
{
    let n = origin.count as int;
    let (px, py) = (p.x as int, p.y as int);
    assert(0 <= n * px <= 0xffff_ffff_ffff_ffff * 0xffff_ffff) by (nonlinear_arith)
        requires
            0 <= n <= 0xffff_ffff_ffff_ffff,
            0 <= px <= 0xffff_ffff,
    ;
    assert(0 <= n * py <= 0xffff_ffff_ffff_ffff * 0xffff_ffff) by (nonlinear_arith)
        requires
            0 <= n <= 0xffff_ffff_ffff_ffff,
            0 <= py <= 0xffff_ffff,
    ;
}

/// Tells whether, seen from the centroid `origin`, the angle of the pixel `p`
/// is at most the angle of the pixel `q`.
pub fn angle_not_after(origin: &Centroid, p: Pixel, q: Pixel) -> (r: bool)
    requires
        centroid_in_range(*origin),
        p.x <= MAX_SIDE,
        p.y <= MAX_SIDE,
        q.x <= MAX_SIDE,
        q.y <= MAX_SIDE,
    ensures
        r == angle_le(direction_of(*origin, p), direction_of(*origin, q)),
{
    let a = calculate_angle(origin, p);
    let b = calculate_angle(origin, q);
    let qa: u8 = quarter_of(a);
    let qb: u8 = quarter_of(b);
    if qa != qb {
        qa < qb
    } else if qa == 1 || qa == 3 {
        true
    } else {
        let across: i64 = q.x as i64 - p.x as i64;
        let up: i64 = q.y as i64 - p.y as i64;
        proof {
            lemma_direction_parts(*origin, p);
            lemma_cross_scales(*origin, p, q);
            let n = origin.count as int;
            let k = a.dx * up - a.dy * across;
            assert(n >= 1) by {
                if n == 0 {
                    assert(n * p.y == 0) by (nonlinear_arith)
                        requires
                            n == 0,
                    ;
                }
            }
            assert((n * k >= 0) == (k >= 0)) by (nonlinear_arith)
                requires
                    n >= 1,
            ;
        }
        product_not_below(a.dx, up, a.dy, across)
    }
}

/// Tells in which part of the circle a direction lies.
pub fn quarter_of(a: Angle) -> (q: u8)
    ensures
        q == quarter(a),
{
    if a.dy < 0 {
        0
    } else if a.dy > 0 {
        2
    } else if a.dx >= 0 {
        1
    } else {
        3
    }
}

/// The direction from the centroid of `group` to its pixel at position `k`.
pub open spec fn sweep_angle(group: Seq<Pixel>, k: int) -> Angle {
    direction_of(centroid_of(group), group[k])
}

/// Whether the pixel at position `k` of `group` lies on the edge.
pub open spec fn outer_at(image: &Image, group: Seq<Pixel>, k: int) -> bool {
    outer(image, group[k].x as int, group[k].y as int)
}

/// Whether `order` lists the positions of the edge pixels among the first `n`
/// pixels of `group`, swept around the centroid: every such position occurs,
/// no other does, angles never decrease along the list, and of two pixels
/// with the same angle the one that comes first in `group` comes first.
pub open spec fn sweep_order(image: &Image, group: Seq<Pixel>, order: Seq<usize>, n: int) -> bool {
    &&& forall|i: int|
        0 <= i < order.len() ==> (#[trigger] order[i]) < n && outer_at(image, group, order[i] as int)
    &&& forall|m: int|
        0 <= m < n && #[trigger] outer_at(image, group, m) ==> order.contains(m as usize)
    &&& forall|i: int, j: int|
        0 <= i < j < order.len() ==> angle_le(
            sweep_angle(group, #[trigger] order[i] as int),
            sweep_angle(group, #[trigger] order[j] as int),
        ) && (angle_le(sweep_angle(group, order[j] as int), sweep_angle(group, order[i] as int))
            ==> order[i] < order[j])
}

proof fn lemma_insert_keeps_order(
    image: &Image,
    group: Seq<Pixel>,
    order: Seq<usize>,
    pos: int,
    k: usize,
)
    requires
        sweep_order(image, group, order, k as int),
        0 <= pos <= order.len(),
        k < group.len(),
        outer_at(image, group, k as int),
        forall|j: int|
            pos <= j < order.len() ==> !angle_le(
                sweep_angle(group, #[trigger] order[j] as int),
                sweep_angle(group, k as int),
            ),
        pos > 0 ==> angle_le(
            sweep_angle(group, order[pos - 1] as int),
            sweep_angle(group, k as int),
        ),
    ensures
        sweep_order(image, group, order.insert(pos, k), k + 1),
{
    let grown = order.insert(pos, k);
    order.insert_ensures(pos, k);
    assert(grown[pos] == k);
    assert forall|i: int| pos < i < grown.len() implies #[trigger] grown[i] == order[i - 1] by {
        assert(grown[(i - 1) + 1] == order[i - 1]);
    }
    assert forall|m: int| 0 <= m < k + 1 && #[trigger] outer_at(image, group, m) implies grown.contains(
        m as usize,
    ) by {
        if m < k {
            assert(order.contains(m as usize));
            let i = choose|i: int| 0 <= i < order.len() && order[i] == m as usize;
            if i < pos {
                assert(grown[i] == m as usize);
            } else {
                assert(grown[i + 1] == m as usize);
            }
        }
    }
    let a = sweep_angle(group, k as int);
    assert forall|i: int, j: int| 0 <= i < j < grown.len() implies angle_le(
        sweep_angle(group, #[trigger] grown[i] as int),
        sweep_angle(group, #[trigger] grown[j] as int),
    ) && (angle_le(sweep_angle(group, grown[j] as int), sweep_angle(group, grown[i] as int))
        ==> grown[i] < grown[j]) by {
        if j < pos {
            assert(grown[i] == order[i] && grown[j] == order[j]);
        } else if j == pos {
            assert(grown[i] == order[i]);
            if i < pos - 1 {
                lemma_angle_transitive(
                    sweep_angle(group, order[i] as int),
                    sweep_angle(group, order[pos - 1] as int),
                    a,
                );
            }
        } else if i == pos {
            assert(grown[j] == order[j - 1]);
            lemma_angle_total(sweep_angle(group, order[j - 1] as int), a);
        } else if i < pos {
            assert(grown[i] == order[i] && grown[j] == order[j - 1]);
        } else {
            assert(grown[i] == order[i - 1] && grown[j] == order[j - 1]);
        }
    }
}

/// Lists the positions in `group` of its edge pixels, swept around the
/// centroid of the whole group by increasing angle. Pixels with the same
/// angle keep the order that they have in `group`.
pub fn sweep_positions(image: &Image, group: &Vec<Pixel>) -> (order: Vec<usize>)
    requires
        image.wf(),
        forall|i: int|
            0 <= i < group@.len() ==> image.contains(
                (#[trigger] group@[i]).x as int,
                group@[i].y as int,
            ),
    ensures
        sweep_order(image, group@, order@, group@.len() as int),
{
    let c = calculate_centroid(group);
    let total = group.len();
    proof {
        lemma_sum_bound(group@, total as int);
        assert(total <= 0xffff_ffff_ffff_ffff);
    }
    let mut order: Vec<usize> = Vec::new();
    let mut k: usize = 0;
    while k < group.len()
        invariant
            image.wf(),
            forall|i: int|
                0 <= i < group@.len() ==> image.contains(
                    (#[trigger] group@[i]).x as int,
                    group@[i].y as int,
                ),
            c == centroid_of(group@),
            centroid_in_range(c),
            k <= group@.len(),
            sweep_order(image, group@, order@, k as int),
        decreases group.len() - k,
    {
        let p = group[k];
        if is_outer_pixel(image, p.x, p.y) {
            let ghost a = sweep_angle(group@, k as int);
            let mut pos: usize = order.len();
            let mut searching = true;
            while searching && pos > 0
                invariant
                    image.wf(),
                    forall|i: int|
                        0 <= i < group@.len() ==> image.contains(
                            (#[trigger] group@[i]).x as int,
                            group@[i].y as int,
                        ),
                    c == centroid_of(group@),
                    centroid_in_range(c),
                    k < group@.len(),
                    a == sweep_angle(group@, k as int),
                    p == group@[k as int],
                    sweep_order(image, group@, order@, k as int),
                    pos <= order@.len(),
                    forall|j: int|
                        pos <= j < order@.len() ==> !angle_le(
                            sweep_angle(group@, #[trigger] order@[j] as int),
                            a,
                        ),
                    !searching ==> pos > 0 && angle_le(
                        sweep_angle(group@, order@[pos - 1] as int),
                        a,
                    ),
                decreases pos + if searching { 1int } else { 0int },
            {
                if angle_not_after(&c, group[order[pos - 1]], p) {
                    searching = false;
                } else {
                    pos -= 1;
                }
            }
            proof {
                lemma_insert_keeps_order(image, group@, order@, pos as int, k);
            }
            order.insert(pos, k);
        }
        k += 1;
    }
    order
}

/// The pixels of `group` at the positions that `order` lists.
pub open spec fn picked(group: Seq<Pixel>, order: Seq<usize>) -> Seq<Pixel> {
    Seq::new(order.len(), |i: int| group[order[i] as int])
}

/// Finds the edge pixels of a region and puts them in the order of a sweep
/// around the region's centroid: angles never decrease from one pixel of the
/// result to any later one. The outline that joins them in this order is a
/// simple loop only where every edge pixel can be seen from the centroid.
pub fn find_outer_pixels(image: &Image, group: &Vec<Pixel>) -> (out: Vec<Pixel>)
    requires
        image.wf(),
        forall|i: int|
            0 <= i < group@.len() ==> image.contains(
                (#[trigger] group@[i]).x as int,
                group@[i].y as int,
            ),
    ensures
        exists|order: Seq<usize>|
            sweep_order(image, group@, order, group@.len() as int) && out@ == #[trigger] picked(
                group@,
                order,
            ),
        forall|i: int, j: int|
            0 <= i < j < out@.len() ==> angle_le(
                direction_of(centroid_of(group@), #[trigger] out@[i]),
                direction_of(centroid_of(group@), #[trigger] out@[j]),
            ),
        forall|i: int|
            0 <= i < out@.len() ==> group@.contains(#[trigger] out@[i]) && outer(
                image,
                out@[i].x as int,
                out@[i].y as int,
            ),
{
    let order = sweep_positions(image, group);
    let mut out: Vec<Pixel> = Vec::new();
    let mut i: usize = 0;
    while i < order.len()
        invariant
            sweep_order(image, group@, order@, group@.len() as int),
            i <= order@.len(),
            out@.len() == i,
            forall|j: int| 0 <= j < i ==> #[trigger] out@[j] == group@[order@[j] as int],
        decreases order.len() - i,
    {
        out.push(group[order[i]]);
        i += 1;
    }
    proof {
        assert(out@ =~= picked(group@, order@));
        assert forall|i: int| 0 <= i < out@.len() implies group@.contains(#[trigger] out@[i])
            && outer(image, out@[i].x as int, out@[i].y as int) by {
            assert(outer_at(image, group@, order@[i] as int));
            assert(group@[order@[i] as int] == out@[i]);
        }
    }
    out
}

/// Whether position `a` of `group` comes before position `b` in a sweep: its
/// angle is smaller, or the angles are the same and `a` is the smaller
/// position.
pub open spec fn swept_before(group: Seq<Pixel>, a: usize, b: usize) -> bool {
    angle_le(sweep_angle(group, a as int), sweep_angle(group, b as int)) && (angle_le(
        sweep_angle(group, b as int),
        sweep_angle(group, a as int),
    ) ==> a < b)
}

/// Whether every entry of `order` comes before all later entries in a sweep.
pub open spec fn swept(group: Seq<Pixel>, order: Seq<usize>) -> bool {
    forall|i: int, j: int|
        0 <= i < j < order.len() ==> swept_before(group, #[trigger] order[i], #[trigger] order[j])
}

/// Two swept lists of the same positions are the same list.
proof fn lemma_swept_lists_agree(group: Seq<Pixel>, a: Seq<usize>, b: Seq<usize>)
    requires
        swept(group, a),
        swept(group, b),
        forall|m: usize| a.contains(m) <==> b.contains(m),
    ensures
        a == b,
    decreases a.len(),
{
    if a.len() == 0 {
        if b.len() > 0 {
            assert(b.contains(b[0]));
        }
        assert(a =~= b);
    } else {
        assert(a.contains(a[0]));
        assert(b.contains(a[0]));
        let j = choose|j: int| 0 <= j < b.len() && b[j] == a[0];
        assert(b.contains(b[0]));
        assert(a.contains(b[0]));
        let i = choose|i: int| 0 <= i < a.len() && a[i] == b[0];
        if i > 0 && j > 0 {
            assert(swept_before(group, a[0], a[i]));
            assert(swept_before(group, b[0], b[j]));
        }
        if i > 0 && j == 0 {
            assert(swept_before(group, a[0], a[i]));
        }
        if j > 0 && i == 0 {
            assert(swept_before(group, b[0], b[j]));
        }
        assert(a[0] == b[0]);
        let ta = a.drop_first();
        let tb = b.drop_first();
        assert forall|m: usize| ta.contains(m) <==> tb.contains(m) by {
            if ta.contains(m) {
                let k = choose|k: int| 0 <= k < ta.len() && ta[k] == m;
                assert(a[k + 1] == m);
                assert(swept_before(group, a[0], a[k + 1]));
                assert(a.contains(m));
                let l = choose|l: int| 0 <= l < b.len() && b[l] == m;
                assert(l > 0);
                assert(tb[l - 1] == m);
            }
            if tb.contains(m) {
                let k = choose|k: int| 0 <= k < tb.len() && tb[k] == m;
                assert(b[k + 1] == m);
                assert(swept_before(group, b[0], b[k + 1]));
                assert(b.contains(m));
                let l = choose|l: int| 0 <= l < a.len() && a[l] == m;
                assert(l > 0);
                assert(ta[l - 1] == m);
            }
        }
        assert forall|x: int, y: int| 0 <= x < y < ta.len() implies swept_before(
            group,
            #[trigger] ta[x],
            #[trigger] ta[y],
        ) by {
            assert(swept_before(group, a[x + 1], a[y + 1]));
        }
        assert forall|x: int, y: int| 0 <= x < y < tb.len() implies swept_before(
            group,
            #[trigger] tb[x],
            #[trigger] tb[y],
        ) by {
            assert(swept_before(group, b[x + 1], b[y + 1]));
        }
        lemma_swept_lists_agree(group, ta, tb);
        assert(a =~= seq![a[0]] + ta);
        assert(b =~= seq![b[0]] + tb);
    }
}

/// A region has one sweep only: what `sweep_order` asks of a list of
/// positions, one list alone fulfils. So the edge pixels of a region and
/// their order depend on the image and on the region's pixels alone.
pub proof fn lemma_sweep_is_unique(
    image: &Image,
    group: Seq<Pixel>,
    first: Seq<usize>,
    second: Seq<usize>,
)
    requires
        sweep_order(image, group, first, group.len() as int),
        sweep_order(image, group, second, group.len() as int),
    ensures
        first == second,
        picked(group, first) == picked(group, second),
{
    assert forall|m: usize| first.contains(m) <==> second.contains(m) by {
        if first.contains(m) {
            let i = choose|i: int| 0 <= i < first.len() && first[i] == m;
            assert(outer_at(image, group, first[i] as int));
            assert(second.contains(m));
        }
        if second.contains(m) {
            let i = choose|i: int| 0 <= i < second.len() && second[i] == m;
            assert(outer_at(image, group, second[i] as int));
            assert(first.contains(m));
        }
    }
    lemma_swept_lists_agree(group, first, second);
}

} // verus!
