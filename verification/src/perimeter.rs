//! The exact outline of a piece of terrain, walked along the edges between
//! pixels.
//!
//! The walk runs on the corners of the pixel grid: corner `(x, y)` is the
//! corner of pixel `(x, y)` with the smallest coordinates. It keeps terrain on
//! its left, so with `y` growing upwards an outer outline is walked
//! counter-clockwise and the outline of a hole clockwise. Where two terrain
//! pixels touch at a corner only, the walk passes from one to the other.

use vstd::prelude::*;
use vstd::set_lib::{lemma_int_range, lemma_len_subset, set_int_range};
use crate::geometry::Point;
use crate::grid::Image;
use crate::pixel::is_solid;

verus! {

/// The direction of a step from one corner to the next.
#[derive(Clone, Copy, Debug, PartialEq, Eq, Structural)]
pub enum Heading {
    Right,
    Up,
    Left,
    Down,
}

/// The heading after a quarter turn to the right.
pub open spec fn right_of(h: Heading) -> Heading {
    match h {
        Heading::Right => Heading::Down,
        Heading::Down => Heading::Left,
        Heading::Left => Heading::Up,
        Heading::Up => Heading::Right,
    }
}

/// The heading after a quarter turn to the left.
pub open spec fn left_of(h: Heading) -> Heading {
    match h {
        Heading::Right => Heading::Up,
        Heading::Up => Heading::Left,
        Heading::Left => Heading::Down,
        Heading::Down => Heading::Right,
    }
}

/// The corner reached from `(cx, cy)` after `t` steps with heading `h`.
pub open spec fn advance(cx: int, cy: int, h: Heading, t: int) -> (int, int) {
    match h {
        Heading::Right => (cx + t, cy),
        Heading::Up => (cx, cy + t),
        Heading::Left => (cx - t, cy),
        Heading::Down => (cx, cy - t),
    }
}

/// The pixel on the left of the step that leaves `(cx, cy)` with heading `h`.
pub open spec fn left_pixel(cx: int, cy: int, h: Heading) -> (int, int) {
    match h {
        Heading::Right => (cx, cy),
        Heading::Up => (cx - 1, cy),
        Heading::Left => (cx - 1, cy - 1),
        Heading::Down => (cx, cy - 1),
    }
}

/// The pixel on the right of the step that leaves `(cx, cy)` with heading `h`.
pub open spec fn right_pixel(cx: int, cy: int, h: Heading) -> (int, int) {
    match h {
        Heading::Right => (cx, cy - 1),
        Heading::Up => (cx, cy),
        Heading::Left => (cx - 1, cy),
        Heading::Down => (cx - 1, cy - 1),
    }
}

/// Whether the step that leaves `(cx, cy)` with heading `h` runs along the
/// outline: terrain on its left, and background or nothing on its right.
pub open spec fn on_boundary(image: &Image, cx: int, cy: int, h: Heading) -> bool {
    let l = left_pixel(cx, cy, h);
    let r = right_pixel(cx, cy, h);
    image.solid_at(l.0, l.1) && !image.solid_at(r.0, r.1)
}

/// Whether step number `t` of the straight run that leaves `(cx, cy)` with
/// heading `h` runs along the outline.
pub open spec fn edge_at(image: &Image, cx: int, cy: int, h: Heading, t: int) -> bool {
    on_boundary(image, advance(cx, cy, h, t).0, advance(cx, cy, h, t).1, h)
}

/// The point of a corner, in half pixels.
pub open spec fn corner_point(cx: int, cy: int) -> Point {
    Point { x: (2 * cx) as i64, y: (2 * cy) as i64 }
}

/// Whether `n` steps with heading `h` lead from the corner at `a` to the
/// corner at `b`, each of them along the outline.
pub open spec fn run_between(
    image: &Image,
    cx: int,
    cy: int,
    h: Heading,
    n: int,
    a: Point,
    b: Point,
) -> bool {
    &&& n >= 1
    &&& a == corner_point(cx, cy)
    &&& b == corner_point(advance(cx, cy, h, n).0, advance(cx, cy, h, n).1)
    &&& forall|t: int| 0 <= t < n ==> #[trigger] edge_at(image, cx, cy, h, t)
}

/// Whether a straight run of steps along the outline leads from `a` to `b`.
pub open spec fn boundary_run(image: &Image, a: Point, b: Point) -> bool {
    exists|cx: int, cy: int, h: Heading, n: int| run_between(image, cx, cy, h, n, a, b)
}

/// The first step of the walk around the pixel `(sx, sy)`. It leaves the
/// pixel's own corner `(sx, sy)` along the side at `y = sy` if the pixel
/// beyond that side is no terrain; else it runs along the side at
/// `x = sx + 1`, at `y = sy + 1` or at `x = sx`, whichever is the first to
/// border on no terrain. There is none where the pixel is no terrain or lies
/// between four terrain pixels.
pub open spec fn start_edge(image: &Image, sx: int, sy: int) -> Option<(int, int, Heading)> {
    if !image.solid_at(sx, sy) {
        None
    } else if !image.solid_at(sx, sy - 1) {
        Some((sx, sy, Heading::Right))
    } else if !image.solid_at(sx + 1, sy) {
        Some((sx + 1, sy, Heading::Up))
    } else if !image.solid_at(sx, sy + 1) {
        Some((sx + 1, sy + 1, Heading::Left))
    } else if !image.solid_at(sx - 1, sy) {
        Some((sx, sy + 1, Heading::Down))
    } else {
        None
    }
}

/// Tells whether `(x, y)` is a terrain pixel of the image. Positions outside
/// the image are not.
pub fn is_terrain(image: &Image, x: i64, y: i64) -> (r: bool)
    requires
        image.wf(),
    ensures
        r == image.solid_at(x as int, y as int),
{
    if x < 0 || y < 0 {
        return false;
    }
    if x as u64 >= image.width() as u64 || y as u64 >= image.height() as u64 {
        return false;
    }
    is_solid(image.get_pixel(x as usize, y as usize))
}

/// Turns a quarter to the right.
pub fn turn_right(h: Heading) -> (r: Heading)
    ensures
        r == right_of(h),
{
    match h {
        Heading::Right => Heading::Down,
        Heading::Down => Heading::Left,
        Heading::Left => Heading::Up,
        Heading::Up => Heading::Right,
    }
}

/// Turns a quarter to the left.
pub fn turn_left(h: Heading) -> (r: Heading)
    ensures
        r == left_of(h),
{
    match h {
        Heading::Right => Heading::Up,
        Heading::Up => Heading::Left,
        Heading::Left => Heading::Down,
        Heading::Down => Heading::Right,
    }
}

/// Tells whether the pixel on the left of the step that leaves `(cx, cy)`
/// with heading `h` is terrain.
pub fn terrain_on_left(image: &Image, cx: i64, cy: i64, h: Heading) -> (r: bool)
    requires
        image.wf(),
        -1 <= cx <= 0x1_0000_0000,
        -1 <= cy <= 0x1_0000_0000,
    ensures
        r == image.solid_at(left_pixel(cx as int, cy as int, h).0, left_pixel(cx as int, cy as int, h).1),
{
    match h {
        Heading::Right => is_terrain(image, cx, cy),
        Heading::Up => is_terrain(image, cx - 1, cy),
        Heading::Left => is_terrain(image, cx - 1, cy - 1),
        Heading::Down => is_terrain(image, cx, cy - 1),
    }
}

/// The heading of the step that follows a step with heading `h` which has
/// arrived at `(cx, cy)`: to the right where there is terrain ahead on the
/// right, straight on where there is terrain ahead on the left only, and to
/// the left otherwise.
pub open spec fn next_heading(image: &Image, cx: int, cy: int, h: Heading) -> Heading {
    let ahead_right = left_pixel(cx, cy, right_of(h));
    let ahead_left = left_pixel(cx, cy, h);
    if image.solid_at(ahead_right.0, ahead_right.1) {
        right_of(h)
    } else if image.solid_at(ahead_left.0, ahead_left.1) {
        h
    } else {
        left_of(h)
    }
}

/// The step that follows the step `e`, which is given by the corner that it
/// leaves and its heading.
#[verifier::opaque]
pub open spec fn step(image: &Image, e: (int, int, Heading)) -> (int, int, Heading) {
    let c = advance(e.0, e.1, e.2, 1);
    (c.0, c.1, next_heading(image, c.0, c.1, e.2))
}

/// The step after a step along the outline runs along the outline too, and
/// both of its corners lie on the grid.
pub proof fn lemma_step_stays_on_outline(image: &Image, e: (int, int, Heading))
    requires
        on_boundary(image, e.0, e.1, e.2),
    ensures
        on_boundary(image, step(image, e).0, step(image, e).1, step(image, e).2),
        0 <= e.0 <= image.width,
        0 <= e.1 <= image.spec_height(),
        0 <= step(image, e).0 <= image.width,
        0 <= step(image, e).1 <= image.spec_height(),
{
    reveal(step);
}

/// Two different steps along the outline are never followed by the same step.
pub proof fn lemma_step_injective(image: &Image, a: (int, int, Heading), b: (int, int, Heading))
    requires
        on_boundary(image, a.0, a.1, a.2),
        on_boundary(image, b.0, b.1, b.2),
        step(image, a) == step(image, b),
    ensures
        a == b,
{
    reveal(step);
}

/// A number for each heading.
spec fn heading_code(h: Heading) -> int {
    match h {
        Heading::Right => 0,
        Heading::Up => 1,
        Heading::Left => 2,
        Heading::Down => 3,
    }
}

/// A number for each step on a grid with `across` corners in a row.
spec fn edge_index(e: (int, int, Heading), across: int) -> int {
    (e.1 * across + e.0) * 4 + heading_code(e.2)
}

/// Steps on a grid of `across` by `up` corners have numbers below
/// `4 * across * up`, and different steps have different numbers.
proof fn lemma_edge_index(
    a: (int, int, Heading),
    b: (int, int, Heading),
    across: int,
    up: int,
)
    requires
        0 <= a.0 < across,
        0 <= a.1 < up,
        0 <= b.0 < across,
        0 <= b.1 < up,
    ensures
        0 <= edge_index(a, across) < 4 * across * up,
        edge_index(a, across) == edge_index(b, across) ==> a == b,
{
    assert(0 <= a.1 * across && a.1 * across + across <= up * across) by (nonlinear_arith)
        requires
            0 <= a.1 < up,
            0 < across,
    ;
    assert(4 * across * up == 4 * (up * across)) by (nonlinear_arith);
    if a.1 < b.1 {
        assert(a.1 * across + across <= b.1 * across) by (nonlinear_arith)
            requires
                a.1 < b.1,
                0 < across,
        ;
    }
    if b.1 < a.1 {
        assert(b.1 * across + across <= a.1 * across) by (nonlinear_arith)
            requires
                b.1 < a.1,
                0 < across,
        ;
    }
}

/// What holds of the steps taken so far, `hist`, and of the set of their
/// numbers, `seen`: the walk began with `first`, each step runs along the
/// outline and follows the one before it, no step was taken twice, and `seen`
/// holds one number for each step.
#[verifier::opaque]
spec fn walked(
    image: &Image,
    first: (int, int, Heading),
    hist: Seq<(int, int, Heading)>,
    seen: Set<int>,
) -> bool {
    let across = image.width + 1;
    let limit = 4 * across * (image.spec_height() + 1);
    &&& 1 <= hist.len() <= limit
    &&& hist[0] == first
    &&& forall|j: int|
        0 <= j < hist.len() ==> on_boundary(image, (#[trigger] hist[j]).0, hist[j].1, hist[j].2)
    &&& forall|j: int| 0 < j < hist.len() ==> #[trigger] hist[j] == step(image, hist[j - 1])
    &&& forall|i: int, j: int|
        0 <= i < j < hist.len() ==> #[trigger] hist[i] != #[trigger] hist[j]
    &&& seen.finite()
    &&& seen.len() == hist.len()
    &&& forall|t: int|
        #[trigger] seen.contains(t) ==> 0 <= t < limit && exists|j: int|
            0 <= j < hist.len() && edge_index(#[trigger] hist[j], across) == t
}

/// The number of steps that a walk on the grid of `image` can take without
/// taking one twice: four for every corner.
spec fn step_limit(image: &Image) -> int {
    4 * (image.width + 1) * (image.spec_height() + 1)
}

/// A walk may begin with any step along the outline.
proof fn lemma_walk_begins(image: &Image, first: (int, int, Heading))
    requires
        on_boundary(image, first.0, first.1, first.2),
    ensures
        walked(
            image,
            first,
            seq![first],
            Set::<int>::empty().insert(edge_index(first, image.width + 1)),
        ),
{
    reveal(walked);
    let across = image.width + 1;
    let hist = seq![first];
    let seen = Set::<int>::empty().insert(edge_index(first, across));
    lemma_step_stays_on_outline(image, first);
    lemma_edge_index(first, first, across, image.spec_height() as int + 1);
    assert forall|t: int| #[trigger] seen.contains(t) implies exists|j: int|
        0 <= j < hist.len() && edge_index(#[trigger] hist[j], across) == t by {
        assert(edge_index(hist[0], across) == t);
    }
}

/// A walk that has not come back to its first step goes on with a step that
/// it has not taken before, and there is room for that step below the limit.
proof fn lemma_walk_goes_on(
    image: &Image,
    first: (int, int, Heading),
    hist: Seq<(int, int, Heading)>,
    seen: Set<int>,
)
    requires
        walked(image, first, hist, seen),
        step(image, hist[hist.len() - 1]) != first,
    ensures
        walked(
            image,
            first,
            hist.push(step(image, hist[hist.len() - 1])),
            seen.insert(edge_index(step(image, hist[hist.len() - 1]), image.width + 1)),
        ),
        hist.len() < step_limit(image),
{
    reveal(walked);
    let across = image.width + 1;
    let up: int = image.spec_height() as int + 1;
    let limit = 4 * across * up;
    let last = hist.len() - 1;
    let arrived = step(image, hist[last]);
    lemma_step_stays_on_outline(image, hist[last]);
    assert forall|j: int| 0 <= j < hist.len() implies #[trigger] hist[j] != arrived by {
        if hist[j] == arrived && j > 0 {
            lemma_step_injective(image, hist[j - 1], hist[last]);
        }
    }
    let number = edge_index(arrived, across);
    lemma_edge_index(arrived, arrived, across, up);
    if seen.contains(number) {
        let j = choose|j: int| 0 <= j < hist.len() && edge_index(#[trigger] hist[j], across) == number;
        lemma_step_stays_on_outline(image, hist[j]);
        lemma_edge_index(hist[j], arrived, across, up);
    }
    let grown = hist.push(arrived);
    let seen_now = seen.insert(number);
    assert forall|t: int| #[trigger] seen_now.contains(t) implies 0 <= t < limit && exists|j: int|
        0 <= j < grown.len() && edge_index(#[trigger] grown[j], across) == t by {
        if t == number {
            assert(edge_index(grown[last + 1], across) == t);
        } else {
            let j = choose|j: int| 0 <= j < hist.len() && edge_index(#[trigger] hist[j], across) == t;
            assert(edge_index(grown[j], across) == t);
        }
    }
    assert(seen_now.subset_of(set_int_range(0, limit)));
    lemma_int_range(0, limit);
    lemma_len_subset(seen_now, set_int_range(0, limit));
    assert forall|j: int| 0 < j < grown.len() implies #[trigger] grown[j] == step(
        image,
        grown[j - 1],
    ) by {
        if j < hist.len() {
            assert(grown[j] == hist[j] && grown[j - 1] == hist[j - 1]);
        }
    }
    assert forall|i: int, j: int| 0 <= i < j < grown.len() implies #[trigger] grown[i]
        != #[trigger] grown[j] by {
        if j < hist.len() {
            assert(grown[j] == hist[j] && grown[i] == hist[i]);
        } else {
            assert(grown[i] == hist[i]);
        }
    }
    assert(limit == step_limit(image)) by (nonlinear_arith)
        requires
            limit == 4 * across * up,
            across == image.width + 1,
            up == image.spec_height() + 1,
            step_limit(image) == 4 * (image.width + 1) * (image.spec_height() + 1),
    ;
}

/// Whether `hist` is the round that begins with the step `first`: each step
/// is followed by the one that `step` gives, the step after the last is
/// `first` again, and `first` is not taken in between.
pub open spec fn is_round(image: &Image, first: (int, int, Heading), hist: Seq<(int, int, Heading)>) -> bool {
    &&& hist.len() >= 1
    &&& hist[0] == first
    &&& forall|j: int|
        0 < j < hist.len() ==> #[trigger] hist[j] == step(image, hist[j - 1]) && hist[j] != first
    &&& step(image, hist[hist.len() - 1]) == first
}

/// The corners at which the first `n` steps of `hist` begin or turn: the
/// corner that the first step leaves, and every corner that a step leaves
/// with another heading than the step before it.
#[verifier::opaque]
pub open spec fn turning_points(hist: Seq<(int, int, Heading)>, n: int) -> Seq<Point>
    decreases n,
{
    if n <= 0 {
        Seq::empty()
    } else if n == 1 {
        seq![corner_point(hist[0].0, hist[0].1)]
    } else if hist[n - 1].2 != hist[n - 2].2 {
        turning_points(hist, n - 1).push(corner_point(hist[n - 1].0, hist[n - 1].1))
    } else {
        turning_points(hist, n - 1)
    }
}

/// The outline that a round draws: its turning points, and at the end the
/// corner at which it began.
pub open spec fn outline_of(hist: Seq<(int, int, Heading)>) -> Seq<Point> {
    turning_points(hist, hist.len() as int).push(corner_point(hist[0].0, hist[0].1))
}

/// The turning points of the first `n` steps depend on those steps only.
proof fn lemma_turning_points_prefix(
    a: Seq<(int, int, Heading)>,
    b: Seq<(int, int, Heading)>,
    n: int,
)
    requires
        0 <= n <= a.len(),
        n <= b.len(),
        forall|j: int| 0 <= j < n ==> a[j] == b[j],
    ensures
        turning_points(a, n) == turning_points(b, n),
    decreases n,
{
    reveal_with_fuel(turning_points, 2);
    if n > 1 {
        lemma_turning_points_prefix(a, b, n - 1);
    }
}

/// One more step adds its corner to the turning points exactly if it has
/// another heading than the step before it.
proof fn lemma_turning_points_push(hist: Seq<(int, int, Heading)>, arrived: (int, int, Heading))
    requires
        hist.len() >= 1,
    ensures
        turning_points(hist.push(arrived), hist.len() as int + 1) == if arrived.2 != hist[hist.len()
            - 1].2 {
            turning_points(hist, hist.len() as int).push(corner_point(arrived.0, arrived.1))
        } else {
            turning_points(hist, hist.len() as int)
        },
{
    reveal_with_fuel(turning_points, 2);
    lemma_turning_points_prefix(hist, hist.push(arrived), hist.len() as int);
}

/// A walk whose next step is its first step has gone once round.
proof fn lemma_walk_closes(
    image: &Image,
    first: (int, int, Heading),
    hist: Seq<(int, int, Heading)>,
    seen: Set<int>,
)
    requires
        walked(image, first, hist, seen),
        step(image, hist[hist.len() - 1]) == first,
    ensures
        is_round(image, first, hist),
{
    reveal(walked);
}

/// How far the offset `(dx, dy)` reaches in the direction of `h`.
pub open spec fn forward(h: Heading, dx: int, dy: int) -> int {
    match h {
        Heading::Right => dx,
        Heading::Up => dy,
        Heading::Left => -dx,
        Heading::Down => -dy,
    }
}

/// What keeps a walk that has turned fewer than three times away from the
/// corner at which it began: before its first turn it is on the line of its
/// first step, after one turn it is ahead of that corner in the direction of
/// the first step, and after two turns ahead of it in the direction of the
/// second.
#[verifier::opaque]
spec fn away(
    first: (int, int, Heading),
    second: Heading,
    heading: Heading,
    cx: int,
    cy: int,
    turns: int,
) -> bool {
    let (dx, dy) = (cx - first.0, cy - first.1);
    &&& turns >= 0
    &&& turns == 0 ==> heading == first.2 && forward(first.2, dx, dy) >= 0 && forward(
        left_of(first.2),
        dx,
        dy,
    ) == 0
    &&& turns == 1 ==> heading == second && (second == left_of(first.2) || second == right_of(
        first.2,
    )) && forward(first.2, dx, dy) >= 1 && forward(second, dx, dy) >= 0
    &&& turns == 2 ==> (heading == left_of(second) || heading == right_of(second)) && forward(
        second,
        dx,
        dy,
    ) >= 1
}

proof fn lemma_away_begins(first: (int, int, Heading))
    ensures
        away(first, first.2, first.2, first.0, first.1, 0),
{
    reveal(away);
}

/// A walk that has turned fewer than three times is not back at its first
/// corner after its next step, and stays away as `away` says.
proof fn lemma_away_step(
    first: (int, int, Heading),
    second: Heading,
    heading: Heading,
    cx: int,
    cy: int,
    turns: int,
    next: Heading,
)
    requires
        away(first, second, heading, cx, cy, turns),
        next == heading || next == left_of(heading) || next == right_of(heading),
    ensures
        advance(cx, cy, heading, 1) == (first.0, first.1) ==> turns >= 3,
        away(
            first,
            if turns == 0 && next != heading {
                next
            } else {
                second
            },
            next,
            advance(cx, cy, heading, 1).0,
            advance(cx, cy, heading, 1).1,
            if next != heading {
                turns + 1
            } else {
                turns
            },
        ),
{
    reveal(away);
}

/// Walks once around the outline, beginning with the step that leaves the
/// corner `(start_x, start_y)` with heading `start_heading`, and returns the
/// corners at which the walk begins, turns and ends, in half pixels.
///
/// Each step is followed by the one that `step` gives, until the walk is about
/// to take its first step again; it always comes to that. The result begins
/// and ends with the corner `(start_x, start_y)`, holds at least five
/// corners, and from each corner to the next leads a straight run along the
/// outline.
pub fn walk_from(image: &Image, start_x: i64, start_y: i64, start_heading: Heading) -> (out: Vec<
    Point,
>)
    requires
        image.wf(),
        on_boundary(image, start_x as int, start_y as int, start_heading),
    ensures
        out@.len() >= 5,
        out@[0] == corner_point(start_x as int, start_y as int),
        out@[out@.len() - 1] == out@[0],
        forall|i: int|
            0 <= i < out@.len() - 1 ==> boundary_run(image, #[trigger] out@[i], out@[i + 1]),
        exists|hist: Seq<(int, int, Heading)>| #[trigger]
            is_round(image, (start_x as int, start_y as int, start_heading), hist) && out@
                == outline_of(hist),
{
    let w = image.width();
    let h = image.height();
    let ghost first = (start_x as int, start_y as int, start_heading);
    proof {
        lemma_step_stays_on_outline(image, first);
    }
    let mut out: Vec<Point> = Vec::new();
    out.push(Point { x: 2 * start_x, y: 2 * start_y });
    let ghost mut hist: Seq<(int, int, Heading)> = seq![first];
    let ghost mut seen: Set<int> = Set::empty().insert(edge_index(first, w + 1));
    let mut cx: i64 = start_x;
    let mut cy: i64 = start_y;
    let mut heading: Heading = start_heading;
    let ghost mut vx: int = start_x as int;
    let ghost mut vy: int = start_y as int;
    let ghost mut n: int = 0;
    let ghost mut second: Heading = start_heading;
    proof {
        lemma_away_begins(first);
        lemma_walk_begins(image, first);
        assert(hist.len() <= step_limit(image)) by {
            reveal(walked);
            assert(4 * (image.width + 1) * (image.spec_height() + 1) == step_limit(image));
        }
        assert(out@ =~= turning_points(hist, 1)) by {
            reveal_with_fuel(turning_points, 2);
        }
    }
    loop
        invariant
            image.wf(),
            w == image.width,
            h == image.spec_height(),
            first == (start_x as int, start_y as int, start_heading),
            0 <= cx <= w,
            0 <= cy <= h,
            on_boundary(image, cx as int, cy as int, heading),
            out@.len() >= 1,
            out@[0] == corner_point(start_x as int, start_y as int),
            out@[out@.len() - 1] == corner_point(vx, vy),
            n >= 0,
            (cx as int, cy as int) == advance(vx, vy, heading, n),
            forall|t: int| 0 <= t < n ==> #[trigger] edge_at(image, vx, vy, heading, t),
            forall|i: int|
                0 <= i < out@.len() - 1 ==> boundary_run(image, #[trigger] out@[i], out@[i + 1]),
            walked(image, first, hist, seen),
            1 <= hist.len() <= step_limit(image),
            hist[hist.len() - 1] == (cx as int, cy as int, heading),
            out@ == turning_points(hist, hist.len() as int),
            away(first, second, heading, cx as int, cy as int, out@.len() - 1),
        decreases step_limit(image) - hist.len(),
    {
        let (nx, ny): (i64, i64) = match heading {
            Heading::Right => (cx + 1, cy),
            Heading::Up => (cx, cy + 1),
            Heading::Left => (cx - 1, cy),
            Heading::Down => (cx, cy - 1),
        };
        let right = turn_right(heading);
        let next: Heading = if terrain_on_left(image, nx, ny, right) {
            right
        } else if terrain_on_left(image, nx, ny, heading) {
            heading
        } else {
            turn_left(heading)
        };
        let ghost arrived = (nx as int, ny as int, next);
        proof {
            assert(edge_at(image, vx, vy, heading, n));
            assert((nx as int, ny as int) == advance(vx, vy, heading, n + 1));
            assert(arrived == step(image, hist[hist.len() - 1])) by {
                reveal(step);
            }
            lemma_step_stays_on_outline(image, hist[hist.len() - 1]);
            lemma_turning_points_push(hist, arrived);
            lemma_away_step(first, second, heading, cx as int, cy as int, out@.len() - 1, next);
            if out@.len() == 1 && next != heading {
                second = next;
            }
        }
        let closes = nx == start_x && ny == start_y && next == start_heading;
        if closes || next != heading {
            let ghost before = out@;
            let ghost a = out@[out@.len() - 1];
            let b = Point { x: 2 * nx, y: 2 * ny };
            out.push(b);
            proof {
                assert(run_between(image, vx, vy, heading, n + 1, a, b));
                assert(boundary_run(image, a, b));
                assert forall|i: int| 0 <= i < out@.len() - 1 implies boundary_run(
                    image,
                    #[trigger] out@[i],
                    out@[i + 1],
                ) by {
                    if i < before.len() - 1 {
                        assert(out@[i] == before[i] && out@[i + 1] == before[i + 1]);
                    }
                }
                vx = nx as int;
                vy = ny as int;
                n = 0;
            }
            if closes {
                proof {
                    lemma_walk_closes(image, first, hist, seen);
                    assert(b == corner_point(hist[0].0, hist[0].1));
                    assert(out@ == outline_of(hist));
                }
                return out;
            }
        } else {
            proof {
                n = n + 1;
            }
        }
        proof {
            lemma_walk_goes_on(image, first, hist, seen);
            seen = seen.insert(edge_index(arrived, image.width + 1));
            hist = hist.push(arrived);
        }
        cx = nx;
        cy = ny;
        heading = next;
    }
}

/// Walks once around the terrain that the pixel `(start_pixel_x,
/// start_pixel_y)` borders on, and returns the corners at which the walk
/// begins, turns and ends, in half pixels.
///
/// The walk begins with the step that `start_edge` names, which leaves the
/// pixel's own corner wherever the pixel's side at `y = start_pixel_y` is
/// free, and goes on as `walk_from` does. The result begins and ends with the
/// same corner, and from each corner to the next leads a straight run along
/// the outline.
///
/// The result is empty exactly where there is no first step: the pixel is no
/// terrain, or it lies between four terrain pixels. Otherwise the walk always
/// comes back to where it began.
pub fn walk_pixel_group_perimeter(image: &Image, start_pixel_x: usize, start_pixel_y: usize) -> (out:
    Vec<Point>)
    requires
        image.wf(),
    ensures
        out@.len() == 0 || out@.len() >= 5,
        start_edge(image, start_pixel_x as int, start_pixel_y as int).is_none() <==> out@.len()
            == 0,
        out@.len() > 0 ==> {
            let first = start_edge(image, start_pixel_x as int, start_pixel_y as int).unwrap();
            out@[0] == corner_point(first.0, first.1) && out@[out@.len() - 1] == out@[0]
        },
        forall|i: int|
            0 <= i < out@.len() - 1 ==> boundary_run(image, #[trigger] out@[i], out@[i + 1]),
        out@.len() > 0 ==> exists|hist: Seq<(int, int, Heading)>| #[trigger]
            is_round(
                image,
                start_edge(image, start_pixel_x as int, start_pixel_y as int).unwrap(),
                hist,
            ) && out@ == outline_of(hist),
{
    let w = image.width();
    let h = image.height();
    if start_pixel_x >= w || start_pixel_y >= h {
        return Vec::new();
    }
    let sx: i64 = start_pixel_x as i64;
    let sy: i64 = start_pixel_y as i64;
    if !is_terrain(image, sx, sy) {
        return Vec::new();
    }
    let start_x: i64;
    let start_y: i64;
    let start_heading: Heading;
    if !is_terrain(image, sx, sy - 1) {
        start_x = sx;
        start_y = sy;
        start_heading = Heading::Right;
    } else if !is_terrain(image, sx + 1, sy) {
        start_x = sx + 1;
        start_y = sy;
        start_heading = Heading::Up;
    } else if !is_terrain(image, sx, sy + 1) {
        start_x = sx + 1;
        start_y = sy + 1;
        start_heading = Heading::Left;
    } else if !is_terrain(image, sx - 1, sy) {
        start_x = sx;
        start_y = sy + 1;
        start_heading = Heading::Down;
    } else {
        return Vec::new();
    }
    let out = walk_from(image, start_x, start_y, start_heading);
    proof {
        let first = (start_x as int, start_y as int, start_heading);
        assert(start_edge(image, start_pixel_x as int, start_pixel_y as int) == Some(first));
        let hist = choose|hist: Seq<(int, int, Heading)>| #[trigger]
            is_round(image, first, hist) && out@ == outline_of(hist);
        assert(is_round(
            image,
            start_edge(image, start_pixel_x as int, start_pixel_y as int).unwrap(),
            hist,
        ));
    }
    out
}

} // verus!
