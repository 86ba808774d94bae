//! Row-by-row extraction: every maximal run of one terrain colour within a row
//! becomes one rectangle. Rows are treated independently of each other.

use vstd::prelude::*;
use crate::geometry::{ColliderRequest, Point, Rectangle};
use crate::grid::{flipped, Image};
use crate::pixel::{background, is_solid, same_group, solid, Rgba};

verus! {

/// A maximal span `[x_start, x_end)` of one terrain colour within row `row`.
#[derive(Clone, Copy, Debug, PartialEq, Eq, Structural)]
pub struct RunSegment {
    pub row: usize,
    pub x_start: usize,
    pub x_end: usize,
    pub color: Rgba,
}

/// Whether a run begins at `x`: the colour there differs from the colour to
/// its left, or `x` is the first column.
pub open spec fn run_starts_at(row: Seq<Rgba>, x: int) -> bool {
    0 <= x < row.len() && (x == 0 || row[x - 1] != row[x])
}

/// Where the run that covers `x` ends: the first column right of `x` with
/// another colour, or the row's length.
pub open spec fn run_end(row: Seq<Rgba>, x: int) -> int
    decreases row.len() - x,
{
    if x + 1 >= row.len() {
        row.len() as int
    } else if row[x + 1] != row[x] {
        x + 1
    } else {
        run_end(row, x + 1)
    }
}

/// The terrain runs of `row` that begin left of column `n`, from left to right.
pub open spec fn runs_before(row: Seq<Rgba>, y: usize, n: int) -> Seq<RunSegment>
    decreases n,
{
    if n <= 0 {
        Seq::empty()
    } else if run_starts_at(row, n - 1) && solid(row[n - 1]) {
        runs_before(row, y, n - 1).push(
            RunSegment {
                row: y,
                x_start: (n - 1) as usize,
                x_end: run_end(row, n - 1) as usize,
                color: row[n - 1],
            },
        )
    } else {
        runs_before(row, y, n - 1)
    }
}

/// All terrain runs of one row, from left to right.
pub open spec fn row_runs(row: Seq<Rgba>, y: usize) -> Seq<RunSegment> {
    runs_before(row, y, row.len() as int)
}

/// The terrain runs of the first `n` rows, row after row.
pub open spec fn runs_of_rows(rows: Seq<Seq<Rgba>>, n: int) -> Seq<RunSegment>
    decreases n,
{
    if n <= 0 {
        Seq::empty()
    } else {
        runs_of_rows(rows, n - 1) + row_runs(rows[n - 1], (n - 1) as usize)
    }
}

/// The width of the rectangle drawn for a run in a row of `width` pixels. A
/// run that is cut off by a change of colour is drawn at its full length; a run
/// that reaches the end of the row is drawn up to the row's last column only,
/// one pixel short.
pub open spec fn drawn_width(run: RunSegment, width: int) -> int {
    if run.x_end == width {
        width - 1 - run.x_start
    } else {
        run.x_end - run.x_start
    }
}

/// The rectangle drawn for a run: one pixel high, `drawn_width` wide, starting
/// at the run's left edge, in the run's colour.
pub open spec fn rectangle_of(run: RunSegment, width: int) -> Rectangle {
    let w = drawn_width(run, width);
    Rectangle {
        center: Point { x: (2 * run.x_start + w) as i64, y: (2 * run.row + 1) as i64 },
        half_extents: Point { x: w as i64, y: 1 },
        color: run.color,
    }
}

/// A stretch of one colour that begins at `s` and is cut off at `x` has its
/// end at `x`.
pub proof fn lemma_run_end(row: Seq<Rgba>, s: int, x: int)
    requires
        0 <= s < x <= row.len(),
        forall|k: int| s <= k < x ==> row[k] == row[s],
        x < row.len() ==> row[x] != row[s],
    ensures
        run_end(row, s) == x,
    decreases x - s,
{
    if s + 1 < x {
        lemma_run_end(row, s + 1, x);
    }
}

/// No run begins strictly inside a stretch of one colour.
pub proof fn lemma_no_start_inside(row: Seq<Rgba>, y: usize, s: int, x: int)
    requires
        0 <= s < x <= row.len(),
        forall|k: int| s <= k < x ==> row[k] == row[s],
    ensures
        runs_before(row, y, x) == runs_before(row, y, s + 1),
    decreases x - s,
{
    if s + 1 < x {
        lemma_no_start_inside(row, y, s, x - 1);
    }
}

/// Every run of a row is a stretch of one terrain colour that cannot be
/// extended to either side, and the runs come in increasing order of `x`.
pub proof fn lemma_runs_are_maximal(row: Seq<Rgba>, y: usize, n: int)
    requires
        0 <= n <= row.len(),
        row.len() <= usize::MAX,
    ensures
        forall|i: int|
            #![trigger runs_before(row, y, n)[i]]
            0 <= i < runs_before(row, y, n).len() ==> {
                let run = runs_before(row, y, n)[i];
                &&& run.row == y
                &&& run.x_start < n
                &&& run_starts_at(row, run.x_start as int)
                &&& run.x_end == run_end(row, run.x_start as int)
                &&& run.color == row[run.x_start as int]
                &&& solid(run.color)
                &&& i > 0 ==> runs_before(row, y, n)[i - 1].x_start < run.x_start
            },
        forall|x: int|
            0 <= x < n && run_starts_at(row, x) && solid(row[x]) ==> exists|i: int|
                0 <= i < runs_before(row, y, n).len() && #[trigger] runs_before(
                    row,
                    y,
                    n,
                )[i].x_start == x,
    decreases n,
{
    if n > 0 {
        lemma_runs_are_maximal(row, y, n - 1);
        lemma_run_end_bounds(row, n - 1);
        let prev = runs_before(row, y, n - 1);
        let cur = runs_before(row, y, n);
        assert forall|x: int| 0 <= x < n && run_starts_at(row, x) && solid(row[x]) implies exists|
            i: int,
        |
            0 <= i < cur.len() && #[trigger] cur[i].x_start == x by {
            if x < n - 1 {
                let i = choose|i: int| 0 <= i < prev.len() && #[trigger] prev[i].x_start == x;
                assert(cur[i].x_start == x);
            } else {
                assert(cur[cur.len() - 1].x_start == x);
            }
        }
    }
}

/// The run that covers `x` ends right of `x` and within the row, and every
/// pixel from `x` to that end has the colour of `x`; the pixel after it, if
/// there is one, has another colour.
pub proof fn lemma_run_end_bounds(row: Seq<Rgba>, x: int)
    requires
        0 <= x < row.len(),
    ensures
        x < run_end(row, x) <= row.len(),
        forall|k: int| x <= k < run_end(row, x) ==> row[k] == row[x],
        run_end(row, x) < row.len() ==> row[run_end(row, x)] != row[x],
    decreases row.len() - x,
{
    if x + 1 < row.len() && row[x + 1] == row[x] {
        lemma_run_end_bounds(row, x + 1);
    }
}

/// Finds the terrain runs of row `y`, from left to right.
pub fn scan_row(image: &Image, y: usize) -> (out: Vec<RunSegment>)
    requires
        image.wf(),
        y < image.spec_height(),
    ensures
        out@ == row_runs(image@[y as int], y),
{
    let ghost row = image@[y as int];
    let w = image.width();
    let mut out: Vec<RunSegment> = Vec::new();
    let mut current = Rgba { r: 0, g: 0, b: 0, a: 255 };
    let mut line_start: usize = 0;
    let mut x: usize = 0;
    while x < w
        invariant
            image.wf(),
            y < image.spec_height(),
            row == image@[y as int],
            w == image.width,
            row.len() == w,
            x <= w,
            x == 0 ==> line_start == 0 && current == background(),
            x > 0 ==> line_start < x && current == row[line_start as int],
            forall|k: int| line_start <= k < x ==> row[k] == current,
            out@ == runs_before(row, y, line_start as int),
            x > 0 ==> run_starts_at(row, line_start as int),
        decreases w - x,
    {
        let pixel = image.get_pixel(x, y);
        if !same_group(pixel, current) {
            if x > 0 {
                proof {
                    lemma_run_end(row, line_start as int, x as int);
                    lemma_no_start_inside(row, y, line_start as int, x as int);
                }
                if is_solid(current) {
                    out.push(RunSegment { row: y, x_start: line_start, x_end: x, color: current });
                }
            }
            line_start = x;
            current = pixel;
        }
        x += 1;
    }
    if w > 0 {
        proof {
            lemma_run_end(row, line_start as int, w as int);
            lemma_no_start_inside(row, y, line_start as int, w as int);
        }
        if is_solid(current) {
            out.push(RunSegment { row: y, x_start: line_start, x_end: w, color: current });
        }
    }
    out
}

/// Finds the terrain runs of the whole image: those of row 0 first, then those
/// of row 1, and so on.
pub fn scan_runs(image: &Image) -> (out: Vec<RunSegment>)
    requires
        image.wf(),
    ensures
        out@ == runs_of_rows(image@, image.spec_height() as int),
{
    let h = image.height();
    let mut out: Vec<RunSegment> = Vec::new();
    let mut y: usize = 0;
    while y < h
        invariant
            image.wf(),
            h == image.spec_height(),
            y <= h,
            out@ == runs_of_rows(image@, y as int),
        decreases h - y,
    {
        let mut runs = scan_row(image, y);
        out.append(&mut runs);
        y += 1;
    }
    out
}

/// Turns a run into the rectangle that is drawn for it in an image that is
/// `width` pixels wide.
pub fn rectangle_for(run: RunSegment, width: usize) -> (r: Rectangle)
    requires
        run.x_start < run.x_end <= width <= crate::grid::MAX_SIDE,
        run.row < crate::grid::MAX_SIDE,
    ensures
        r == rectangle_of(run, width as int),
{
    let w: usize = if run.x_end == width {
        width - 1 - run.x_start
    } else {
        run.x_end - run.x_start
    };
    Rectangle {
        center: Point { x: 2 * (run.x_start as i64) + (w as i64), y: 2 * (run.row as i64) + 1 },
        half_extents: Point { x: w as i64, y: 1 },
        color: run.color,
    }
}

/// The rectangles of a sequence of runs, one for one.
pub open spec fn rectangles_of(runs: Seq<RunSegment>, width: int) -> Seq<ColliderRequest> {
    Seq::new(runs.len(), |i: int| ColliderRequest::Rectangle(rectangle_of(runs[i], width)))
}

/// The rectangles of a level whose picture is stored top row first: the
/// picture is turned upside down, so that `y` grows upwards, and then scanned
/// row by row as `scan_rectangles` does.
pub fn load_level_geo(level: &Image) -> (out: Vec<ColliderRequest>)
    requires
        level.wf(),
    ensures
        out@ == rectangles_of(
            runs_of_rows(flipped(level@), level.spec_height() as int),
            level.width as int,
        ),
{
    let upright = load_level_geo_new(level);
    proof {
        assert(upright@.len() == level@.len());
        assert(upright.spec_height() == level.spec_height());
    }
    scan_rectangles(&upright)
}

/// Prepares the picture of a level, which is stored top row first, for
/// extraction: the rows are put in the opposite order, so that row 0 is the
/// bottom of the playfield.
pub fn load_level_geo_new(level: &Image) -> (upright: Image)
    requires
        level.wf(),
    ensures
        upright.wf(),
        upright.width == level.width,
        upright@ == flipped(level@),
{
    level.flip_vertical()
}

/// One rectangle for every terrain run of every row, rows from first to last
/// and runs from left to right. Background pixels are covered by no
/// rectangle, and nothing is merged across rows.
pub fn scan_rectangles(level: &Image) -> (out: Vec<ColliderRequest>)
    requires
        level.wf(),
    ensures
        out@ == rectangles_of(
            runs_of_rows(level@, level.spec_height() as int),
            level.width as int,
        ),
{
    let runs = scan_runs(level);
    let width = level.width();
    let mut out: Vec<ColliderRequest> = Vec::new();
    let mut i: usize = 0;
    proof {
        lemma_runs_of_rows_bounds(level, level.spec_height() as int);
    }
    while i < runs.len()
        invariant
            level.wf(),
            width == level.width,
            i <= runs@.len(),
            out@.len() == i,
            forall|k: int|
                0 <= k < runs@.len() ==> (#[trigger] runs@[k]).x_start < runs@[k].x_end
                    <= level.width && runs@[k].row < level.spec_height(),
            forall|k: int|
                0 <= k < i ==> #[trigger] out@[k] == ColliderRequest::Rectangle(
                    rectangle_of(runs@[k], width as int),
                ),
        decreases runs.len() - i,
    {
        out.push(ColliderRequest::Rectangle(rectangle_for(runs[i], width)));
        i += 1;
    }
    proof {
        assert(out@ =~= rectangles_of(runs@, width as int));
    }
    out
}

/// Every run of the first `n` rows lies within its row of the image.
pub proof fn lemma_runs_of_rows_bounds(image: &Image, n: int)
    requires
        image.wf(),
        0 <= n <= image.spec_height(),
    ensures
        forall|k: int|
            0 <= k < runs_of_rows(image@, n).len() ==> {
                let run = #[trigger] runs_of_rows(image@, n)[k];
                &&& run.x_start < run.x_end <= image.width
                &&& run.row < n
                &&& run.x_end == run_end(image@[run.row as int], run.x_start as int)
                &&& run_starts_at(image@[run.row as int], run.x_start as int)
                &&& run.color == image.color_at(run.x_start as int, run.row as int)
                &&& solid(run.color)
            },
    decreases n,
{
    if n > 0 {
        lemma_runs_of_rows_bounds(image, n - 1);
        let row = image@[n - 1];
        lemma_runs_are_maximal(row, (n - 1) as usize, row.len() as int);
        let prev = runs_of_rows(image@, n - 1);
        let last = row_runs(row, (n - 1) as usize);
        assert forall|k: int| 0 <= k < runs_of_rows(image@, n).len() implies {
            let run = #[trigger] runs_of_rows(image@, n)[k];
            &&& run.x_start < run.x_end <= image.width
            &&& run.row < n
            &&& run.x_end == run_end(image@[run.row as int], run.x_start as int)
            &&& run_starts_at(image@[run.row as int], run.x_start as int)
            &&& run.color == image.color_at(run.x_start as int, run.row as int)
            &&& solid(run.color)
        } by {
            if k < prev.len() {
                assert(runs_of_rows(image@, n)[k] == prev[k]);
            } else {
                let run = last[k - prev.len()];
                assert(runs_of_rows(image@, n)[k] == run);
                lemma_run_end_bounds(row, run.x_start as int);
            }
        }
    }
}

/// Whether the run covers column `x`.
pub open spec fn covers(run: RunSegment, x: int) -> bool {
    run.x_start <= x < run.x_end
}

/// Where the run that covers `x` begins: the last column up to `x` at which
/// the colour changes, or the first column.
pub open spec fn run_start(row: Seq<Rgba>, x: int) -> int
    decreases x,
{
    if x <= 0 || row[x - 1] != row[x] {
        x
    } else {
        run_start(row, x - 1)
    }
}

/// The run that covers `x` begins at a change of colour at or before `x`,
/// has the colour of `x` from there to `x`, and ends after `x`.
pub proof fn lemma_run_start(row: Seq<Rgba>, x: int)
    requires
        0 <= x < row.len(),
    ensures
        0 <= run_start(row, x) <= x,
        run_starts_at(row, run_start(row, x)),
        row[run_start(row, x)] == row[x],
        x < run_end(row, run_start(row, x)),
    decreases x,
{
    let s = run_start(row, x);
    if x > 0 && row[x - 1] == row[x] {
        lemma_run_start(row, x - 1);
        lemma_run_end_bounds(row, s);
        if run_end(row, s) == x {
            assert(row[x] != row[s]);
        }
    } else {
        lemma_run_end_bounds(row, s);
    }
}

/// The runs of a row are its terrain, cut at every change of colour: a pixel
/// is terrain exactly if a run covers it; a run covers pixels of its own
/// colour only, begins at a change of colour and ends at the next one or at
/// the end of the row; and each run ends before the next begins. So no run
/// covers a background pixel.
pub proof fn lemma_runs_rebuild_row(row: Seq<Rgba>, y: usize)
    requires
        row.len() <= usize::MAX,
    ensures
        forall|x: int|
            0 <= x < row.len() ==> (solid(#[trigger] row[x]) <==> exists|i: int|
                0 <= i < row_runs(row, y).len() && covers(#[trigger] row_runs(row, y)[i], x)),
        forall|i: int, x: int|
            0 <= i < row_runs(row, y).len() && covers(#[trigger] row_runs(row, y)[i], x) ==> 0 <= x
                < row.len() && #[trigger] row[x] == row_runs(row, y)[i].color,
        forall|i: int|
            0 <= i < row_runs(row, y).len() ==> {
                let run = #[trigger] row_runs(row, y)[i];
                &&& run.row == y
                &&& run_starts_at(row, run.x_start as int)
                &&& run.x_start < run.x_end <= row.len()
                &&& run.x_end < row.len() ==> run_starts_at(row, run.x_end as int)
                &&& i > 0 ==> row_runs(row, y)[i - 1].x_end <= run.x_start
            },
{
    let runs = row_runs(row, y);
    lemma_runs_are_maximal(row, y, row.len() as int);
    assert forall|i: int| 0 <= i < runs.len() implies {
        let run = #[trigger] runs[i];
        &&& run.row == y
        &&& run_starts_at(row, run.x_start as int)
        &&& run.x_start < run.x_end <= row.len()
        &&& run.x_end < row.len() ==> run_starts_at(row, run.x_end as int)
        &&& i > 0 ==> runs[i - 1].x_end <= run.x_start
        &&& forall|x: int| covers(run, x) ==> row[x] == run.color
    } by {
        let run = runs[i];
        lemma_run_end_bounds(row, run.x_start as int);
        if i > 0 {
            let prev = runs[i - 1];
            lemma_run_end_bounds(row, prev.x_start as int);
            if run.x_start < prev.x_end {
                assert(row[run.x_start - 1] == row[prev.x_start as int]);
                assert(row[run.x_start as int] == row[prev.x_start as int]);
            }
        }
    }
    assert forall|x: int| 0 <= x < row.len() implies (solid(#[trigger] row[x]) <==> exists|i: int|
        0 <= i < runs.len() && covers(#[trigger] runs[i], x)) by {
        if solid(row[x]) {
            lemma_run_start(row, x);
            let s = run_start(row, x);
            let i = choose|i: int| 0 <= i < runs.len() && #[trigger] runs[i].x_start == s;
            assert(covers(runs[i], x));
        }
        if exists|i: int| 0 <= i < runs.len() && covers(#[trigger] runs[i], x) {
            let i = choose|i: int| 0 <= i < runs.len() && covers(#[trigger] runs[i], x);
            assert(row[x] == runs[i].color);
        }
    }
}

/// Scanning gives the same rectangles whenever the pictures hold the same
/// pixels: the rectangles depend on nothing else.
pub proof fn lemma_scan_is_repeatable(
    first: &Image,
    second: &Image,
    out_first: Seq<ColliderRequest>,
    out_second: Seq<ColliderRequest>,
)
    requires
        first@ == second@,
        first.width == second.width,
        out_first == rectangles_of(
            runs_of_rows(flipped(first@), first.spec_height() as int),
            first.width as int,
        ),
        out_second == rectangles_of(
            runs_of_rows(flipped(second@), second.spec_height() as int),
            second.width as int,
        ),
    ensures
        out_first == out_second,
{
    assert(first@.len() == second@.len());
}

} // verus!
