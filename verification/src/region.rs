//! Connected regions of terrain, found by flood fill.

use std::collections::VecDeque;
use vstd::prelude::*;
use crate::grid::{adjacent, Image, Pixel};
use crate::pixel::{is_solid, Rgba};

verus! {

/// One mark per pixel of an image: whether a flood fill has taken the pixel.
#[derive(Debug)]
pub struct Visited {
    pub width: usize,
    pub rows: Vec<Vec<bool>>,
}

/// How many entries of `s` are `false`.
pub open spec fn count_false(s: Seq<bool>) -> nat
    decreases s.len(),
{
    if s.len() == 0 {
        0
    } else {
        count_false(s.drop_last()) + if s.last() {
            0nat
        } else {
            1nat
        }
    }
}

/// How many entries of the first `n` rows are `false`.
pub open spec fn unmarked_upto(rows: Seq<Vec<bool>>, n: int) -> nat
    decreases n,
{
    if n <= 0 {
        0
    } else {
        unmarked_upto(rows, n - 1) + count_false(rows[n - 1]@)
    }
}

proof fn lemma_count_mark(s: Seq<bool>, x: int)
    requires
        0 <= x < s.len(),
        !s[x],
    ensures
        count_false(s.update(x, true)) + 1 == count_false(s),
    decreases s.len(),
{
    let t = s.update(x, true);
    if x == s.len() - 1 {
        assert(t.drop_last() =~= s.drop_last());
    } else {
        assert(t.drop_last() =~= s.drop_last().update(x, true));
        lemma_count_mark(s.drop_last(), x);
    }
}

proof fn lemma_unmarked_same(a: Seq<Vec<bool>>, b: Seq<Vec<bool>>, n: int)
    requires
        0 <= n <= a.len(),
        n <= b.len(),
        forall|k: int| 0 <= k < n ==> (#[trigger] a[k])@ == b[k]@,
    ensures
        unmarked_upto(a, n) == unmarked_upto(b, n),
    decreases n,
{
    if n > 0 {
        lemma_unmarked_same(a, b, n - 1);
    }
}

proof fn lemma_unmarked_mark(a: Seq<Vec<bool>>, b: Seq<Vec<bool>>, x: int, y: int, n: int)
    requires
        0 <= y < n <= a.len(),
        a.len() == b.len(),
        0 <= x < a[y]@.len(),
        !a[y]@[x],
        b[y]@ == a[y]@.update(x, true),
        forall|k: int| 0 <= k < a.len() && k != y ==> (#[trigger] a[k])@ == b[k]@,
    ensures
        unmarked_upto(b, n) + 1 == unmarked_upto(a, n),
    decreases n,
{
    if n - 1 == y {
        lemma_unmarked_same(a, b, n - 1);
        lemma_count_mark(a[y]@, x);
    } else {
        lemma_unmarked_mark(a, b, x, y, n - 1);
    }
}

proof fn lemma_count_false_bound(s: Seq<bool>)
    ensures
        count_false(s) <= s.len(),
    decreases s.len(),
{
    if s.len() > 0 {
        lemma_count_false_bound(s.drop_last());
    }
}

proof fn lemma_unmarked_bound(rows: Seq<Vec<bool>>, n: int, width: int)
    requires
        0 <= n <= rows.len(),
        forall|k: int| 0 <= k < rows.len() ==> (#[trigger] rows[k])@.len() == width,
    ensures
        unmarked_upto(rows, n) <= n * width,
    decreases n,
{
    if n > 0 {
        lemma_unmarked_bound(rows, n - 1, width);
        lemma_count_false_bound(rows[n - 1]@);
        assert(n * width == (n - 1) * width + width) by (nonlinear_arith);
    } else {
        assert(n * width == 0) by (nonlinear_arith)
            requires
                n == 0,
        ;
    }
}

impl Visited {
    /// The marks cover exactly the pixels of `image`.
    pub open spec fn fits(&self, image: &Image) -> bool {
        &&& self.width == image.width
        &&& self.rows@.len() == image.rows@.len()
        &&& forall|y: int|
            0 <= y < self.rows@.len() ==> (#[trigger] self.rows@[y])@.len() == self.width
    }

    /// Whether `p` lies in the grid and is marked.
    pub open spec fn marked(&self, p: Pixel) -> bool {
        p.y < self.rows@.len() && p.x < self.rows@[p.y as int]@.len()
            && self.rows@[p.y as int]@[p.x as int]
    }

    /// How many pixels are not marked.
    pub open spec fn unmarked(&self) -> nat {
        unmarked_upto(self.rows@, self.rows@.len() as int)
    }

    /// Marks for `image` with no pixel marked.
    pub fn new(image: &Image) -> (v: Visited)
        requires
            image.wf(),
        ensures
            v.fits(image),
            forall|p: Pixel| !v.marked(p),
    {
        let w = image.width();
        let h = image.height();
        let mut rows: Vec<Vec<bool>> = Vec::new();
        let mut y: usize = 0;
        while y < h
            invariant
                y <= h,
                rows@.len() == y,
                forall|k: int| 0 <= k < y ==> (#[trigger] rows@[k])@.len() == w,
                forall|k: int, j: int| 0 <= k < y && 0 <= j < w ==> !(#[trigger] rows@[k]@[j]),
            decreases h - y,
        {
            let mut row: Vec<bool> = Vec::new();
            let mut x: usize = 0;
            while x < w
                invariant
                    x <= w,
                    row@.len() == x,
                    forall|j: int| 0 <= j < x ==> !(#[trigger] row@[j]),
                decreases w - x,
            {
                row.push(false);
                x += 1;
            }
            rows.push(row);
            y += 1;
        }
        Visited { width: w, rows }
    }

    /// Tells whether the pixel at `(x, y)` is marked.
    pub fn is_marked(&self, x: usize, y: usize) -> (r: bool)
        ensures
            r == self.marked(Pixel { x, y }),
    {
        y < self.rows.len() && x < self.rows[y].len() && self.rows[y][x]
    }

    /// Marks the pixel at `(x, y)`, which was not marked.
    pub fn mark(&mut self, x: usize, y: usize)
        requires
            y < old(self).rows@.len(),
            x < old(self).rows@[y as int]@.len(),
            !old(self).marked(Pixel { x, y }),
        ensures
            final(self).width == old(self).width,
            final(self).rows@.len() == old(self).rows@.len(),
            forall|k: int|
                0 <= k < old(self).rows@.len() ==> (#[trigger] final(self).rows@[k])@.len() == old(
                    self,
                ).rows@[k]@.len(),
            forall|p: Pixel|
                #[trigger] final(self).marked(p) <==> old(self).marked(p) || p == (Pixel { x, y }),
            final(self).unmarked() + 1 == old(self).unmarked(),
    {
        let ghost before = self.rows@;
        self.rows[y][x] = true;
        proof {
            lemma_unmarked_mark(before, self.rows@, x as int, y as int, before.len() as int);
        }
    }
}

/// A connected piece of terrain: its pixels in the order in which the flood
/// fill reached them, and the colour of the first of them.
#[derive(Debug)]
pub struct Region {
    pub pixels: Vec<Pixel>,
    pub color: Rgba,
}

/// Whether the pixel at position `i` touches a pixel at an earlier position.
pub open spec fn touches_earlier(pixels: Seq<Pixel>, i: int) -> bool {
    exists|j: int| 0 <= j < i && adjacent(#[trigger] pixels[j], pixels[i])
}

/// Every pixel but the first touches a pixel that comes before it, so each
/// pixel is linked to the first through pixels of the sequence.
pub open spec fn chained(pixels: Seq<Pixel>) -> bool {
    forall|i: int| 0 < i < pixels.len() ==> #[trigger] touches_earlier(pixels, i)
}

/// No pixel occurs twice.
pub open spec fn distinct(pixels: Seq<Pixel>) -> bool {
    forall|i: int, j: int| 0 <= i < j < pixels.len() ==> pixels[i] != pixels[j]
}

/// Whether position `m` is the first in `pixels` whose pixel touches the
/// pixel at the later position `k`.
pub open spec fn touched_first(pixels: Seq<Pixel>, k: int, m: int) -> bool {
    &&& 0 <= m < k < pixels.len()
    &&& adjacent(pixels[m], pixels[k])
    &&& forall|j: int| 0 <= j < m ==> !adjacent(#[trigger] pixels[j], pixels[k])
}

/// Whether some earlier position is the first to touch position `k`.
pub open spec fn has_first_touch(pixels: Seq<Pixel>, k: int) -> bool {
    exists|m: int| touched_first(pixels, k, m)
}

/// The place of `q` among the eight pixels around `p`: the column left of
/// `p` first, then the column of `p`, then the column right of it, each in
/// the order of growing `y`.
pub open spec fn neighbour_rank(p: Pixel, q: Pixel) -> int {
    (q.x - p.x + 1) * 3 + (q.y - p.y + 1)
}

/// The pixels are in the order of a breadth-first fill: each pixel but the
/// first was reached from the first pixel in the sequence that touches it, a
/// pixel reached from an earlier pixel comes earlier, and the pixels reached
/// from one pixel come in the order of their places around it.
pub open spec fn breadth_first(pixels: Seq<Pixel>) -> bool {
    &&& forall|k: int| 0 < k < pixels.len() ==> #[trigger] has_first_touch(pixels, k)
    &&& forall|k1: int, k2: int, m1: int, m2: int|
        0 < k1 < k2 < pixels.len() && #[trigger] touched_first(pixels, k1, m1)
            && #[trigger] touched_first(pixels, k2, m2) ==> m1 < m2 || (m1 == m2
            && neighbour_rank(pixels[m1], pixels[k1]) < neighbour_rank(pixels[m1], pixels[k2]))
}

/// What holds of the pixels reached while the fill looks at the pixels around
/// position `head`: they are in breadth-first order, none was reached from a
/// position after `head`, and those reached from `head` have places below
/// `place`.
#[verifier::opaque]
spec fn filling(pixels: Seq<Pixel>, head: int, place: int) -> bool {
    &&& breadth_first(pixels)
    &&& forall|k: int, m: int| #[trigger]
        touched_first(pixels, k, m) ==> m <= head && (m == head ==> neighbour_rank(
            pixels[head],
            pixels[k],
        ) < place)
}

proof fn lemma_filling_begins(start: Pixel)
    ensures
        filling(seq![start], 0, 0),
{
    reveal(filling);
}

proof fn lemma_filling_moves(pixels: Seq<Pixel>, head: int, place: int, next_head: int, next_place: int)
    requires
        filling(pixels, head, place),
        (next_head == head && place <= next_place) || (next_head == head + 1 && next_place >= 0),
    ensures
        filling(pixels, next_head, next_place),
        breadth_first(pixels),
{
    reveal(filling);
}

proof fn lemma_filling_reaches(pixels: Seq<Pixel>, head: int, place: int, n: Pixel)
    requires
        filling(pixels, head, place),
        0 <= head < pixels.len(),
        adjacent(pixels[head], n),
        neighbour_rank(pixels[head], n) == place,
        forall|j: int| 0 <= j < head ==> !adjacent(#[trigger] pixels[j], n),
    ensures
        filling(pixels.push(n), head, place + 1),
{
    reveal(filling);
    let grown = pixels.push(n);
    let last = pixels.len() as int;
    assert forall|k: int, m: int| #[trigger] touched_first(grown, k, m) implies (k < last
        && touched_first(pixels, k, m)) || (k == last && m == head) by {
        if k < last {
            assert(grown[k] == pixels[k] && grown[m] == pixels[m]);
            assert forall|j: int| 0 <= j < m implies !adjacent(#[trigger] pixels[j], pixels[k]) by {
                assert(grown[j] == pixels[j]);
            }
        } else {
            if m < head {
                assert(grown[m] == pixels[m]);
            }
            if m > head {
                assert(grown[head] == pixels[head]);
            }
        }
    }
    assert forall|k: int| 0 < k < grown.len() implies #[trigger] has_first_touch(grown, k) by {
        if k < last {
            assert(has_first_touch(pixels, k));
            let m = choose|m: int| touched_first(pixels, k, m);
            assert(grown[k] == pixels[k] && grown[m] == pixels[m]);
            assert forall|j: int| 0 <= j < m implies !adjacent(#[trigger] grown[j], grown[k]) by {
                assert(grown[j] == pixels[j]);
            }
            assert(touched_first(grown, k, m));
        } else {
            assert(grown[head] == pixels[head]);
            assert forall|j: int| 0 <= j < head implies !adjacent(#[trigger] grown[j], grown[k]) by {
                assert(grown[j] == pixels[j]);
            }
            assert(touched_first(grown, k, head));
        }
    }
    assert forall|k1: int, k2: int, m1: int, m2: int|
        0 < k1 < k2 < grown.len() && #[trigger] touched_first(grown, k1, m1)
            && #[trigger] touched_first(grown, k2, m2) implies m1 < m2 || (m1 == m2
        && neighbour_rank(grown[m1], grown[k1]) < neighbour_rank(grown[m1], grown[k2])) by {
        assert(touched_first(pixels, k1, m1));
        assert(grown[k1] == pixels[k1] && grown[m1] == pixels[m1]);
        if k2 < last {
            assert(touched_first(pixels, k2, m2));
            assert(grown[k2] == pixels[k2]);
        } else {
            assert(grown[head] == pixels[head]);
        }
    }
    assert forall|k: int, m: int| #[trigger] touched_first(grown, k, m) implies m <= head && (m
        == head ==> neighbour_rank(grown[head], grown[k]) < place + 1) by {
        assert(grown[head] == pixels[head]);
        if k < last {
            assert(touched_first(pixels, k, m));
            assert(grown[k] == pixels[k]);
        }
    }
}

/// Flood fill from `(start_x, start_y)` through terrain pixels that touch at a
/// side or a corner, whatever their colours. Pixels that are already marked
/// are not entered. The pixels reached are marked and returned in the order
/// in which they were reached, the start first. Where the start lies outside
/// the image, is background or is already marked, nothing is reached and no
/// mark changes.
pub fn find_group(image: &Image, start_x: usize, start_y: usize, visited: &mut Visited) -> (group:
    Vec<Pixel>)
    requires
        image.wf(),
        old(visited).fits(image),
    ensures
        final(visited).fits(image),
        forall|p: Pixel| #[trigger]
            final(visited).marked(p) <==> old(visited).marked(p) || group@.contains(p),
        forall|i: int|
            0 <= i < group@.len() ==> image.solid_px(#[trigger] group@[i]) && !old(visited).marked(
                group@[i],
            ),
        distinct(group@),
        chained(group@),
        breadth_first(group@),
        group@.len() > 0 <==> image.solid_px(Pixel { x: start_x, y: start_y }) && !old(
            visited,
        ).marked(Pixel { x: start_x, y: start_y }),
        group@.len() > 0 ==> group@[0] == (Pixel { x: start_x, y: start_y }),
        forall|i: int, n: Pixel|
            0 <= i < group@.len() && adjacent(#[trigger] group@[i], n) && #[trigger] image.solid_px(
                n,
            ) ==> final(visited).marked(n),
        group@.len() + final(visited).unmarked() == old(visited).unmarked(),
        group@.len() <= image.width * image.spec_height(),
{
    proof {
        lemma_unmarked_bound(visited.rows@, visited.rows@.len() as int, visited.width as int);
        assert(visited.rows@.len() * visited.width == image.width * image.spec_height())
            by (nonlinear_arith)
            requires
                visited.rows@.len() == image.spec_height(),
                visited.width == image.width,
        ;
    }
    let mut group: Vec<Pixel> = Vec::new();
    let w = image.width();
    let h = image.height();
    if start_x >= w || start_y >= h {
        return group;
    }
    if visited.is_marked(start_x, start_y) || !is_solid(image.get_pixel(start_x, start_y)) {
        return group;
    }
    visited.mark(start_x, start_y);
    group.push(Pixel { x: start_x, y: start_y });
    proof {
        assert(group@[0] == (Pixel { x: start_x, y: start_y }));
        lemma_filling_begins(Pixel { x: start_x, y: start_y });
        assert(group@ =~= seq![Pixel { x: start_x, y: start_y }]);
    }
    let mut queue: VecDeque<Pixel> = VecDeque::new();
    queue.push_back(Pixel { x: start_x, y: start_y });
    let ghost mut head: int = 0;
    proof {
        assert(queue@ =~= group@.subrange(0, group@.len() as int));
    }
    while queue.len() > 0
        invariant
            image.wf(),
            visited.fits(image),
            w == image.width,
            h == image.spec_height(),
            0 <= head <= group@.len(),
            queue@ == group@.subrange(head, group@.len() as int),
            group@.len() > 0,
            group@[0] == (Pixel { x: start_x, y: start_y }),
            forall|p: Pixel| old(visited).marked(p) ==> #[trigger] visited.marked(p),
            forall|p: Pixel|
                #[trigger] visited.marked(p) && !old(visited).marked(p) ==> group@.contains(p),
            forall|i: int|
                0 <= i < group@.len() ==> image.solid_px(#[trigger] group@[i]) && !old(
                    visited,
                ).marked(group@[i]) && visited.marked(group@[i]),
            distinct(group@),
            chained(group@),
            forall|i: int, n: Pixel|
                0 <= i < head && adjacent(#[trigger] group@[i], n) && #[trigger] image.solid_px(n)
                    ==> visited.marked(n),
            group@.len() + visited.unmarked() == old(visited).unmarked(),
            filling(group@, head, 0),
        decreases visited.unmarked() + group@.len() - head,
    {
        let p = queue.pop_front().unwrap();
        proof {
            assert(p == group@.subrange(head, group@.len() as int)[0]);
            assert(queue@ =~= group@.subrange(head + 1, group@.len() as int));
        }
        let ghost measure = visited.unmarked() + group@.len();
        let mut dx: u64 = 0;
        while dx < 3
            invariant
                image.wf(),
                visited.fits(image),
                w == image.width,
                h == image.spec_height(),
                0 <= head < group@.len(),
                p == group@[head],
                queue@ == group@.subrange(head + 1, group@.len() as int),
                dx <= 3,
                group@[0] == (Pixel { x: start_x, y: start_y }),
                forall|q: Pixel| old(visited).marked(q) ==> #[trigger] visited.marked(q),
                forall|q: Pixel|
                    #[trigger] visited.marked(q) && !old(visited).marked(q) ==> group@.contains(q),
                forall|i: int|
                    0 <= i < group@.len() ==> image.solid_px(#[trigger] group@[i]) && !old(
                        visited,
                    ).marked(group@[i]) && visited.marked(group@[i]),
                distinct(group@),
                chained(group@),
                forall|i: int, n: Pixel|
                    0 <= i < head && adjacent(#[trigger] group@[i], n) && #[trigger] image.solid_px(
                        n,
                    ) ==> visited.marked(n),
                visited.unmarked() + group@.len() == measure,
                forall|n: Pixel|
                    #[trigger] image.solid_px(n) && -1 <= n.y - p.y <= 1 && 0 <= n.x - p.x + 1 < dx
                        ==> visited.marked(n),
                filling(group@, head, dx * 3),
            decreases 3 - dx,
        {
            let mut dy: u64 = 0;
            while dy < 3
                invariant
                    image.wf(),
                    visited.fits(image),
                    w == image.width,
                    h == image.spec_height(),
                    0 <= head < group@.len(),
                    p == group@[head],
                    queue@ == group@.subrange(head + 1, group@.len() as int),
                    dx < 3,
                    dy <= 3,
                    group@[0] == (Pixel { x: start_x, y: start_y }),
                    forall|q: Pixel| old(visited).marked(q) ==> #[trigger] visited.marked(q),
                    forall|q: Pixel|
                        #[trigger] visited.marked(q) && !old(visited).marked(q) ==> group@.contains(
                            q,
                        ),
                    forall|i: int|
                        0 <= i < group@.len() ==> image.solid_px(#[trigger] group@[i]) && !old(
                            visited,
                        ).marked(group@[i]) && visited.marked(group@[i]),
                    distinct(group@),
                    chained(group@),
                    forall|i: int, n: Pixel|
                        0 <= i < head && adjacent(#[trigger] group@[i], n)
                            && #[trigger] image.solid_px(n) ==> visited.marked(n),
                    visited.unmarked() + group@.len() == measure,
                    forall|n: Pixel|
                        #[trigger] image.solid_px(n) && -1 <= n.y - p.y <= 1 && 0 <= n.x - p.x + 1
                            < dx ==> visited.marked(n),
                    forall|n: Pixel|
                        #[trigger] image.solid_px(n) && n.x - p.x + 1 == dx && 0 <= n.y - p.y + 1
                            < dy ==> visited.marked(n),
                    filling(group@, head, dx * 3 + dy),
                decreases 3 - dy,
            {
                let sx: u64 = p.x as u64 + dx;
                let sy: u64 = p.y as u64 + dy;
                let ghost mut reached = false;
                if sx >= 1 && sy >= 1 && sx - 1 < w as u64 && sy - 1 < h as u64 {
                    let nx: usize = (sx - 1) as usize;
                    let ny: usize = (sy - 1) as usize;
                    if !visited.is_marked(nx, ny) && is_solid(image.get_pixel(nx, ny)) {
                        let ghost group_before = group@;
                        let ghost n = Pixel { x: nx, y: ny };
                        proof {
                            assert(image.solid_px(n) && !visited.marked(n));
                            assert forall|j: int| 0 <= j < head implies !adjacent(
                                #[trigger] group@[j],
                                n,
                            ) by {}
                            lemma_filling_reaches(group@, head, dx * 3 + dy, n);
                            reached = true;
                        }
                        visited.mark(nx, ny);
                        group.push(Pixel { x: nx, y: ny });
                        queue.push_back(Pixel { x: nx, y: ny });
                        proof {
                            assert(queue@ =~= group@.subrange(head + 1, group@.len() as int));
                            assert(group@[group@.len() - 1] == n);
                            assert(adjacent(group@[head], n));
                            assert forall|q: Pixel|
                                #[trigger] visited.marked(q) && !old(visited).marked(
                                    q,
                                ) implies group@.contains(q) by {
                                if q != n {
                                    let i = choose|i: int|
                                        0 <= i < group_before.len() && group_before[i] == q;
                                    assert(group@[i] == q);
                                }
                            }
                            assert forall|i: int| 0 < i < group@.len() implies #[trigger] touches_earlier(
                                group@,
                                i,
                            ) by {
                                if i < group_before.len() {
                                    assert(touches_earlier(group_before, i));
                                    let j = choose|j: int|
                                        0 <= j < i && adjacent(
                                            #[trigger] group_before[j],
                                            group_before[i],
                                        );
                                    assert(adjacent(group@[j], group@[i]));
                                }
                            }
                        }
                    }
                }
                proof {
                    if !reached {
                        lemma_filling_moves(
                            group@,
                            head,
                            dx * 3 + dy,
                            head,
                            dx * 3 + dy + 1,
                        );
                    }
                }
                dy += 1;
            }
            dx += 1;
        }
        proof {
            lemma_filling_moves(group@, head, 9, head + 1, 0);
        }
        proof {
            head = head + 1;
        }
    }
    proof {
        lemma_filling_moves(group@, head, 0, head, 0);
    }
    group
}

/// Whether region number `r` holds the pixel `p`.
pub open spec fn region_has(regions: Seq<Region>, r: int, p: Pixel) -> bool {
    0 <= r < regions.len() && regions[r].pixels@.contains(p)
}

/// Whether some region holds the pixel `p`.
pub open spec fn covered(regions: Seq<Region>, p: Pixel) -> bool {
    exists|r: int| region_has(regions, r, p)
}

/// A region is not empty, has no more pixels than the image, lists no pixel
/// twice, is linked from its first pixel, lists its pixels in breadth-first
/// order, and carries the colour of its first pixel.
pub open spec fn well_formed_region(image: &Image, region: Region) -> bool {
    &&& 0 < region.pixels@.len() <= image.width * image.spec_height()
    &&& region.color == image.color_at(region.pixels@[0].x as int, region.pixels@[0].y as int)
    &&& distinct(region.pixels@)
    &&& chained(region.pixels@)
    &&& breadth_first(region.pixels@)
}

/// The regions split the terrain of the image: together they hold exactly the
/// terrain pixels, no pixel lies in two of them, and a terrain pixel that
/// touches a pixel of a region lies in that same region.
pub open spec fn splits_terrain(image: &Image, regions: Seq<Region>) -> bool {
    &&& forall|p: Pixel|
        #![trigger covered(regions, p)]
        #![trigger image.solid_px(p)]
        image.solid_px(p) <==> covered(regions, p)
    &&& forall|r1: int, r2: int, p: Pixel| #[trigger]
        region_has(regions, r1, p) && #[trigger] region_has(regions, r2, p) ==> r1 == r2
    &&& forall|r: int|
        0 <= r < regions.len() ==> well_formed_region(image, #[trigger] regions[r])
    &&& forall|r: int, p: Pixel, n: Pixel| #[trigger]
        region_has(regions, r, p) && adjacent(p, n) && #[trigger] image.solid_px(n)
            ==> region_has(regions, r, n)
}

/// What holds of the regions found so far while the scan is under way: as
/// `splits_terrain`, but the regions hold the marked pixels only.
spec fn tracks(image: &Image, visited: Visited, regions: Seq<Region>) -> bool {
    &&& forall|p: Pixel|
        #![trigger covered(regions, p)]
        #![trigger visited.marked(p)]
        visited.marked(p) <==> covered(regions, p)
    &&& forall|r: int, p: Pixel| #[trigger] region_has(regions, r, p) ==> image.solid_px(p)
    &&& forall|r1: int, r2: int, p: Pixel| #[trigger]
        region_has(regions, r1, p) && #[trigger] region_has(regions, r2, p) ==> r1 == r2
    &&& forall|r: int|
        0 <= r < regions.len() ==> well_formed_region(image, #[trigger] regions[r])
    &&& forall|r: int, p: Pixel, n: Pixel| #[trigger]
        region_has(regions, r, p) && adjacent(p, n) && #[trigger] image.solid_px(n)
            ==> region_has(regions, r, n)
}

/// Whether `a` is met before `b` when the image is read row by row, each row
/// from the left.
pub open spec fn scanned_before(a: Pixel, b: Pixel) -> bool {
    a.y < b.y || (a.y == b.y && a.x < b.x)
}

/// The regions come in the order in which a scan row by row meets them: the
/// first pixel of each region is the first of its pixels that the scan meets,
/// and the first pixel of a region is met before that of the next region.
pub open spec fn in_scan_order(regions: Seq<Region>) -> bool {
    &&& forall|r: int, i: int|
        0 <= r < regions.len() && 0 <= i < regions[r].pixels@.len() ==> !scanned_before(
            #[trigger] regions[r].pixels@[i],
            regions[r].pixels@[0],
        )
    &&& forall|r1: int, r2: int|
        0 <= r1 < r2 < regions.len() ==> scanned_before(
            (#[trigger] regions[r1]).pixels@[0],
            (#[trigger] regions[r2]).pixels@[0],
        )
}

proof fn lemma_add_region_in_order(regions: Seq<Region>, new: Region, seed: Pixel)
    requires
        in_scan_order(regions),
        new.pixels@.len() > 0,
        new.pixels@[0] == seed,
        forall|r: int|
            0 <= r < regions.len() ==> scanned_before((#[trigger] regions[r]).pixels@[0], seed),
        forall|i: int|
            0 <= i < new.pixels@.len() ==> !scanned_before(#[trigger] new.pixels@[i], seed),
    ensures
        in_scan_order(regions.push(new)),
{
    let grown = regions.push(new);
    let last = regions.len() as int;
    assert(grown[last] == new);
    assert forall|r: int, i: int|
        0 <= r < grown.len() && 0 <= i < grown[r].pixels@.len() implies !scanned_before(
        #[trigger] grown[r].pixels@[i],
        grown[r].pixels@[0],
    ) by {
        if r < last {
            assert(grown[r] == regions[r]);
        }
    }
    assert forall|r1: int, r2: int| 0 <= r1 < r2 < grown.len() implies scanned_before(
        (#[trigger] grown[r1]).pixels@[0],
        (#[trigger] grown[r2]).pixels@[0],
    ) by {
        assert(grown[r1] == regions[r1]);
        if r2 < last {
            assert(grown[r2] == regions[r2]);
        }
    }
}

proof fn lemma_add_region(
    image: &Image,
    before: Visited,
    after: Visited,
    regions: Seq<Region>,
    new: Region,
)
    requires
        tracks(image, before, regions),
        well_formed_region(image, new),
        forall|p: Pixel| #[trigger]
            after.marked(p) <==> before.marked(p) || new.pixels@.contains(p),
        forall|i: int|
            0 <= i < new.pixels@.len() ==> image.solid_px(#[trigger] new.pixels@[i])
                && !before.marked(new.pixels@[i]),
        forall|i: int, n: Pixel|
            0 <= i < new.pixels@.len() && adjacent(#[trigger] new.pixels@[i], n)
                && #[trigger] image.solid_px(n) ==> after.marked(n),
    ensures
        tracks(image, after, regions.push(new)),
{
    let grown = regions.push(new);
    let last = regions.len() as int;
    assert(grown[last] == new);
    assert forall|r: int, p: Pixel| #[trigger] region_has(regions, r, p) implies region_has(
        grown,
        r,
        p,
    ) by {
        assert(grown[r] == regions[r]);
    }
    assert forall|r: int, p: Pixel| #[trigger] region_has(grown, r, p) implies (r < last
        && region_has(regions, r, p)) || (r == last && new.pixels@.contains(p)) by {
        if r < last {
            assert(grown[r] == regions[r]);
        }
    }
    assert forall|p: Pixel| new.pixels@.contains(p) implies image.solid_px(p) && !before.marked(
        p,
    ) && !covered(regions, p) && region_has(grown, last, p) by {
        let i = choose|i: int| 0 <= i < new.pixels@.len() && new.pixels@[i] == p;
        assert(image.solid_px(new.pixels@[i]));
    }
    assert forall|p: Pixel|
        #![trigger covered(grown, p)]
        #![trigger after.marked(p)]
        after.marked(p) <==> covered(grown, p) by {
        if after.marked(p) {
            if before.marked(p) {
                assert(covered(regions, p));
                let r = choose|r: int| region_has(regions, r, p);
                assert(region_has(grown, r, p));
            } else {
                assert(region_has(grown, last, p));
            }
        }
        if covered(grown, p) {
            let r = choose|r: int| region_has(grown, r, p);
            if r < last {
                assert(region_has(regions, r, p));
                assert(covered(regions, p));
            }
        }
    }
    assert forall|r1: int, r2: int, p: Pixel| #[trigger]
        region_has(grown, r1, p) && #[trigger] region_has(grown, r2, p) implies r1 == r2 by {
        if r1 < last && r2 == last {
            assert(region_has(regions, r1, p));
            assert(covered(regions, p));
        }
        if r2 < last && r1 == last {
            assert(region_has(regions, r2, p));
            assert(covered(regions, p));
        }
    }
    assert forall|r: int| 0 <= r < grown.len() implies well_formed_region(
        image,
        #[trigger] grown[r],
    ) by {
        if r < last {
            assert(grown[r] == regions[r]);
        }
    }
    assert forall|r: int, p: Pixel, n: Pixel| #[trigger]
        region_has(grown, r, p) && adjacent(p, n) && #[trigger] image.solid_px(
            n,
        ) implies region_has(grown, r, n) by {
        if r < last {
            assert(region_has(regions, r, p));
            assert(region_has(regions, r, n));
        } else {
            let i = choose|i: int| 0 <= i < new.pixels@.len() && new.pixels@[i] == p;
            assert(adjacent(new.pixels@[i], n));
            assert(after.marked(n));
            if before.marked(n) {
                assert(covered(regions, n));
                let r2 = choose|r2: int| region_has(regions, r2, n);
                assert(adjacent(n, p));
                assert(image.solid_px(p));
                assert(region_has(regions, r2, p));
                assert(covered(regions, p));
                assert(false);
            }
        }
    }
}

/// Finds the regions of an image. The pixels are visited row by row, each row
/// from left to right, and a flood fill starts at every terrain pixel that no
/// earlier fill has reached. The regions split the terrain, and they come in
/// the order of their first pixels.
pub fn find_regions(image: &Image) -> (regions: Vec<Region>)
    requires
        image.wf(),
    ensures
        splits_terrain(image, regions@),
        in_scan_order(regions@),
{
    let w = image.width();
    let h = image.height();
    let mut visited = Visited::new(image);
    let mut regions: Vec<Region> = Vec::new();
    let mut y: usize = 0;
    while y < h
        invariant
            image.wf(),
            visited.fits(image),
            w == image.width,
            h == image.spec_height(),
            y <= h,
            tracks(image, visited, regions@),
            forall|p: Pixel| #[trigger] image.solid_px(p) && p.y < y ==> visited.marked(p),
            in_scan_order(regions@),
            forall|r: int| 0 <= r < regions@.len() ==> (#[trigger] regions@[r]).pixels@[0].y < y,
        decreases h - y,
    {
        let mut x: usize = 0;
        while x < w
            invariant
                image.wf(),
                visited.fits(image),
                w == image.width,
                h == image.spec_height(),
                y < h,
                x <= w,
                tracks(image, visited, regions@),
                forall|p: Pixel|
                    #[trigger] image.solid_px(p) && (p.y < y || (p.y == y && p.x < x))
                        ==> visited.marked(p),
                in_scan_order(regions@),
                forall|r: int|
                    0 <= r < regions@.len() ==> scanned_before(
                        (#[trigger] regions@[r]).pixels@[0],
                        Pixel { x, y },
                    ),
            decreases w - x,
        {
            if !visited.is_marked(x, y) && is_solid(image.get_pixel(x, y)) {
                let ghost before = visited;
                let ghost found = regions@;
                let color = image.get_pixel(x, y);
                let pixels = find_group(image, x, y, &mut visited);
                let region = Region { pixels, color };
                proof {
                    lemma_add_region(image, before, visited, found, region);
                    assert forall|i: int| 0 <= i < region.pixels@.len() implies !scanned_before(
                        #[trigger] region.pixels@[i],
                        Pixel { x, y },
                    ) by {
                        assert(image.solid_px(region.pixels@[i]));
                    }
                    lemma_add_region_in_order(found, region, Pixel { x, y });
                }
                regions.push(region);
            }
            x += 1;
        }
        y += 1;
    }
    proof {
        assert forall|p: Pixel|
            #![trigger covered(regions@, p)]
            #![trigger image.solid_px(p)]
            image.solid_px(p) <==> covered(regions@, p) by {
            if covered(regions@, p) {
                let r = choose|r: int| region_has(regions@, r, p);
                assert(image.solid_px(p));
            }
        }
    }
    regions
}

/// Whether the pixels `p` and `q` lie in one region.
pub open spec fn together(regions: Seq<Region>, p: Pixel, q: Pixel) -> bool {
    exists|r: int| #[trigger] region_has(regions, r, p) && region_has(regions, r, q)
}

/// In any split of the terrain, the first `n` pixels of a linked sequence of
/// terrain pixels lie in one region.
proof fn lemma_chain_stays_together(image: &Image, regions: Seq<Region>, chain: Seq<Pixel>, n: int)
    requires
        splits_terrain(image, regions),
        chained(chain),
        forall|i: int| 0 <= i < chain.len() ==> image.solid_px(#[trigger] chain[i]),
        0 < n <= chain.len(),
    ensures
        forall|i: int| 0 <= i < n ==> together(regions, chain[0], #[trigger] chain[i]),
    decreases n,
{
    if n == 1 {
        assert(image.solid_px(chain[0]));
        assert(covered(regions, chain[0]));
        let r = choose|r: int| region_has(regions, r, chain[0]);
        assert(region_has(regions, r, chain[0]));
    } else {
        lemma_chain_stays_together(image, regions, chain, n - 1);
        let i = n - 1;
        assert(touches_earlier(chain, i));
        let j = choose|j: int| 0 <= j < i && adjacent(#[trigger] chain[j], chain[i]);
        assert(together(regions, chain[0], chain[j]));
        let r = choose|r: int| #[trigger] region_has(regions, r, chain[0]) && region_has(regions, r, chain[j]);
        assert(image.solid_px(chain[i]));
        assert(region_has(regions, r, chain[i]));
    }
}

/// An image has one split into regions only: whatever two splits of its
/// terrain are given, two pixels that lie in one region of the first lie in
/// one region of the second. The order of the regions and of the pixels
/// within a region is all in which two splits can differ.
pub proof fn lemma_split_is_unique(
    image: &Image,
    first: Seq<Region>,
    second: Seq<Region>,
    p: Pixel,
    q: Pixel,
)
    requires
        splits_terrain(image, first),
        splits_terrain(image, second),
    ensures
        together(first, p, q) <==> together(second, p, q),
{
    if together(first, p, q) {
        lemma_together_carries_over(image, first, second, p, q);
    }
    if together(second, p, q) {
        lemma_together_carries_over(image, second, first, p, q);
    }
}

proof fn lemma_together_carries_over(
    image: &Image,
    first: Seq<Region>,
    second: Seq<Region>,
    p: Pixel,
    q: Pixel,
)
    requires
        splits_terrain(image, first),
        splits_terrain(image, second),
        together(first, p, q),
    ensures
        together(second, p, q),
{
    let r = choose|r: int| #[trigger] region_has(first, r, p) && region_has(first, r, q);
    let chain = first[r].pixels@;
    assert(well_formed_region(image, first[r]));
    assert forall|i: int| 0 <= i < chain.len() implies image.solid_px(#[trigger] chain[i]) by {
        assert(region_has(first, r, chain[i]));
        assert(covered(first, chain[i]));
    }
    lemma_chain_stays_together(image, second, chain, chain.len() as int);
    let i = choose|i: int| 0 <= i < chain.len() && chain[i] == p;
    let j = choose|j: int| 0 <= j < chain.len() && chain[j] == q;
    assert(together(second, chain[0], chain[i]));
    assert(together(second, chain[0], chain[j]));
    let a = choose|a: int| #[trigger] region_has(second, a, chain[0]) && region_has(second, a, p);
    let b = choose|b: int| #[trigger] region_has(second, b, chain[0]) && region_has(second, b, q);
    assert(a == b);
    assert(region_has(second, a, p) && region_has(second, a, q));
}

proof fn lemma_fill_prefix_agrees(a: Seq<Pixel>, b: Seq<Pixel>, n: int)
    requires
        distinct(a),
        distinct(b),
        breadth_first(a),
        breadth_first(b),
        a.len() > 0,
        b.len() > 0,
        a[0] == b[0],
        forall|x: Pixel| a.contains(x) <==> b.contains(x),
        0 <= n <= a.len(),
    ensures
        n <= b.len(),
        forall|i: int| 0 <= i < n ==> a[i] == b[i],
    decreases n,
{
    if n > 1 {
        lemma_fill_prefix_agrees(a, b, n - 1);
        let k = n - 1;
        let x = a[k];
        assert(a.contains(x));
        assert(b.contains(x));
        let kb = choose|kb: int| 0 <= kb < b.len() && b[kb] == x;
        if kb < k {
            assert(a[kb] == b[kb]);
        }
        let y = b[k];
        assert(b.contains(y));
        assert(a.contains(y));
        let ka = choose|ka: int| 0 <= ka < a.len() && a[ka] == y;
        if ka < k {
            assert(a[ka] == b[ka]);
        }
        if kb > k {
            assert(has_first_touch(a, k));
            let mx = choose|mx: int| touched_first(a, k, mx);
            assert(has_first_touch(b, k));
            let my = choose|my: int| touched_first(b, k, my);
            assert(a[mx] == b[mx] && a[my] == b[my]);
            assert(touched_first(b, kb, mx)) by {
                assert forall|j: int| 0 <= j < mx implies !adjacent(#[trigger] b[j], b[kb]) by {
                    assert(a[j] == b[j]);
                }
            }
            assert(touched_first(a, ka, my)) by {
                assert forall|j: int| 0 <= j < my implies !adjacent(#[trigger] a[j], a[ka]) by {
                    assert(a[j] == b[j]);
                }
            }
            assert(false);
        }
    }
}

/// A breadth-first fill is settled by its first pixel and by the pixels that
/// it reaches: two sequences in breadth-first order that hold the same
/// pixels, each once, and begin with the same pixel are the same sequence.
pub proof fn lemma_fill_order_is_unique(a: Seq<Pixel>, b: Seq<Pixel>)
    requires
        distinct(a),
        distinct(b),
        breadth_first(a),
        breadth_first(b),
        a.len() > 0,
        b.len() > 0,
        a[0] == b[0],
        forall|x: Pixel| a.contains(x) <==> b.contains(x),
    ensures
        a == b,
{
    lemma_fill_prefix_agrees(a, b, a.len() as int);
    lemma_fill_prefix_agrees(b, a, b.len() as int);
    assert(a =~= b);
}

/// The first pixels of the regions, region by region.
pub open spec fn first_pixels(regions: Seq<Region>) -> Seq<Pixel> {
    Seq::new(regions.len(), |r: int| regions[r].pixels@[0])
}

/// Whether every pixel of the sequence is met by a scan before all that
/// follow it.
pub open spec fn scan_sorted(pixels: Seq<Pixel>) -> bool {
    forall|i: int, j: int|
        0 <= i < j < pixels.len() ==> scanned_before(#[trigger] pixels[i], #[trigger] pixels[j])
}

proof fn lemma_scan_sorted_lists_agree(a: Seq<Pixel>, b: Seq<Pixel>)
    requires
        scan_sorted(a),
        scan_sorted(b),
        forall|p: Pixel| a.contains(p) <==> b.contains(p),
    ensures
        a == b,
    decreases a.len(),
{
    if a.len() == 0 {
        if b.len() > 0 {
            assert(b.contains(b[0]));
        }
        assert(a =~= b);
    } else {
        assert(a.contains(a[0]));
        let j = choose|j: int| 0 <= j < b.len() && b[j] == a[0];
        assert(b.contains(b[0]));
        let i = choose|i: int| 0 <= i < a.len() && a[i] == b[0];
        if i > 0 {
            assert(scanned_before(a[0], a[i]));
        }
        if j > 0 {
            assert(scanned_before(b[0], b[j]));
        }
        assert(a[0] == b[0]);
        let ta = a.drop_first();
        let tb = b.drop_first();
        assert forall|p: Pixel| ta.contains(p) <==> tb.contains(p) by {
            if ta.contains(p) {
                let k = choose|k: int| 0 <= k < ta.len() && ta[k] == p;
                assert(a[k + 1] == p);
                assert(scanned_before(a[0], a[k + 1]));
                assert(a.contains(p));
                let l = choose|l: int| 0 <= l < b.len() && b[l] == p;
                assert(tb[l - 1] == p);
            }
            if tb.contains(p) {
                let k = choose|k: int| 0 <= k < tb.len() && tb[k] == p;
                assert(b[k + 1] == p);
                assert(scanned_before(b[0], b[k + 1]));
                assert(b.contains(p));
                let l = choose|l: int| 0 <= l < a.len() && a[l] == p;
                assert(ta[l - 1] == p);
            }
        }
        assert forall|x: int, y: int| 0 <= x < y < ta.len() implies scanned_before(
            #[trigger] ta[x],
            #[trigger] ta[y],
        ) by {
            assert(scanned_before(a[x + 1], a[y + 1]));
        }
        assert forall|x: int, y: int| 0 <= x < y < tb.len() implies scanned_before(
            #[trigger] tb[x],
            #[trigger] tb[y],
        ) by {
            assert(scanned_before(b[x + 1], b[y + 1]));
        }
        lemma_scan_sorted_lists_agree(ta, tb);
        assert(a =~= seq![a[0]] + ta);
        assert(b =~= seq![b[0]] + tb);
    }
}

/// In two splits of one image that are both in scan order, a region of the
/// first has its first pixel and all its pixels in common with one region of
/// the second.
proof fn lemma_region_has_a_twin(image: &Image, a: Seq<Region>, b: Seq<Region>, r: int) -> (twin:
    int)
    requires
        splits_terrain(image, a),
        in_scan_order(a),
        splits_terrain(image, b),
        in_scan_order(b),
        0 <= r < a.len(),
    ensures
        0 <= twin < b.len(),
        b[twin].pixels@[0] == a[r].pixels@[0],
        forall|p: Pixel| region_has(a, r, p) <==> region_has(b, twin, p),
{
    assert(well_formed_region(image, a[r]));
    let s = a[r].pixels@[0];
    assert(region_has(a, r, s));
    assert(covered(a, s));
    assert(image.solid_px(s));
    assert(covered(b, s));
    let twin = choose|twin: int| region_has(b, twin, s);
    assert(well_formed_region(image, b[twin]));
    let t = b[twin].pixels@[0];
    assert(region_has(b, twin, t));
    assert(together(b, t, s));
    lemma_split_is_unique(image, a, b, t, s);
    let r2 = choose|r2: int| #[trigger] region_has(a, r2, t) && region_has(a, r2, s);
    assert(r2 == r);
    let i = choose|i: int| 0 <= i < a[r].pixels@.len() && a[r].pixels@[i] == t;
    assert(!scanned_before(a[r].pixels@[i], a[r].pixels@[0]));
    let j = choose|j: int| 0 <= j < b[twin].pixels@.len() && b[twin].pixels@[j] == s;
    assert(!scanned_before(b[twin].pixels@[j], b[twin].pixels@[0]));
    assert(s == t);
    assert forall|p: Pixel| region_has(a, r, p) <==> region_has(b, twin, p) by {
        lemma_split_is_unique(image, a, b, s, p);
        if region_has(a, r, p) {
            assert(together(a, s, p));
            let r3 = choose|r3: int| #[trigger] region_has(b, r3, s) && region_has(b, r3, p);
            assert(r3 == twin);
        }
        if region_has(b, twin, p) {
            assert(together(b, s, p));
            let r3 = choose|r3: int| #[trigger] region_has(a, r3, s) && region_has(a, r3, p);
            assert(r3 == r);
        }
    }
    twin
}

/// An image has one list of regions only: two splits of its terrain that are
/// both in scan order have the same number of regions, and region by region
/// the same pixels in the same order and the same colour.
pub proof fn lemma_regions_are_unique(image: &Image, a: Seq<Region>, b: Seq<Region>)
    requires
        splits_terrain(image, a),
        in_scan_order(a),
        splits_terrain(image, b),
        in_scan_order(b),
    ensures
        a.len() == b.len(),
        forall|r: int|
            0 <= r < a.len() ==> (#[trigger] a[r]).pixels@ == b[r].pixels@ && a[r].color
                == b[r].color,
{
    let sa = first_pixels(a);
    let sb = first_pixels(b);
    assert forall|p: Pixel| sa.contains(p) <==> sb.contains(p) by {
        if sa.contains(p) {
            let r = choose|r: int| 0 <= r < sa.len() && sa[r] == p;
            let twin = lemma_region_has_a_twin(image, a, b, r);
            assert(sb[twin] == p);
        }
        if sb.contains(p) {
            let r = choose|r: int| 0 <= r < sb.len() && sb[r] == p;
            let twin = lemma_region_has_a_twin(image, b, a, r);
            assert(sa[twin] == p);
        }
    }
    assert(scan_sorted(sa)) by {
        assert forall|i: int, j: int| 0 <= i < j < sa.len() implies scanned_before(
            #[trigger] sa[i],
            #[trigger] sa[j],
        ) by {
            assert(scanned_before(a[i].pixels@[0], a[j].pixels@[0]));
        }
    }
    assert(scan_sorted(sb)) by {
        assert forall|i: int, j: int| 0 <= i < j < sb.len() implies scanned_before(
            #[trigger] sb[i],
            #[trigger] sb[j],
        ) by {
            assert(scanned_before(b[i].pixels@[0], b[j].pixels@[0]));
        }
    }
    lemma_scan_sorted_lists_agree(sa, sb);
    assert(sa.len() == sb.len());
    assert forall|r: int| 0 <= r < a.len() implies (#[trigger] a[r]).pixels@ == b[r].pixels@
        && a[r].color == b[r].color by {
        let twin = lemma_region_has_a_twin(image, a, b, r);
        assert(sa[r] == sb[r]);
        assert(well_formed_region(image, a[r]));
        assert(well_formed_region(image, b[r]));
        assert(region_has(b, r, b[r].pixels@[0]));
        assert(region_has(b, twin, b[twin].pixels@[0]));
        assert(twin == r);
        assert forall|x: Pixel| a[r].pixels@.contains(x) <==> b[r].pixels@.contains(x) by {
            assert(region_has(a, r, x) <==> region_has(b, r, x));
        }
        lemma_fill_order_is_unique(a[r].pixels@, b[r].pixels@);
    }
}

} // verus!
