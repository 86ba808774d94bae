//! The pixel grid that every extraction strategy reads.

use vstd::prelude::*;
use crate::pixel::{is_solid, same_group, solid, Rgba};

verus! {

/// The position of a pixel: column `x`, row `y`.
#[derive(Clone, Copy, Debug, PartialEq, Eq, Hash, Structural)]
pub struct Pixel {
    pub x: usize,
    pub y: usize,
}

/// Whether two pixels touch at a side or at a corner.
pub open spec fn adjacent(a: Pixel, b: Pixel) -> bool {
    a != b && -1 <= a.x - b.x <= 1 && -1 <= a.y - b.y <= 1
}

/// The rows in the opposite order: the last row first.
pub open spec fn flipped(rows: Seq<Seq<Rgba>>) -> Seq<Seq<Rgba>> {
    Seq::new(rows.len(), |y: int| rows[rows.len() - 1 - y])
}

/// Turning a picture upside down twice gives the picture back.
pub proof fn lemma_flipped_twice(rows: Seq<Seq<Rgba>>)
    ensures
        flipped(flipped(rows)) == rows,
{
    assert(flipped(flipped(rows)) =~= rows);
}

/// The longest side that a grid may have.
pub const MAX_SIDE: usize = 0xffff_ffff;

/// A grid of colours, stored row by row. Every row has `width` pixels.
#[derive(Debug)]
pub struct Image {
    pub width: usize,
    pub rows: Vec<Vec<Rgba>>,
}

impl Image {
    /// The rows of the grid as sequences of colours.
    pub open spec fn view(&self) -> Seq<Seq<Rgba>> {
        Seq::new(self.rows@.len(), |y: int| self.rows@[y]@)
    }

    /// Every row is exactly `width` pixels long, and neither side of the grid
    /// is longer than `MAX_SIDE`.
    pub open spec fn wf(&self) -> bool {
        &&& self.width <= MAX_SIDE
        &&& self.rows@.len() <= MAX_SIDE
        &&& forall|y: int|
            0 <= y < self.rows@.len() ==> (#[trigger] self.rows@[y])@.len() == self.width
    }

    /// Number of rows, in specifications.
    pub open spec fn spec_height(&self) -> nat {
        self.rows@.len()
    }

    /// Whether `(x, y)` names a pixel of the grid.
    pub open spec fn contains(&self, x: int, y: int) -> bool {
        0 <= x < self.width && 0 <= y < self.rows@.len()
    }

    /// The colour at `(x, y)`.
    pub open spec fn color_at(&self, x: int, y: int) -> Rgba
        recommends
            self.contains(x, y),
    {
        self.rows@[y]@[x]
    }

    /// Whether `(x, y)` names a pixel of the grid and that pixel is terrain.
    pub open spec fn solid_at(&self, x: int, y: int) -> bool {
        self.contains(x, y) && solid(self.color_at(x, y))
    }

    /// Whether `p` names a pixel of the grid and that pixel is terrain.
    pub open spec fn solid_px(&self, p: Pixel) -> bool {
        self.solid_at(p.x as int, p.y as int)
    }

    /// Builds an image from its rows. Fails when some row is not `width` long
    /// or a side is longer than `MAX_SIDE`.
    pub fn from_rows(width: usize, rows: Vec<Vec<Rgba>>) -> (r: Option<Image>)
        ensures
            r.is_some() <==> (Image { width, rows }).wf(),
            r.is_some() ==> r.unwrap().width == width && r.unwrap().rows == rows,
    {
        if width > MAX_SIDE || rows.len() > MAX_SIDE {
            return None;
        }
        let mut y: usize = 0;
        while y < rows.len()
            invariant
                y <= rows.len(),
                forall|k: int| 0 <= k < y ==> (#[trigger] rows@[k])@.len() == width,
            decreases rows.len() - y,
        {
            if rows[y].len() != width {
                return None;
            }
            y += 1;
        }
        Some(Image { width, rows })
    }

    /// Number of columns.
    pub fn width(&self) -> (w: usize)
        ensures
            w == self.width,
    {
        self.width
    }

    /// Number of rows.
    pub fn height(&self) -> (h: usize)
        ensures
            h == self.spec_height(),
    {
        self.rows.len()
    }

    /// The colour of the pixel at column `x` of row `y`.
    pub fn get_pixel(&self, x: usize, y: usize) -> (c: Rgba)
        requires
            self.wf(),
            self.contains(x as int, y as int),
        ensures
            c == self.color_at(x as int, y as int),
    {
        self.rows[y][x]
    }

    /// The same picture upside down: row `y` of the result is row
    /// `height - 1 - y` of `self`.
    pub fn flip_vertical(&self) -> (r: Image)
        requires
            self.wf(),
        ensures
            r.wf(),
            r.width == self.width,
            r@ == flipped(self@),
    {
        let h = self.rows.len();
        let mut rows: Vec<Vec<Rgba>> = Vec::new();
        let mut y: usize = 0;
        while y < h
            invariant
                self.wf(),
                h == self.rows@.len(),
                y <= h,
                rows@.len() == y,
                forall|k: int| 0 <= k < y ==> (#[trigger] rows@[k])@ == self.rows@[h - 1 - k]@,
            decreases h - y,
        {
            let src = &self.rows[h - 1 - y];
            let mut row: Vec<Rgba> = Vec::new();
            let mut x: usize = 0;
            while x < src.len()
                invariant
                    x <= src@.len(),
                    row@ == src@.subrange(0, x as int),
                decreases src.len() - x,
            {
                row.push(src[x]);
                proof {
                    assert(row@ == src@.subrange(0, x + 1));
                }
                x += 1;
            }
            proof {
                assert(row@ == src@);
            }
            rows.push(row);
            y += 1;
        }
        let r = Image { width: self.width, rows };
        proof {
            assert(r@ =~= flipped(self@));
        }
        r
    }
}

/// Whether two images hold the same picture: the same pixels in rows of the
/// same length.
pub open spec fn same_picture(a: &Image, b: &Image) -> bool {
    a.width == b.width && a@ == b@
}

/// Images that hold the same picture have the same height, and the same
/// colour at every position.
pub proof fn lemma_same_picture(a: &Image, b: &Image)
    requires
        same_picture(a, b),
    ensures
        a.spec_height() == b.spec_height(),
        forall|x: int, y: int|
            #![trigger a.contains(x, y)]
            #![trigger b.contains(x, y)]
            a.contains(x, y) == b.contains(x, y),
        forall|x: int, y: int|
            #![trigger a.color_at(x, y)]
            #![trigger b.color_at(x, y)]
            a.contains(x, y) ==> a.color_at(x, y) == b.color_at(x, y),
        forall|x: int, y: int|
            #![trigger a.solid_at(x, y)]
            #![trigger b.solid_at(x, y)]
            a.solid_at(x, y) == b.solid_at(x, y),
        forall|p: Pixel|
            #![trigger a.solid_px(p)]
            #![trigger b.solid_px(p)]
            a.solid_px(p) == b.solid_px(p),
{
    assert(a@.len() == b@.len());
    assert forall|x: int, y: int| a.contains(x, y) implies a.color_at(x, y) == b.color_at(
        x,
        y,
    ) by {
        assert(a@[y] == b@[y]);
    }
}

/// Whether the pixel at `(x, y)` is terrain. The position must lie in the grid.
pub fn is_non_black_pixel(image: &Image, x: usize, y: usize) -> (r: bool)
    requires
        image.wf(),
        image.contains(x as int, y as int),
    ensures
        r == image.solid_at(x as int, y as int),
{
    is_solid(image.get_pixel(x, y))
}

/// Whether `(x, y)` belongs to the group of colour `inner_color`: it lies in the
/// grid and has exactly that colour. Positions left of or above the grid are
/// given as negative numbers and are never inner.
pub fn is_inner_pixel(x: i64, y: i64, image: &Image, inner_color: Rgba) -> (r: bool)
    requires
        image.wf(),
    ensures
        r == (image.contains(x as int, y as int) && image.color_at(x as int, y as int)
            == inner_color),
{
    if x < 0 || y < 0 {
        return false;
    }
    if x as u64 >= image.width() as u64 || y as u64 >= image.height() as u64 {
        return false;
    }
    same_group(image.get_pixel(x as usize, y as usize), inner_color)
}

} // verus!
