//! From regions to closed outlines: the edge pixels of each region are swept
//! around its centroid, thinned, and closed into a loop.

use vstd::prelude::*;
use crate::contour::{find_outer_pixels, picked, sweep_order};
use crate::geometry::{ColliderRequest, ExtractError, Point, Polyline};
use crate::contour::{lemma_sweep_is_unique, outer, outer_at};
use crate::grid::{flipped, lemma_same_picture, same_picture, Image, Pixel, MAX_SIDE};
use crate::region::{
    covered, find_regions, in_scan_order, lemma_regions_are_unique, region_has, splits_terrain,
    well_formed_region, Region,
};
use crate::simplify::{simplified, simplify_polygon};

verus! {

/// The vertex that stands for a pixel in an outline: the pixel's corner with
/// the smallest coordinates, in half pixels.
pub open spec fn vertex_of(p: Pixel) -> Point {
    Point { x: (2 * p.x) as i64, y: (2 * p.y) as i64 }
}

/// The vertices of a sequence of pixels, one for one.
pub open spec fn vertices_of(pixels: Seq<Pixel>) -> Seq<Point> {
    Seq::new(pixels.len(), |i: int| vertex_of(pixels[i]))
}

/// The closed outline through `points`: the points are thinned with
/// `threshold`, and the first of those that stay is repeated at the end.
/// Where fewer than three points stay, there is no outline.
pub open spec fn closed_outline(points: Seq<Point>, threshold: u32) -> Result<
    Seq<Point>,
    ExtractError,
> {
    if points.len() == 0 {
        Err(ExtractError::InsufficientGeometry)
    } else {
        let kept = simplified(points, threshold);
        if kept.len() < 3 {
            Err(ExtractError::InsufficientGeometry)
        } else {
            Ok(kept.push(kept[0]))
        }
    }
}

/// Whether `r` is the closed polyline with the vertices `expected`, or the
/// error `expected`.
pub open spec fn is_outline(
    r: Result<Polyline, ExtractError>,
    expected: Result<Seq<Point>, ExtractError>,
) -> bool {
    match expected {
        Ok(vertices) => r.is_ok() && r.unwrap().vertices@ == vertices && r.unwrap().closed,
        Err(e) => r == Err::<Polyline, ExtractError>(e),
    }
}

/// Thins the outline through the given pixels and closes it. Fails with
/// `InsufficientGeometry` exactly when fewer than three points stay.
pub fn close_polygon(outline: &Vec<Pixel>, threshold: u32) -> (r: Result<Polyline, ExtractError>)
    requires
        forall|i: int|
            0 <= i < outline@.len() ==> (#[trigger] outline@[i]).x <= MAX_SIDE && outline@[i].y
                <= MAX_SIDE,
    ensures
        is_outline(r, closed_outline(vertices_of(outline@), threshold)),
{
    if outline.len() == 0 {
        return Err(ExtractError::InsufficientGeometry);
    }
    let mut points: Vec<Point> = Vec::new();
    let mut i: usize = 0;
    while i < outline.len()
        invariant
            forall|i: int|
                0 <= i < outline@.len() ==> (#[trigger] outline@[i]).x <= MAX_SIDE && outline@[i].y
                    <= MAX_SIDE,
            i <= outline@.len(),
            points@ == vertices_of(outline@).subrange(0, i as int),
        decreases outline.len() - i,
    {
        let p = outline[i];
        points.push(Point { x: 2 * (p.x as i64), y: 2 * (p.y as i64) });
        proof {
            assert(points@ =~= vertices_of(outline@).subrange(0, i + 1));
        }
        i += 1;
    }
    proof {
        assert(points@ =~= vertices_of(outline@));
    }
    let mut kept = simplify_polygon(&points, threshold);
    if kept.len() < 3 {
        return Err(ExtractError::InsufficientGeometry);
    }
    let first = kept[0];
    kept.push(first);
    Ok(Polyline { vertices: kept, closed: true })
}

/// Whether `r` is what the outline of the region `group` comes to: nothing
/// for a region without pixels, and otherwise the closed outline through the
/// region's edge pixels in the order of the sweep around its centroid.
pub open spec fn outline_matches(
    image: &Image,
    group: Seq<Pixel>,
    threshold: u32,
    r: Option<Result<Polyline, ExtractError>>,
) -> bool {
    if group.len() == 0 {
        r.is_none()
    } else {
        r.is_some() && exists|order: Seq<usize>|
            sweep_order(image, group, order, group.len() as int) && is_outline(
                r.unwrap(),
                closed_outline(vertices_of(#[trigger] picked(group, order)), threshold),
            )
    }
}

/// Builds the outline of one region. A region without pixels gives `None`: it
/// has no outline and is no error. Otherwise the edge pixels are swept around
/// the centroid, thinned with `threshold` and closed; where fewer than three
/// points stay the result is `InsufficientGeometry`.
pub fn region_outline(image: &Image, region: &Region, threshold: u32) -> (r: Option<
    Result<Polyline, ExtractError>,
>)
    requires
        image.wf(),
        forall|i: int|
            0 <= i < region.pixels@.len() ==> image.contains(
                (#[trigger] region.pixels@[i]).x as int,
                region.pixels@[i].y as int,
            ),
    ensures
        outline_matches(image, region.pixels@, threshold, r),
{
    if region.pixels.len() == 0 {
        return None;
    }
    let outer = find_outer_pixels(image, &region.pixels);
    proof {
        assert forall|i: int| 0 <= i < outer@.len() implies (#[trigger] outer@[i]).x <= MAX_SIDE
            && outer@[i].y <= MAX_SIDE by {
            let p = outer@[i];
            assert(region.pixels@.contains(p));
            let k = choose|k: int| 0 <= k < region.pixels@.len() && region.pixels@[k] == p;
            assert(image.contains(region.pixels@[k].x as int, region.pixels@[k].y as int));
        }
    }
    Some(close_polygon(&outer, threshold))
}

/// The polylines among the first `n` results, in their order.
pub open spec fn emitted(results: Seq<Option<Result<Polyline, ExtractError>>>, n: int) -> Seq<
    ColliderRequest,
>
    decreases n,
{
    if n <= 0 {
        Seq::empty()
    } else {
        match results[n - 1] {
            Some(Ok(line)) => emitted(results, n - 1).push(ColliderRequest::Polyline(line)),
            _ => emitted(results, n - 1),
        }
    }
}

/// Whether `out` holds the outlines of `regions`: there is one result for each
/// region, as `outline_matches` describes it, and `out` holds the polylines
/// among them in the order of the regions. A region whose outline is
/// degenerate is passed over.
pub open spec fn outlines_of(
    image: &Image,
    regions: Seq<Region>,
    threshold: u32,
    out: Seq<ColliderRequest>,
) -> bool {
    exists|results: Seq<Option<Result<Polyline, ExtractError>>>|
        {
            &&& results.len() == regions.len()
            &&& forall|r: int|
                0 <= r < regions.len() ==> outline_matches(
                    image,
                    regions[r].pixels@,
                    threshold,
                    #[trigger] results[r],
                )
            &&& out == #[trigger] emitted(results, results.len() as int)
        }
}

/// Builds one closed polyline for every region whose outline has at least
/// three points after thinning. The other regions give nothing.
pub fn outline_requests(image: &Image, regions: &Vec<Region>, threshold: u32) -> (out: Vec<
    ColliderRequest,
>)
    requires
        image.wf(),
        forall|r: int, i: int|
            0 <= r < regions@.len() && 0 <= i < regions@[r].pixels@.len() ==> image.contains(
                (#[trigger] regions@[r].pixels@[i]).x as int,
                regions@[r].pixels@[i].y as int,
            ),
    ensures
        outlines_of(image, regions@, threshold, out@),
{
    let mut out: Vec<ColliderRequest> = Vec::new();
    let ghost mut results: Seq<Option<Result<Polyline, ExtractError>>> = Seq::empty();
    let mut r: usize = 0;
    while r < regions.len()
        invariant
            image.wf(),
            forall|r: int, i: int|
                0 <= r < regions@.len() && 0 <= i < regions@[r].pixels@.len() ==> image.contains(
                    (#[trigger] regions@[r].pixels@[i]).x as int,
                    regions@[r].pixels@[i].y as int,
                ),
            r <= regions@.len(),
            results.len() == r,
            forall|k: int|
                0 <= k < r ==> outline_matches(
                    image,
                    regions@[k].pixels@,
                    threshold,
                    #[trigger] results[k],
                ),
            out@ == emitted(results, r as int),
        decreases regions.len() - r,
    {
        let region = &regions[r];
        let result = region_outline(image, region, threshold);
        proof {
            let before = results;
            results = results.push(result);
            lemma_emitted_prefix(before, results, r as int);
        }
        match result {
            Some(Ok(line)) => {
                out.push(ColliderRequest::Polyline(line));
            },
            _ => {},
        }
        r += 1;
    }
    out
}

/// What is emitted for the first `n` results depends on those results only.
proof fn lemma_emitted_prefix(
    a: Seq<Option<Result<Polyline, ExtractError>>>,
    b: Seq<Option<Result<Polyline, ExtractError>>>,
    n: int,
)
    requires
        0 <= n <= a.len(),
        n <= b.len(),
        forall|k: int| 0 <= k < n ==> a[k] == b[k],
    ensures
        emitted(a, n) == emitted(b, n),
    decreases n,
{
    if n > 0 {
        lemma_emitted_prefix(a, b, n - 1);
    }
}

/// Whether `out` holds the outlines of the level as they come from the
/// picture `upright` and its regions `regions`: `upright` is the level's
/// picture turned upside down, `regions` are its regions in scan order, and
/// `out` holds their outlines.
pub open spec fn outlines_from(
    level: &Image,
    threshold: u32,
    out: Seq<ColliderRequest>,
    upright: &Image,
    regions: Seq<Region>,
) -> bool {
    &&& upright.wf()
    &&& upright.width == level.width
    &&& upright@ == flipped(level@)
    &&& splits_terrain(upright, regions)
    &&& in_scan_order(regions)
    &&& outlines_of(upright, regions, threshold, out)
}

/// Whether `out` holds the outlines of the level: those of the regions of its
/// picture turned upside down.
pub open spec fn level_outlines(level: &Image, threshold: u32, out: Seq<ColliderRequest>) -> bool {
    exists|upright: Image, regions: Seq<Region>|
        outlines_from(level, threshold, out, &upright, regions)
}

/// The outlines of a level whose picture is stored top row first. The picture
/// is turned upside down, so that `y` grows upwards; its terrain is split into
/// regions; and every region gives one closed polyline, unless fewer than
/// three points of its outline stay after thinning with `threshold`.
pub fn load_level_geo_old(level: &Image, threshold: u32) -> (out: Vec<ColliderRequest>)
    requires
        level.wf(),
    ensures
        level_outlines(level, threshold, out@),
{
    let upright = level.flip_vertical();
    let regions = find_regions(&upright);
    proof {
        assert(upright@.len() == level@.len());
        assert(upright.spec_height() == level.spec_height());
        assert forall|r: int, i: int|
            0 <= r < regions@.len() && 0 <= i < regions@[r].pixels@.len() implies upright.contains(
            (#[trigger] regions@[r].pixels@[i]).x as int,
            regions@[r].pixels@[i].y as int,
        ) by {
            let p = regions@[r].pixels@[i];
            assert(region_has(regions@, r, p));
            assert(covered(regions@, p));
            assert(upright.solid_px(p));
        }
    }
    let out = outline_requests(&upright, &regions, threshold);
    proof {
        assert(outlines_from(level, threshold, out@, &upright, regions@));
    }
    out
}

/// Whether two requests ask for the same shape.
pub open spec fn same_request(a: ColliderRequest, b: ColliderRequest) -> bool {
    match (a, b) {
        (ColliderRequest::Rectangle(p), ColliderRequest::Rectangle(q)) => p == q,
        (ColliderRequest::Polyline(p), ColliderRequest::Polyline(q)) => p.vertices@ == q.vertices@
            && p.closed == q.closed,
        _ => false,
    }
}

/// Whether two lists of requests ask for the same shapes in the same order.
pub open spec fn same_requests(a: Seq<ColliderRequest>, b: Seq<ColliderRequest>) -> bool {
    a.len() == b.len() && forall|i: int| 0 <= i < a.len() ==> same_request(#[trigger] a[i], b[i])
}

/// Whether two outcomes for one region are the same: nothing twice, the same
/// error twice, or twice a polyline with the same vertices.
pub open spec fn same_outline(
    a: Option<Result<Polyline, ExtractError>>,
    b: Option<Result<Polyline, ExtractError>>,
) -> bool {
    match (a, b) {
        (None, None) => true,
        (Some(Err(e)), Some(Err(f))) => e == f,
        (Some(Ok(p)), Some(Ok(q))) => p.vertices@ == q.vertices@ && p.closed == q.closed,
        _ => false,
    }
}

proof fn lemma_outer_carries_over(a: &Image, b: &Image, x: int, y: int)
    requires
        same_picture(a, b),
        outer(a, x, y),
    ensures
        outer(b, x, y),
{
    lemma_same_picture(a, b);
    if !(x == 0 || y == 0 || x == a.width - 1 || y == a.spec_height() - 1) {
        let (nx, ny) = choose|nx: int, ny: int|
            -1 <= nx - x <= 1 && -1 <= ny - y <= 1 && !(nx == x && ny == y) && !#[trigger] a.solid_at(
                nx,
                ny,
            );
        assert(!b.solid_at(nx, ny));
    }
}

proof fn lemma_outline_carries_over(
    a: &Image,
    b: &Image,
    group: Seq<Pixel>,
    threshold: u32,
    r: Option<Result<Polyline, ExtractError>>,
)
    requires
        same_picture(a, b),
        outline_matches(a, group, threshold, r),
    ensures
        outline_matches(b, group, threshold, r),
{
    if group.len() > 0 {
        let order = choose|order: Seq<usize>|
            sweep_order(a, group, order, group.len() as int) && is_outline(
                r.unwrap(),
                closed_outline(vertices_of(#[trigger] picked(group, order)), threshold),
            );
        assert forall|k: int|
            #![trigger outer_at(a, group, k)]
            #![trigger outer_at(b, group, k)]
            0 <= k < group.len() implies outer_at(a, group, k) == outer_at(b, group, k) by {
            if outer_at(a, group, k) {
                lemma_outer_carries_over(a, b, group[k].x as int, group[k].y as int);
            }
            if outer_at(b, group, k) {
                lemma_outer_carries_over(b, a, group[k].x as int, group[k].y as int);
            }
        }
        assert(sweep_order(b, group, order, group.len() as int));
    }
}

/// A region has one outline only: two outcomes that both are what
/// `outline_matches` describes are the same.
pub proof fn lemma_outline_is_unique(
    image: &Image,
    group: Seq<Pixel>,
    threshold: u32,
    first: Option<Result<Polyline, ExtractError>>,
    second: Option<Result<Polyline, ExtractError>>,
)
    requires
        outline_matches(image, group, threshold, first),
        outline_matches(image, group, threshold, second),
    ensures
        same_outline(first, second),
{
    if group.len() > 0 {
        let oa = choose|order: Seq<usize>|
            sweep_order(image, group, order, group.len() as int) && is_outline(
                first.unwrap(),
                closed_outline(vertices_of(#[trigger] picked(group, order)), threshold),
            );
        let ob = choose|order: Seq<usize>|
            sweep_order(image, group, order, group.len() as int) && is_outline(
                second.unwrap(),
                closed_outline(vertices_of(#[trigger] picked(group, order)), threshold),
            );
        lemma_sweep_is_unique(image, group, oa, ob);
    }
}

proof fn lemma_emitted_agree(
    a: Seq<Option<Result<Polyline, ExtractError>>>,
    b: Seq<Option<Result<Polyline, ExtractError>>>,
    n: int,
)
    requires
        0 <= n <= a.len(),
        n <= b.len(),
        forall|k: int| 0 <= k < n ==> same_outline(#[trigger] a[k], b[k]),
    ensures
        same_requests(emitted(a, n), emitted(b, n)),
    decreases n,
{
    if n > 0 {
        lemma_emitted_agree(a, b, n - 1);
        assert(same_outline(a[n - 1], b[n - 1]));
    }
}

/// Extracting the outlines of a level again gives the same polylines:
/// whatever two results `load_level_geo_old` may give for one level and one
/// threshold, they hold the same shapes in the same order.
pub proof fn lemma_outlines_are_repeatable(
    level: &Image,
    threshold: u32,
    first: Seq<ColliderRequest>,
    second: Seq<ColliderRequest>,
)
    requires
        level_outlines(level, threshold, first),
        level_outlines(level, threshold, second),
    ensures
        same_requests(first, second),
{
    let (ua, ra) = choose|upright: Image, regions: Seq<Region>|
        outlines_from(level, threshold, first, &upright, regions);
    let (ub, rb) = choose|upright: Image, regions: Seq<Region>|
        outlines_from(level, threshold, second, &upright, regions);
    assert(same_picture(&ua, &ub));
    lemma_regions_carry_over(&ua, &ub, ra);
    lemma_regions_are_unique(&ub, ra, rb);
    let xa = choose|results: Seq<Option<Result<Polyline, ExtractError>>>|
        {
            &&& results.len() == ra.len()
            &&& forall|r: int|
                0 <= r < ra.len() ==> outline_matches(
                    &ua,
                    ra[r].pixels@,
                    threshold,
                    #[trigger] results[r],
                )
            &&& first == #[trigger] emitted(results, results.len() as int)
        };
    let xb = choose|results: Seq<Option<Result<Polyline, ExtractError>>>|
        {
            &&& results.len() == rb.len()
            &&& forall|r: int|
                0 <= r < rb.len() ==> outline_matches(
                    &ub,
                    rb[r].pixels@,
                    threshold,
                    #[trigger] results[r],
                )
            &&& second == #[trigger] emitted(results, results.len() as int)
        };
    assert forall|k: int| 0 <= k < xa.len() implies same_outline(#[trigger] xa[k], xb[k]) by {
        lemma_outline_carries_over(&ua, &ub, ra[k].pixels@, threshold, xa[k]);
        assert(ra[k].pixels@ == rb[k].pixels@);
        assert(outline_matches(&ub, rb[k].pixels@, threshold, xb[k]));
        lemma_outline_is_unique(&ub, rb[k].pixels@, threshold, xa[k], xb[k]);
    }
    lemma_emitted_agree(xa, xb, xa.len() as int);
}

proof fn lemma_regions_carry_over(a: &Image, b: &Image, regions: Seq<Region>)
    requires
        same_picture(a, b),
        splits_terrain(a, regions),
    ensures
        splits_terrain(b, regions),
{
    lemma_same_picture(a, b);
    assert forall|r: int| 0 <= r < regions.len() implies well_formed_region(
        b,
        #[trigger] regions[r],
    ) by {
        assert(well_formed_region(a, regions[r]));
        let p = regions[r].pixels@[0];
        assert(region_has(regions, r, p));
        assert(covered(regions, p));
        assert(a.solid_px(p));
    }
}

} // verus!
