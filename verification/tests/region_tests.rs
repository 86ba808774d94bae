use bitmap_terrain::contour::{
    angle_not_after, calculate_angle, calculate_centroid, find_outer_pixels, is_outer_pixel,
    product_not_below, quarter_of, sweep_positions, Angle, Centroid,
};
use bitmap_terrain::geometry::{ColliderRequest, ExtractError, Point};
use bitmap_terrain::grid::{is_inner_pixel, is_non_black_pixel, Image, Pixel};
use bitmap_terrain::outline::{close_polygon, load_level_geo_old, outline_requests, region_outline};
use bitmap_terrain::pixel::Rgba;
use bitmap_terrain::region::{find_group, find_regions, Region, Visited};
use bitmap_terrain::simplify::{is_farther, simplify_polygon};

const K: Rgba = Rgba { r: 0, g: 0, b: 0, a: 255 };
const R: Rgba = Rgba { r: 255, g: 0, b: 0, a: 255 };
const G: Rgba = Rgba { r: 0, g: 255, b: 0, a: 255 };

fn grid(rows: Vec<Vec<Rgba>>) -> Image {
    let width = if rows.is_empty() { 0 } else { rows[0].len() };
    Image::from_rows(width, rows).unwrap()
}

fn px(x: usize, y: usize) -> Pixel {
    Pixel { x, y }
}

fn pt(x: i64, y: i64) -> Point {
    Point { x, y }
}

fn sorted(pixels: &[Pixel]) -> Vec<(usize, usize)> {
    let mut v: Vec<(usize, usize)> = pixels.iter().map(|p| (p.y, p.x)).collect();
    v.sort();
    v
}

#[test]
fn three_by_three_red_with_black_corner_is_one_region_of_seven() {
    let img = grid(vec![vec![R, K, K], vec![R, R, R], vec![R, R, R]]);
    let regions = find_regions(&img);
    assert_eq!(regions.len(), 1);
    assert_eq!(regions[0].pixels.len(), 7);
    assert_eq!(regions[0].color, R);
    assert_eq!(regions[0].pixels[0], px(0, 0));
}

#[test]
fn black_image_has_no_region_and_no_outline() {
    let img = grid(vec![vec![K; 4]; 4]);
    assert!(find_regions(&img).is_empty());
    assert!(load_level_geo_old(&img, 4).is_empty());
}

#[test]
fn single_pixel_is_an_outer_region_without_outline() {
    let mut rows = vec![vec![K; 5]; 5];
    rows[2][2] = R;
    let img = grid(rows);
    let regions = find_regions(&img);
    assert_eq!(regions.len(), 1);
    assert_eq!(regions[0].pixels, vec![px(2, 2)]);
    assert!(is_outer_pixel(&img, 2, 2));
    assert_eq!(find_outer_pixels(&img, &regions[0].pixels), vec![px(2, 2)]);
    match region_outline(&img, &regions[0], 4) {
        Some(Err(e)) => assert_eq!(e, ExtractError::InsufficientGeometry),
        _ => panic!("a single point is no outline"),
    }
    assert!(outline_requests(&img, &regions, 4).is_empty());
    assert!(load_level_geo_old(&img, 4).is_empty());
}

#[test]
fn simplify_drops_points_within_the_threshold() {
    let polygon = vec![pt(0, 0), pt(1, 0), pt(2, 0), pt(8, 0)];
    assert_eq!(simplify_polygon(&polygon, 4), vec![pt(0, 0), pt(8, 0)]);
}

#[test]
fn simplify_measures_from_the_last_kept_point() {
    let polygon = vec![pt(0, 0), pt(3, 0), pt(5, 0), pt(6, 0), pt(11, 0)];
    assert_eq!(simplify_polygon(&polygon, 4), vec![pt(0, 0), pt(5, 0), pt(11, 0)]);
}

#[test]
fn simplify_keeps_a_point_only_beyond_the_threshold() {
    let polygon = vec![pt(0, 0), pt(4, 0), pt(3, 4), pt(3, 0)];
    assert_eq!(simplify_polygon(&polygon, 4), vec![pt(0, 0), pt(3, 4)]);
    assert_eq!(simplify_polygon(&polygon, 0), vec![pt(0, 0), pt(4, 0), pt(3, 4), pt(3, 0)]);
    assert_eq!(simplify_polygon(&vec![pt(7, 7)], 4), vec![pt(7, 7)]);
}

#[test]
fn simplify_output_is_spaced() {
    let polygon =
        vec![pt(0, 0), pt(2, 1), pt(5, 5), pt(6, 5), pt(-3, 9), pt(-3, 10), pt(20, 20), pt(0, 1)];
    let out = simplify_polygon(&polygon, 5);
    assert_eq!(out[0], polygon[0]);
    let mut from = 0;
    for p in &out {
        let at = polygon[from..].iter().position(|q| q == p).unwrap();
        from += at + 1;
    }
    for pair in out.windows(2) {
        assert!(is_farther(pair[1], pair[0], 5));
    }
}

#[test]
fn is_farther_handles_distant_points() {
    assert!(is_farther(pt(i64::MAX, i64::MAX), pt(i64::MIN, i64::MIN), u32::MAX));
    assert!(!is_farther(pt(0, 0), pt(3, 4), 5));
    assert!(is_farther(pt(0, 0), pt(3, 4), 4));
    assert!(!is_farther(pt(1, 1), pt(1, 1), 0));
    assert!(is_farther(pt(1, 1), pt(1, 2), 0));
}

#[test]
fn regions_split_the_terrain() {
    let img = grid(vec![
        vec![R, R, K, K, G],
        vec![K, K, K, K, G],
        vec![K, K, R, K, K],
        vec![G, K, K, R, K],
    ]);
    let regions = find_regions(&img);
    assert_eq!(regions.len(), 4);
    assert_eq!(sorted(&regions[0].pixels), vec![(0, 0), (0, 1)]);
    assert_eq!(sorted(&regions[1].pixels), vec![(0, 4), (1, 4)]);
    assert_eq!(sorted(&regions[2].pixels), vec![(2, 2), (3, 3)]);
    assert_eq!(sorted(&regions[3].pixels), vec![(3, 0)]);
    let mut all: Vec<(usize, usize)> = Vec::new();
    for region in &regions {
        all.extend(sorted(&region.pixels));
    }
    all.sort();
    let mut solid = Vec::new();
    for y in 0..4 {
        for x in 0..5 {
            if is_non_black_pixel(&img, x, y) {
                solid.push((y, x));
            }
        }
    }
    assert_eq!(all, solid);
}

#[test]
fn neighbours_of_different_colours_share_a_region() {
    let img = grid(vec![vec![R, G, K], vec![K, K, G]]);
    let regions = find_regions(&img);
    assert_eq!(regions.len(), 1);
    assert_eq!(regions[0].color, R);
    assert_eq!(regions[0].pixels, vec![px(0, 0), px(1, 0), px(2, 1)]);
}

#[test]
fn find_group_marks_what_it_reaches() {
    let img = grid(vec![vec![R, K, R], vec![R, K, R]]);
    let mut visited = Visited::new(&img);
    let group = find_group(&img, 0, 0, &mut visited);
    assert_eq!(group, vec![px(0, 0), px(0, 1)]);
    assert!(visited.is_marked(0, 0));
    assert!(visited.is_marked(0, 1));
    assert!(!visited.is_marked(2, 0));
    assert!(!visited.is_marked(1, 0));
    assert!(!visited.is_marked(7, 7));
}

#[test]
fn find_group_from_a_useless_start_is_empty() {
    let img = grid(vec![vec![R, K, R], vec![R, K, R]]);
    let mut visited = Visited::new(&img);
    assert!(find_group(&img, 1, 0, &mut visited).is_empty());
    assert!(find_group(&img, 3, 0, &mut visited).is_empty());
    assert!(find_group(&img, 0, 2, &mut visited).is_empty());
    assert_eq!(find_group(&img, 0, 1, &mut visited).len(), 2);
    assert!(find_group(&img, 0, 0, &mut visited).is_empty());
    assert!(!visited.is_marked(2, 0));
}

#[test]
fn inner_pixel_needs_bounds_and_colour() {
    let img = grid(vec![vec![R, G], vec![K, R]]);
    assert!(is_inner_pixel(0, 0, &img, R));
    assert!(!is_inner_pixel(1, 0, &img, R));
    assert!(is_inner_pixel(1, 1, &img, R));
    assert!(!is_inner_pixel(-1, 0, &img, R));
    assert!(!is_inner_pixel(0, -1, &img, R));
    assert!(!is_inner_pixel(2, 0, &img, R));
    assert!(!is_inner_pixel(0, 2, &img, R));
    assert!(is_inner_pixel(0, 1, &img, K));
}

#[test]
fn outer_pixels_touch_background_or_the_image_edge() {
    let mut rows = vec![vec![R; 5]; 5];
    rows[0][4] = K;
    let img = grid(rows);
    assert!(is_outer_pixel(&img, 0, 0));
    assert!(is_outer_pixel(&img, 4, 2));
    assert!(is_outer_pixel(&img, 2, 4));
    assert!(!is_outer_pixel(&img, 2, 2));
    assert!(!is_outer_pixel(&img, 1, 1));
    assert!(is_outer_pixel(&img, 3, 1));
    assert!(!is_outer_pixel(&img, 3, 2));
}

#[test]
fn outer_pixel_ignores_other_solid_colours() {
    let mut rows = vec![vec![R; 3]; 3];
    rows[0][0] = G;
    rows[2][1] = G;
    let img = grid(rows);
    assert!(!is_outer_pixel(&img, 1, 1));
}

#[test]
fn centroid_is_the_plain_mean() {
    let group = vec![px(1, 1), px(2, 1), px(3, 1), px(3, 5)];
    assert_eq!(calculate_centroid(&group), Centroid { sum_x: 9, sum_y: 8, count: 4 });
    assert_eq!(calculate_centroid(&vec![]), Centroid { sum_x: 0, sum_y: 0, count: 0 });
}

#[test]
fn angle_is_the_scaled_offset_from_the_centroid() {
    let c = Centroid { sum_x: 9, sum_y: 8, count: 4 };
    assert_eq!(calculate_angle(&c, px(1, 1)), Angle { dx: -5, dy: -4 });
    assert_eq!(calculate_angle(&c, px(3, 5)), Angle { dx: 3, dy: 12 });
}

#[test]
fn angles_are_ordered_as_atan2_orders_them() {
    let c = Centroid { sum_x: 10, sum_y: 10, count: 1 };
    let around: [(i64, i64); 10] =
        [(-5, -1), (-1, -1), (0, -3), (2, -1), (4, 0), (3, 1), (0, 2), (-1, 1), (-7, 1), (-2, 0)];
    let pixels: Vec<Pixel> =
        around.iter().map(|d| px((10 + d.0) as usize, (10 + d.1) as usize)).collect();
    for i in 0..pixels.len() {
        assert_eq!(
            calculate_angle(&c, pixels[i]),
            Angle { dx: around[i].0 as i128, dy: around[i].1 as i128 }
        );
        for j in 0..pixels.len() {
            assert_eq!(angle_not_after(&c, pixels[i], pixels[j]), i <= j, "{} {}", i, j);
        }
    }
    assert_eq!(quarter_of(Angle { dx: 0, dy: 0 }), 1);
    assert!(angle_not_after(&c, px(10, 10), px(19, 10)));
    assert!(angle_not_after(&c, px(19, 10), px(10, 10)));
    assert!(angle_not_after(&c, px(11, 11), px(15, 15)));
    assert!(angle_not_after(&c, px(15, 15), px(11, 11)));
}

#[test]
fn angles_are_compared_exactly_where_products_are_large() {
    let far = 0xffff_ffffusize;
    let c = Centroid { sum_x: (far as u128) << 63, sum_y: (far as u128) << 63, count: u64::MAX };
    assert!(angle_not_after(&c, px(far, far - 1), px(far, far)));
    assert!(!angle_not_after(&c, px(far, far), px(far, far - 1)));
    assert!(angle_not_after(&c, px(0, 1), px(1, 0)));
    assert!(!angle_not_after(&c, px(1, 0), px(0, 1)));
    assert!(product_not_below(-3, 4, 6, -2));
    assert!(!product_not_below(-3, 5, 6, -2));
    assert!(product_not_below(0, -7, -1, 0));
    assert!(product_not_below(2, 3, -2, 3));
    assert!(!product_not_below(-2, 3, 2, 3));
    assert!(product_not_below(-2, -3, 2, 3));
}

#[test]
fn outer_pixels_are_swept_by_angle() {
    let mut rows = vec![vec![K; 5]; 5];
    for y in 1..4 {
        for x in 1..4 {
            rows[y][x] = R;
        }
    }
    let img = grid(rows);
    let regions = find_regions(&img);
    assert_eq!(regions.len(), 1);
    assert_eq!(regions[0].pixels.len(), 9);
    let outer = find_outer_pixels(&img, &regions[0].pixels);
    assert_eq!(
        outer,
        vec![px(1, 1), px(2, 1), px(3, 1), px(3, 2), px(3, 3), px(2, 3), px(1, 3), px(1, 2)]
    );
    let c = calculate_centroid(&regions[0].pixels);
    for i in 0..outer.len() {
        for j in i..outer.len() {
            assert!(angle_not_after(&c, outer[i], outer[j]));
        }
    }
}

#[test]
fn pixels_of_one_angle_keep_their_order() {
    let img = grid(vec![vec![K; 7], vec![K, R, R, R, R, R, K], vec![K; 7]]);
    let group = vec![px(5, 1), px(4, 1), px(3, 1), px(2, 1), px(1, 1)];
    assert_eq!(sweep_positions(&img, &group), vec![0, 1, 2, 3, 4]);
    let group = vec![px(1, 1), px(5, 1), px(2, 1), px(4, 1), px(3, 1)];
    assert_eq!(sweep_positions(&img, &group), vec![1, 3, 4, 0, 2]);
    assert_eq!(
        find_outer_pixels(&img, &group),
        vec![px(5, 1), px(4, 1), px(3, 1), px(1, 1), px(2, 1)]
    );
}

#[test]
fn block_gives_one_closed_polyline() {
    let mut rows = vec![vec![K; 5]; 5];
    for y in 1..4 {
        for x in 1..4 {
            rows[y][x] = R;
        }
    }
    let img = grid(rows);
    let requests = load_level_geo_old(&img, 4);
    assert_eq!(requests.len(), 1);
    match &requests[0] {
        ColliderRequest::Polyline(line) => {
            assert!(line.closed);
            assert_eq!(line.vertices, vec![pt(2, 2), pt(6, 4), pt(2, 6), pt(2, 2)]);
        }
        ColliderRequest::Rectangle(_) => panic!("outlines are polylines"),
    }
    let dense = load_level_geo_old(&img, 1);
    match &dense[0] {
        ColliderRequest::Polyline(line) => {
            assert_eq!(
                line.vertices,
                vec![
                    pt(2, 2),
                    pt(4, 2),
                    pt(6, 2),
                    pt(6, 4),
                    pt(6, 6),
                    pt(4, 6),
                    pt(2, 6),
                    pt(2, 4),
                    pt(2, 2)
                ]
            );
        }
        ColliderRequest::Rectangle(_) => panic!("outlines are polylines"),
    }
}

#[test]
fn outlines_are_taken_from_the_picture_turned_upside_down() {
    let img = grid(vec![
        vec![K, K, K, K, K],
        vec![K, K, K, K, K],
        vec![K, K, K, K, K],
        vec![K, R, R, R, K],
        vec![K, R, R, R, K],
        vec![K, R, R, R, K],
        vec![K, K, K, K, K],
    ]);
    let requests = load_level_geo_old(&img, 1);
    assert_eq!(requests.len(), 1);
    match &requests[0] {
        ColliderRequest::Polyline(line) => {
            assert_eq!(line.vertices[0], pt(2, 2));
            assert_eq!(line.vertices.len(), 9);
        }
        ColliderRequest::Rectangle(_) => panic!("outlines are polylines"),
    }
}

#[test]
fn close_polygon_needs_three_points() {
    assert_eq!(close_polygon(&vec![], 0).err(), Some(ExtractError::InsufficientGeometry));
    assert_eq!(
        close_polygon(&vec![px(0, 0), px(5, 5)], 0).err(),
        Some(ExtractError::InsufficientGeometry)
    );
    assert_eq!(
        close_polygon(&vec![px(0, 0), px(1, 0), px(0, 1)], 4).err(),
        Some(ExtractError::InsufficientGeometry)
    );
    let line = close_polygon(&vec![px(0, 0), px(1, 0), px(0, 1)], 1).unwrap();
    assert!(line.closed);
    assert_eq!(line.vertices, vec![pt(0, 0), pt(2, 0), pt(0, 2), pt(0, 0)]);
}

#[test]
fn region_without_pixels_is_passed_over() {
    let img = grid(vec![vec![R, R], vec![R, R]]);
    let empty = Region { pixels: vec![], color: R };
    assert!(region_outline(&img, &empty, 4).is_none());
    assert!(outline_requests(&img, &vec![empty], 4).is_empty());
}

#[test]
fn degenerate_regions_are_skipped_and_the_others_kept() {
    let mut rows = vec![vec![K; 9]; 5];
    rows[2][0] = G;
    for y in 1..4 {
        for x in 5..8 {
            rows[y][x] = R;
        }
    }
    let img = grid(rows);
    assert_eq!(find_regions(&img).len(), 2);
    let requests = load_level_geo_old(&img, 1);
    assert_eq!(requests.len(), 1);
    match &requests[0] {
        ColliderRequest::Polyline(line) => assert_eq!(line.vertices[0], pt(10, 2)),
        ColliderRequest::Rectangle(_) => panic!("outlines are polylines"),
    }
}

#[test]
fn extracting_outlines_twice_gives_the_same_polylines() {
    let mut rows = vec![vec![K; 6]; 6];
    for y in 1..5 {
        for x in 1..5 {
            rows[y][x] = R;
        }
    }
    let img = grid(rows);
    let a = load_level_geo_old(&img, 2);
    let b = load_level_geo_old(&img, 2);
    assert_eq!(a.len(), b.len());
    for (p, q) in a.iter().zip(b.iter()) {
        match (p, q) {
            (ColliderRequest::Polyline(p), ColliderRequest::Polyline(q)) => {
                assert_eq!(p.vertices, q.vertices);
                assert_eq!(p.closed, q.closed);
            }
            _ => panic!("outlines are polylines"),
        }
    }
}

#[test]
fn fill_reaches_pixels_breadth_first() {
    let img = grid(vec![vec![R; 3]; 3]);
    let mut visited = Visited::new(&img);
    let group = find_group(&img, 1, 1, &mut visited);
    assert_eq!(
        group,
        vec![
            px(1, 1),
            px(0, 0),
            px(0, 1),
            px(0, 2),
            px(1, 0),
            px(1, 2),
            px(2, 0),
            px(2, 1),
            px(2, 2)
        ]
    );
    let line = grid(vec![vec![R, R, R, R, K, R]]);
    let mut visited = Visited::new(&line);
    assert_eq!(find_group(&line, 1, 0, &mut visited), vec![px(1, 0), px(0, 0), px(2, 0), px(3, 0)]);
    assert!(!visited.is_marked(5, 0));
}

#[test]
fn regions_come_in_scan_order() {
    let img = grid(vec![
        vec![K, K, R, K, K],
        vec![G, K, R, K, G],
        vec![G, K, K, K, G],
    ]);
    let regions = find_regions(&img);
    let seeds: Vec<Pixel> = regions.iter().map(|r| r.pixels[0]).collect();
    assert_eq!(seeds, vec![px(2, 0), px(0, 1), px(4, 1)]);
    assert_eq!(regions[1].color, G);
    assert_eq!(regions[0].pixels, vec![px(2, 0), px(2, 1)]);
}

#[test]
fn library_root_offers_the_loaders() {
    let img = grid(vec![vec![R, K], vec![K, K]]);
    assert_eq!(bitmap_terrain::load_level_geo(&img).len(), 1);
    assert_eq!(bitmap_terrain::load_level_geo_new(&img).rows, vec![vec![K, K], vec![R, K]]);
    assert!(bitmap_terrain::load_level_geo_old(&img, 4).is_empty());
}

#[test]
fn pixels_are_keys_by_value() {
    let mut seen = std::collections::HashSet::new();
    assert!(seen.insert(px(3, 4)));
    assert!(!seen.insert(px(3, 4)));
    assert!(seen.insert(px(4, 3)));
    assert_eq!(px(3, 4), Pixel { x: 3, y: 4 });
}

#[test]
fn simplify_of_no_points_gives_no_points() {
    assert_eq!(simplify_polygon(&vec![], 4), vec![]);
    assert_eq!(simplify_polygon(&vec![], 0), vec![]);
}
