use bitmap_terrain::geometry::Point;
use bitmap_terrain::grid::Image;
use bitmap_terrain::perimeter::{
    is_terrain, terrain_on_left, turn_left, turn_right, walk_pixel_group_perimeter, Heading,
};
use bitmap_terrain::pixel::Rgba;

const O: Rgba = Rgba { r: 0, g: 0, b: 0, a: 255 };
const X: Rgba = Rgba { r: 200, g: 100, b: 0, a: 255 };
const Y: Rgba = Rgba { r: 0, g: 100, b: 200, a: 255 };

fn picture(rows: Vec<Vec<Rgba>>) -> Image {
    let width = if rows.is_empty() { 0 } else { rows[0].len() };
    Image::from_rows(width, rows).unwrap()
}

fn p(x: i64, y: i64) -> Point {
    Point { x, y }
}

#[test]
fn walk_around_a_single_pixel() {
    let img = picture(vec![vec![O, O, O], vec![O, X, O], vec![O, O, O]]);
    assert_eq!(
        walk_pixel_group_perimeter(&img, 1, 1),
        vec![p(2, 2), p(4, 2), p(4, 4), p(2, 4), p(2, 2)]
    );
}

#[test]
fn walk_around_a_block_in_the_corner() {
    let img = picture(vec![vec![X, X, O], vec![X, X, O], vec![O, O, O]]);
    assert_eq!(
        walk_pixel_group_perimeter(&img, 0, 0),
        vec![p(0, 0), p(4, 0), p(4, 4), p(0, 4), p(0, 0)]
    );
}

#[test]
fn walk_around_a_block_away_from_the_edge() {
    let img = picture(vec![vec![O, O, O], vec![O, X, Y], vec![O, Y, X]]);
    assert_eq!(
        walk_pixel_group_perimeter(&img, 1, 1),
        vec![p(2, 2), p(6, 2), p(6, 6), p(2, 6), p(2, 2)]
    );
}

#[test]
fn walk_passes_through_a_shared_corner() {
    let img = picture(vec![vec![X, O], vec![O, X]]);
    assert_eq!(
        walk_pixel_group_perimeter(&img, 0, 0),
        vec![p(0, 0), p(2, 0), p(2, 2), p(4, 2), p(4, 4), p(2, 4), p(2, 2), p(0, 2), p(0, 0)]
    );
}

#[test]
fn walk_around_an_l_shape_is_closed_and_axis_aligned() {
    let img = picture(vec![
        vec![O, O, O, O, O],
        vec![O, X, X, X, O],
        vec![O, X, O, O, O],
        vec![O, X, O, O, O],
        vec![O, O, O, O, O],
    ]);
    let out = walk_pixel_group_perimeter(&img, 1, 1);
    assert_eq!(
        out,
        vec![p(2, 2), p(8, 2), p(8, 4), p(4, 4), p(4, 8), p(2, 8), p(2, 2)]
    );
    assert_eq!(out.first(), out.last());
    for pair in out.windows(2) {
        assert!((pair[0].x == pair[1].x) != (pair[0].y == pair[1].y));
    }
}

#[test]
fn walk_from_a_pixel_without_free_side_is_empty() {
    let img = picture(vec![vec![X, X, X], vec![X, X, X], vec![X, X, X]]);
    assert!(walk_pixel_group_perimeter(&img, 1, 1).is_empty());
    assert_eq!(
        walk_pixel_group_perimeter(&img, 1, 0),
        vec![p(2, 0), p(6, 0), p(6, 6), p(0, 6), p(0, 0), p(2, 0)]
    );
}

#[test]
fn walk_from_background_or_outside_is_empty() {
    let img = picture(vec![vec![O, X], vec![O, O]]);
    assert!(walk_pixel_group_perimeter(&img, 0, 0).is_empty());
    assert!(walk_pixel_group_perimeter(&img, 2, 0).is_empty());
    assert!(walk_pixel_group_perimeter(&img, 0, 2).is_empty());
    assert_eq!(
        walk_pixel_group_perimeter(&img, 1, 0),
        vec![p(2, 0), p(4, 0), p(4, 2), p(2, 2), p(2, 0)]
    );
}

#[test]
fn walk_around_a_hole_keeps_terrain_on_the_left() {
    let img = picture(vec![vec![X, X, X], vec![X, O, X], vec![X, X, X]]);
    assert_eq!(
        walk_pixel_group_perimeter(&img, 1, 2),
        vec![p(2, 4), p(4, 4), p(4, 2), p(2, 2), p(2, 4)]
    );
    assert_eq!(
        walk_pixel_group_perimeter(&img, 1, 0),
        vec![p(2, 0), p(6, 0), p(6, 6), p(0, 6), p(0, 0), p(2, 0)]
    );
}

#[test]
fn headings_turn_in_quarters() {
    assert_eq!(turn_right(Heading::Up), Heading::Right);
    assert_eq!(turn_right(Heading::Right), Heading::Down);
    assert_eq!(turn_right(Heading::Down), Heading::Left);
    assert_eq!(turn_right(Heading::Left), Heading::Up);
    for h in [Heading::Up, Heading::Right, Heading::Down, Heading::Left] {
        assert_eq!(turn_left(turn_right(h)), h);
    }
}

#[test]
fn terrain_is_looked_up_with_bounds() {
    let img = picture(vec![vec![X, O], vec![O, Y]]);
    assert!(is_terrain(&img, 0, 0));
    assert!(is_terrain(&img, 1, 1));
    assert!(!is_terrain(&img, 1, 0));
    assert!(!is_terrain(&img, -1, 0));
    assert!(!is_terrain(&img, 0, -1));
    assert!(!is_terrain(&img, 2, 1));
    assert!(!is_terrain(&img, 1, 2));
    assert!(terrain_on_left(&img, 0, 0, Heading::Right));
    assert!(!terrain_on_left(&img, 0, 0, Heading::Up));
    assert!(terrain_on_left(&img, 1, 1, Heading::Left));
    assert!(terrain_on_left(&img, 1, 1, Heading::Right));
    assert!(!terrain_on_left(&img, 1, 1, Heading::Down));
}

#[test]
fn walk_begins_with_the_first_free_side() {
    let img = picture(vec![vec![X, X, X], vec![X, X, O], vec![X, O, O]]);
    assert_eq!(walk_pixel_group_perimeter(&img, 1, 1)[0], p(4, 2));
    assert_eq!(walk_pixel_group_perimeter(&img, 0, 2)[0], p(2, 4));
    let img = picture(vec![vec![O, X, O], vec![O, X, O], vec![O, X, O]]);
    assert_eq!(walk_pixel_group_perimeter(&img, 1, 1)[0], p(4, 2));
    let img = picture(vec![vec![O, X, X], vec![O, X, X], vec![O, X, X]]);
    assert_eq!(walk_pixel_group_perimeter(&img, 1, 1)[0], p(2, 4));
}
