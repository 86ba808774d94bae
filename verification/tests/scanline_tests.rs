use bitmap_terrain::geometry::{ColliderRequest, Point, Rectangle};
use bitmap_terrain::grid::Image;
use bitmap_terrain::pixel::{is_solid, same_group, Rgba};
use bitmap_terrain::scanline::{
    load_level_geo, load_level_geo_new, rectangle_for, scan_rectangles, scan_row, scan_runs,
    RunSegment,
};

const BLACK: Rgba = Rgba { r: 0, g: 0, b: 0, a: 255 };
const RED: Rgba = Rgba { r: 255, g: 0, b: 0, a: 255 };
const BLUE: Rgba = Rgba { r: 0, g: 0, b: 255, a: 255 };

fn image(rows: Vec<Vec<Rgba>>) -> Image {
    let width = if rows.is_empty() { 0 } else { rows[0].len() };
    Image::from_rows(width, rows).unwrap()
}

fn rectangles(requests: &[ColliderRequest]) -> Vec<Rectangle> {
    let mut out = Vec::new();
    for request in requests {
        match request {
            ColliderRequest::Rectangle(r) => out.push(*r),
            ColliderRequest::Polyline(_) => panic!("the scan gives rectangles only"),
        }
    }
    out
}

#[test]
fn background_is_exactly_opaque_black() {
    assert!(!is_solid(BLACK));
    assert!(is_solid(RED));
    assert!(is_solid(Rgba { r: 0, g: 0, b: 0, a: 254 }));
    assert!(is_solid(Rgba { r: 1, g: 0, b: 0, a: 255 }));
    assert!(is_solid(Rgba { r: 0, g: 0, b: 0, a: 0 }));
}

#[test]
fn same_group_needs_all_channels_equal() {
    assert!(same_group(RED, RED));
    assert!(!same_group(RED, BLUE));
    assert!(!same_group(RED, Rgba { r: 255, g: 0, b: 0, a: 254 }));
    assert!(!same_group(RED, Rgba { r: 254, g: 0, b: 0, a: 255 }));
}

#[test]
fn from_rows_rejects_ragged_rows() {
    assert!(Image::from_rows(2, vec![vec![RED, RED], vec![RED]]).is_none());
    assert!(Image::from_rows(3, vec![vec![RED, RED]]).is_none());
    assert!(Image::from_rows(2, vec![vec![RED, RED], vec![BLACK, RED]]).is_some());
    assert!(Image::from_rows(0, vec![]).is_some());
}

#[test]
fn flip_vertical_reverses_rows() {
    let img = image(vec![vec![RED, BLACK], vec![BLUE, BLUE], vec![BLACK, RED]]);
    let flipped = img.flip_vertical();
    assert_eq!(flipped.width, 2);
    assert_eq!(flipped.rows, vec![vec![BLACK, RED], vec![BLUE, BLUE], vec![RED, BLACK]]);
    assert_eq!(flipped.flip_vertical().rows, img.rows);
    assert_eq!(load_level_geo_new(&img).rows, flipped.rows);
}

#[test]
fn three_by_three_red_with_black_corner_gives_three_rectangles() {
    let img = image(vec![vec![RED, BLACK, BLACK], vec![RED, RED, RED], vec![RED, RED, RED]]);
    let rects = rectangles(&scan_rectangles(&img));
    assert_eq!(rects.len(), 3);
    for r in &rects {
        assert_eq!(r.color, RED);
    }
    assert_eq!(
        rects[0],
        Rectangle { center: Point { x: 1, y: 1 }, half_extents: Point { x: 1, y: 1 }, color: RED }
    );
    assert_eq!(
        rects[1],
        Rectangle { center: Point { x: 2, y: 3 }, half_extents: Point { x: 2, y: 1 }, color: RED }
    );
    assert_eq!(
        rects[2],
        Rectangle { center: Point { x: 2, y: 5 }, half_extents: Point { x: 2, y: 1 }, color: RED }
    );
}

#[test]
fn three_by_three_stored_top_first_gives_the_same_rectangles() {
    let stored = image(vec![vec![RED, RED, RED], vec![RED, RED, RED], vec![RED, BLACK, BLACK]]);
    let upright = image(vec![vec![RED, BLACK, BLACK], vec![RED, RED, RED], vec![RED, RED, RED]]);
    assert_eq!(rectangles(&load_level_geo(&stored)), rectangles(&scan_rectangles(&upright)));
    assert_eq!(rectangles(&load_level_geo(&stored)).len(), 3);
}

#[test]
fn black_image_gives_no_rectangle() {
    let img = image(vec![vec![BLACK; 4]; 4]);
    assert!(scan_runs(&img).is_empty());
    assert!(scan_rectangles(&img).is_empty());
    assert!(load_level_geo(&img).is_empty());
}

#[test]
fn single_pixel_gives_one_unit_rectangle() {
    let mut rows = vec![vec![BLACK; 5]; 5];
    rows[2][2] = RED;
    let img = image(rows);
    let runs = scan_runs(&img);
    assert_eq!(runs, vec![RunSegment { row: 2, x_start: 2, x_end: 3, color: RED }]);
    let rects = rectangles(&load_level_geo(&img));
    assert_eq!(
        rects,
        vec![Rectangle {
            center: Point { x: 5, y: 5 },
            half_extents: Point { x: 1, y: 1 },
            color: RED
        }]
    );
}

#[test]
fn runs_end_where_the_colour_changes() {
    let img = image(vec![vec![RED, RED, BLUE, BLACK, BLUE, BLUE, BLACK]]);
    assert_eq!(
        scan_row(&img, 0),
        vec![
            RunSegment { row: 0, x_start: 0, x_end: 2, color: RED },
            RunSegment { row: 0, x_start: 2, x_end: 3, color: BLUE },
            RunSegment { row: 0, x_start: 4, x_end: 6, color: BLUE },
        ]
    );
}

#[test]
fn run_that_reaches_the_row_end_is_drawn_one_pixel_short() {
    let img = image(vec![vec![BLACK, RED, RED, RED]]);
    let runs = scan_row(&img, 0);
    assert_eq!(runs, vec![RunSegment { row: 0, x_start: 1, x_end: 4, color: RED }]);
    let rects = rectangles(&scan_rectangles(&img));
    assert_eq!(
        rects,
        vec![Rectangle {
            center: Point { x: 4, y: 1 },
            half_extents: Point { x: 2, y: 1 },
            color: RED
        }]
    );
}

#[test]
fn run_of_the_last_column_alone_is_drawn_with_no_width() {
    let img = image(vec![vec![BLACK, BLACK, RED]]);
    let rects = rectangles(&scan_rectangles(&img));
    assert_eq!(
        rects,
        vec![Rectangle {
            center: Point { x: 4, y: 1 },
            half_extents: Point { x: 0, y: 1 },
            color: RED
        }]
    );
}

#[test]
fn rectangle_for_interior_run_has_full_width() {
    let run = RunSegment { row: 3, x_start: 2, x_end: 5, color: BLUE };
    assert_eq!(
        rectangle_for(run, 10),
        Rectangle {
            center: Point { x: 7, y: 7 },
            half_extents: Point { x: 3, y: 1 },
            color: BLUE
        }
    );
}

#[test]
fn rows_are_not_merged() {
    let img = image(vec![vec![RED, RED, BLACK], vec![RED, RED, BLACK]]);
    let runs = scan_runs(&img);
    assert_eq!(
        runs,
        vec![
            RunSegment { row: 0, x_start: 0, x_end: 2, color: RED },
            RunSegment { row: 1, x_start: 0, x_end: 2, color: RED },
        ]
    );
}

#[test]
fn scanning_twice_gives_the_same_rectangles() {
    let img = image(vec![vec![RED, BLUE, BLACK, RED], vec![BLACK, BLUE, BLUE, BLACK]]);
    assert_eq!(rectangles(&load_level_geo(&img)), rectangles(&load_level_geo(&img)));
}

#[test]
fn empty_image_gives_nothing() {
    let img = image(vec![]);
    assert!(load_level_geo(&img).is_empty());
    let no_columns = Image::from_rows(0, vec![vec![], vec![]]).unwrap();
    assert!(load_level_geo(&no_columns).is_empty());
}
