use image_to_svg::extraction::extract_regions;
use image_to_svg::geometry::Point;
use image_to_svg::grid::{Grid, Pixel};
use image_to_svg::image_to_svg_converter::ImageToSVGConverter;
use image_to_svg::svg::{PathCommand, SVGPath};

const BG: Pixel = Pixel { r: 0, g: 0, b: 0 };
const FG: Pixel = Pixel { r: 255, g: 255, b: 255 };

fn grid_of(width: u32, height: u32, foreground: &[(u32, u32)]) -> Grid {
    let mut pixels = Vec::new();
    for y in 0..height {
        for x in 0..width {
            if foreground.contains(&(x, y)) {
                pixels.push(FG);
            } else {
                pixels.push(BG);
            }
        }
    }
    Grid { width, height, pixels }
}

#[test]
fn all_background_grid_yields_no_regions() {
    let grid = grid_of(3, 3, &[]);
    let regions = extract_regions(&grid);
    assert_eq!(regions.len(), 0);
}

#[test]
fn all_background_grid_yields_no_paths() {
    let grid = grid_of(4, 2, &[]);
    let converter = ImageToSVGConverter::new();
    let doc = converter.convert(&grid);
    assert_eq!(doc.width, 4);
    assert_eq!(doc.height, 2);
    assert_eq!(doc.paths.len(), 0);
}

#[test]
fn empty_grid_yields_nothing() {
    let grid = grid_of(0, 0, &[]);
    let regions = extract_regions(&grid);
    assert_eq!(regions.len(), 0);
    let converter = ImageToSVGConverter::new();
    let doc = converter.convert(&grid);
    assert_eq!(doc.paths.len(), 0);
}

#[test]
fn no_pixel_appears_in_two_regions() {
    let grid = grid_of(
        3,
        3,
        &[(0, 0), (1, 0), (2, 0), (0, 2), (1, 2), (2, 2)],
    );
    let regions = extract_regions(&grid);
    let mut seen: Vec<Point> = Vec::new();
    for region in &regions {
        for p in region {
            assert!(!seen.contains(p));
            seen.push(*p);
        }
    }
}

#[test]
fn single_interior_pixel_produces_no_path() {
    // the lone foreground pixel sits away from column 0, where no traversal
    // can reach it: the output stays empty
    let grid = grid_of(3, 3, &[(1, 1)]);
    let converter = ImageToSVGConverter::new();
    let doc = converter.convert(&grid);
    assert_eq!(doc.paths.len(), 0);
}

#[test]
fn isolated_seed_pixel_is_extracted_then_discarded() {
    // a lone foreground pixel on column 0 is collected as a sequence of
    // length 1, which the pipeline then drops: no path comes out
    let grid = grid_of(3, 3, &[(0, 1)]);
    let regions = extract_regions(&grid);
    assert_eq!(regions.len(), 1);
    assert_eq!(regions[0], vec![Point { x: 0, y: 1 }]);
    let converter = ImageToSVGConverter::new();
    let doc = converter.convert(&grid);
    assert_eq!(doc.paths.len(), 0);
}

#[test]
fn full_row_collapses_to_one_segment() {
    let grid = grid_of(3, 1, &[(0, 0), (1, 0), (2, 0)]);
    let regions = extract_regions(&grid);
    assert_eq!(regions.len(), 1);
    assert_eq!(
        regions[0],
        vec![
            Point { x: 0, y: 0 },
            Point { x: 1, y: 0 },
            Point { x: 2, y: 0 },
        ]
    );
    let converter = ImageToSVGConverter::new();
    let doc = converter.convert(&grid);
    assert_eq!(doc.paths.len(), 1);
    assert_eq!(
        doc.paths[0].data,
        vec![PathCommand::MoveTo(0, 0), PathCommand::LineTo(2, 0)]
    );
}

#[test]
fn two_blobs_give_two_regions() {
    let grid = grid_of(
        3,
        3,
        &[(0, 0), (1, 0), (2, 0), (0, 2), (1, 2), (2, 2)],
    );
    let regions = extract_regions(&grid);
    assert_eq!(regions.len(), 2);
    assert_eq!(regions[0].len(), 3);
    assert_eq!(regions[1].len(), 3);
    for p in &regions[0] {
        assert_eq!(p.y, 0);
    }
    for p in &regions[1] {
        assert_eq!(p.y, 2);
    }
    let converter = ImageToSVGConverter::new();
    let doc = converter.convert(&grid);
    assert_eq!(doc.paths.len(), 2);
}

#[test]
fn traversal_crosses_rows_and_marks_them_processed() {
    // a vertical bar on column 0: one traversal covers all three rows, so
    // only one region comes out
    let grid = grid_of(2, 3, &[(0, 0), (0, 1), (0, 2)]);
    let regions = extract_regions(&grid);
    assert_eq!(regions.len(), 1);
    assert_eq!(regions[0].len(), 3);
}

#[test]
fn corner_of_an_l_shape_survives_simplification() {
    // a row along the top and a column down the right side: the corner at
    // (2,0) lies too far from the chord (0,0)-(2,2) to be dropped
    let grid = grid_of(3, 3, &[(0, 0), (1, 0), (2, 0), (2, 1), (2, 2)]);
    let regions = extract_regions(&grid);
    assert_eq!(regions.len(), 1);
    assert_eq!(
        regions[0],
        vec![
            Point { x: 0, y: 0 },
            Point { x: 1, y: 0 },
            Point { x: 2, y: 0 },
            Point { x: 2, y: 1 },
            Point { x: 2, y: 2 },
        ]
    );
    let converter = ImageToSVGConverter::new();
    let doc = converter.convert(&grid);
    assert_eq!(doc.paths.len(), 1);
    assert_eq!(
        doc.paths[0].data,
        vec![
            PathCommand::MoveTo(0, 0),
            PathCommand::LineTo(2, 0),
            PathCommand::LineTo(2, 2),
        ]
    );
}

#[test]
fn path_data_starts_with_move_and_continues_with_lines() {
    let converter = ImageToSVGConverter::new();
    let points = vec![
        Point { x: 1, y: 2 },
        Point { x: 3, y: 4 },
        Point { x: 5, y: 6 },
    ];
    let data = converter.path_points_to_svg_path_data(&points);
    assert_eq!(
        data,
        vec![
            PathCommand::MoveTo(1, 2),
            PathCommand::LineTo(3, 4),
            PathCommand::LineTo(5, 6),
        ]
    );
}

#[test]
fn path_data_of_nothing_is_empty() {
    let converter = ImageToSVGConverter::new();
    let points: Vec<Point> = Vec::new();
    let data = converter.path_points_to_svg_path_data(&points);
    assert_eq!(data.len(), 0);
}

#[test]
fn node_carries_data_and_style() {
    let path = SVGPath {
        data: vec![PathCommand::MoveTo(0, 0), PathCommand::LineTo(1, 1)],
        style: String::from("fill:none"),
    };
    let node = path.to_node();
    assert_eq!(node.d, path.data);
    assert_eq!(node.style, path.style);
}
