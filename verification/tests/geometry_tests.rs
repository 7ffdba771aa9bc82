use image_to_svg::geometry::{rdp, Point};

fn pt(x: i64, y: i64) -> Point {
    Point { x, y }
}

#[test]
fn simplifier_keeps_endpoints_and_never_grows() {
    let points = vec![pt(0, 0), pt(1, 3), pt(2, -1), pt(3, 4), pt(4, 0)];
    let simplified = rdp(&points, 1);
    assert!(simplified.len() >= 2);
    assert!(simplified.len() <= points.len());
    assert_eq!(simplified[0], points[0]);
    assert_eq!(simplified[simplified.len() - 1], points[points.len() - 1]);
}

#[test]
fn large_tolerance_collapses_to_endpoints() {
    let points = vec![pt(0, 0), pt(1, 500), pt(2, -300), pt(3, 777), pt(4, 1)];
    let simplified = rdp(&points, 0x4000_0000);
    assert_eq!(simplified, vec![pt(0, 0), pt(4, 1)]);
}

#[test]
fn zero_tolerance_keeps_every_bend() {
    let points = vec![pt(0, 0), pt(1, 1), pt(2, 0)];
    let simplified = rdp(&points, 0);
    assert_eq!(simplified, points);
}

#[test]
fn zero_tolerance_still_collapses_collinear_points() {
    let points = vec![pt(0, 0), pt(1, 0), pt(2, 0), pt(3, 0)];
    let simplified = rdp(&points, 0);
    assert_eq!(simplified, vec![pt(0, 0), pt(3, 0)]);
}

#[test]
fn deviation_exactly_at_tolerance_is_dropped() {
    // the middle point lies at perpendicular distance exactly 1 from the
    // chord, which does not exceed the tolerance 1
    let points = vec![pt(0, 0), pt(2, 1), pt(4, 0)];
    let simplified = rdp(&points, 1);
    assert_eq!(simplified, vec![pt(0, 0), pt(4, 0)]);
}

#[test]
fn deviation_above_tolerance_is_kept() {
    let points = vec![pt(0, 0), pt(2, 3), pt(4, 0)];
    let simplified = rdp(&points, 1);
    assert_eq!(simplified, vec![pt(0, 0), pt(2, 3), pt(4, 0)]);
}

#[test]
fn simplifying_twice_changes_nothing() {
    let points = vec![
        pt(0, 0),
        pt(1, 4),
        pt(2, 0),
        pt(3, -5),
        pt(4, 0),
        pt(5, 1),
        pt(6, 0),
    ];
    let once = rdp(&points, 1);
    let twice = rdp(&once, 1);
    assert_eq!(twice, once);
}

#[test]
fn closed_loop_chord_is_handled() {
    // first and last point coincide: the degenerate chord falls back to
    // plain distance from the shared endpoint, and nothing goes wrong
    let points = vec![pt(0, 0), pt(5, 0), pt(5, 5), pt(0, 0)];
    let simplified = rdp(&points, 1);
    assert_eq!(simplified[0], pt(0, 0));
    assert_eq!(simplified[simplified.len() - 1], pt(0, 0));
    assert!(simplified.len() <= points.len());
    assert_eq!(simplified, points);
}

#[test]
fn closed_loop_with_large_tolerance_collapses() {
    let points = vec![pt(0, 0), pt(5, 0), pt(5, 5), pt(0, 0)];
    let simplified = rdp(&points, 0x4000_0000);
    assert_eq!(simplified, vec![pt(0, 0), pt(0, 0)]);
}

#[test]
fn two_points_stay_as_they_are() {
    let points = vec![pt(7, 8), pt(9, 10)];
    let simplified = rdp(&points, 1);
    assert_eq!(simplified, points);
}

#[test]
fn negative_coordinates_are_simplified_too() {
    let points = vec![pt(-4, 0), pt(-2, -1), pt(0, 0)];
    let simplified = rdp(&points, 1);
    assert_eq!(simplified, vec![pt(-4, 0), pt(0, 0)]);
}
