use track_motion::geometry::{calculate_center_and_angle, Point};

fn pt(x: i64, y: i64) -> Point {
    Point { x, y }
}

/// The angle in degrees that a frame's direction vector denotes.
fn angle_degrees(dir_x: i64, dir_y: i64) -> f64 {
    (dir_y as f64).atan2(dir_x as f64).to_degrees()
}

#[test]
fn center_is_midpoint_of_top_left_and_bottom_right() {
    // Corners of the canonical layout, in subunits (thousandths).
    let f = calculate_center_and_angle(
        pt(50_000, 50_000),
        pt(50_000, 150_000),
        pt(150_000, 150_000),
        pt(150_000, 50_000),
    );
    // Center in half-subunits: (100.0, 100.0) units.
    assert_eq!(f.center_x2, 200_000);
    assert_eq!(f.center_y2, 200_000);
    let cx = f.center_x2 as f64 / 2000.0;
    let cy = f.center_y2 as f64 / 2000.0;
    assert!((cx - 100.0).abs() < 1e-9);
    assert!((cy - 100.0).abs() < 1e-9);
}

#[test]
fn bottom_left_does_not_enter_the_center() {
    let a = calculate_center_and_angle(pt(0, 0), pt(7, 9), pt(10, 10), pt(10, 0));
    let b = calculate_center_and_angle(pt(0, 0), pt(-500, 123), pt(10, 10), pt(10, 0));
    assert_eq!(a.center_x2, b.center_x2);
    assert_eq!(a.center_y2, b.center_y2);
}

#[test]
fn angle_of_level_top_edge_is_zero() {
    let f = calculate_center_and_angle(
        pt(50_000, 50_000),
        pt(50_000, 150_000),
        pt(150_000, 150_000),
        pt(150_000, 50_000),
    );
    assert_eq!(f.dir_x, 100_000);
    assert_eq!(f.dir_y, 0);
    let deg = angle_degrees(f.dir_x, f.dir_y);
    assert!(deg.abs() < 1e-12);
}

#[test]
fn angle_of_diagonal_top_edge_is_forty_five_degrees() {
    let f = calculate_center_and_angle(pt(0, 0), pt(0, 1000), pt(1000, 1000), pt(1000, 1000));
    let deg = angle_degrees(f.dir_x, f.dir_y);
    assert!((deg - 45.0).abs() < 1e-9);
}

#[test]
fn angle_stays_in_half_open_degree_range() {
    // Directions all around the circle, including the negative x axis,
    // which is the +180 (not -180) boundary case of atan2.
    let dirs = [
        (1_000, 0),
        (1_000, 1_000),
        (0, 1_000),
        (-1_000, 1_000),
        (-1_000, 0),
        (-1_000, -1_000),
        (0, -1_000),
        (1_000, -1_000),
        (3, -4),
    ];
    for &(dx, dy) in dirs.iter() {
        let f = calculate_center_and_angle(pt(0, 0), pt(0, 10), pt(10, 10), pt(dx, dy));
        let deg = angle_degrees(f.dir_x, f.dir_y);
        assert!(deg > -180.0 && deg <= 180.0, "angle {} out of range", deg);
    }
}
