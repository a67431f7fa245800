use track_motion::geometry::Point;
use track_motion::motion::Rectangle;

fn pt(x: i64, y: i64) -> Point {
    Point { x, y }
}

#[test]
fn canonical_layout_and_velocity() {
    let r = Rectangle::canonical();
    assert_eq!(r.top_left, pt(50_000, 50_000));
    assert_eq!(r.bottom_left, pt(50_000, 150_000));
    assert_eq!(r.bottom_right, pt(150_000, 150_000));
    assert_eq!(r.top_right, pt(150_000, 50_000));
    assert_eq!(r.velocity_x, 2_000);
    assert_eq!(r.velocity_y, 1_000);
}

#[test]
fn one_tick_without_jitter_translates_by_the_velocity() {
    // Canonical layout, velocity (2.0, 1.0) units, jitter forced to zero:
    // every corner moves by exactly (2.0, 1.0) units.
    let mut r = Rectangle::canonical();
    r.apply_tick(0, 0);
    assert_eq!(r.top_left, pt(52_000, 51_000));
    assert_eq!(r.bottom_left, pt(52_000, 151_000));
    assert_eq!(r.bottom_right, pt(152_000, 151_000));
    assert_eq!(r.top_right, pt(152_000, 51_000));
    assert_eq!(r.velocity_x, 2_000);
    assert_eq!(r.velocity_y, 1_000);
}

#[test]
fn jitter_moves_top_corners_plus_and_bottom_corners_minus() {
    let mut r = Rectangle::canonical();
    let before = r;
    let (jx, jy) = (500, 300);
    r.apply_tick(jx, jy);
    let (vx, vy) = (before.velocity_x, before.velocity_y);
    assert_eq!(r.top_left.x - before.top_left.x, vx + jx);
    assert_eq!(r.top_left.y - before.top_left.y, vy + jy);
    assert_eq!(r.top_right.x - before.top_right.x, vx + jx);
    assert_eq!(r.top_right.y - before.top_right.y, vy + jy);
    assert_eq!(r.bottom_left.x - before.bottom_left.x, vx - jx);
    assert_eq!(r.bottom_left.y - before.bottom_left.y, vy - jy);
    assert_eq!(r.bottom_right.x - before.bottom_right.x, vx - jx);
    assert_eq!(r.bottom_right.y - before.bottom_right.y, vy - jy);
}

#[test]
fn negative_jitter_keeps_the_signs_assigned_to_each_pair() {
    let mut r = Rectangle::canonical();
    let before = r;
    let (jx, jy) = (-700, -200);
    r.apply_tick(jx, jy);
    assert_eq!(r.top_left.x - before.top_left.x, before.velocity_x + jx);
    assert_eq!(r.bottom_right.x - before.bottom_right.x, before.velocity_x - jx);
    assert_eq!(r.top_right.y - before.top_right.y, before.velocity_y + jy);
    assert_eq!(r.bottom_left.y - before.bottom_left.y, before.velocity_y - jy);
}

#[test]
fn tick_past_x_bound_resets_corners_and_keeps_velocity() {
    let mut r = Rectangle::canonical();
    r.top_left = pt(1_279_500, 50_000);
    r.apply_tick(0, 0);
    assert_eq!(r.top_left, pt(50_000, 50_000));
    assert_eq!(r.bottom_left, pt(50_000, 150_000));
    assert_eq!(r.bottom_right, pt(150_000, 150_000));
    assert_eq!(r.top_right, pt(150_000, 50_000));
    assert_eq!(r.velocity_x, 2_000);
    assert_eq!(r.velocity_y, 1_000);
}

#[test]
fn tick_past_y_bound_of_bottom_right_resets() {
    let mut r = Rectangle::canonical();
    r.bottom_right = pt(150_000, 1_079_500);
    r.apply_tick(0, 0);
    assert_eq!(r.bottom_right, pt(150_000, 150_000));
    assert_eq!(r.velocity_x, 2_000);
}

#[test]
fn tick_exactly_at_the_bound_does_not_reset() {
    // The check is a strict comparison: landing exactly on the bound stays.
    let mut r = Rectangle::canonical();
    r.top_left = pt(1_278_000, 50_000);
    r.apply_tick(0, 0);
    assert_eq!(r.top_left, pt(1_280_000, 51_000));
}

#[test]
fn accumulator_runs_whole_ticks_and_carries_the_remainder() {
    // 150 Hz tick of 6_666_667 ns: 20 ms of gathered time owes two whole
    // ticks and carries the rest.
    let (due, rem) = track_motion::motion::ticks_due(20_000_000, 6_666_667);
    assert_eq!(due, 2);
    assert_eq!(rem, 6_666_666);
    let (due, rem) = track_motion::motion::ticks_due(6_666_666, 6_666_667);
    assert_eq!(due, 0);
    assert_eq!(rem, 6_666_666);
    let (due, rem) = track_motion::motion::ticks_due(13_333_334, 6_666_667);
    assert_eq!(due, 2);
    assert_eq!(rem, 0);
}

#[test]
fn update_jitter_stays_within_the_velocity_magnitude() {
    for _ in 0..50 {
        let mut r = Rectangle::canonical();
        let before = r;
        r.update();
        let dx = r.top_left.x - before.top_left.x - before.velocity_x;
        let dy = r.top_left.y - before.top_left.y - before.velocity_y;
        assert!(dx.abs() <= before.velocity_x.abs());
        assert!(dy.abs() <= before.velocity_y.abs());
        // The opposite pair mirrors the same draw.
        assert_eq!(r.bottom_left.x - before.bottom_left.x - before.velocity_x, -dx);
        assert_eq!(r.bottom_right.y - before.bottom_right.y - before.velocity_y, -dy);
        assert_eq!(r.velocity_x, before.velocity_x);
        assert_eq!(r.velocity_y, before.velocity_y);
    }
}
