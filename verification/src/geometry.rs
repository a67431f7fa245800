use vstd::prelude::*;

verus! {

/// Fixed-point subunits per coordinate unit: a coordinate is stored as a
/// signed count of thousandths of a unit.
pub const SCALE: i64 = 1000;

/// Largest coordinate magnitude, in subunits, that the library tracks.
/// It is `10^15 - 1`, the largest value whose wire form needs at most
/// twelve integer digits and three fractional digits.
pub const COORD_LIMIT: i64 = 999_999_999_999_999;

/// Largest velocity (and therefore jitter) magnitude, in subunits per tick.
pub const VEL_LIMIT: i64 = 1_000_000_000;

/// One tracked corner position, in subunits.
#[derive(Clone, Copy, PartialEq, Eq, Structural, Debug)]
pub struct Point {
    pub x: i64,
    pub y: i64,
}

impl Point {
    /// Both coordinates lie within the tracked coordinate range.
    pub open spec fn in_range(self) -> bool {
        -COORD_LIMIT <= self.x <= COORD_LIMIT && -COORD_LIMIT <= self.y <= COORD_LIMIT
    }
}

/// The consumer-side reconstruction of a quadrilateral: its center and the
/// direction of its top edge.
///
/// The center is exact at twice the coordinate resolution: `center_x2` and
/// `center_y2` are in half-subunits, so the center in units is
/// `(center_x2 / 2000, center_y2 / 2000)`. The rotation angle of the top
/// edge is the angle of the vector `(dir_x, dir_y)` against the horizontal
/// axis; turning that vector into degrees (`atan2`) is floating-point work
/// left to unverified callers.
#[derive(Clone, Copy, PartialEq, Eq, Structural, Debug)]
pub struct Frame {
    pub center_x2: i64,
    pub center_y2: i64,
    pub dir_x: i64,
    pub dir_y: i64,
}

/// The reconstruction as a value: center in half-subunits and the top
/// edge's direction vector. The bottom-left corner does not enter it.
pub open spec fn spec_frame(
    top_left: Point,
    bottom_right: Point,
    top_right: Point,
) -> Frame {
    Frame {
        center_x2: (top_left.x + bottom_right.x) as i64,
        center_y2: (top_left.y + bottom_right.y) as i64,
        dir_x: (top_right.x - top_left.x) as i64,
        dir_y: (top_right.y - top_left.y) as i64,
    }
}

/// Reconstructs center and heading from the four corners, in the fixed
/// order top-left, bottom-left, bottom-right, top-right.
///
/// The center is the midpoint of the top-left and bottom-right corners;
/// the bottom-left corner is accepted but does not enter the center, which
/// mirrors the wire layout this consumer is defined against. The heading is
/// the top edge's direction vector from top-left to top-right.
pub fn calculate_center_and_angle(
    top_left: Point,
    _bottom_left: Point,
    bottom_right: Point,
    top_right: Point,
) -> (r: Frame)
    requires
        top_left.in_range(),
        bottom_right.in_range(),
        top_right.in_range(),
    ensures
        r == spec_frame(top_left, bottom_right, top_right),
        r.center_x2 == top_left.x + bottom_right.x,
        r.center_y2 == top_left.y + bottom_right.y,
        r.dir_x == top_right.x - top_left.x,
        r.dir_y == top_right.y - top_left.y,
{
    Frame {
        center_x2: top_left.x + bottom_right.x,
        center_y2: top_left.y + bottom_right.y,
        dir_x: top_right.x - top_left.x,
        dir_y: top_right.y - top_left.y,
    }
}

} // verus!
