use vstd::prelude::*;
use crate::geometry::{Point, COORD_LIMIT, VEL_LIMIT};
use rand::Rng;

verus! {

/// Canonical starting layout and bounds, in subunits (thousandths of a unit).
pub const CANON_LEFT_X: i64 = 50_000;
pub const CANON_TOP_Y: i64 = 50_000;
pub const CANON_RIGHT_X: i64 = 150_000;
pub const CANON_BOTTOM_Y: i64 = 150_000;

/// Bounding-box limits: a tick whose displaced top-left or bottom-right
/// corner exceeds them resets the corners to the canonical layout.
pub const BOUND_X: i64 = 1_280_000;
pub const BOUND_Y: i64 = 1_080_000;

/// Initial velocity of the canonical quadrilateral, in subunits per tick.
pub const INIT_VEL_X: i64 = 2_000;
pub const INIT_VEL_Y: i64 = 1_000;

/// The tracked quadrilateral: four labelled corners, conceptually joined in
/// the closed loop top-left, bottom-left, bottom-right, top-right, plus its
/// per-tick velocity.
#[derive(Clone, Copy, PartialEq, Eq, Structural, Debug)]
pub struct Rectangle {
    pub top_left: Point,
    pub bottom_left: Point,
    pub bottom_right: Point,
    pub top_right: Point,
    pub velocity_x: i64,
    pub velocity_y: i64,
}

/// A displaced coordinate saturates at the tracked coordinate range.
pub open spec fn clamp_coord(v: int) -> int {
    if v > COORD_LIMIT as int {
        COORD_LIMIT as int
    } else if v < -(COORD_LIMIT as int) {
        -(COORD_LIMIT as int)
    } else {
        v
    }
}

/// The displacement of one tick: the top corners move by the velocity plus
/// the jitter, the bottom corners by the velocity minus the jitter, and the
/// velocity itself is unchanged.
pub open spec fn displaced(pre: Rectangle, jx: int, jy: int) -> Rectangle {
    Rectangle {
        top_left: Point {
            x: clamp_coord(pre.top_left.x + pre.velocity_x + jx) as i64,
            y: clamp_coord(pre.top_left.y + pre.velocity_y + jy) as i64,
        },
        bottom_left: Point {
            x: clamp_coord(pre.bottom_left.x + pre.velocity_x - jx) as i64,
            y: clamp_coord(pre.bottom_left.y + pre.velocity_y - jy) as i64,
        },
        bottom_right: Point {
            x: clamp_coord(pre.bottom_right.x + pre.velocity_x - jx) as i64,
            y: clamp_coord(pre.bottom_right.y + pre.velocity_y - jy) as i64,
        },
        top_right: Point {
            x: clamp_coord(pre.top_right.x + pre.velocity_x + jx) as i64,
            y: clamp_coord(pre.top_right.y + pre.velocity_y + jy) as i64,
        },
        velocity_x: pre.velocity_x,
        velocity_y: pre.velocity_y,
    }
}

/// The out-of-bounds test made after displacement: only the top-left and
/// bottom-right corners are checked, each against the bounding box.
pub open spec fn out_of_bounds(r: Rectangle) -> bool {
    r.top_left.x > BOUND_X || r.top_left.y > BOUND_Y || r.bottom_right.x > BOUND_X
        || r.bottom_right.y > BOUND_Y
}

/// The same quadrilateral with its corners restored to the canonical
/// layout; the velocity is kept.
pub open spec fn with_canonical_corners(r: Rectangle) -> Rectangle {
    Rectangle {
        top_left: Point { x: CANON_LEFT_X, y: CANON_TOP_Y },
        bottom_left: Point { x: CANON_LEFT_X, y: CANON_BOTTOM_Y },
        bottom_right: Point { x: CANON_RIGHT_X, y: CANON_BOTTOM_Y },
        top_right: Point { x: CANON_RIGHT_X, y: CANON_TOP_Y },
        velocity_x: r.velocity_x,
        velocity_y: r.velocity_y,
    }
}

/// One whole tick: displace all four corners, then reset the corners to the
/// canonical layout if the displaced top-left or bottom-right corner left
/// the bounding box.
pub open spec fn tick_result(pre: Rectangle, jx: int, jy: int) -> Rectangle {
    let moved = displaced(pre, jx, jy);
    if out_of_bounds(moved) {
        with_canonical_corners(moved)
    } else {
        moved
    }
}

impl Rectangle {
    /// All corners lie in the tracked coordinate range and the velocity is
    /// within the velocity limit.
    pub open spec fn wf(self) -> bool {
        self.top_left.in_range() && self.bottom_left.in_range() && self.bottom_right.in_range()
            && self.top_right.in_range() && -VEL_LIMIT <= self.velocity_x <= VEL_LIMIT
            && -VEL_LIMIT <= self.velocity_y <= VEL_LIMIT
    }

    /// Decides well-formedness at run time, for callers outside the
    /// verified library that must test it before a tick or a serialization.
    pub fn is_wf(&self) -> (r: bool)
        ensures
            r == self.wf(),
    {
        -COORD_LIMIT <= self.top_left.x && self.top_left.x <= COORD_LIMIT && -COORD_LIMIT
            <= self.top_left.y && self.top_left.y <= COORD_LIMIT && -COORD_LIMIT
            <= self.bottom_left.x && self.bottom_left.x <= COORD_LIMIT && -COORD_LIMIT
            <= self.bottom_left.y && self.bottom_left.y <= COORD_LIMIT && -COORD_LIMIT
            <= self.bottom_right.x && self.bottom_right.x <= COORD_LIMIT && -COORD_LIMIT
            <= self.bottom_right.y && self.bottom_right.y <= COORD_LIMIT && -COORD_LIMIT
            <= self.top_right.x && self.top_right.x <= COORD_LIMIT && -COORD_LIMIT
            <= self.top_right.y && self.top_right.y <= COORD_LIMIT && -VEL_LIMIT
            <= self.velocity_x && self.velocity_x <= VEL_LIMIT && -VEL_LIMIT <= self.velocity_y
            && self.velocity_y <= VEL_LIMIT
    }

    /// The canonical starting quadrilateral with the initial velocity.
    pub fn canonical() -> (r: Rectangle)
        ensures
            r == spec_canonical(),
            r.wf(),
    {
        Rectangle {
            top_left: Point { x: CANON_LEFT_X, y: CANON_TOP_Y },
            bottom_left: Point { x: CANON_LEFT_X, y: CANON_BOTTOM_Y },
            bottom_right: Point { x: CANON_RIGHT_X, y: CANON_BOTTOM_Y },
            top_right: Point { x: CANON_RIGHT_X, y: CANON_TOP_Y },
            velocity_x: INIT_VEL_X,
            velocity_y: INIT_VEL_Y,
        }
    }

    /// Restores the canonical corner layout; the velocity is untouched.
    pub fn reset_position(&mut self)
        ensures
            *final(self) == with_canonical_corners(*old(self)),
    {
        self.top_left = Point { x: CANON_LEFT_X, y: CANON_TOP_Y };
        self.bottom_left = Point { x: CANON_LEFT_X, y: CANON_BOTTOM_Y };
        self.bottom_right = Point { x: CANON_RIGHT_X, y: CANON_BOTTOM_Y };
        self.top_right = Point { x: CANON_RIGHT_X, y: CANON_TOP_Y };
    }

    /// Advances the quadrilateral by one tick with the given jitter pair.
    ///
    /// The top corners are displaced by `(velocity + jitter)`, the bottom
    /// corners by `(velocity - jitter)`; afterwards, if the top-left or
    /// bottom-right corner lies past the bounding box, the corners are
    /// reset to the canonical layout. The velocity is never changed.
    pub fn apply_tick(&mut self, jitter_x: i64, jitter_y: i64)
        requires
            old(self).wf(),
            -VEL_LIMIT <= jitter_x <= VEL_LIMIT,
            -VEL_LIMIT <= jitter_y <= VEL_LIMIT,
        ensures
            *final(self) == tick_result(*old(self), jitter_x as int, jitter_y as int),
            final(self).wf(),
    {
        self.top_left.x = sat_displace(self.top_left.x, self.velocity_x, jitter_x);
        self.top_left.y = sat_displace(self.top_left.y, self.velocity_y, jitter_y);
        self.bottom_left.x = sat_displace(self.bottom_left.x, self.velocity_x, -jitter_x);
        self.bottom_left.y = sat_displace(self.bottom_left.y, self.velocity_y, -jitter_y);
        self.bottom_right.x = sat_displace(self.bottom_right.x, self.velocity_x, -jitter_x);
        self.bottom_right.y = sat_displace(self.bottom_right.y, self.velocity_y, -jitter_y);
        self.top_right.x = sat_displace(self.top_right.x, self.velocity_x, jitter_x);
        self.top_right.y = sat_displace(self.top_right.y, self.velocity_y, jitter_y);
        if self.top_left.x > BOUND_X || self.top_left.y > BOUND_Y || self.bottom_right.x > BOUND_X
            || self.bottom_right.y > BOUND_Y {
            self.reset_position();
        }
    }

    /// Advances the quadrilateral by one tick with a freshly drawn random
    /// jitter pair, each coordinate's jitter uniform over plus or minus the
    /// magnitude of that coordinate's velocity.
    pub fn update(&mut self)
        requires
            old(self).wf(),
        ensures
            exists|jx: int, jy: int|
                {
                    &&& -abs_spec(old(self).velocity_x as int) <= jx <= abs_spec(
                        old(self).velocity_x as int,
                    )
                    &&& -abs_spec(old(self).velocity_y as int) <= jy <= abs_spec(
                        old(self).velocity_y as int,
                    )
                    &&& *final(self) == tick_result(*old(self), jx, jy)
                },
            final(self).wf(),
    {
        let vax = abs_vel(self.velocity_x);
        let vay = abs_vel(self.velocity_y);
        let jx = gen_range_i64(-vax, vax);
        let jy = gen_range_i64(-vay, vay);
        let ghost pre = *self;
        self.apply_tick(jx, jy);
        proof {
            assert(-abs_spec(pre.velocity_x as int) <= jx as int <= abs_spec(
                pre.velocity_x as int,
            ));
            assert(*self == tick_result(pre, jx as int, jy as int));
        }
    }
}

/// The mathematical absolute value.
pub open spec fn abs_spec(v: int) -> int {
    if v < 0 {
        -v
    } else {
        v
    }
}

/// The canonical quadrilateral's value.
pub open spec fn spec_canonical() -> Rectangle {
    Rectangle {
        top_left: Point { x: CANON_LEFT_X, y: CANON_TOP_Y },
        bottom_left: Point { x: CANON_LEFT_X, y: CANON_BOTTOM_Y },
        bottom_right: Point { x: CANON_RIGHT_X, y: CANON_BOTTOM_Y },
        top_right: Point { x: CANON_RIGHT_X, y: CANON_TOP_Y },
        velocity_x: INIT_VEL_X,
        velocity_y: INIT_VEL_Y,
    }
}

/// The fixed-timestep accumulator's decision: for the time gathered so
/// far and a fixed tick interval, how many whole ticks are due now and
/// what remainder carries into the next round. Running exactly that many
/// ticks keeps the simulation rate independent of the caller's own pace.
pub fn ticks_due(accumulated: u64, interval: u64) -> (r: (u64, u64))
    requires
        interval > 0,
    ensures
        r.0 == accumulated / interval,
        r.1 == accumulated % interval,
        accumulated == interval * r.0 + r.1,
        r.1 < interval,
{
    proof {
        vstd::arithmetic::div_mod::lemma_fundamental_div_mod(
            accumulated as int,
            interval as int,
        );
    }
    (accumulated / interval, accumulated % interval)
}

/// Jitter symmetry: within the tracked range, one tick always displaces
/// the two top corners by exactly `velocity + jitter` and the two bottom
/// corners by exactly `velocity - jitter`, never a mix.
pub proof fn lemma_jitter_symmetry(pre: Rectangle, jx: int, jy: int)
    requires
        !out_of_bounds(displaced(pre, jx, jy)),
        -COORD_LIMIT < pre.top_left.x + pre.velocity_x + jx < COORD_LIMIT,
        -COORD_LIMIT < pre.top_left.y + pre.velocity_y + jy < COORD_LIMIT,
        -COORD_LIMIT < pre.bottom_left.x + pre.velocity_x - jx < COORD_LIMIT,
        -COORD_LIMIT < pre.bottom_left.y + pre.velocity_y - jy < COORD_LIMIT,
        -COORD_LIMIT < pre.bottom_right.x + pre.velocity_x - jx < COORD_LIMIT,
        -COORD_LIMIT < pre.bottom_right.y + pre.velocity_y - jy < COORD_LIMIT,
        -COORD_LIMIT < pre.top_right.x + pre.velocity_x + jx < COORD_LIMIT,
        -COORD_LIMIT < pre.top_right.y + pre.velocity_y + jy < COORD_LIMIT,
    ensures
        tick_result(pre, jx, jy).top_left.x - pre.top_left.x == pre.velocity_x + jx,
        tick_result(pre, jx, jy).top_left.y - pre.top_left.y == pre.velocity_y + jy,
        tick_result(pre, jx, jy).top_right.x - pre.top_right.x == pre.velocity_x + jx,
        tick_result(pre, jx, jy).top_right.y - pre.top_right.y == pre.velocity_y + jy,
        tick_result(pre, jx, jy).bottom_left.x - pre.bottom_left.x == pre.velocity_x - jx,
        tick_result(pre, jx, jy).bottom_left.y - pre.bottom_left.y == pre.velocity_y - jy,
        tick_result(pre, jx, jy).bottom_right.x - pre.bottom_right.x == pre.velocity_x - jx,
        tick_result(pre, jx, jy).bottom_right.y - pre.bottom_right.y == pre.velocity_y - jy,
{
}

/// Boundary reset: when a tick's displacement pushes the top-left or
/// bottom-right corner past the bounding box, the tick's observable result
/// is exactly the canonical corner layout with the velocity unchanged.
pub proof fn lemma_boundary_reset(pre: Rectangle, jx: int, jy: int)
    requires
        pre.wf(),
        out_of_bounds(displaced(pre, jx, jy)),
    ensures
        tick_result(pre, jx, jy).top_left == (Point { x: CANON_LEFT_X, y: CANON_TOP_Y }),
        tick_result(pre, jx, jy).bottom_left == (Point { x: CANON_LEFT_X, y: CANON_BOTTOM_Y }),
        tick_result(pre, jx, jy).bottom_right == (Point { x: CANON_RIGHT_X, y: CANON_BOTTOM_Y }),
        tick_result(pre, jx, jy).top_right == (Point { x: CANON_RIGHT_X, y: CANON_TOP_Y }),
        tick_result(pre, jx, jy).velocity_x == pre.velocity_x,
        tick_result(pre, jx, jy).velocity_y == pre.velocity_y,
{
}

/// Displaces one coordinate by a velocity and a jitter component,
/// saturating at the tracked coordinate range.
fn sat_displace(x: i64, v: i64, j: i64) -> (r: i64)
    requires
        -COORD_LIMIT <= x <= COORD_LIMIT,
        -VEL_LIMIT <= v <= VEL_LIMIT,
        -VEL_LIMIT <= j <= VEL_LIMIT,
    ensures
        r == clamp_coord(x + v + j),
{
    let s = x + v + j;
    if s > COORD_LIMIT {
        COORD_LIMIT
    } else if s < -COORD_LIMIT {
        -COORD_LIMIT
    } else {
        s
    }
}

/// The absolute value of a velocity component.
fn abs_vel(v: i64) -> (r: i64)
    requires
        -VEL_LIMIT <= v <= VEL_LIMIT,
    ensures
        r == abs_spec(v as int),
        0 <= r <= VEL_LIMIT,
{
    if v < 0 {
        -v
    } else {
        v
    }
}

/// Relies on rand::Rng::gen_range over the inclusive range `lo..=hi`: the
/// sampled value lies within the bounds. The range is non-empty, so the
/// call does not panic. Nothing further is assumed of the sample.
#[verifier::external_body]
fn gen_range_i64(lo: i64, hi: i64) -> (r: i64)
    requires
        lo <= hi,
    ensures
        lo <= r <= hi,
{
    rand::thread_rng().gen_range(lo..=hi)
}

} // verus!
