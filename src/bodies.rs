use vstd::prelude::*;
use crate::geometry::{POS_ONE, Position, Vector, clamp_i64, tdiv, wrap, div_toward_zero, saturate, wrap_coord};

verus! {

/// One time unit, or a factor of one, in the sixteen-bit fixed point of `TimeStep`.
pub const TIME_ONE: u32 = 0x1_0000;

/// One frame at sixty frames per time unit, in units of `1 / TIME_ONE`.
pub const FRAME_DT: u32 = 1092;

/// The share of velocity that drag leaves after one frame, in units of
/// `1 / TIME_ONE`: `0.5^(23.255813953488374 / 60)`, rounded.
pub const FRAME_DRAG_KEEP: u32 = 50096;

/// The length of one integration step and the drag that goes with it.
///
/// `dt` is the step in units of `1 / TIME_ONE`. `keep` is the share of
/// velocity that exponential drag leaves over that step, `0.5^(rate * dt)`
/// with `rate = 23.255813953488374`, in units of `1 / TIME_ONE`. A valid
/// step keeps all velocity exactly when no time passes, loses some whenever
/// time passes, and for one frame keeps exactly `FRAME_DRAG_KEEP`.
#[derive(Clone, Copy, Debug, PartialEq, Eq, Structural)]
pub struct TimeStep {
    pub dt: u32,
    pub keep: u32,
}

impl TimeStep {
    pub open spec fn wf(self) -> bool {
        &&& self.keep <= TIME_ONE
        &&& (self.dt == 0 <==> self.keep == TIME_ONE)
        &&& (self.dt == FRAME_DT ==> self.keep == FRAME_DRAG_KEEP)
    }

    /// The step of one frame at sixty frames per time unit.
    pub fn frame() -> (r: TimeStep)
        ensures
            r.wf(),
            r.dt == FRAME_DT,
            r.keep == FRAME_DRAG_KEEP,
    {
        TimeStep { dt: FRAME_DT, keep: FRAME_DRAG_KEEP }
    }
}

/// A particle: its color, its place on the torus and its velocity.
#[derive(Clone, Copy, Debug, PartialEq, Eq, Structural)]
pub struct PointBody {
    pub color: usize,
    pub position: Position,
    pub velocity: Vector,
}

/// One axis of the velocity after a step: drag, then the force over `dt`.
pub open spec fn next_velocity(v: int, f: int, ts: TimeStep) -> int {
    clamp_i64(tdiv(v * ts.keep, TIME_ONE as int) + tdiv(f * ts.dt, TIME_ONE as int))
}

/// One axis of the position after a step with the new velocity `v`, wrapped onto the torus.
pub open spec fn next_position(p: int, v: int, ts: TimeStep) -> int {
    wrap(p + tdiv(v * ts.dt, TIME_ONE as int))
}

impl PointBody {
    /// A particle at rest.
    pub fn new(color: usize, position: Position) -> (r: PointBody)
        ensures
            r.color == color,
            r.position == position,
            r.velocity.is_zero(),
    {
        PointBody { color, position, velocity: Vector::zero() }
    }

    /// One axis of the velocity after a step.
    fn axis_velocity(v: i64, f: i64, ts: TimeStep) -> (r: i64)
        requires
            ts.wf(),
        ensures
            r == next_velocity(v as int, f as int, ts),
    {
        let one = TIME_ONE as i128;
        assert(-0x8000_0000_0000_0000_0001_0000 <= v * ts.keep <= 0x8000_0000_0000_0000_0001_0000) by (nonlinear_arith)
            requires
                i64::MIN <= v <= i64::MAX,
                0 <= ts.keep <= 0x1_0000,
        ;
        assert(-0x8000_0000_0000_0000_0000_0000_0000 <= f * ts.dt <= 0x8000_0000_0000_0000_0000_0000_0000) by (nonlinear_arith)
            requires
                i64::MIN <= f <= i64::MAX,
                0 <= ts.dt <= u32::MAX,
        ;
        let dragged = div_toward_zero(v as i128 * ts.keep as i128, one);
        let pushed = div_toward_zero(f as i128 * ts.dt as i128, one);
        assert(-0x8000_0000_0000_0000_0001 <= dragged <= 0x8000_0000_0000_0000_0001);
        assert(-0x8000_0000_0000_0000_0000_0000 <= pushed <= 0x8000_0000_0000_0000_0000_0000);
        saturate(dragged + pushed)
    }

    /// One axis of the position after a step with the new velocity `v`.
    fn axis_position(p: u32, v: i64, ts: TimeStep) -> (r: u32)
        ensures
            r == next_position(p as int, v as int, ts),
    {
        let one = TIME_ONE as i128;
        assert(-0x8000_0000_0000_0000_0000_0000_0000 <= v * ts.dt <= 0x8000_0000_0000_0000_0000_0000_0000) by (nonlinear_arith)
            requires
                i64::MIN <= v <= i64::MAX,
                0 <= ts.dt <= u32::MAX,
        ;
        let moved = div_toward_zero(v as i128 * ts.dt as i128, one);
        assert(-0x8000_0000_0000_0000_0000_0000 <= moved <= 0x8000_0000_0000_0000_0000_0000);
        wrap_coord(p as i128 + moved)
    }

    /// Advances the particle by one step under `force`: drag scales the
    /// velocity by `ts.keep`, the force adds `force * dt`, the position moves
    /// by `velocity * dt` and wraps back onto the torus.
    pub fn step(&mut self, force: Vector, ts: TimeStep)
        requires
            ts.wf(),
        ensures
            final(self).color == old(self).color,
            final(self).velocity.x == next_velocity(old(self).velocity.x as int, force.x as int, ts),
            final(self).velocity.y == next_velocity(old(self).velocity.y as int, force.y as int, ts),
            final(self).position.x == next_position(
                old(self).position.x as int,
                final(self).velocity.x as int,
                ts,
            ),
            final(self).position.y == next_position(
                old(self).position.y as int,
                final(self).velocity.y as int,
                ts,
            ),
            0 <= final(self).position.x < POS_ONE,
            0 <= final(self).position.y < POS_ONE,
    {
        let vx = Self::axis_velocity(self.velocity.x, force.x, ts);
        let vy = Self::axis_velocity(self.velocity.y, force.y, ts);
        self.velocity = Vector { x: vx, y: vy };
        self.position = Position {
            x: Self::axis_position(self.position.x, vx, ts),
            y: Self::axis_position(self.position.y, vy, ts),
        };
    }
}

} // verus!
