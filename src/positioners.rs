use vstd::prelude::*;
use crate::geometry::{Position, POS_HALF, POS_ONE, tdiv, wrap, div_toward_zero, wrap_coord, isqrt, floor_sqrt};
use crate::random::random_in;

verus! {

/// The length of a unit direction, in the fixed point of `Direction`.
pub const DIR_ONE: i32 = 0x4000_0000;

/// A direction in the plane, `(cos t, sin t)` scaled by `DIR_ONE`.
#[derive(Clone, Copy, Debug, PartialEq, Eq, Structural)]
pub struct Direction {
    pub x: i32,
    pub y: i32,
}

impl Direction {
    pub open spec fn wf(self) -> bool {
        -DIR_ONE <= self.x <= DIR_ONE && -DIR_ONE <= self.y <= DIR_ONE
    }
}

/// The ways of placing a newly spawned particle.
#[derive(Clone, Copy, Debug, PartialEq, Eq, Structural)]
pub enum PositionerType {
    BigBang,
    Circle,
    Line,
    SRing,
    MRing,
    LRing,
    Spiral,
    Uniform,
    UniformCircle,
}

/// The point `radius` position units from the middle of the square along `dir`, wrapped onto the torus.
pub open spec fn polar_place(dir: Direction, radius: int) -> Position {
    Position {
        x: wrap(POS_HALF + tdiv(radius * dir.x, DIR_ONE as int)) as u32,
        y: wrap(POS_HALF + tdiv(radius * dir.y, DIR_ONE as int)) as u32,
    }
}

/// Places a point `radius` position units from the middle of the square along `dir`.
pub fn polar_position(dir: Direction, radius: u32) -> (r: Position)
    requires
        dir.wf(),
    ensures
        r == polar_place(dir, radius as int),
{
    proof {
        assert(-0x1_0000_0000 * 0x4000_0000 <= radius * dir.x <= 0x1_0000_0000 * 0x4000_0000) by (nonlinear_arith)
            requires
                0 <= radius < 0x1_0000_0000,
                -0x4000_0000 <= dir.x <= 0x4000_0000,
        ;
        assert(-0x1_0000_0000 * 0x4000_0000 <= radius * dir.y <= 0x1_0000_0000 * 0x4000_0000) by (nonlinear_arith)
            requires
                0 <= radius < 0x1_0000_0000,
                -0x4000_0000 <= dir.y <= 0x4000_0000,
        ;
    }
    let one = DIR_ONE as i128;
    let dx = div_toward_zero(radius as i128 * dir.x as i128, one);
    let dy = div_toward_zero(radius as i128 * dir.y as i128, one);
    assert(-0x1_0000_0000 <= dx <= 0x1_0000_0000) by {
        assert(-(0x1_0000_0000 * 0x4000_0000) <= radius * dir.x <= 0x1_0000_0000 * 0x4000_0000);
        vstd::arithmetic::div_mod::lemma_div_is_ordered((radius * dir.x) as int, 0x1_0000_0000int * 0x4000_0000int, 0x4000_0000int);
        vstd::arithmetic::div_mod::lemma_div_is_ordered(-(radius * dir.x), 0x1_0000_0000int * 0x4000_0000int, 0x4000_0000int);
    }
    assert(-0x1_0000_0000 <= dy <= 0x1_0000_0000) by {
        vstd::arithmetic::div_mod::lemma_div_is_ordered((radius * dir.y) as int, 0x1_0000_0000int * 0x4000_0000int, 0x4000_0000int);
        vstd::arithmetic::div_mod::lemma_div_is_ordered(-(radius * dir.y), 0x1_0000_0000int * 0x4000_0000int, 0x4000_0000int);
    }
    let half = POS_HALF as i128;
    Position { x: wrap_coord(half + dx), y: wrap_coord(half + dy) }
}

/// A point along `dir` at a radius drawn uniformly from `[lo, hi)`.
fn ring_position(dir: Direction, lo: u32, hi: u32) -> (r: Position)
    requires
        dir.wf(),
        lo < hi,
    ensures
        exists|radius: int| lo <= radius < hi && r == polar_place(dir, radius),
{
    let radius = random_in(lo as i64, hi as i64) as u32;
    polar_position(dir, radius)
}

/// Within a hundredth of a turn of the middle.
pub struct BigBangPositioner;

impl BigBangPositioner {
    pub fn get_pos(dir: Direction) -> (r: Position)
        requires
            dir.wf(),
        ensures
            exists|radius: int| 0 <= radius < 42_949_673 && r == polar_place(dir, radius),
    {
        ring_position(dir, 0, 42_949_673)
    }
}

/// Within half a turn of the middle, the radius drawn uniformly.
pub struct CirclePositioner;

impl CirclePositioner {
    pub fn get_pos(dir: Direction) -> (r: Position)
        requires
            dir.wf(),
        ensures
            exists|radius: int| 0 <= radius < 0x8000_0000 && r == polar_place(dir, radius),
    {
        ring_position(dir, 0, 0x8000_0000)
    }
}

/// Anywhere across, in a band an eighth of a turn high through the middle.
pub struct LinePositioner;

impl LinePositioner {
    pub fn get_pos() -> (r: Position)
        ensures
            0x7000_0000 <= r.y < 0x9000_0000,
    {
        let x = random_in(0, POS_ONE as i64) as u32;
        let y = random_in(0x7000_0000, 0x9000_0000) as u32;
        Position { x, y }
    }
}

/// On a small ring, `0.125` to `0.225` turns from the middle.
pub struct SRingPositioner;

impl SRingPositioner {
    pub fn get_pos(dir: Direction) -> (r: Position)
        requires
            dir.wf(),
        ensures
            exists|radius: int| 0x2000_0000 <= radius < 966_367_642 && r == polar_place(dir, radius),
    {
        ring_position(dir, 0x2000_0000, 966_367_642)
    }
}

/// On a middle ring, `0.25` to `0.35` turns from the middle.
pub struct MRingPositioner;

impl MRingPositioner {
    pub fn get_pos(dir: Direction) -> (r: Position)
        requires
            dir.wf(),
        ensures
            exists|radius: int| 0x4000_0000 <= radius < 1_503_238_554 && r == polar_place(dir, radius),
    {
        ring_position(dir, 0x4000_0000, 1_503_238_554)
    }
}

/// On a large ring, a third of a turn to a tenth more from the middle.
pub struct LRingPositioner;

impl LRingPositioner {
    pub fn get_pos(dir: Direction) -> (r: Position)
        requires
            dir.wf(),
        ensures
            exists|radius: int| 1_431_655_765 <= radius < 1_861_152_495 && r == polar_place(dir, radius),
    {
        ring_position(dir, 1_431_655_765, 1_861_152_495)
    }
}

/// The radius of a spiral arm at progress `f` (a fraction of one, in position
/// units) with scatter draw `u` (likewise): `(0.9 f + s^2 u) / 2` with
/// `s = min(f, 0.2) / 2`.
pub open spec fn spiral_radius(f: int, u: int) -> int {
    let spread = (if f < 858_993_459 { f } else { 858_993_459 }) / 2;
    ((9 * f) / 10 + (spread * spread * u) / (POS_ONE * POS_ONE)) / 2
}

/// Along a two-turn spiral arm out from the middle.
pub struct SpiralPositioner;

impl SpiralPositioner {
    /// How far along the arm the next particle goes, as a fraction of one in
    /// position units. Its direction is `2 * 2pi * f`.
    pub fn turn() -> (f: u32) {
        random_in(0, POS_ONE as i64) as u32
    }

    /// The radius of the arm at progress `f` with scatter draw `u`.
    pub fn radius(f: u32, u: u32) -> (r: u32)
        ensures
            r == spiral_radius(f as int, u as int),
    {
        let spread: u64 = (if f < 858_993_459 { f } else { 858_993_459 }) as u64 / 2;
        proof {
            assert(spread * spread <= 0x2000_0000 * 0x2000_0000) by (nonlinear_arith)
                requires
                    spread <= 0x2000_0000,
            ;
            assert(spread * spread * u <= 0x2000_0000 * 0x2000_0000 * 0x1_0000_0000) by (nonlinear_arith)
                requires
                    spread * spread <= 0x2000_0000 * 0x2000_0000,
                    u < 0x1_0000_0000,
            ;
            vstd::arithmetic::div_mod::lemma_div_is_ordered(
                (spread * spread * u) as int,
                0x2000_0000int * 0x2000_0000int * 0x1_0000_0000int,
                (POS_ONE * POS_ONE) as int,
            );
        }
        let scatter = (spread as u128 * spread as u128 * u as u128) / (0x1_0000_0000u128 * 0x1_0000_0000u128);
        let along = (9 * f as u64) / 10;
        ((along + scatter as u64) / 2) as u32
    }

    /// A point at progress `f` of the arm, along `dir`.
    pub fn get_pos(f: u32, dir: Direction) -> (r: Position)
        requires
            dir.wf(),
        ensures
            exists|u: int| 0 <= u < POS_ONE && r == polar_place(dir, spiral_radius(f as int, u)),
    {
        let u = random_in(0, POS_ONE as i64) as u32;
        polar_position(dir, Self::radius(f, u))
    }
}

/// Anywhere on the torus.
pub struct UniformPositioner;

impl UniformPositioner {
    pub fn get_pos() -> (r: Position) {
        let x = random_in(0, POS_ONE as i64) as u32;
        let y = random_in(0, POS_ONE as i64) as u32;
        Position { x, y }
    }
}

/// Uniformly over the disc of radius half a turn around the middle.
pub struct UniformCirclePositioner;

impl UniformCirclePositioner {
    pub fn get_pos(dir: Direction) -> (r: Position)
        requires
            dir.wf(),
        ensures
            exists|v: int| 0 <= v < 0x4000_0000_0000_0000 && r == polar_place(dir, floor_sqrt(v)),
    {
        let v = random_in(0, 0x4000_0000_0000_0000);
        let radius = isqrt(v as u64);
        proof {
            assert(radius < 0x8000_0000) by (nonlinear_arith)
                requires
                    radius * radius <= v,
                    v < 0x4000_0000_0000_0000,
                    radius >= 0,
            ;
        }
        polar_position(dir, radius as u32)
    }
}

} // verus!
