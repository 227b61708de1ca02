use particle_life::geometry::Position;
use particle_life::positioners::{
    polar_position, BigBangPositioner, CirclePositioner, Direction, LRingPositioner,
    LinePositioner, MRingPositioner, PositionerType, SRingPositioner, SpiralPositioner,
    UniformCirclePositioner, UniformPositioner, DIR_ONE,
};

const HALF: u32 = 0x8000_0000;
const RIGHT: Direction = Direction { x: DIR_ONE, y: 0 };
const UP: Direction = Direction { x: 0, y: DIR_ONE };

fn offset_right(p: Position) -> i64 {
    assert_eq!(p.y, HALF);
    p.x as i64 - HALF as i64
}

#[test]
fn polar_position_exact() {
    assert_eq!(polar_position(RIGHT, 1000), Position { x: HALF + 1000, y: HALF });
    assert_eq!(polar_position(UP, 1000), Position { x: HALF, y: HALF + 1000 });
    let left = Direction { x: -DIR_ONE, y: 0 };
    assert_eq!(polar_position(left, 1000), Position { x: HALF - 1000, y: HALF });
    let diag = Direction { x: DIR_ONE / 2, y: -DIR_ONE / 2 };
    assert_eq!(polar_position(diag, 1001), Position { x: HALF + 500, y: HALF - 500 });
}

#[test]
fn polar_position_wraps() {
    assert_eq!(polar_position(RIGHT, HALF), Position { x: 0, y: HALF });
    assert_eq!(polar_position(RIGHT, u32::MAX), Position { x: HALF - 1, y: HALF });
}

#[test]
fn rings_stay_in_their_bands() {
    for _ in 0..200 {
        let r = offset_right(BigBangPositioner::get_pos(RIGHT));
        assert!((0..42_949_673).contains(&r));
        let r = offset_right(CirclePositioner::get_pos(RIGHT));
        assert!((0..0x8000_0000).contains(&r) || r == -(HALF as i64));
        let r = offset_right(SRingPositioner::get_pos(RIGHT));
        assert!((0x2000_0000..966_367_642).contains(&r));
        let r = offset_right(MRingPositioner::get_pos(RIGHT));
        assert!((0x4000_0000..1_503_238_554).contains(&r));
        let p = LRingPositioner::get_pos(RIGHT);
        let r = if p.x >= HALF { (p.x - HALF) as i64 } else { p.x as i64 + HALF as i64 };
        assert!((1_431_655_765..1_861_152_495).contains(&r));
        let r = offset_right(UniformCirclePositioner::get_pos(RIGHT));
        assert!((0..0x8000_0000).contains(&r));
    }
}

#[test]
fn line_band() {
    for _ in 0..200 {
        let p = LinePositioner::get_pos();
        assert!(p.y >= 0x7000_0000 && p.y < 0x9000_0000);
    }
}

#[test]
fn uniform_spreads_out() {
    let a = UniformPositioner::get_pos();
    let b = UniformPositioner::get_pos();
    let c = UniformPositioner::get_pos();
    assert!(a != b || b != c);
}

#[test]
fn spiral_radius_values() {
    assert_eq!(SpiralPositioner::radius(0, 12345), 0);
    // at progress one half: 0.45 turn scaled by one half, scatter at most a hundredth
    let f = HALF;
    assert_eq!(SpiralPositioner::radius(f, 0), 966_367_641);
    let spread: u128 = 858_993_459 / 2;
    let scatter = (spread * spread * u32::MAX as u128) >> 64;
    assert_eq!(
        SpiralPositioner::radius(f, u32::MAX) as u128,
        (1_932_735_283u128 + scatter) / 2
    );
    let p = SpiralPositioner::get_pos(f, RIGHT);
    let r = offset_right(p);
    assert!(r >= 966_367_641 && r < 966_367_641 + 30_000_000);
    let _ = SpiralPositioner::turn();
}

#[test]
fn positioner_kinds_are_distinct() {
    assert_ne!(PositionerType::Uniform, PositionerType::UniformCircle);
    assert_eq!(PositionerType::Spiral, PositionerType::Spiral);
}
