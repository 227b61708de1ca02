use particle_life::bodies::{PointBody, TimeStep, FRAME_DRAG_KEEP, FRAME_DT};
use particle_life::forces::{
    ChainsForceMatrix, ForceMatrix, ForceMatrixType, ForceShiftType, IdentForceMatrix,
    RandomForceMatrix, SnakeForceMatrix, ZeroForceMatrix, COEF_CHASE, COEF_ONE,
};
use particle_life::geometry::{axis_delta, displacement, isqrt, Position, Vector, POS_ONE};
use particle_life::islands::IslandManager;
use particle_life::physics::{get_force, ParticlePhysics, MAX_DIST};

const HALF: u32 = 0x8000_0000;

fn body(color: usize, x: u32, y: u32) -> PointBody {
    PointBody::new(color, Position { x, y })
}

fn cells(m: &ForceMatrix) -> Vec<i32> {
    let n = m.color_count();
    let mut out = Vec::new();
    for y in 0..n {
        for x in 0..n {
            out.push(m.get_force(x, y));
        }
    }
    out
}

fn all_kinds() -> Vec<ForceMatrixType> {
    vec![
        ForceMatrixType::Chains(ChainsForceMatrix),
        ForceMatrixType::Snakes(SnakeForceMatrix),
        ForceMatrixType::Zero(ZeroForceMatrix),
        ForceMatrixType::One(IdentForceMatrix),
    ]
}

#[test]
fn step_wraps_across_the_upper_edge() {
    let mut b = body(0, (POS_ONE - 10) as u32, 7);
    b.velocity = Vector { x: 1_000_000, y: 0 };
    b.step(Vector::zero(), TimeStep::frame());
    assert_eq!(b.velocity, Vector { x: 764_404, y: 0 });
    assert_eq!(b.position, Position { x: 12_726, y: 7 });
}

#[test]
fn step_wraps_across_the_lower_edge() {
    let mut b = body(2, 5, 9);
    b.velocity = Vector { x: -1_000_000, y: 0 };
    b.step(Vector { x: 500, y: 0 }, TimeStep::frame());
    assert_eq!(b.velocity, Vector { x: -764_396, y: 0 });
    assert_eq!(b.position, Position { x: 4_294_954_565, y: 9 });
    assert_eq!(b.color, 2);
}

#[test]
fn step_keeps_many_particles_on_the_torus() {
    let ts = TimeStep { dt: FRAME_DT, keep: FRAME_DRAG_KEEP };
    let mut b = body(0, 123, HALF);
    b.velocity = Vector { x: i64::MAX, y: i64::MIN };
    for _ in 0..50 {
        b.step(Vector { x: i64::MAX, y: i64::MIN }, ts);
        assert!((b.position.x as u64) < POS_ONE);
        assert!((b.position.y as u64) < POS_ONE);
    }
    assert!(b.velocity.x > 0);
    assert!(b.velocity.y < 0);
}

#[test]
fn step_saturates_velocity() {
    let mut b = body(0, 100, 100);
    b.velocity = Vector { x: i64::MAX, y: i64::MIN };
    b.step(Vector { x: i64::MAX, y: i64::MIN }, TimeStep { dt: 65_536, keep: 65_535 });
    assert_eq!(b.velocity, Vector { x: i64::MAX, y: i64::MIN });
    assert_eq!(b.position, Position { x: 99, y: 100 });
}

#[test]
fn drag_alone_decays_velocity() {
    let mut b = body(0, 0, 0);
    b.velocity = Vector { x: 65_536, y: -65_536 };
    b.step(Vector::zero(), TimeStep::frame());
    assert_eq!(b.velocity, Vector { x: 50_096, y: -50_096 });
    assert_eq!(b.position, Position { x: 834, y: u32::MAX - 833 });
}

#[test]
fn no_time_no_change() {
    let mut b = body(1, 77, 88);
    b.velocity = Vector { x: 123, y: -456 };
    b.step(Vector { x: 1_000_000, y: 1_000_000 }, TimeStep { dt: 0, keep: 65_536 });
    assert_eq!(b.velocity, Vector { x: 123, y: -456 });
    assert_eq!(b.position, Position { x: 77, y: 88 });
}

#[test]
fn shortest_displacement_crosses_the_edge() {
    let a = Position { x: 42_949_672, y: 42_949_672 };
    let b = Position { x: 4_252_017_623, y: 4_252_017_623 };
    let d = displacement(a, b);
    assert_eq!(d, Vector { x: -85_899_345, y: -85_899_345 });
    let len = isqrt((d.x * d.x + d.y * d.y) as u64);
    assert_eq!(len, 121_480_018);
    let turns = len as f64 / POS_ONE as f64;
    assert!((turns - 0.0283).abs() < 0.0001);
    assert!(turns < 0.5);
}

#[test]
fn axis_delta_range() {
    assert_eq!(axis_delta(0, HALF), -(HALF as i64));
    assert_eq!(axis_delta(HALF, 0), -(HALF as i64));
    assert_eq!(axis_delta(10, 4), -6);
    assert_eq!(axis_delta(4, 10), 6);
    assert_eq!(axis_delta(u32::MAX, 0), 1);
}

#[test]
fn isqrt_values() {
    assert_eq!(isqrt(0), 0);
    assert_eq!(isqrt(1), 1);
    assert_eq!(isqrt(15), 3);
    assert_eq!(isqrt(16), 4);
    assert_eq!(isqrt(u64::MAX), 0xFFFF_FFFF);
}

#[test]
fn deterministic_generators_repeat() {
    for kind in all_kinds() {
        let a = ForceMatrix::new(5, kind);
        let b = ForceMatrix::new(5, kind);
        assert_eq!(cells(&a), cells(&b));
        assert_eq!(a.matrix_type(), kind);
    }
}

#[test]
fn random_generator_reshuffles() {
    let kind = ForceMatrixType::Random(RandomForceMatrix);
    let a = ForceMatrix::new(3, kind);
    let b = ForceMatrix::new(3, kind);
    assert_ne!(cells(&a), cells(&b));
    for v in cells(&a) {
        assert!(-COEF_ONE <= v && v < COEF_ONE);
    }
}

#[test]
fn chains_values() {
    let m = ForceMatrix::new(4, ForceMatrixType::Chains(ChainsForceMatrix));
    let expected = vec![
        1000, 1000, 0, 1000, //
        1000, 1000, 1000, 0, //
        0, 1000, 1000, 1000, //
        1000, 0, 1000, 1000,
    ];
    assert_eq!(cells(&m), expected);
}

#[test]
fn snake_values_are_asymmetric() {
    let m = ForceMatrix::new(3, ForceMatrixType::Snakes(SnakeForceMatrix));
    assert_eq!(m.get_force(0, 1), COEF_CHASE);
    assert_eq!(m.get_force(1, 0), 0);
    assert_ne!(m.get_force(0, 1), m.get_force(1, 0));
    assert_eq!(m.get_force(2, 0), COEF_CHASE);
    assert_eq!(m.get_force(1, 1), COEF_ONE);
}

#[test]
fn get_force_out_of_bounds_is_zero() {
    let m = ForceMatrix::new(2, ForceMatrixType::One(IdentForceMatrix));
    assert_eq!(m.get_force(1, 1), 1000);
    assert_eq!(m.get_force(2, 0), 0);
    assert_eq!(m.get_force(0, 2), 0);
    assert_eq!(m.get_force(usize::MAX, usize::MAX), 0);
}

#[test]
fn expand_then_shrink_restores() {
    for kind in all_kinds() {
        let mut m = ForceMatrix::new(3, kind);
        m.set_force(1, 2, -350);
        let before = cells(&m);
        m.expand();
        assert_eq!(m.color_count(), 4);
        m.shrink();
        assert_eq!(m.color_count(), 3);
        assert_eq!(cells(&m), before);
    }
}

#[test]
fn expand_fills_new_cells_from_the_rule() {
    let mut m = ForceMatrix::new(3, ForceMatrixType::Snakes(SnakeForceMatrix));
    m.expand();
    let fresh = ForceMatrix::new(4, ForceMatrixType::Snakes(SnakeForceMatrix));
    for i in 0..4 {
        assert_eq!(m.get_force(3, i), fresh.get_force(3, i));
        assert_eq!(m.get_force(i, 3), fresh.get_force(i, 3));
    }
    // the old wrap-around chase from color 2 to color 0 stays
    assert_eq!(m.get_force(2, 0), COEF_CHASE);
    assert_eq!(m.get_force(2, 3), COEF_CHASE);
}

#[test]
fn shrink_single_color_is_noop() {
    let mut m = ForceMatrix::new(1, ForceMatrixType::One(IdentForceMatrix));
    m.shrink();
    assert_eq!(m.color_count(), 1);
    assert_eq!(m.get_force(0, 0), 1000);
}

#[test]
fn negate_and_abs() {
    let mut m = ForceMatrix::new(2, ForceMatrixType::Zero(ZeroForceMatrix));
    m.set_force(0, 0, 250);
    m.set_force(1, 0, -750);
    m.negate();
    assert_eq!(cells(&m), vec![-250, 750, 0, 0]);
    m.abs();
    assert_eq!(cells(&m), vec![250, 750, 0, 0]);
}

#[test]
fn shift_columns_and_rows() {
    let mut m = ForceMatrix::new(3, ForceMatrixType::Zero(ZeroForceMatrix));
    let mut v = 1;
    for y in 0..3 {
        for x in 0..3 {
            m.set_force(x, y, v);
            v += 1;
        }
    }
    let mut c = m.clone();
    c.shift_matrix(ForceShiftType::Column, 1);
    assert_eq!(cells(&c), vec![2, 3, 1, 5, 6, 4, 8, 9, 7]);
    c.shift_matrix(ForceShiftType::Column, -1);
    assert_eq!(cells(&c), cells(&m));
    let mut r = m.clone();
    r.shift_matrix(ForceShiftType::Row, -1);
    assert_eq!(cells(&r), vec![7, 8, 9, 1, 2, 3, 4, 5, 6]);
    r.shift_matrix(ForceShiftType::Row, 7);
    assert_eq!(cells(&r), cells(&m));
}

#[test]
fn pair_force_end_to_end() {
    let m = ForceMatrix::new(1, ForceMatrixType::One(IdentForceMatrix));
    let bodies = vec![body(0, HALF, HALF), body(0, 2_168_958_484, HALF)];
    let mut physics = ParticlePhysics::new();
    let forces = physics.get_forces(&bodies, &m);
    assert_eq!(forces.len(), 2);
    assert_eq!(forces[0], Vector { x: -14_316_558, y: 0 });
    assert_eq!(forces[1], Vector { x: 14_316_558, y: 0 });
    let expected = (0.25f64 / 0.3 - 1.0).abs() * 0.02;
    let got = forces[0].x.abs() as f64 / POS_ONE as f64;
    assert!((got - expected).abs() < 1e-6);
}

#[test]
fn zero_coefficient_gives_no_force() {
    let m = ForceMatrix::new(2, ForceMatrixType::Zero(ZeroForceMatrix));
    let a = body(0, 1000, 1000);
    let b = body(1, 1000 + MAX_DIST / 2, 1000);
    assert_eq!(get_force(&a, &b, &m), Vector::zero());
    // inside the core the repulsion does not depend on the matrix
    let c = body(1, 1000 + MAX_DIST / 5, 1000);
    assert!(get_force(&a, &c, &m).x < 0);
}

#[test]
fn pair_force_beyond_radius_and_at_overlap() {
    let m = ForceMatrix::new(1, ForceMatrixType::One(IdentForceMatrix));
    let a = body(0, 0, 0);
    assert_eq!(get_force(&a, &body(0, MAX_DIST + 1, 0), &m), Vector::zero());
    assert_eq!(get_force(&a, &a, &m), Vector::zero());
    assert_eq!(get_force(&a, &body(0, MAX_DIST / 2, 0), &m), Vector { x: 49_085_338, y: 0 });
}

#[test]
fn snake_forces_are_not_mirrored() {
    let m = ForceMatrix::new(3, ForceMatrixType::Snakes(SnakeForceMatrix));
    let bodies = vec![body(0, HALF, HALF), body(1, HALF + MAX_DIST / 2, HALF)];
    let mut physics = ParticlePhysics::default();
    let forces = physics.get_forces(&bodies, &m);
    assert_eq!(forces[0], Vector { x: 9_817_067, y: 0 });
    assert_eq!(forces[1], Vector::zero());
}

#[test]
fn forces_reach_across_the_edge() {
    let m = ForceMatrix::new(1, ForceMatrixType::One(IdentForceMatrix));
    let bodies = vec![
        body(0, 5, HALF),
        body(0, u32::MAX - MAX_DIST / 2 + 6, HALF),
        body(0, HALF, 0),
    ];
    let mut physics = ParticlePhysics::new();
    let forces = physics.get_forces(&bodies, &m);
    assert!(forces[0].x < 0);
    assert!(forces[1].x > 0);
    assert_eq!(forces[0].x, -forces[1].x);
    assert_eq!(forces[2], Vector::zero());
}

#[test]
fn force_on_matches_get_forces() {
    let m = ForceMatrix::new(3, ForceMatrixType::Chains(ChainsForceMatrix));
    let mut bodies = Vec::new();
    for i in 0..40u32 {
        bodies.push(body((i % 3) as usize, HALF + i * 3_000_000, HALF + (i % 5) * 9_000_000));
    }
    let mut physics = ParticlePhysics::new();
    let all = physics.get_forces(&bodies, &m).to_vec();
    physics.index_positions(&bodies);
    for i in 0..bodies.len() {
        assert_eq!(physics.force_on(&bodies, i, &m), all[i]);
    }
}

#[test]
fn islands_gather_nine_cells() {
    let mut islands = IslandManager::new(MAX_DIST);
    let bodies = vec![
        body(0, 0, 0),
        body(0, u32::MAX, 0),
        body(0, 0, u32::MAX),
        body(0, 257_698_038, 0),
        body(0, 128_849_017, 128_849_017),
    ];
    islands.index_positions(&bodies);
    let got = islands.get_neighboring_ixs(&Position { x: 0, y: 0 });
    assert_eq!(got, vec![2, 1, 0, 4]);
}

#[test]
fn force_at_the_core_edge_keeps_the_coefficient_sign() {
    let mut m = ForceMatrix::new(1, ForceMatrixType::Zero(ZeroForceMatrix));
    let a = body(0, 0, 0);
    // floored distance still inside three tenths of the radius: core repulsion
    let inside = body(0, 25_769_803, 5_077);
    m.set_force(0, 0, 1_000_000);
    assert_eq!(get_force(&a, &inside, &m), Vector { x: -1, y: 0 });
    m.set_force(0, 0, -1_000_000);
    assert_eq!(get_force(&a, &inside, &m), Vector { x: -1, y: 0 });
    // just outside: the force follows the coefficient's sign
    let outside = body(0, 25_769_810, 5_077);
    assert_eq!(get_force(&a, &outside, &m), Vector { x: -18_571, y: -3 });
    m.set_force(0, 0, 1_000_000);
    assert_eq!(get_force(&a, &outside, &m), Vector { x: 18_571, y: 3 });
    m.set_force(0, 0, 1);
    assert_eq!(get_force(&a, &outside, &m), Vector::zero());
}
