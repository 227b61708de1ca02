use vstd::prelude::*;
use crate::bodies::PointBody;
use crate::forces::{ForceMatrix, COEF_ONE, valid_coef};
use crate::geometry::{Position, Vector, POS_HALF, POS_ONE, lemma_floor_sqrt_exists, clamp_i64, displacement, floor_sqrt, is_floor_sqrt, isqrt, tdiv, wrap_delta, div_toward_zero, saturate};
use crate::islands::{IslandManager, grid_side, neighborhood, lemma_neighborhood_in_range, lemma_neighborhood_complete};

verus! {

/// The largest distance at which two particles interact: `0.02` of a turn, in
/// position units, rounded down.
pub const MAX_DIST: u32 = 85_899_345;

/// The numerator of the relative distance, `3 / 10`, below which particles
/// repel whatever their colors.
pub const MIN_REL_DIST_NUM: u32 = 3;

/// The denominator of the relative distance below which particles repel.
pub const MIN_REL_DIST_DEN: u32 = 10;

/// The largest size of one component of the force between two particles.
pub const PAIR_FORCE_BOUND: i64 = 0x80_0000_0000_0000;

/// The force law on the shortest displacement `(dx, dy)` from one particle to
/// another, `coef` the coefficient of their colors (thousandths), `radius` the
/// interaction radius.
///
/// With `d = |delta| / radius` and `m = MIN_REL_DIST_NUM / MIN_REL_DIST_DEN`,
/// the magnitude is `d / m - 1` when `d <= m` and
/// `coef * (1 - (1 + m - 2d) / (1 - m))` above, and the force is
/// `(magnitude / d) * delta`. In fixed point, with `dist` the integer square
/// root of `|delta|^2` and `k = dist * DEN - radius * NUM`, the core is
/// `k <= 0` (that is `dist / radius <= m`) with force `k * delta / (NUM * dist)`,
/// and above it the force is `2 * coef * k * delta / ((DEN - NUM) * dist * COEF_ONE)`,
/// each rounded toward zero; so above the core `k > 0` and the force never
/// points against the coefficient. Beyond the radius, at distance zero, and
/// for a zero coefficient above the core, the force is zero.
pub open spec fn force_law(dx: int, dy: int, coef: int, radius: int) -> (int, int) {
    let s = dx * dx + dy * dy;
    let num = MIN_REL_DIST_NUM as int;
    let den = MIN_REL_DIST_DEN as int;
    if s > radius * radius || s == 0 {
        (0, 0)
    } else {
        let dist = floor_sqrt(s);
        let k = dist * den - radius * num;
        if k <= 0 {
            (tdiv(k * dx, num * dist), tdiv(k * dy, num * dist))
        } else if coef == 0 {
            (0, 0)
        } else {
            let q = (den - num) * dist * (COEF_ONE as int);
            (tdiv(2 * coef * k * dx, q), tdiv(2 * coef * k * dy, q))
        }
    }
}

/// The force that body `b` exerts on body `a` under coefficient `coef`.
pub open spec fn pair_force(a: PointBody, b: PointBody, coef: int) -> (int, int) {
    force_law(
        wrap_delta(a.position.x as int, b.position.x as int),
        wrap_delta(a.position.y as int, b.position.y as int),
        coef,
        MAX_DIST as int,
    )
}

/// The sum of the forces on body `i` from the bodies listed in `cand`, leaving `i` itself out.
pub open spec fn force_sum(bodies: Seq<PointBody>, i: int, cand: Seq<usize>, m: ForceMatrix) -> (int, int)
    decreases cand.len(),
{
    if cand.len() == 0 {
        (0, 0)
    } else {
        let prev = force_sum(bodies, i, cand.drop_last(), m);
        let j = cand.last() as int;
        if j == i {
            prev
        } else {
            let f = pair_force(bodies[i], bodies[j], m.coef(bodies[i].color as int, bodies[j].color as int));
            (prev.0 + f.0, prev.1 + f.1)
        }
    }
}

/// The cell grid of the simulation, one interaction radius per cell.
pub open spec fn sim_side() -> int {
    grid_side(MAX_DIST as int)
}

/// The net force on body `i`: the forces of all candidates in its nine
/// surrounding cells, each component clamped into `i64`.
pub open spec fn net_force(bodies: Seq<PointBody>, i: int, m: ForceMatrix) -> Vector {
    let s = force_sum(bodies, i, neighborhood(bodies, sim_side(), bodies[i].position), m);
    Vector { x: clamp_i64(s.0) as i64, y: clamp_i64(s.1) as i64 }
}

proof fn lemma_tdiv_bound(a: int, d: int, bound: int)
    requires
        d > 0,
        bound >= 0,
        -(bound * d) <= a <= bound * d,
    ensures
        -bound <= tdiv(a, d) <= bound,
{
    assert((bound * d) / d == bound) by {
        vstd::arithmetic::div_mod::lemma_div_multiples_vanish(bound, d);
        assert(bound * d == d * bound) by (nonlinear_arith);
    }
    if a >= 0 {
        vstd::arithmetic::div_mod::lemma_div_is_ordered(a, bound * d, d);
        vstd::arithmetic::div_mod::lemma_div_pos_is_pos(a, d);
    } else {
        vstd::arithmetic::div_mod::lemma_div_is_ordered(-a, bound * d, d);
        vstd::arithmetic::div_mod::lemma_div_pos_is_pos(-a, d);
    }
}

proof fn lemma_axis_within(dx: int, s: int, dist: int)
    requires
        0 <= dx * dx <= s,
        is_floor_sqrt(s, dist),
    ensures
        -dist <= dx <= dist,
{
    if dx > dist {
        assert((dist + 1) * (dist + 1) <= dx * dx) by (nonlinear_arith)
            requires
                dx >= dist + 1,
                dist >= 0,
        ;
    } else if dx < -dist {
        assert((dist + 1) * (dist + 1) <= dx * dx) by (nonlinear_arith)
            requires
                -dx >= dist + 1,
                dist >= 0,
        ;
    }
}

proof fn lemma_color_bound(coef: int, kd: int, dist: int, q: int)
    requires
        -(7 * MAX_DIST * dist) <= kd <= 7 * MAX_DIST * dist,
        -0x8000_0000 <= coef <= 0x8000_0000,
        q == 7000 * dist,
        dist >= 0,
    ensures
        -(PAIR_FORCE_BOUND * q) <= 2 * (coef * kd) <= PAIR_FORCE_BOUND * q,
{
    let b = 7 * MAX_DIST * dist;
    assert(-(0x8000_0000 * b) <= coef * kd <= 0x8000_0000 * b) by (nonlinear_arith)
        requires
            -b <= kd <= b,
            -0x8000_0000 <= coef <= 0x8000_0000,
    ;
    assert(2 * (0x8000_0000 * b) <= PAIR_FORCE_BOUND * q) by (nonlinear_arith)
        requires
            b == 7 * 85_899_345 * dist,
            q == 7000 * dist,
            PAIR_FORCE_BOUND == 0x80_0000_0000_0000,
            dist >= 0,
    ;
}

/// One component of the force, `k * d / q` or `2 * coef * k * d / q`, as a bounded `i64`.
fn axis_force(k: i128, d: i64, coef: i32, q: i128, core: bool, dist: u64) -> (r: i64)
    requires
        q > 0,
        -(3 * MAX_DIST) <= k <= 7 * MAX_DIST,
        -(dist as int) <= d <= dist,
        dist <= MAX_DIST,
        core ==> q == MIN_REL_DIST_NUM * dist && k <= 0,
        !core ==> q == (MIN_REL_DIST_DEN - MIN_REL_DIST_NUM) * dist * COEF_ONE,
        valid_coef(coef as int),
    ensures
        r == if core {
            tdiv(k * d, q as int)
        } else {
            tdiv(2 * coef * k * d, q as int)
        },
        -PAIR_FORCE_BOUND <= r <= PAIR_FORCE_BOUND,
{
    proof {
        assert(-(7 * MAX_DIST * (dist as int)) <= k * d <= 7 * MAX_DIST * dist) by (nonlinear_arith)
            requires
                -(3 * MAX_DIST) <= k <= 7 * MAX_DIST,
                -(dist as int) <= d <= dist,
        ;
        assert(7 * MAX_DIST * dist <= 7 * MAX_DIST * MAX_DIST) by (nonlinear_arith)
            requires
                0 <= dist <= MAX_DIST,
        ;
    }
    if core {
        proof {
            assert(-(MAX_DIST * q) <= k * d <= MAX_DIST * q) by (nonlinear_arith)
                requires
                    -(3 * MAX_DIST) <= k <= 0,
                    -(dist as int) <= d <= dist,
                    q == 3 * dist,
                    MAX_DIST == 85_899_345,
            ;
            lemma_tdiv_bound(k * d, q as int, MAX_DIST as int);
        }
        let a = k * d as i128;
        div_toward_zero(a, q) as i64
    } else {
        let ghost kd = k * d;
        proof {
            assert(-0x8000_0000 * (7 * MAX_DIST * (dist as int)) <= coef * kd <= 0x8000_0000 * (7 * MAX_DIST * dist))
                by (nonlinear_arith)
                requires
                    -(7 * MAX_DIST * (dist as int)) <= kd <= 7 * MAX_DIST * dist,
                    -0x8000_0000 <= coef <= 0x8000_0000,
            ;
            assert(0x8000_0000 * (7 * MAX_DIST * dist) <= 0x8000_0000 * (7 * MAX_DIST * MAX_DIST)) by (nonlinear_arith)
                requires
                    0 <= dist <= MAX_DIST,
            ;
            assert(2 * 0x8000_0000 * (7 * MAX_DIST * dist) <= PAIR_FORCE_BOUND * q) by (nonlinear_arith)
                requires
                    q == 7000 * dist,
                    PAIR_FORCE_BOUND == 0x80_0000_0000_0000,
                    MAX_DIST == 85_899_345,
                    dist >= 0,
            ;
            lemma_color_bound(coef as int, kd, dist as int, q as int);
            assert(2 * coef * k * d == 2 * (coef * kd)) by (nonlinear_arith)
                requires
                    kd == k * d,
            ;
            lemma_tdiv_bound(2 * (coef * kd), q as int, PAIR_FORCE_BOUND as int);
            assert(0x8000_0000 * (7 * MAX_DIST * MAX_DIST) < 0x1000_0000_0000_0000_0000_0000_0000);
        }
        let kd_exec = k * d as i128;
        let a = 2 * ((coef as i128) * kd_exec);
        div_toward_zero(a, q) as i64
    }
}

/// The force that `body1` exerts on `body0`, by `force_law` on their shortest
/// displacement, with the coefficient of (`body0`'s color, `body1`'s color).
pub fn get_force(body0: &PointBody, body1: &PointBody, forces: &ForceMatrix) -> (r: Vector)
    requires
        forces.wf(),
    ensures
        (r.x as int, r.y as int) == pair_force(
            *body0,
            *body1,
            forces.coef(body0.color as int, body1.color as int),
        ),
        -PAIR_FORCE_BOUND <= r.x <= PAIR_FORCE_BOUND,
        -PAIR_FORCE_BOUND <= r.y <= PAIR_FORCE_BOUND,
{
    let delta = displacement(body0.position, body1.position);
    let dx = delta.x;
    let dy = delta.y;
    proof {
        assert(0 <= dx * dx <= 0x4000_0000_0000_0000) by (nonlinear_arith)
            requires
                -0x8000_0000 <= dx <= 0x8000_0000,
        ;
        assert(0 <= dy * dy <= 0x4000_0000_0000_0000) by (nonlinear_arith)
            requires
                -0x8000_0000 <= dy <= 0x8000_0000,
        ;
    }
    let s: u64 = (dx * dx) as u64 + (dy * dy) as u64;
    let radius = MAX_DIST as u64;
    if s > radius * radius || s == 0 {
        return Vector::zero();
    }
    let dist = isqrt(s);
    proof {
        assert(dist >= 1) by (nonlinear_arith)
            requires
                s >= 1,
                s < (dist + 1) * (dist + 1),
                dist >= 0,
        ;
        assert(dist <= MAX_DIST) by (nonlinear_arith)
            requires
                dist * dist <= s,
                s <= MAX_DIST * MAX_DIST,
                dist >= 0,
        ;
        lemma_axis_within(dx as int, s as int, dist as int);
        lemma_axis_within(dy as int, s as int, dist as int);
    }
    let num = MIN_REL_DIST_NUM as i128;
    let den = MIN_REL_DIST_DEN as i128;
    let k: i128 = dist as i128 * den - radius as i128 * num;
    if k <= 0 {
        let q = num * dist as i128;
        Vector {
            x: axis_force(k, dx, 0, q, true, dist),
            y: axis_force(k, dy, 0, q, true, dist),
        }
    } else {
        let coef = forces.get_force(body0.color, body1.color);
        if coef == 0 {
            return Vector::zero();
        }
        assert((den - num) * (COEF_ONE as i128) == 7000) by (nonlinear_arith)
            requires
                den - num == 7,
                COEF_ONE == 1000,
        ;
        let scale: i128 = (den - num) * (COEF_ONE as i128);
        proof {
            assert(0 <= dist * scale <= MAX_DIST * 7000) by (nonlinear_arith)
                requires
                    scale == 7000,
                    0 <= dist <= MAX_DIST,
            ;
        }
        let q = dist as i128 * scale;
        Vector {
            x: axis_force(k, dx, coef, q, false, dist),
            y: axis_force(k, dy, coef, q, false, dist),
        }
    }
}

/// The driver of a simulation tick: the cell grid and the forces of the last tick.
pub struct ParticlePhysics {
    forces: Vec<Vector>,
    islands: IslandManager,
}

impl ParticlePhysics {
    pub closed spec fn wf(self) -> bool {
        &&& self.islands.wf()
        &&& self.islands.side() == sim_side()
    }

    /// Whether the grid holds exactly the bodies of `bodies`, by their positions.
    pub closed spec fn indexes(self, bodies: Seq<PointBody>) -> bool {
        self.islands.indexes(bodies)
    }

    /// The forces of the last tick.
    pub closed spec fn last_forces(self) -> Seq<Vector> {
        self.forces@
    }

    /// A driver with an empty grid of `MAX_DIST`-wide cells.
    pub fn new() -> (r: ParticlePhysics)
        ensures
            r.wf(),
            r.last_forces().len() == 0,
    {
        proof {
            vstd::arithmetic::div_mod::lemma_fundamental_div_mod_converse(
                POS_ONE as int,
                MAX_DIST as int,
                50,
                POS_ONE - 50 * MAX_DIST,
            );
            assert(grid_side(MAX_DIST as int) == 50);
        }
        ParticlePhysics { forces: Vec::new(), islands: IslandManager::new(MAX_DIST) }
    }

    /// Buckets every body by its current position.
    pub fn index_positions(&mut self, bodies: &[PointBody])
        requires
            old(self).wf(),
        ensures
            final(self).wf(),
            final(self).indexes(bodies@),
            final(self).last_forces() == old(self).last_forces(),
    {
        self.islands.index_positions(bodies);
    }

    /// The net force on body `i`, from the grid as `index_positions` left it.
    /// Calls for distinct `i` read the same state and may run side by side.
    pub fn force_on(&self, bodies: &[PointBody], i: usize, force_matrix: &ForceMatrix) -> (r: Vector)
        requires
            self.wf(),
            self.indexes(bodies@),
            i < bodies@.len(),
            force_matrix.wf(),
        ensures
            r == net_force(bodies@, i as int, *force_matrix),
    {
        let body0 = &bodies[i];
        let cand = self.islands.get_neighboring_ixs(&body0.position);
        proof {
            self.islands.lemma_candidates(bodies@, body0.position);
            lemma_neighborhood_in_range(bodies@, sim_side(), body0.position);
        }
        let ghost all = cand@;
        let mut fx: i128 = 0;
        let mut fy: i128 = 0;
        let mut t: usize = 0;
        while t < cand.len()
            invariant
                all == cand@,
                all == neighborhood(bodies@, sim_side(), bodies@[i as int].position),
                forall|u: int| 0 <= u < all.len() ==> #[trigger] all[u] < bodies@.len(),
                i < bodies@.len(),
                *body0 == bodies@[i as int],
                force_matrix.wf(),
                t <= all.len(),
                (fx as int, fy as int) == force_sum(bodies@, i as int, all.subrange(0, t as int), *force_matrix),
                -(t * PAIR_FORCE_BOUND) <= fx <= t * PAIR_FORCE_BOUND,
                -(t * PAIR_FORCE_BOUND) <= fy <= t * PAIR_FORCE_BOUND,
            decreases all.len() - t,
        {
            let j = cand[t];
            assert(all.subrange(0, t + 1).drop_last() == all.subrange(0, t as int));
            if j != i {
                let f = get_force(body0, &bodies[j], force_matrix);
                fx = fx + f.x as i128;
                fy = fy + f.y as i128;
            }
            t += 1;
        }
        assert(all.subrange(0, all.len() as int) == all);
        Vector { x: saturate(fx), y: saturate(fy) }
    }

    /// Rebuilds the grid from the bodies' positions and computes the net
    /// force on every body, in the bodies' order. No body moves meanwhile.
    pub fn get_forces(&mut self, bodies: &[PointBody], force_matrix: &ForceMatrix) -> (r: &[Vector])
        requires
            old(self).wf(),
            force_matrix.wf(),
        ensures
            final(self).wf(),
            final(self).indexes(bodies@),
            r@.len() == bodies@.len(),
            forall|i: int| 0 <= i < bodies@.len() ==> #[trigger] r@[i] == net_force(bodies@, i, *force_matrix),
            final(self).last_forces() == r@,
    {
        self.index_positions(bodies);
        let mut forces: Vec<Vector> = Vec::with_capacity(bodies.len());
        let mut i: usize = 0;
        while i < bodies.len()
            invariant
                self.wf(),
                self.indexes(bodies@),
                force_matrix.wf(),
                i <= bodies@.len(),
                forces@.len() == i,
                forall|u: int| 0 <= u < i ==> #[trigger] forces@[u] == net_force(bodies@, u, *force_matrix),
            decreases bodies@.len() - i,
        {
            let f = self.force_on(bodies, i, force_matrix);
            forces.push(f);
            i += 1;
        }
        self.forces = forces;
        self.forces.as_slice()
    }
}

impl Default for ParticlePhysics {
    fn default() -> (r: ParticlePhysics)
        ensures
            r.wf(),
            r.last_forces().len() == 0,
    {
        ParticlePhysics::new()
    }
}

/// Every body that can exert a force on body `i`, one within the interaction
/// radius, is among the candidates that `net_force` sums over.
pub proof fn lemma_interacting_bodies_are_candidates(bodies: Seq<PointBody>, i: int, j: int)
    requires
        bodies.len() <= usize::MAX,
        0 <= i < bodies.len(),
        0 <= j < bodies.len(),
        ({
            let dx = wrap_delta(bodies[i].position.x as int, bodies[j].position.x as int);
            let dy = wrap_delta(bodies[i].position.y as int, bodies[j].position.y as int);
            dx * dx + dy * dy <= MAX_DIST * MAX_DIST
        }),
    ensures
        neighborhood(bodies, sim_side(), bodies[i].position).contains(j as usize),
{
    let dx = wrap_delta(bodies[i].position.x as int, bodies[j].position.x as int);
    let dy = wrap_delta(bodies[i].position.y as int, bodies[j].position.y as int);
    let r = MAX_DIST as int;
    assert(-r <= dx <= r && -r <= dy <= r) by (nonlinear_arith)
        requires
            dx * dx + dy * dy <= r * r,
            r > 0,
    ;
    vstd::arithmetic::div_mod::lemma_fundamental_div_mod_converse(POS_ONE as int, r, 50, POS_ONE - 50 * r);
    lemma_neighborhood_complete(bodies, sim_side(), r, bodies[i].position, j);
}

/// A zero coefficient beyond the repulsion core gives exactly no force.
pub proof fn lemma_zero_coefficient(a: PointBody, b: PointBody, m: ForceMatrix)
    requires
        m.coef(a.color as int, b.color as int) == 0,
        ({
            let dx = wrap_delta(a.position.x as int, b.position.x as int);
            let dy = wrap_delta(a.position.y as int, b.position.y as int);
            MIN_REL_DIST_DEN * floor_sqrt(dx * dx + dy * dy) > MIN_REL_DIST_NUM * MAX_DIST
        }),
    ensures
        pair_force(a, b, m.coef(a.color as int, b.color as int)) == (0int, 0int),
{
}

proof fn lemma_tdiv_sign(a: int, q: int)
    requires
        q > 0,
    ensures
        a >= 0 ==> tdiv(a, q) >= 0,
        a <= 0 ==> tdiv(a, q) <= 0,
{
    if a >= 0 {
        vstd::arithmetic::div_mod::lemma_div_pos_is_pos(a, q);
    } else {
        vstd::arithmetic::div_mod::lemma_div_pos_is_pos(-a, q);
    }
}

/// Beyond the repulsion core the force never reverses: each component points
/// along the displacement toward the other particle for a positive
/// coefficient, and against it for a negative one.
pub proof fn lemma_color_force_sign(dx: int, dy: int, coef: int)
    requires
        0 < dx * dx + dy * dy <= MAX_DIST * MAX_DIST,
        MIN_REL_DIST_DEN * floor_sqrt(dx * dx + dy * dy) > MIN_REL_DIST_NUM * MAX_DIST,
    ensures
        coef >= 0 ==> force_law(dx, dy, coef, MAX_DIST as int).0 * dx >= 0 && force_law(dx, dy, coef, MAX_DIST as int).1
            * dy >= 0,
        coef <= 0 ==> force_law(dx, dy, coef, MAX_DIST as int).0 * dx <= 0 && force_law(dx, dy, coef, MAX_DIST as int).1
            * dy <= 0,
{
    let s = dx * dx + dy * dy;
    let r = MAX_DIST as int;
    let dist = floor_sqrt(s);
    let k = dist * MIN_REL_DIST_DEN - r * MIN_REL_DIST_NUM;
    if coef == 0 {
        assert(force_law(dx, dy, coef, r) == (0int, 0int));
        assert(0 * dx == 0 && 0 * dy == 0);
    } else {
        lemma_floor_sqrt_exists(s);
        assert(dist >= 1) by (nonlinear_arith)
            requires
                s >= 1,
                s < (dist + 1) * (dist + 1),
                dist >= 0,
        ;
        let q = (MIN_REL_DIST_DEN - MIN_REL_DIST_NUM) * dist * (COEF_ONE as int);
        assert(q > 0) by (nonlinear_arith)
            requires
                q == 7 * dist * 1000,
                dist >= 1,
        ;
        let ax = 2 * coef * k * dx;
        let ay = 2 * coef * k * dy;
        lemma_tdiv_sign(ax, q);
        lemma_tdiv_sign(ay, q);
        let fx = tdiv(ax, q);
        let fy = tdiv(ay, q);
        assert(force_law(dx, dy, coef, r) == (fx, fy));
        assert(coef >= 0 ==> fx * dx >= 0 && fy * dy >= 0) by (nonlinear_arith)
            requires
                k > 0,
                ax == 2 * coef * k * dx,
                ay == 2 * coef * k * dy,
                ax >= 0 ==> fx >= 0,
                ax <= 0 ==> fx <= 0,
                ay >= 0 ==> fy >= 0,
                ay <= 0 ==> fy <= 0,
        ;
        assert(coef <= 0 ==> fx * dx <= 0 && fy * dy <= 0) by (nonlinear_arith)
            requires
                k > 0,
                ax == 2 * coef * k * dx,
                ay == 2 * coef * k * dy,
                ax >= 0 ==> fx >= 0,
                ax <= 0 ==> fx <= 0,
                ay >= 0 ==> fy >= 0,
                ay <= 0 ==> fy <= 0,
        ;
    }
}

proof fn lemma_tdiv_neg(a: int, q: int)
    requires
        q > 0,
    ensures
        tdiv(-a, q) == -tdiv(a, q),
{
    if a == 0 {
        assert(0int / q == 0) by {
            vstd::arithmetic::div_mod::lemma_div_of0(q);
        }
    }
}

/// The displacement back is the opposite of the displacement there, except at
/// exactly half a turn, where both are `-POS_HALF`.
proof fn lemma_wrap_delta_opposite(a: int, b: int)
    requires
        0 <= a < POS_ONE,
        0 <= b < POS_ONE,
    ensures
        wrap_delta(a, b) == -POS_HALF ==> wrap_delta(b, a) == -POS_HALF,
        wrap_delta(a, b) != -POS_HALF ==> wrap_delta(b, a) == -wrap_delta(a, b),
{
    let one = POS_ONE as int;
    let w = wrap_delta(a, b);
    vstd::arithmetic::div_mod::lemma_fundamental_div_mod(b - a + POS_HALF, one);
    let q = (b - a + POS_HALF) / one;
    assert(0 <= (b - a + POS_HALF) % one < one) by {
        vstd::arithmetic::div_mod::lemma_mod_bound(b - a + POS_HALF, one);
    }
    if w == -POS_HALF {
        vstd::arithmetic::div_mod::lemma_fundamental_div_mod_converse(a - b + POS_HALF, one, 1 - q, 0);
    } else {
        vstd::arithmetic::div_mod::lemma_fundamental_div_mod_converse(a - b + POS_HALF, one, -q, -w + POS_HALF);
    }
}

/// Under the same coefficient both ways, the force that `a` exerts on `b` is
/// the exact opposite of the force that `b` exerts on `a`.
pub proof fn lemma_pair_force_opposite(a: PointBody, b: PointBody, coef: int)
    ensures
        pair_force(b, a, coef).0 == -pair_force(a, b, coef).0,
        pair_force(b, a, coef).1 == -pair_force(a, b, coef).1,
{
    let dx = wrap_delta(a.position.x as int, b.position.x as int);
    let dy = wrap_delta(a.position.y as int, b.position.y as int);
    lemma_wrap_delta_opposite(a.position.x as int, b.position.x as int);
    lemma_wrap_delta_opposite(a.position.y as int, b.position.y as int);
    let r = MAX_DIST as int;
    if dx == -POS_HALF || dy == -POS_HALF {
        let ex = wrap_delta(b.position.x as int, a.position.x as int);
        let ey = wrap_delta(b.position.y as int, a.position.y as int);
        assert(dx * dx + dy * dy > r * r && ex * ex + ey * ey > r * r) by (nonlinear_arith)
            requires
                dx == -0x8000_0000 || dy == -0x8000_0000,
                dx == -0x8000_0000 ==> ex == -0x8000_0000,
                dy == -0x8000_0000 ==> ey == -0x8000_0000,
                r == 85_899_345,
        ;
    } else {
        assert((-dx) * (-dx) + (-dy) * (-dy) == dx * dx + dy * dy) by (nonlinear_arith);
        let s = dx * dx + dy * dy;
        let dist = floor_sqrt(s);
        let k = dist * MIN_REL_DIST_DEN - r * MIN_REL_DIST_NUM;
        assert(k * (-dx) == -(k * dx) && k * (-dy) == -(k * dy)) by (nonlinear_arith);
        assert(2 * coef * k * (-dx) == -(2 * coef * k * dx) && 2 * coef * k * (-dy) == -(2 * coef * k * dy))
            by (nonlinear_arith);
        if s <= r * r && s != 0 {
            assert(s >= 0) by (nonlinear_arith)
                requires
                    s == dx * dx + dy * dy,
            ;
            lemma_floor_sqrt_exists(s);
            assert(dist >= 1) by (nonlinear_arith)
                requires
                    s >= 1,
                    s < (dist + 1) * (dist + 1),
                    dist >= 0,
            ;
            assert(is_floor_sqrt(s, dist));
            lemma_tdiv_neg(k * dx, MIN_REL_DIST_NUM * dist);
            lemma_tdiv_neg(k * dy, MIN_REL_DIST_NUM * dist);
            let q = (MIN_REL_DIST_DEN - MIN_REL_DIST_NUM) * dist * (COEF_ONE as int);
            assert(q > 0) by (nonlinear_arith)
                requires
                    q == 7 * dist * 1000,
                    dist >= 1,
            ;
            lemma_tdiv_neg(2 * coef * k * dx, q);
            lemma_tdiv_neg(2 * coef * k * dy, q);
        }
    }
}

} // verus!
