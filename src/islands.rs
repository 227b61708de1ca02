use vstd::prelude::*;
use crate::bodies::PointBody;
use crate::geometry::{Position, POS_HALF, POS_ONE, wrap_delta};

verus! {

/// The number of cells along each axis of a grid for interaction radius `radius`.
pub open spec fn grid_side(radius: int) -> int {
    (POS_ONE as int) / radius
}

/// The cell column (or row) of coordinate `p` on a grid `side` cells wide.
pub open spec fn cell_coord(p: int, side: int) -> int {
    (p * side) / (POS_ONE as int)
}

/// The index of the grid cell that holds `pos`.
pub open spec fn cell_of(pos: Position, side: int) -> int {
    cell_coord(pos.x as int, side) + cell_coord(pos.y as int, side) * side
}

/// The `k`-th of the nine cells around cell `c` (itself included), row by row
/// from offset `(-1, -1)` to `(1, 1)`, each coordinate wrapped around the grid.
pub open spec fn neighbor_cell(c: int, k: int, side: int) -> int {
    (c % side + k % 3 - 1) % side + ((c / side + k / 3 - 1) % side) * side
}

/// The indices among the first `n` bodies that lie in cell `cell`, in increasing order.
pub open spec fn members(bodies: Seq<PointBody>, cell: int, side: int, n: int) -> Seq<usize>
    decreases n,
{
    if n <= 0 {
        Seq::empty()
    } else {
        let prev = members(bodies, cell, side, n - 1);
        if cell_of(bodies[n - 1].position, side) == cell {
            prev.push((n - 1) as usize)
        } else {
            prev
        }
    }
}

/// The contents of the first `k` of the nine cells around cell `c`, one after another.
pub open spec fn gather(buckets: spec_fn(int) -> Seq<usize>, c: int, side: int, k: int) -> Seq<usize>
    decreases k,
{
    if k <= 0 {
        Seq::empty()
    } else {
        gather(buckets, c, side, k - 1) + buckets(neighbor_cell(c, k - 1, side))
    }
}

/// The candidates for interaction with a particle at `pos`: the indices of the
/// bodies in its cell and the eight cells around it, cell by cell.
pub open spec fn neighborhood(bodies: Seq<PointBody>, side: int, pos: Position) -> Seq<usize> {
    gather(|c: int| members(bodies, c, side, bodies.len() as int), cell_of(pos, side), side, 9)
}

/// A toroidal grid of cells, one interaction radius wide, that buckets the
/// particles by position.
pub struct IslandManager {
    islands: Vec<Vec<usize>>,
    neighbor_ixs: Vec<Vec<usize>>,
    side: usize,
}

proof fn lemma_cell_in_grid(x: int, y: int, side: int)
    requires
        0 <= x < side,
        0 <= y < side,
    ensures
        0 <= x + y * side < side * side,
{
    assert(0 <= x + y * side < side * side) by (nonlinear_arith)
        requires
            0 <= x < side,
            0 <= y < side,
    ;
}

proof fn lemma_cell_coord(p: int, side: int)
    requires
        0 <= p < POS_ONE,
        0 < side,
    ensures
        0 <= cell_coord(p, side) < side,
{
    assert(0 <= p * side < POS_ONE * side) by (nonlinear_arith)
        requires
            0 <= p < POS_ONE,
            0 < side,
    ;
    vstd::arithmetic::div_mod::lemma_div_pos_is_pos(p * side, POS_ONE as int);
    vstd::arithmetic::div_mod::lemma_div_by_multiple_is_strongly_ordered(p * side, POS_ONE * side, side, POS_ONE as int);
    assert((POS_ONE * side) / (POS_ONE as int) == side) by {
        vstd::arithmetic::div_mod::lemma_div_by_multiple(side, POS_ONE as int);
    }
}

proof fn lemma_cell_of(pos: Position, side: int)
    requires
        0 < side,
    ensures
        0 <= cell_of(pos, side) < side * side,
{
    lemma_cell_coord(pos.x as int, side);
    lemma_cell_coord(pos.y as int, side);
    lemma_cell_in_grid(cell_coord(pos.x as int, side), cell_coord(pos.y as int, side), side);
}

proof fn lemma_neighbor_cell(c: int, k: int, side: int)
    requires
        0 < side,
    ensures
        0 <= neighbor_cell(c, k, side) < side * side,
{
    lemma_cell_in_grid((c % side + k % 3 - 1) % side, (c / side + k / 3 - 1) % side, side);
}

/// The grid is wide enough that two cells' coordinates and one more fit in a `usize`.
proof fn lemma_side_room(side: int)
    requires
        1 <= side,
        side * side <= usize::MAX,
    ensures
        2 * side + 1 <= usize::MAX,
{
    if side >= 3 {
        assert(2 * side + 1 <= side * side) by (nonlinear_arith)
            requires
                side >= 3,
        ;
    }
}

/// Gathering over two bucket maps that agree on every cell of the grid gives the same sequence.
proof fn lemma_gather_agree(
    f: spec_fn(int) -> Seq<usize>,
    g: spec_fn(int) -> Seq<usize>,
    c: int,
    side: int,
    k: int,
)
    requires
        side >= 1,
        forall|d: int| 0 <= d < side * side ==> #[trigger] f(d) == g(d),
    ensures
        gather(f, c, side, k) == gather(g, c, side, k),
    decreases k,
{
    if k > 0 {
        lemma_gather_agree(f, g, c, side, k - 1);
        lemma_neighbor_cell(c, k - 1, side);
    }
}

/// Every index in a cell's members is below the count of bodies scanned.
proof fn lemma_members_in_range(bodies: Seq<PointBody>, cell: int, side: int, n: int)
    requires
        n <= usize::MAX,
    ensures
        forall|t: int|
            0 <= t < members(bodies, cell, side, n).len() ==> #[trigger] members(bodies, cell, side, n)[t] < n,
    decreases n,
{
    if n > 0 {
        lemma_members_in_range(bodies, cell, side, n - 1);
        let prev = members(bodies, cell, side, n - 1);
        if cell_of(bodies[n - 1].position, side) == cell {
            let last = (n - 1) as usize;
            assert(last == n - 1);
            assert forall|t: int| 0 <= t < prev.push(last).len() implies #[trigger] prev.push(last)[t] < n by {
                if t < prev.len() {
                    assert(prev.push(last)[t] == prev[t]);
                }
            }
        }
    }
}

/// Every index among the candidates of a position names a body.
pub proof fn lemma_neighborhood_in_range(bodies: Seq<PointBody>, side: int, pos: Position)
    requires
        bodies.len() <= usize::MAX,
    ensures
        forall|t: int|
            0 <= t < neighborhood(bodies, side, pos).len() ==> #[trigger] neighborhood(bodies, side, pos)[t]
                < bodies.len(),
{
    let g = |c: int| members(bodies, c, side, bodies.len() as int);
    lemma_gather_in_range(bodies, g, cell_of(pos, side), side, 9);
}

proof fn lemma_gather_in_range(
    bodies: Seq<PointBody>,
    g: spec_fn(int) -> Seq<usize>,
    c: int,
    side: int,
    k: int,
)
    requires
        bodies.len() <= usize::MAX,
        g == (|d: int| members(bodies, d, side, bodies.len() as int)),
    ensures
        forall|t: int| 0 <= t < gather(g, c, side, k).len() ==> #[trigger] gather(g, c, side, k)[t] < bodies.len(),
    decreases k,
{
    if k > 0 {
        lemma_gather_in_range(bodies, g, c, side, k - 1);
        lemma_members_in_range(bodies, neighbor_cell(c, k - 1, side), side, bodies.len() as int);
        let prev = gather(g, c, side, k - 1);
        let next = g(neighbor_cell(c, k - 1, side));
        assert forall|t: int| 0 <= t < (prev + next).len() implies #[trigger] (prev + next)[t] < bodies.len() by {
            if t >= prev.len() {
                assert((prev + next)[t] == next[t - prev.len()]);
            }
        }
    }
}

/// A coordinate at most `radius` away along the torus lies in the same cell
/// column as `p`, or in one of the two next to it, counted around the grid.
proof fn lemma_cell_shift(p: int, b: int, side: int, radius: int) -> (delta: int)
    requires
        0 <= p < POS_ONE,
        0 <= b < POS_ONE,
        1 <= side,
        0 <= radius,
        side * radius <= POS_ONE,
        -radius <= wrap_delta(p, b) <= radius,
    ensures
        -1 <= delta <= 1,
        cell_coord(b, side) == (cell_coord(p, side) + delta) % side,
{
    let one = POS_ONE as int;
    let dx = wrap_delta(p, b);
    // b is p + dx, wrapped
    vstd::arithmetic::div_mod::lemma_fundamental_div_mod(b - p + POS_HALF, one);
    let qq = (b - p + POS_HALF) / one;
    let t = p + dx;
    assert(t == b - one * qq);
    assert(-one <= dx * side <= one) by (nonlinear_arith)
        requires
            -radius <= dx <= radius,
            side * radius <= one,
            side >= 1,
    ;
    assert(-one <= dx <= one) by (nonlinear_arith)
        requires
            -one <= dx * side <= one,
            side >= 1,
    ;
    // the column of p
    vstd::arithmetic::div_mod::lemma_fundamental_div_mod(p * side, one);
    let c = (p * side) / one;
    let r0 = (p * side) % one;
    // the column of t before wrapping
    assert(t * side == p * side + dx * side) by (nonlinear_arith)
        requires
            t == p + dx,
    ;
    vstd::arithmetic::div_mod::lemma_fundamental_div_mod(t * side, one);
    let c1 = (t * side) / one;
    let r1 = (t * side) % one;
    assert(-1 <= c1 - c <= 1) by (nonlinear_arith)
        requires
            t * side == one * c1 + r1,
            p * side == one * c + r0,
            0 <= r0 < one,
            0 <= r1 < one,
            t * side == p * side + dx * side,
            -one <= dx * side <= one,
            one > 0,
    ;
    // wrapping shifts the column by whole turns of the grid
    assert(b * side == one * (c1 + qq * side) + r1) by (nonlinear_arith)
        requires
            t == b - one * qq,
            t * side == one * c1 + r1,
    ;
    vstd::arithmetic::div_mod::lemma_fundamental_div_mod_converse(b * side, one, c1 + qq * side, r1);
    let cb = cell_coord(b, side);
    assert(cb == c1 + qq * side);
    assert(0 <= cb < side) by {
        assert(0 <= b * side < one * side) by (nonlinear_arith)
            requires
                0 <= b < one,
                side >= 1,
        ;
        vstd::arithmetic::div_mod::lemma_div_pos_is_pos(b * side, one);
        vstd::arithmetic::div_mod::lemma_div_by_multiple_is_strongly_ordered(b * side, one * side, side, one);
        vstd::arithmetic::div_mod::lemma_div_by_multiple(side, one);
    }
    assert(c1 == (-qq) * side + cb) by (nonlinear_arith)
        requires
            cb == c1 + qq * side,
    ;
    vstd::arithmetic::div_mod::lemma_fundamental_div_mod_converse(c1, side, -qq, cb);
    c1 - c
}

/// The cell around `c` at offset `(dx, dy)`, each in `-1..=1`, is one of its nine neighbor cells.
proof fn lemma_neighbor_offset(cx: int, cy: int, dx: int, dy: int, side: int)
    requires
        0 <= cx < side,
        0 <= cy < side,
        -1 <= dx <= 1,
        -1 <= dy <= 1,
    ensures
        neighbor_cell(cx + cy * side, (dx + 1) + 3 * (dy + 1), side) == (cx + dx) % side + ((cy + dy) % side)
            * side,
{
    let c = cx + cy * side;
    let k = (dx + 1) + 3 * (dy + 1);
    vstd::arithmetic::div_mod::lemma_fundamental_div_mod_converse(c, side, cy, cx);
    vstd::arithmetic::div_mod::lemma_fundamental_div_mod_converse(k, 3, dy + 1, dx + 1);
}

/// A body that lies in cell `cell` is among that cell's members.
proof fn lemma_members_contains(bodies: Seq<PointBody>, cell: int, side: int, n: int, j: int)
    requires
        0 <= j < n <= usize::MAX,
        cell_of(bodies[j].position, side) == cell,
    ensures
        members(bodies, cell, side, n).contains(j as usize),
    decreases n,
{
    let prev = members(bodies, cell, side, n - 1);
    if j < n - 1 {
        lemma_members_contains(bodies, cell, side, n - 1, j);
        let t = choose|t: int| 0 <= t < prev.len() && prev[t] == j as usize;
        if cell_of(bodies[n - 1].position, side) == cell {
            assert(prev.push((n - 1) as usize)[t] == j as usize);
        }
    } else {
        assert(prev.push((n - 1) as usize)[prev.len() as int] == j as usize);
    }
}

/// Whatever the `kk`-th neighbor cell holds, the gathering of the first `k > kk` holds too.
proof fn lemma_gather_contains(g: spec_fn(int) -> Seq<usize>, c: int, side: int, k: int, kk: int, x: usize)
    requires
        0 <= kk < k,
        g(neighbor_cell(c, kk, side)).contains(x),
    ensures
        gather(g, c, side, k).contains(x),
    decreases k,
{
    let prev = gather(g, c, side, k - 1);
    let last = g(neighbor_cell(c, k - 1, side));
    if kk < k - 1 {
        lemma_gather_contains(g, c, side, k - 1, kk, x);
        let t = choose|t: int| 0 <= t < prev.len() && prev[t] == x;
        assert((prev + last)[t] == x);
    } else {
        let t = choose|t: int| 0 <= t < last.len() && last[t] == x;
        assert((prev + last)[prev.len() + t] == x);
    }
}

/// Every body within `radius` of `pos` along both axes of the torus is among
/// the candidates that the nine cells around `pos` hold, on a grid whose cells
/// are at least `radius` wide.
pub proof fn lemma_neighborhood_complete(bodies: Seq<PointBody>, side: int, radius: int, pos: Position, j: int)
    requires
        bodies.len() <= usize::MAX,
        1 <= side,
        0 <= radius,
        side * radius <= POS_ONE,
        0 <= j < bodies.len(),
        -radius <= wrap_delta(pos.x as int, bodies[j].position.x as int) <= radius,
        -radius <= wrap_delta(pos.y as int, bodies[j].position.y as int) <= radius,
    ensures
        neighborhood(bodies, side, pos).contains(j as usize),
{
    let b = bodies[j].position;
    let dx = lemma_cell_shift(pos.x as int, b.x as int, side, radius);
    let dy = lemma_cell_shift(pos.y as int, b.y as int, side, radius);
    lemma_cell_coord(pos.x as int, side);
    lemma_cell_coord(pos.y as int, side);
    let cx = cell_coord(pos.x as int, side);
    let cy = cell_coord(pos.y as int, side);
    lemma_neighbor_offset(cx, cy, dx, dy, side);
    let k = (dx + 1) + 3 * (dy + 1);
    let cell = neighbor_cell(cell_of(pos, side), k, side);
    assert(cell == cell_of(b, side));
    lemma_members_contains(bodies, cell, side, bodies.len() as int, j);
    let g = |d: int| members(bodies, d, side, bodies.len() as int);
    lemma_gather_contains(g, cell_of(pos, side), side, 9, k, j as usize);
}

impl IslandManager {
    /// The number of cells along each axis.
    pub closed spec fn side(self) -> int {
        self.side as int
    }

    /// The indices held in cell `c`.
    pub closed spec fn bucket(self, c: int) -> Seq<usize> {
        self.islands@[c]@
    }

    pub closed spec fn wf(self) -> bool {
        &&& self.side >= 1
        &&& self.side * self.side <= usize::MAX
        &&& self.islands@.len() == self.side * self.side
        &&& self.neighbor_ixs@.len() == self.side * self.side
        &&& forall|c: int|
            0 <= c < self.side * self.side ==> (#[trigger] self.neighbor_ixs@[c])@.len() == 9
        &&& forall|c: int, k: int|
            0 <= c < self.side * self.side && 0 <= k < 9 ==> #[trigger] self.neighbor_ixs@[c]@[k]
                == neighbor_cell(c, k, self.side as int)
    }

    /// Every cell holds exactly the indices of the bodies that lie in it, in increasing order.
    pub open spec fn indexes(self, bodies: Seq<PointBody>) -> bool {
        forall|c: int|
            0 <= c < self.side() * self.side() ==> #[trigger] self.bucket(c) == members(
                bodies,
                c,
                self.side(),
                bodies.len() as int,
            )
    }

    /// The indices found in the nine cells around the cell of `pos`.
    pub open spec fn candidates(self, pos: Position) -> Seq<usize> {
        gather(|c: int| self.bucket(c), cell_of(pos, self.side()), self.side(), 9)
    }

    /// A grid whose cells are `max_radius` or a little more on each side:
    /// `POS_ONE / max_radius` cells along each axis, all of them empty.
    pub fn new(max_radius: u32) -> (r: IslandManager)
        requires
            max_radius > 0,
            grid_side(max_radius as int) * grid_side(max_radius as int) <= usize::MAX,
        ensures
            r.wf(),
            r.side() == grid_side(max_radius as int),
            forall|c: int| 0 <= c < r.side() * r.side() ==> #[trigger] r.bucket(c).len() == 0,
    {
        let side = (POS_ONE / max_radius as u64) as usize;
        assert(side >= 1) by {
            vstd::arithmetic::div_mod::lemma_div_non_zero(POS_ONE as int, max_radius as int);
        }
        let size = side * side;
        let mut islands: Vec<Vec<usize>> = Vec::with_capacity(size);
        let mut i: usize = 0;
        while i < size
            invariant
                i <= size,
                islands@.len() == i,
                forall|c: int| 0 <= c < i ==> (#[trigger] islands@[c])@.len() == 0,
            decreases size - i,
        {
            islands.push(Vec::new());
            i += 1;
        }
        let mut this = IslandManager { islands, neighbor_ixs: Vec::with_capacity(size), side };
        this.setup_neighbors();
        this
    }

    /// Fills the table of the nine neighbor cells of every cell.
    fn setup_neighbors(&mut self)
        requires
            old(self).side >= 1,
            old(self).side * old(self).side <= usize::MAX,
            old(self).islands@.len() == old(self).side * old(self).side,
        ensures
            final(self).wf(),
            final(self).side == old(self).side,
            final(self).islands == old(self).islands,
    {
        let side = self.side;
        let size = side * side;
        proof {
            lemma_side_room(side as int);
        }
        self.neighbor_ixs.clear();
        let mut i: usize = 0;
        while i < size
            invariant
                side == self.side,
                size == side * side,
                side >= 1,
                2 * side + 1 <= usize::MAX,
                self.side == old(self).side,
                self.islands == old(self).islands,
                i <= size,
                self.neighbor_ixs@.len() == i,
                forall|c: int| 0 <= c < i ==> (#[trigger] self.neighbor_ixs@[c])@.len() == 9,
                forall|c: int, k: int|
                    0 <= c < i && 0 <= k < 9 ==> #[trigger] self.neighbor_ixs@[c]@[k] == neighbor_cell(
                        c,
                        k,
                        side as int,
                    ),
            decreases size - i,
        {
            let x = i % side;
            let y = i / side;
            proof {
                vstd::arithmetic::div_mod::lemma_fundamental_div_mod(i as int, side as int);
                assert(y < side) by (nonlinear_arith)
                    requires
                        i < side * side,
                        i == side * y + x,
                        0 <= x,
                        side > 0,
                ;
            }
            let mut neighborhood: Vec<usize> = Vec::with_capacity(9);
            let mut k: usize = 0;
            while k < 9
                invariant
                    side >= 1,
                    side * side <= usize::MAX,
                    2 * side + 1 <= usize::MAX,
                    x == i % side,
                    y == i / side,
                    x < side,
                    y < side,
                    k <= 9,
                    neighborhood@.len() == k,
                    forall|j: int| 0 <= j < k ==> #[trigger] neighborhood@[j] == neighbor_cell(i as int, j, side as int),
                decreases 9 - k,
            {
                let u = (x + side + k % 3 - 1) % side;
                let v = (y + side + k / 3 - 1) % side;
                proof {
                    vstd::arithmetic::div_mod::lemma_mod_add_multiples_vanish(x + k % 3 - 1, side as int);
                    vstd::arithmetic::div_mod::lemma_mod_add_multiples_vanish(y + k / 3 - 1, side as int);
                    lemma_cell_in_grid(u as int, v as int, side as int);
                }
                neighborhood.push(u + v * side);
                k += 1;
            }
            self.neighbor_ixs.push(neighborhood);
            i += 1;
        }
    }

    /// The index of the cell that holds `pos`.
    fn get_local_island_ix(&self, pos: &Position) -> (r: usize)
        requires
            self.wf(),
        ensures
            r == cell_of(*pos, self.side()),
            r < self.side() * self.side(),
    {
        proof {
            lemma_cell_coord(pos.x as int, self.side as int);
            lemma_cell_coord(pos.y as int, self.side as int);
            lemma_cell_of(*pos, self.side as int);
            assert(pos.x * self.side < 0x1_0000_0000 * 0x1_0000_0000) by (nonlinear_arith)
                requires
                    pos.x < 0x1_0000_0000,
                    self.side * self.side <= usize::MAX,
                    usize::MAX <= u64::MAX,
                    self.side >= 1,
            ;
            assert(pos.y * self.side < 0x1_0000_0000 * 0x1_0000_0000) by (nonlinear_arith)
                requires
                    pos.y < 0x1_0000_0000,
                    self.side * self.side <= usize::MAX,
                    usize::MAX <= u64::MAX,
                    self.side >= 1,
            ;
        }
        let x = (pos.x as u64 * self.side as u64 / POS_ONE) as usize;
        let y = (pos.y as u64 * self.side as u64 / POS_ONE) as usize;
        x + y * self.side
    }

    /// Puts every body's index into the cell that holds its position, after
    /// emptying every cell (their storage is kept).
    pub fn index_positions(&mut self, bodies: &[PointBody])
        requires
            old(self).wf(),
        ensures
            final(self).wf(),
            final(self).side() == old(self).side(),
            final(self).indexes(bodies@),
    {
        let size = self.islands.len();
        let mut i: usize = 0;
        while i < size
            invariant
                self.wf(),
                self.side == old(self).side,
                size == self.islands@.len(),
                i <= size,
                forall|c: int| 0 <= c < i ==> (#[trigger] self.islands@[c])@.len() == 0,
            decreases size - i,
        {
            self.islands[i].clear();
            i += 1;
        }
        let mut b: usize = 0;
        while b < bodies.len()
            invariant
                self.wf(),
                self.side == old(self).side,
                b <= bodies@.len(),
                forall|c: int|
                    0 <= c < self.side * self.side ==> #[trigger] self.islands@[c]@ == members(
                        bodies@,
                        c,
                        self.side as int,
                        b as int,
                    ),
            decreases bodies@.len() - b,
        {
            let ix = self.get_local_island_ix(&bodies[b].position);
            self.islands[ix].push(b);
            b += 1;
        }
    }

    /// The indices held in the nine cells around cell `i`, cell by cell.
    fn get_local_body_ixs(&self, i: usize) -> (r: Vec<usize>)
        requires
            self.wf(),
            i < self.side() * self.side(),
        ensures
            r@ == gather(|c: int| self.bucket(c), i as int, self.side(), 9),
    {
        let mut ixs: Vec<usize> = Vec::new();
        let nixs = &self.neighbor_ixs[i];
        let mut k: usize = 0;
        while k < 9
            invariant
                self.wf(),
                i < self.side * self.side,
                *nixs == self.neighbor_ixs@[i as int],
                k <= 9,
                ixs@ == gather(|c: int| self.bucket(c), i as int, self.side(), k as int),
            decreases 9 - k,
        {
            let nix = nixs[k];
            proof {
                lemma_neighbor_cell(i as int, k as int, self.side as int);
            }
            let island = &self.islands[nix];
            let ghost start = ixs@;
            let mut j: usize = 0;
            while j < island.len()
                invariant
                    j <= island@.len(),
                    ixs@ == start + island@.subrange(0, j as int),
                decreases island@.len() - j,
            {
                ixs.push(island[j]);
                j += 1;
                assert(island@.subrange(0, j as int) == island@.subrange(0, j - 1).push(island@[j - 1]));
            }
            assert(island@.subrange(0, island@.len() as int) == island@);
            k += 1;
        }
        ixs
    }

    /// The indices of the bodies in the cell of `pos` and the eight cells around it.
    pub fn get_neighboring_ixs(&self, pos: &Position) -> (r: Vec<usize>)
        requires
            self.wf(),
        ensures
            r@ == self.candidates(*pos),
    {
        let ix = self.get_local_island_ix(pos);
        self.get_local_body_ixs(ix)
    }

    /// Once the grid indexes `bodies`, the candidates around any position are
    /// the bodies of its nine surrounding cells.
    pub proof fn lemma_candidates(self, bodies: Seq<PointBody>, pos: Position)
        requires
            self.wf(),
            self.indexes(bodies),
        ensures
            self.candidates(pos) == neighborhood(bodies, self.side(), pos),
    {
        let side = self.side();
        let f = |d: int| self.bucket(d);
        let g = |d: int| members(bodies, d, side, bodies.len() as int);
        lemma_gather_agree(f, g, cell_of(pos, side), side, 9);
    }
}

} // verus!
