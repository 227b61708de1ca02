use vstd::prelude::*;
use crate::random::random_in;
use crate::text::{
    COMMA, NEWLINE, format_coef, join, push_coef, parse_cells, text_cells, lemma_text_cells_valid, lemma_parse_format,
    lemma_split_join, lemma_join_free, lemma_line_cells_all, lemma_lines_cells_uniform, free_of, split, line_cells,
    lemma_lines_read_all, parts_read, text_is_well_formed, text_reads,
};

verus! {

/// The coefficient `1.0` in thousandths.
pub const COEF_ONE: i32 = 1000;

/// The coefficient of a snake's chase toward the next color, `0.2`, in thousandths.
pub const COEF_CHASE: i32 = 200;

/// Each color attracts itself and its two cyclic neighbors equally.
#[derive(Clone, Copy, Debug, Default, PartialEq, Eq, Structural)]
pub struct ChainsForceMatrix;

/// Every cell drawn uniformly from `[-1, 1)`.
#[derive(Clone, Copy, Debug, Default, PartialEq, Eq, Structural)]
pub struct RandomForceMatrix;

/// Each color attracts itself and chases the next color, but not the previous one.
#[derive(Clone, Copy, Debug, Default, PartialEq, Eq, Structural)]
pub struct SnakeForceMatrix;

/// Every cell `0`.
#[derive(Clone, Copy, Debug, Default, PartialEq, Eq, Structural)]
pub struct ZeroForceMatrix;

/// Every cell `1`.
#[derive(Clone, Copy, Debug, Default, PartialEq, Eq, Structural)]
pub struct IdentForceMatrix;

/// The rule that fills the cells of a force matrix.
#[derive(Clone, Copy, Debug, PartialEq, Eq, Structural)]
pub enum ForceMatrixType {
    Chains(ChainsForceMatrix),
    Random(RandomForceMatrix),
    Snakes(SnakeForceMatrix),
    Zero(ZeroForceMatrix),
    One(IdentForceMatrix),
}

/// The chains rule at cell `(x, y)` of a `w`-wide matrix.
pub open spec fn chains_value(x: int, y: int, w: int) -> int {
    if y == x || y == (x + 1) % w || y == (x + w - 1) % w {
        COEF_ONE as int
    } else {
        0
    }
}

/// The snake rule at cell `(x, y)` of a `w`-wide matrix.
pub open spec fn snake_value(x: int, y: int, w: int) -> int {
    if y == x {
        COEF_ONE as int
    } else if y == (x + 1) % w {
        COEF_CHASE as int
    } else {
        0
    }
}

impl ChainsForceMatrix {
    pub fn force(self, x: usize, y: usize, w: usize) -> (r: i32)
        requires
            x < w,
            y < w,
        ensures
            r == chains_value(x as int, y as int, w as int),
    {
        let prev = if x == 0 {
            w - 1
        } else {
            x - 1
        };
        assert(prev == (x + w - 1) % (w as int)) by {
            if x == 0 {
                vstd::arithmetic::div_mod::lemma_fundamental_div_mod_converse(x + w - 1, w as int, 0, prev as int);
            } else {
                vstd::arithmetic::div_mod::lemma_fundamental_div_mod_converse(x + w - 1, w as int, 1, prev as int);
            }
        }
        if y == x || y == (x + 1) % w || y == prev {
            COEF_ONE
        } else {
            0
        }
    }
}

impl RandomForceMatrix {
    /// A fresh uniform draw from `[-1, 1)` for each call.
    pub fn force(self, _x: usize, _y: usize, _w: usize) -> (r: i32)
        ensures
            -COEF_ONE <= r < COEF_ONE,
    {
        random_in(-(COEF_ONE as i64), COEF_ONE as i64) as i32
    }
}

impl SnakeForceMatrix {
    pub fn force(self, x: usize, y: usize, w: usize) -> (r: i32)
        requires
            x < w,
            y < w,
        ensures
            r == snake_value(x as int, y as int, w as int),
    {
        if y == x {
            COEF_ONE
        } else if y == (x + 1) % w {
            COEF_CHASE
        } else {
            0
        }
    }
}

impl ZeroForceMatrix {
    pub fn force(self, _x: usize, _y: usize, _w: usize) -> (r: i32)
        ensures
            r == 0,
    {
        0
    }
}

impl IdentForceMatrix {
    pub fn force(self, _x: usize, _y: usize, _w: usize) -> (r: i32)
        ensures
            r == COEF_ONE,
    {
        COEF_ONE
    }
}

impl ForceMatrixType {
    /// Whether the rule gives the same value every time it is asked.
    pub open spec fn is_deterministic(self) -> bool {
        !(self is Random)
    }

    /// The value of a deterministic rule at `(x, y)` in a `w`-wide matrix.
    pub open spec fn value(self, x: int, y: int, w: int) -> int {
        match self {
            ForceMatrixType::Chains(_) => chains_value(x, y, w),
            ForceMatrixType::Random(_) => 0,
            ForceMatrixType::Snakes(_) => snake_value(x, y, w),
            ForceMatrixType::Zero(_) => 0,
            ForceMatrixType::One(_) => COEF_ONE as int,
        }
    }

    /// Whether `v` is a value the rule may produce at `(x, y)` in a `w`-wide matrix.
    pub open spec fn admits(self, x: int, y: int, w: int, v: int) -> bool {
        if self is Random {
            -COEF_ONE <= v < COEF_ONE
        } else {
            v == self.value(x, y, w)
        }
    }

    /// The rule's value at `(x, y)` in a `w`-wide matrix.
    pub fn force(self, x: usize, y: usize, w: usize) -> (r: i32)
        requires
            x < w,
            y < w,
        ensures
            self.admits(x as int, y as int, w as int, r as int),
    {
        match self {
            ForceMatrixType::Chains(p) => p.force(x, y, w),
            ForceMatrixType::Random(p) => p.force(x, y, w),
            ForceMatrixType::Snakes(p) => p.force(x, y, w),
            ForceMatrixType::Zero(p) => p.force(x, y, w),
            ForceMatrixType::One(p) => p.force(x, y, w),
        }
    }
}

/// Which axis a cyclic shift of the matrix moves along.
#[derive(Clone, Copy, Debug, PartialEq, Eq, Structural)]
pub enum ForceShiftType {
    Column,
    Row,
}

/// A square table of interaction coefficients, indexed by (color, color).
///
/// Cell `(x, y)` is stored at `x + y * color_count`. Coefficients are
/// thousandths and never `i32::MIN`, so negation and absolute value stay exact.
#[derive(Clone, Debug)]
pub struct ForceMatrix {
    data: Vec<i32>,
    color_count: usize,
    matrix_type: ForceMatrixType,
}

/// Whether `v` may stand in a force matrix.
pub open spec fn valid_coef(v: int) -> bool {
    -i32::MAX <= v <= i32::MAX
}

/// The Euclidean remainder of `a` by a positive `n`, as a cell index.
pub open spec fn cyc(a: int, n: int) -> int {
    a % n
}

impl ForceMatrix {
    pub closed spec fn count(self) -> nat {
        self.color_count as nat
    }

    pub closed spec fn kind(self) -> ForceMatrixType {
        self.matrix_type
    }

    /// The coefficient at `(x, y)`, for `x, y < count()`.
    pub closed spec fn cell(self, x: int, y: int) -> int {
        self.data@[x + y * self.color_count] as int
    }

    pub closed spec fn wf(self) -> bool {
        &&& self.color_count >= 1
        &&& self.color_count * self.color_count <= usize::MAX
        &&& self.data@.len() == self.color_count * self.color_count
        &&& forall|i: int| 0 <= i < self.data@.len() ==> valid_coef(#[trigger] self.data@[i] as int)
    }

    /// Every cell holds a value that the matrix's rule admits.
    pub open spec fn generated(self) -> bool {
        forall|x: int, y: int|
            0 <= x < self.count() && 0 <= y < self.count() ==> self.kind().admits(
                x,
                y,
                self.count() as int,
                #[trigger] self.cell(x, y),
            )
    }

    /// `self` is `old` grown by one color: old cells kept, new ones from the rule.
    pub open spec fn is_expansion_of(self, old: ForceMatrix) -> bool {
        &&& self.count() == old.count() + 1
        &&& self.kind() == old.kind()
        &&& forall|x: int, y: int|
            0 <= x < self.count() && 0 <= y < self.count() ==> if x < old.count() && y
                < old.count() {
                #[trigger] self.cell(x, y) == old.cell(x, y)
            } else {
                self.kind().admits(x, y, self.count() as int, self.cell(x, y))
            }
    }

    /// `self` is `old` without its last color, or `old` itself when it has one color.
    pub open spec fn is_shrink_of(self, old: ForceMatrix) -> bool {
        &&& self.count() == if old.count() > 1 {
            old.count() - 1
        } else {
            old.count() as int
        }
        &&& self.kind() == old.kind()
        &&& forall|x: int, y: int|
            0 <= x < self.count() && 0 <= y < self.count() ==> #[trigger] self.cell(x, y)
                == old.cell(x, y)
    }

    proof fn lemma_index(x: int, y: int, n: int)
        requires
            0 <= x < n,
            0 <= y < n,
        ensures
            0 <= x + y * n < n * n,
    {
        assert(0 <= x + y * n < n * n) by (nonlinear_arith)
            requires
                0 <= x < n,
                0 <= y < n,
        ;
    }

    proof fn lemma_split(i: int, n: int)
        requires
            0 <= i,
            0 < n,
        ensures
            i == i % n + (i / n) * n,
            0 <= i % n < n,
    {
        vstd::arithmetic::div_mod::lemma_fundamental_div_mod(i, n);
        vstd::arithmetic::mul::lemma_mul_is_commutative(i / n, n);
    }

    proof fn lemma_unsplit(x: int, y: int, n: int)
        requires
            0 <= x < n,
            0 <= y,
        ensures
            (x + y * n) % n == x,
            (x + y * n) / n == y,
    {
        vstd::arithmetic::div_mod::lemma_fundamental_div_mod_converse(x + y * n, n, y, x);
    }

    /// A `color_count`-wide matrix with every cell filled by `matrix_type`.
    pub fn new(color_count: usize, matrix_type: ForceMatrixType) -> (r: ForceMatrix)
        requires
            color_count > 0,
            color_count * color_count <= usize::MAX,
        ensures
            r.wf(),
            r.count() == color_count,
            r.kind() == matrix_type,
            r.generated(),
    {
        let n = color_count;
        let total = n * n;
        let mut data: Vec<i32> = Vec::with_capacity(total);
        let mut i: usize = 0;
        while i < total
            invariant
                n > 0,
                total == n * n,
                i <= total,
                data@.len() == i,
                forall|j: int|
                    0 <= j < i ==> valid_coef(#[trigger] data@[j] as int) && matrix_type.admits(
                        j % n as int,
                        j / n as int,
                        n as int,
                        data@[j] as int,
                    ),
            decreases total - i,
        {
            proof {
                Self::lemma_split(i as int, n as int);
                assert(i / n < n) by (nonlinear_arith)
                    requires
                        i < n * n,
                        i == i % n + (i / n) * n,
                        0 <= i % n,
                        n > 0,
                ;
            }
            let v = matrix_type.force(i % n, i / n, n);
            data.push(v);
            i += 1;
        }
        let r = ForceMatrix { data, color_count, matrix_type };
        assert forall|x: int, y: int| 0 <= x < r.count() && 0 <= y < r.count() implies r.kind().admits(
            x,
            y,
            r.count() as int,
            #[trigger] r.cell(x, y),
        ) by {
            Self::lemma_index(x, y, n as int);
            Self::lemma_unsplit(x, y, n as int);
        }
        r
    }

    /// The number of colors.
    pub fn color_count(&self) -> (r: usize)
        ensures
            r == self.count(),
    {
        self.color_count
    }

    /// The rule that fills new cells.
    pub fn matrix_type(&self) -> (r: ForceMatrixType)
        ensures
            r == self.kind(),
    {
        self.matrix_type
    }

    /// The coefficient at `(x, y)`, or `0` when either index is out of bounds.
    pub open spec fn coef(self, x: int, y: int) -> int {
        if 0 <= x < self.count() && 0 <= y < self.count() {
            self.cell(x, y)
        } else {
            0
        }
    }

    /// Every coefficient may be negated without overflow.
    pub proof fn lemma_coef_valid(self, x: int, y: int)
        requires
            self.wf(),
        ensures
            valid_coef(self.coef(x, y)),
    {
        if 0 <= x < self.count() && 0 <= y < self.count() {
            Self::lemma_index(x, y, self.color_count as int);
        }
    }

    /// The coefficient at `(x, y)`, or `0` when either index is out of bounds.
    pub fn get_force(&self, x: usize, y: usize) -> (r: i32)
        requires
            self.wf(),
        ensures
            r == self.coef(x as int, y as int),
            valid_coef(r as int),
    {
        if x < self.color_count && y < self.color_count {
            proof {
                Self::lemma_index(x as int, y as int, self.color_count as int);
            }
            self.data[x + y * self.color_count]
        } else {
            0
        }
    }

    /// The text of row `y`: its cells from `x = 0` up, separated by commas.
    pub open spec fn row_text(self, y: int) -> Seq<u8> {
        join(
            Seq::new(self.count(), |x: int| format_coef(self.cell(x, y))),
            COMMA,
            self.count() as int,
        )
    }

    /// The text of the whole table: its rows from `y = 0` up, separated by newlines.
    pub open spec fn text(self) -> Seq<u8> {
        join(Seq::new(self.count(), |y: int| self.row_text(y)), NEWLINE, self.count() as int)
    }

    /// The table as text, for interchange.
    pub fn copy_text(&self) -> (r: Vec<u8>)
        requires
            self.wf(),
        ensures
            r@ == self.text(),
    {
        let n = self.color_count;
        let ghost rows = Seq::new(self.count(), |y: int| self.row_text(y));
        let mut out: Vec<u8> = Vec::new();
        let mut y: usize = 0;
        while y < n
            invariant
                self.wf(),
                n == self.color_count,
                y <= n,
                rows == Seq::new(self.count(), |y: int| self.row_text(y)),
                out@ == join(rows, NEWLINE, y as int),
            decreases n - y,
        {
            let ghost cells = Seq::new(self.count(), |x: int| format_coef(self.cell(x, y as int)));
            let mut row: Vec<u8> = Vec::new();
            let mut x: usize = 0;
            while x < n
                invariant
                    self.wf(),
                    n == self.color_count,
                    x <= n,
                    y < n,
                    cells == Seq::new(self.count(), |x: int| format_coef(self.cell(x, y as int))),
                    row@ == join(cells, COMMA, x as int),
                decreases n - x,
            {
                let v = self.get_force(x, y);
                proof {
                    Self::lemma_index(x as int, y as int, n as int);
                }
                if x > 0 {
                    row.push(COMMA);
                }
                push_coef(&mut row, v);
                x += 1;
            }
            assert(row@ == rows[y as int]);
            if y > 0 {
                out.push(NEWLINE);
            }
            out.append(&mut row);
            y += 1;
        }
        out
    }

    /// Replaces the table by the coefficients that `text` holds, read row
    /// after row, when every part of every line reads and there are exactly
    /// `count()^2` of them; otherwise the table stays as it is. Says whether
    /// it was replaced.
    pub fn paste_text(&mut self, text: &[u8]) -> (ok: bool)
        requires
            old(self).wf(),
        ensures
            final(self).wf(),
            final(self).count() == old(self).count(),
            final(self).kind() == old(self).kind(),
            ok == (text_reads(text@) && text_cells(text@).len() == old(self).count() * old(self).count()),
            ok ==> forall|x: int, y: int|
                0 <= x < final(self).count() && 0 <= y < final(self).count() ==> #[trigger] final(self).cell(x, y)
                    == text_cells(text@)[x + y * final(self).count()],
            !ok ==> *final(self) == *old(self),
    {
        if !text_is_well_formed(text) {
            return false;
        }
        let data = parse_cells(text);
        if data.len() == self.data.len() {
            proof {
                lemma_text_cells_valid(text@);
            }
            self.data = data;
            true
        } else {
            false
        }
    }

    /// Sets the coefficient at `(x, y)`.
    pub fn set_force(&mut self, x: usize, y: usize, value: i32)
        requires
            old(self).wf(),
            x < old(self).count(),
            y < old(self).count(),
            valid_coef(value as int),
        ensures
            final(self).wf(),
            final(self).count() == old(self).count(),
            final(self).kind() == old(self).kind(),
            forall|i: int, j: int|
                0 <= i < final(self).count() && 0 <= j < final(self).count() ==> #[trigger] final(self).cell(i, j)
                    == if i == x && j == y {
                    value as int
                } else {
                    old(self).cell(i, j)
                },
    {
        proof {
            Self::lemma_index(x as int, y as int, self.color_count as int);
        }
        let ix = x + y * self.color_count;
        self.data.set(ix, value);
        proof {
            let n = self.color_count as int;
            assert forall|i: int, j: int| 0 <= i < n && 0 <= j < n && (i != x || j != y) implies
                #[trigger] (i + j * n) != ix by {
                Self::lemma_unsplit(i, j, n);
                Self::lemma_unsplit(x as int, y as int, n);
            }
            assert forall|i: int, j: int| 0 <= i < n && 0 <= j < n implies 0 <= #[trigger] (i + j * n) < n * n by {
                Self::lemma_index(i, j, n);
            }
        }
    }

    /// Replaces every coefficient by its absolute value.
    pub fn abs(&mut self)
        requires
            old(self).wf(),
        ensures
            final(self).wf(),
            final(self).count() == old(self).count(),
            final(self).kind() == old(self).kind(),
            forall|x: int, y: int|
                0 <= x < final(self).count() && 0 <= y < final(self).count() ==> #[trigger] final(self).cell(x, y)
                    == if old(self).cell(x, y) < 0 {
                    -old(self).cell(x, y)
                } else {
                    old(self).cell(x, y)
                },
    {
        let ghost before = self.data@;
        let mut i: usize = 0;
        while i < self.data.len()
            invariant
                self.color_count == old(self).color_count,
                self.matrix_type == old(self).matrix_type,
                before == old(self).data@,
                old(self).wf(),
                self.data@.len() == before.len(),
                i <= before.len(),
                forall|j: int|
                    0 <= j < before.len() ==> #[trigger] self.data@[j] == if j < i && before[j] < 0 {
                        -before[j]
                    } else {
                        before[j] as int
                    },
            decreases before.len() - i,
        {
            let v = self.data[i];
            if v < 0 {
                self.data.set(i, -v);
            }
            i += 1;
        }
        proof {
            let n = self.color_count as int;
            assert forall|x: int, y: int| 0 <= x < n && 0 <= y < n implies 0 <= #[trigger] (x + y * n) < n * n by {
                Self::lemma_index(x, y, n);
            }
        }
    }

    /// Negates every coefficient.
    pub fn negate(&mut self)
        requires
            old(self).wf(),
        ensures
            final(self).wf(),
            final(self).count() == old(self).count(),
            final(self).kind() == old(self).kind(),
            forall|x: int, y: int|
                0 <= x < final(self).count() && 0 <= y < final(self).count() ==> #[trigger] final(self).cell(x, y)
                    == -old(self).cell(x, y),
    {
        let ghost before = self.data@;
        let mut i: usize = 0;
        while i < self.data.len()
            invariant
                self.color_count == old(self).color_count,
                self.matrix_type == old(self).matrix_type,
                before == old(self).data@,
                old(self).wf(),
                self.data@.len() == before.len(),
                i <= before.len(),
                forall|j: int|
                    0 <= j < before.len() ==> #[trigger] self.data@[j] == if j < i {
                        -before[j]
                    } else {
                        before[j] as int
                    },
            decreases before.len() - i,
        {
            let v = self.data[i];
            self.data.set(i, -v);
            i += 1;
        }
        proof {
            let n = self.color_count as int;
            assert forall|x: int, y: int| 0 <= x < n && 0 <= y < n implies 0 <= #[trigger] (x + y * n) < n * n by {
                Self::lemma_index(x, y, n);
            }
        }
    }

    /// Grows the matrix by one color. Existing cells keep their values; the
    /// new row and column are filled by the matrix's rule at the new width.
    pub fn expand(&mut self)
        requires
            old(self).wf(),
            (old(self).count() + 1) * (old(self).count() + 1) <= usize::MAX,
        ensures
            final(self).wf(),
            final(self).is_expansion_of(*old(self)),
    {
        let n = self.color_count;
        proof {
            assert(n + 1 <= (n + 1) * (n + 1)) by (nonlinear_arith)
                requires
                    n >= 1,
            ;
        }
        let m = n + 1;
        let total = m * m;
        let mut data: Vec<i32> = Vec::with_capacity(total);
        let mut i: usize = 0;
        while i < total
            invariant
                *self == *old(self),
                self.wf(),
                n == self.color_count,
                m == n + 1,
                total == m * m,
                i <= total,
                data@.len() == i,
                forall|j: int|
                    0 <= j < i ==> valid_coef(#[trigger] data@[j] as int) && if (j % (m as int)) < (n as int)
                        && (j / (m as int)) < (n as int) {
                        data@[j] == self.cell(j % m as int, j / m as int)
                    } else {
                        self.matrix_type.admits(j % m as int, j / m as int, m as int, data@[j] as int)
                    },
            decreases total - i,
        {
            proof {
                Self::lemma_split(i as int, m as int);
                assert(i / m < m) by (nonlinear_arith)
                    requires
                        i < m * m,
                        i == i % m + (i / m) * m,
                        0 <= i % m,
                        m > 0,
                ;
            }
            let x = i % m;
            let y = i / m;
            let v = if x < n && y < n {
                proof {
                    Self::lemma_index(x as int, y as int, n as int);
                }
                self.data[x + y * n]
            } else {
                self.matrix_type.force(x, y, m)
            };
            data.push(v);
            i += 1;
        }
        let ghost prev = *self;
        self.data = data;
        self.color_count = m;
        proof {
            assert forall|x: int, y: int| 0 <= x < m && 0 <= y < m implies 0 <= #[trigger] (x + y * m) < m * m
                && (x + y * m) % (m as int) == x && (x + y * m) / (m as int) == y by {
                Self::lemma_index(x, y, m as int);
                Self::lemma_unsplit(x, y, m as int);
            }
            assert(self.cell(0, 0) == self.data@[0]);
        }
    }

    /// Drops the last color, keeping every surviving cell; a one-color matrix
    /// stays as it is.
    pub fn shrink(&mut self)
        requires
            old(self).wf(),
        ensures
            final(self).wf(),
            final(self).is_shrink_of(*old(self)),
    {
        if self.color_count > 1 {
            let n = self.color_count;
            let m = n - 1;
            proof {
                assert(m * m <= n * n) by (nonlinear_arith)
                    requires
                        m < n,
                        0 <= m,
                ;
            }
            let total = m * m;
            let mut data: Vec<i32> = Vec::with_capacity(total);
            let mut i: usize = 0;
            while i < total
                invariant
                    *self == *old(self),
                    self.wf(),
                    n == self.color_count,
                    m == n - 1,
                    m >= 1,
                    total == m * m,
                    i <= total,
                    data@.len() == i,
                    forall|j: int|
                        0 <= j < i ==> valid_coef(#[trigger] data@[j] as int) && data@[j] == self.cell(
                            j % m as int,
                            j / m as int,
                        ),
                decreases total - i,
            {
                proof {
                    Self::lemma_split(i as int, m as int);
                    assert(i / m < m) by (nonlinear_arith)
                        requires
                            i < m * m,
                            i == i % m + (i / m) * m,
                            0 <= i % m,
                            m > 0,
                    ;
                    Self::lemma_index((i % m) as int, (i / m) as int, n as int);
                }
                let x = i % m;
                let y = i / m;
                data.push(self.data[x + y * n]);
                i += 1;
            }
            self.data = data;
            self.color_count = m;
            proof {
                assert forall|x: int, y: int| 0 <= x < m && 0 <= y < m implies 0 <= #[trigger] (x + y * m)
                    < m * m && (x + y * m) % (m as int) == x && (x + y * m) / (m as int) == y by {
                    Self::lemma_index(x, y, m as int);
                    Self::lemma_unsplit(x, y, m as int);
                }
            }
        }
    }

    /// Rotates the table cyclically by `amount` cells: after a column shift
    /// cell `(x, y)` holds what `((x + amount) mod n, y)` held, after a row
    /// shift what `(x, (y + amount) mod n)` held.
    pub fn shift_matrix(&mut self, shift_type: ForceShiftType, amount: isize)
        requires
            old(self).wf(),
        ensures
            final(self).wf(),
            final(self).count() == old(self).count(),
            final(self).kind() == old(self).kind(),
            forall|x: int, y: int|
                0 <= x < final(self).count() && 0 <= y < final(self).count() ==> #[trigger] final(self).cell(x, y)
                    == match shift_type {
                    ForceShiftType::Column => old(self).cell(
                        cyc(x + amount, old(self).count() as int),
                        y,
                    ),
                    ForceShiftType::Row => old(self).cell(
                        x,
                        cyc(y + amount, old(self).count() as int),
                    ),
                },
    {
        let n = self.color_count;
        let a = rem_euclid(amount, n);
        let total = n * n;
        let mut data: Vec<i32> = Vec::with_capacity(total);
        let mut i: usize = 0;
        while i < total
            invariant
                *self == *old(self),
                self.wf(),
                n == self.color_count,
                a == (amount as int) % (n as int),
                total == n * n,
                i <= total,
                data@.len() == i,
                forall|j: int|
                    0 <= j < i ==> valid_coef(#[trigger] data@[j] as int) && data@[j] == match shift_type {
                        ForceShiftType::Column => self.cell(cyc(j % n as int + amount, n as int), j / n as int),
                        ForceShiftType::Row => self.cell(j % n as int, cyc(j / n as int + amount, n as int)),
                    },
            decreases total - i,
        {
            proof {
                Self::lemma_split(i as int, n as int);
                assert(i / n < n) by (nonlinear_arith)
                    requires
                        i < n * n,
                        i == i % n + (i / n) * n,
                        0 <= i % n,
                        n > 0,
                ;
            }
            let x = i % n;
            let y = i / n;
            proof {
                assert(n + n <= usize::MAX) by (nonlinear_arith)
                    requires
                        n * n <= usize::MAX,
                        n >= 1,
                        usize::MAX >= 0xffff_ffff,
                ;
            }
            let (sx, sy) = match shift_type {
                ForceShiftType::Column => ((x + a) % n, y),
                ForceShiftType::Row => (x, (y + a) % n),
            };
            proof {
                vstd::arithmetic::div_mod::lemma_add_mod_noop(x as int, amount as int, n as int);
                vstd::arithmetic::div_mod::lemma_add_mod_noop(y as int, amount as int, n as int);
                vstd::arithmetic::div_mod::lemma_small_mod(x as nat, n as nat);
                vstd::arithmetic::div_mod::lemma_small_mod(y as nat, n as nat);
                Self::lemma_index(sx as int, sy as int, n as int);
            }
            data.push(self.data[sx + sy * n]);
            i += 1;
        }
        self.data = data;
        proof {
            assert forall|x: int, y: int| 0 <= x < n && 0 <= y < n implies 0 <= #[trigger] (x + y * n) < n * n
                && (x + y * n) % (n as int) == x && (x + y * n) / (n as int) == y by {
                Self::lemma_index(x, y, n as int);
                Self::lemma_unsplit(x, y, n as int);
            }
        }
    }
}

/// The Euclidean remainder of `a` by `n`.
fn rem_euclid(a: isize, n: usize) -> (r: usize)
    requires
        n > 0,
    ensures
        r == (a as int) % (n as int),
        r < n,
{
    if a >= 0 {
        (a as usize) % n
    } else {
        let k: usize = ((0i128 - a as i128) as u128 % n as u128) as usize;
        let ghost q = (-a) / (n as int);
        proof {
            assert(k == (-a) % (n as int));
            vstd::arithmetic::div_mod::lemma_fundamental_div_mod(-a, n as int);
            assert(a == (-q) * n - k) by (nonlinear_arith)
                requires
                    -a == n * q + k,
            ;
            assert(a == (-q - 1) * n + (n - k)) by (nonlinear_arith)
                requires
                    a == (-q) * n - k,
            ;
        }
        if k == 0 {
            proof {
                vstd::arithmetic::div_mod::lemma_fundamental_div_mod_converse(a as int, n as int, -q, 0);
            }
            0
        } else {
            let r = n - k;
            proof {
                vstd::arithmetic::div_mod::lemma_fundamental_div_mod_converse(a as int, n as int, -q - 1, r as int);
            }
            r
        }
    }
}


/// Two matrices filled by the same deterministic rule at the same width hold
/// the same coefficients in every cell.
pub proof fn lemma_generation_is_deterministic(a: ForceMatrix, b: ForceMatrix)
    requires
        a.wf(),
        b.wf(),
        a.generated(),
        b.generated(),
        a.kind() == b.kind(),
        a.kind().is_deterministic(),
        a.count() == b.count(),
    ensures
        forall|x: int, y: int|
            0 <= x < a.count() && 0 <= y < a.count() ==> #[trigger] a.cell(x, y) == b.cell(x, y),
{
    assert forall|x: int, y: int| 0 <= x < a.count() && 0 <= y < a.count() implies #[trigger] a.cell(x, y)
        == b.cell(x, y) by {
        assert(a.kind().admits(x, y, a.count() as int, a.cell(x, y)));
        assert(b.kind().admits(x, y, b.count() as int, b.cell(x, y)));
    }
}

/// Growing a matrix by one color and then dropping that color gives back the
/// starting matrix, cell for cell.
pub proof fn lemma_expand_then_shrink(m: ForceMatrix, grown: ForceMatrix, back: ForceMatrix)
    requires
        m.wf(),
        grown.is_expansion_of(m),
        back.is_shrink_of(grown),
    ensures
        back.count() == m.count(),
        back.kind() == m.kind(),
        forall|x: int, y: int|
            0 <= x < m.count() && 0 <= y < m.count() ==> #[trigger] back.cell(x, y) == m.cell(x, y),
{
    assert forall|x: int, y: int| 0 <= x < m.count() && 0 <= y < m.count() implies #[trigger] back.cell(x, y)
        == m.cell(x, y) by {
        assert(back.cell(x, y) == grown.cell(x, y));
        assert(grown.cell(x, y) == m.cell(x, y));
    }
}

/// The text of a matrix is well formed, and reading it back gives its
/// coefficients in row-major order, so pasting what was copied restores
/// every cell.
pub proof fn lemma_copy_then_paste(m: ForceMatrix)
    requires
        m.wf(),
    ensures
        text_reads(m.text()),
        text_cells(m.text()).len() == m.count() * m.count(),
        forall|x: int, y: int|
            0 <= x < m.count() && 0 <= y < m.count() ==> #[trigger] text_cells(m.text())[x + y * m.count()]
                == m.cell(x, y),
{
    let n = m.count() as int;
    let rows = Seq::new(m.count(), |y: int| m.row_text(y));
    assert forall|y: int| 0 <= y < n implies free_of(#[trigger] rows[y], NEWLINE) && line_cells(split(rows[y], COMMA))
        == Seq::new(m.count(), |x: int| m.cell(x, y) as i32) && parts_read(split(rows[y], COMMA)) by {
        let cells = Seq::new(m.count(), |x: int| format_coef(m.cell(x, y)));
        assert forall|x: int| 0 <= x < n implies free_of(#[trigger] cells[x], COMMA) && free_of(cells[x], NEWLINE)
            && parse_coef_of(cells[x], m.cell(x, y)) by {
            m.lemma_coef_valid(x, y);
            lemma_parse_format(m.cell(x, y));
        }
        lemma_join_free(cells, COMMA, n, NEWLINE);
        lemma_split_join(cells, COMMA, n);
        assert(cells.subrange(0, n) == cells);
        let vals = Seq::new(m.count(), |x: int| m.cell(x, y) as i32);
        lemma_line_cells_all(cells, vals);
    }
    lemma_split_join(rows, NEWLINE, n);
    assert(rows.subrange(0, n) == rows);
    lemma_lines_cells_uniform(rows, n);
    lemma_lines_read_all(rows);
    assert forall|x: int, y: int| 0 <= x < n && 0 <= y < n implies #[trigger] text_cells(m.text())[x + y * n]
        == m.cell(x, y) by {
        m.lemma_coef_valid(x, y);
        assert(line_cells(split(rows[y], COMMA))[x] == m.cell(x, y) as i32);
    }
}

/// Whether the text `s` reads as the coefficient `v`.
spec fn parse_coef_of(s: Seq<u8>, v: int) -> bool {
    crate::text::parse_coef(s) == Some(v as i32)
}

} // verus!
