use vstd::prelude::*;

verus! {

/// One full turn of the torus, in position units (a coordinate `x` stands for `x / POS_ONE`).
pub const POS_ONE: u64 = 0x1_0000_0000;

/// Half a turn of the torus, in position units.
pub const POS_HALF: i64 = 0x8000_0000;

/// A point on the unit torus.
#[derive(Clone, Copy, Debug, PartialEq, Eq, Structural)]
pub struct Position {
    pub x: u32,
    pub y: u32,
}

/// A signed planar vector (velocity, force or displacement) in position units.
#[derive(Clone, Copy, Debug, PartialEq, Eq, Structural)]
pub struct Vector {
    pub x: i64,
    pub y: i64,
}

impl Vector {
    pub open spec fn is_zero(self) -> bool {
        self.x == 0 && self.y == 0
    }

    /// The zero vector.
    pub fn zero() -> (r: Vector)
        ensures
            r.is_zero(),
    {
        Vector { x: 0, y: 0 }
    }
}

/// `a mod POS_ONE`, the Euclidean remainder: a coordinate back on the torus.
pub open spec fn wrap(a: int) -> int {
    a % (POS_ONE as int)
}

/// The shortest signed displacement from coordinate `a` to coordinate `b` on
/// the torus: `((b - a) + 1/2) mod 1 - 1/2`.
pub open spec fn wrap_delta(a: int, b: int) -> int {
    wrap(b - a + POS_HALF) - POS_HALF
}

/// Division truncated toward zero, as Rust's integer `/` does.
pub open spec fn tdiv(a: int, b: int) -> int {
    if a >= 0 {
        a / b
    } else {
        -((-a) / b)
    }
}

/// `a` clamped into the range of `i64`.
pub open spec fn clamp_i64(a: int) -> int {
    if a > i64::MAX {
        i64::MAX as int
    } else if a < i64::MIN {
        i64::MIN as int
    } else {
        a
    }
}

pub open spec fn is_floor_sqrt(n: int, r: int) -> bool {
    0 <= r && r * r <= n && n < (r + 1) * (r + 1)
}

/// The integer square root: the largest `r` with `r * r <= n`.
pub open spec fn floor_sqrt(n: int) -> int {
    choose|r: int| is_floor_sqrt(n, r)
}

proof fn lemma_floor_sqrt_unique(n: int, r: int, s: int)
    requires
        is_floor_sqrt(n, r),
        is_floor_sqrt(n, s),
    ensures
        r == s,
{
    if r < s {
        assert((r + 1) * (r + 1) <= s * s) by (nonlinear_arith)
            requires
                0 <= r + 1 <= s,
        ;
    } else if s < r {
        assert((s + 1) * (s + 1) <= r * r) by (nonlinear_arith)
            requires
                0 <= s + 1 <= r,
        ;
    }
}

/// Every natural number has a floor square root.
pub proof fn lemma_floor_sqrt_exists(n: int)
    requires
        n >= 0,
    ensures
        is_floor_sqrt(n, floor_sqrt(n)),
    decreases n,
{
    if n == 0 {
        assert(is_floor_sqrt(0, 0));
    } else {
        lemma_floor_sqrt_exists(n - 1);
        let r = floor_sqrt(n - 1);
        if n < (r + 1) * (r + 1) {
            assert(is_floor_sqrt(n, r));
        } else {
            assert(n < (r + 2) * (r + 2)) by (nonlinear_arith)
                requires
                    n - 1 < (r + 1) * (r + 1),
                    r >= 0,
            ;
            assert(is_floor_sqrt(n, r + 1));
        }
    }
}

/// Once any `r` is a floor square root of `n`, it is `floor_sqrt(n)`.
pub proof fn lemma_floor_sqrt(n: int, r: int)
    requires
        is_floor_sqrt(n, r),
    ensures
        floor_sqrt(n) == r,
{
    assert(is_floor_sqrt(n, floor_sqrt(n)));
    lemma_floor_sqrt_unique(n, r, floor_sqrt(n));
}

/// The integer square root of `n`, by bisection.
pub fn isqrt(n: u64) -> (r: u64)
    ensures
        r == floor_sqrt(n as int),
        is_floor_sqrt(n as int, r as int),
        r < POS_ONE,
{
    let mut lo: u64 = 0;
    let mut hi: u64 = 0x1_0000_0000;
    assert(n < hi * hi) by (nonlinear_arith)
        requires
            hi == 0x1_0000_0000u64,
            n <= u64::MAX,
    ;
    while hi - lo > 1
        invariant
            lo < hi <= 0x1_0000_0000,
            lo * lo <= n,
            n < hi * hi,
        decreases hi - lo,
    {
        let mid = lo + (hi - lo) / 2;
        assert(mid * mid < 0x1_0000_0000_0000_0000) by (nonlinear_arith)
            requires
                mid < 0x1_0000_0000,
        ;
        if mid * mid <= n {
            lo = mid;
        } else {
            hi = mid;
        }
    }
    assert(hi == lo + 1);
    proof {
        lemma_floor_sqrt(n as int, lo as int);
    }
    lo
}

/// The shortest signed displacement from `a` to `b` along one axis of the
/// torus, in `[-POS_HALF, POS_HALF)`.
pub fn axis_delta(a: u32, b: u32) -> (r: i64)
    ensures
        r == wrap_delta(a as int, b as int),
        -POS_HALF <= r < POS_HALF,
{
    let d: i64 = (b as i64) - (a as i64) + POS_HALF;
    let m: i64 = if d < 0 {
        d + POS_ONE as i64
    } else if d >= POS_ONE as i64 {
        d - POS_ONE as i64
    } else {
        d
    };
    assert(m == wrap(b - a + POS_HALF)) by {
        let k = b - a + POS_HALF;
        if d < 0 {
            vstd::arithmetic::div_mod::lemma_fundamental_div_mod_converse(k, POS_ONE as int, -1, m as int);
        } else if d >= POS_ONE as i64 {
            vstd::arithmetic::div_mod::lemma_fundamental_div_mod_converse(k, POS_ONE as int, 1, m as int);
        } else {
            vstd::arithmetic::div_mod::lemma_fundamental_div_mod_converse(k, POS_ONE as int, 0, m as int);
        }
    }
    m - POS_HALF
}

/// The shortest displacement from `a` to `b` on the torus.
pub fn displacement(a: Position, b: Position) -> (r: Vector)
    ensures
        r.x == wrap_delta(a.x as int, b.x as int),
        r.y == wrap_delta(a.y as int, b.y as int),
{
    Vector { x: axis_delta(a.x, b.x), y: axis_delta(a.y, b.y) }
}

/// `a / b` rounded toward zero.
pub fn div_toward_zero(a: i128, b: i128) -> (r: i128)
    requires
        b > 0,
        a > i128::MIN,
    ensures
        r == tdiv(a as int, b as int),
{
    if a >= 0 {
        (a as u128 / b as u128) as i128
    } else {
        let q = ((0 - a) as u128 / b as u128) as i128;
        0 - q
    }
}

/// `a` clamped into the range of `i64`.
pub fn saturate(a: i128) -> (r: i64)
    ensures
        r == clamp_i64(a as int),
{
    if a > i64::MAX as i128 {
        i64::MAX
    } else if a < i64::MIN as i128 {
        i64::MIN
    } else {
        a as i64
    }
}

/// The coordinate `a` wrapped back onto the torus.
pub fn wrap_coord(a: i128) -> (r: u32)
    requires
        a > i128::MIN,
    ensures
        r == wrap(a as int),
{
    let one: u128 = 0x1_0000_0000;
    if a >= 0 {
        ((a as u128) % one) as u32
    } else {
        let k: u128 = ((0 - a) as u128) % one;
        let ghost q = (-a) / (POS_ONE as int);
        proof {
            vstd::arithmetic::div_mod::lemma_fundamental_div_mod(-a, POS_ONE as int);
            assert(a == (-q) * POS_ONE - k) by (nonlinear_arith)
                requires
                    -a == POS_ONE * q + k,
            ;
            assert(a == (-q - 1) * POS_ONE + (POS_ONE - k)) by (nonlinear_arith)
                requires
                    a == (-q) * POS_ONE - k,
            ;
        }
        if k == 0 {
            proof {
                vstd::arithmetic::div_mod::lemma_fundamental_div_mod_converse(a as int, POS_ONE as int, -q, 0);
            }
            0
        } else {
            let r = (one - k) as u32;
            proof {
                vstd::arithmetic::div_mod::lemma_fundamental_div_mod_converse(
                    a as int,
                    POS_ONE as int,
                    -q - 1,
                    r as int,
                );
            }
            r
        }
    }
}

/// Wrapping any coordinate lands on the torus: `0 <= wrap(a) < 1` in turns.
pub proof fn lemma_wrap_on_torus(a: int)
    ensures
        0 <= wrap(a) < POS_ONE,
{
    vstd::arithmetic::div_mod::lemma_mod_bound(a, POS_ONE as int);
}

} // verus!
