//! Integer geometry: clamping, truncating division, integer square roots and
//! the two exit tests (leaving the viewport, hitting a planet).

use vstd::prelude::*;

verus! {

/// Largest magnitude of a coordinate; positions are clamped to it.
pub const COORD_MAX: i64 = 1073741824;

/// Largest magnitude of a velocity component; velocities are clamped to it.
pub const VEL_MAX: i64 = 1099511627776;

/// Number of time units (microseconds) in one second.
pub const TICKS_PER_SECOND: u64 = 1000000;

/// `v` limited to `[-m, m]`.
pub open spec fn clamp(v: int, m: int) -> int {
    if v > m {
        m
    } else if v < -m {
        -m
    } else {
        v
    }
}

/// Division rounding toward zero, as machine division does.
pub open spec fn tdiv(a: int, b: int) -> int {
    if a >= 0 {
        a / b
    } else {
        -((-a) / b)
    }
}

pub open spec fn is_floor_sqrt(r: int, n: int) -> bool {
    0 <= r && r * r <= n && n < (r + 1) * (r + 1)
}

/// The integer square root of `n`, rounded down.
pub open spec fn isqrt(n: int) -> int {
    choose|r: int| #[trigger] is_floor_sqrt(r, n)
}

/// A body of radius `r` centred at `(x, y)` lies wholly outside the
/// rectangle `[0, w] x [0, h]`.
pub open spec fn is_outside(x: int, y: int, r: int, w: int, h: int) -> bool {
    x + r < 0 || y + r < 0 || x - r > w || y - r > h
}

/// Two discs touch: the distance between their centres is below the sum of
/// their radii (compared squared, which is exact for non-negative radii).
pub open spec fn discs_overlap(x1: int, y1: int, r1: int, x2: int, y2: int, r2: int) -> bool {
    (x1 - x2) * (x1 - x2) + (y1 - y2) * (y1 - y2) < (r1 + r2) * (r1 + r2)
}

proof fn lemma_floor_sqrt_unique(r: int, s: int, n: int)
    requires
        is_floor_sqrt(r, n),
        is_floor_sqrt(s, n),
    ensures
        r == s,
{
    if r < s {
        assert((r + 1) * (r + 1) <= s * s) by (nonlinear_arith)
            requires
                0 <= r,
                r + 1 <= s,
        ;
    } else if s < r {
        assert((s + 1) * (s + 1) <= r * r) by (nonlinear_arith)
            requires
                0 <= s,
                s + 1 <= r,
        ;
    }
}

/// A witness of the floor square root is the one `isqrt` names.
pub proof fn lemma_isqrt(r: int, n: int)
    requires
        is_floor_sqrt(r, n),
    ensures
        isqrt(n) == r,
{
    let s = isqrt(n);
    assert(is_floor_sqrt(s, n));
    lemma_floor_sqrt_unique(r, s, n);
}

/// Every non-negative integer has a floor square root.
pub proof fn lemma_isqrt_exists(n: int)
    requires
        n >= 0,
    ensures
        is_floor_sqrt(isqrt(n), n),
{
    lemma_floor_sqrt_exists(n);
}

proof fn lemma_floor_sqrt_exists(n: int)
    requires
        n >= 0,
    ensures
        exists|r: int| #[trigger] is_floor_sqrt(r, n),
    decreases n,
{
    if n == 0 {
        assert(is_floor_sqrt(0, 0));
    } else {
        lemma_floor_sqrt_exists(n - 1);
        let r = choose|r: int| #[trigger] is_floor_sqrt(r, n - 1);
        if (r + 1) * (r + 1) <= n {
            assert((r + 2) * (r + 2) > n) by (nonlinear_arith)
                requires
                    0 <= r,
                    n - 1 < (r + 1) * (r + 1),
            ;
            assert(is_floor_sqrt(r + 1, n));
        } else {
            assert(is_floor_sqrt(r, n));
        }
    }
}

/// Integer square root, rounded down, of a value below 2^126.
pub fn floor_sqrt(n: u128) -> (r: u64)
    requires
        n < 0x4000_0000_0000_0000_0000_0000_0000_0000,
    ensures
        is_floor_sqrt(r as int, n as int),
        r == isqrt(n as int),
        r <= 0x8000_0000_0000_0000,
        n < 0x1_0000_0000_0000_0000 ==> r <= 0x1_0000_0000,
{
    let mut lo: u128 = 0;
    let mut hi: u128 = 0x8000_0000_0000_0000;
    assert(hi * hi == 0x4000_0000_0000_0000_0000_0000_0000_0000) by (nonlinear_arith)
        requires
            hi == 0x8000_0000_0000_0000,
    ;
    while hi - lo > 1
        invariant
            lo < hi <= 0x8000_0000_0000_0000,
            lo * lo <= n,
            n < hi * hi,
        decreases hi - lo,
    {
        let mid: u128 = lo + (hi - lo) / 2;
        assert(mid * mid <= 0x4000_0000_0000_0000_0000_0000_0000_0000) by (nonlinear_arith)
            requires
                mid <= 0x8000_0000_0000_0000,
        ;
        if mid * mid <= n {
            lo = mid;
        } else {
            hi = mid;
        }
    }
    assert(is_floor_sqrt(lo as int, n as int));
    proof {
        lemma_isqrt(lo as int, n as int);
        if n < 0x1_0000_0000_0000_0000 && lo > 0x1_0000_0000 {
            assert(lo * lo > 0x1_0000_0000_0000_0000) by (nonlinear_arith)
                requires
                    lo > 0x1_0000_0000,
            ;
        }
    }
    lo as u64
}

proof fn lemma_square_bound(d: int)
    requires
        -0x8000_0000 <= d <= 0x8000_0000,
    ensures
        0 <= d * d <= 0x4000_0000_0000_0000,
{
    assert(0 <= d * d <= 0x4000_0000_0000_0000) by (nonlinear_arith)
        requires
            -0x8000_0000 <= d <= 0x8000_0000,
    ;
}

/// The body is wholly outside the viewport on some side.
pub fn outside(x: i64, y: i64, radius: i64, width: i64, height: i64) -> (r: bool)
    requires
        -COORD_MAX <= x <= COORD_MAX,
        -COORD_MAX <= y <= COORD_MAX,
        0 <= radius <= COORD_MAX,
        0 <= width <= COORD_MAX,
        0 <= height <= COORD_MAX,
    ensures
        r == is_outside(x as int, y as int, radius as int, width as int, height as int),
{
    x + radius < 0 || y + radius < 0 || x - radius > width || y - radius > height
}

/// The two discs overlap.
pub fn overlap(x1: i64, y1: i64, r1: i64, x2: i64, y2: i64, r2: i64) -> (r: bool)
    requires
        -COORD_MAX <= x1 <= COORD_MAX,
        -COORD_MAX <= y1 <= COORD_MAX,
        -COORD_MAX <= x2 <= COORD_MAX,
        -COORD_MAX <= y2 <= COORD_MAX,
        0 <= r1 <= COORD_MAX,
        0 <= r2 <= COORD_MAX,
    ensures
        r == discs_overlap(x1 as int, y1 as int, r1 as int, x2 as int, y2 as int, r2 as int),
{
    let dx: i128 = x1 as i128 - x2 as i128;
    let dy: i128 = y1 as i128 - y2 as i128;
    let rs: i128 = r1 as i128 + r2 as i128;
    proof {
        lemma_square_bound(dx as int);
        lemma_square_bound(dy as int);
        lemma_square_bound(rs as int);
    }
    dx * dx + dy * dy < rs * rs
}

} // verus!
