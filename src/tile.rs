//! Tile coordinates and the fixed-point Euclidean distance between tiles.

use vstd::prelude::*;

verus! {

/// Weights are Euclidean tile distances in fixed point: one tile is this many units.
pub const DISTANCE_SCALE: u64 = 256;

/// A position on the tile grid.
#[derive(Clone, Copy, Debug, PartialEq, Eq, Structural)]
pub struct Tile {
    pub x: i32,
    pub y: i32,
}

pub open spec fn clamp_int(v: int, lo: int, hi: int) -> int {
    if v < lo {
        lo
    } else if v > hi {
        hi
    } else {
        v
    }
}

/// Squared Euclidean distance between two tiles.
pub open spec fn dist_sq(a: Tile, b: Tile) -> nat {
    let dx = a.x - b.x;
    let dy = a.y - b.y;
    (dx * dx + dy * dy) as nat
}

/// `r` is the integer square root of `n`.
pub open spec fn is_isqrt(n: nat, r: nat) -> bool {
    r * r <= n && n < (r + 1) * (r + 1)
}

pub open spec fn isqrt(n: nat) -> nat {
    choose|r: nat| is_isqrt(n, r)
}

/// Euclidean distance between two tiles, in units of `1 / DISTANCE_SCALE` tile, rounded down.
pub open spec fn tile_distance(a: Tile, b: Tile) -> nat {
    isqrt((dist_sq(a, b) * (DISTANCE_SCALE * DISTANCE_SCALE)) as nat)
}

pub proof fn lemma_isqrt_unique(n: nat, r1: nat, r2: nat)
    requires
        is_isqrt(n, r1),
        is_isqrt(n, r2),
    ensures
        r1 == r2,
{
    if r1 < r2 {
        assert((r1 + 1) * (r1 + 1) <= r2 * r2) by (nonlinear_arith)
            requires
                r1 < r2,
        ;
    } else if r2 < r1 {
        assert((r2 + 1) * (r2 + 1) <= r1 * r1) by (nonlinear_arith)
            requires
                r2 < r1,
        ;
    }
}

/// Distances between distinct tiles are at least one full tile.
pub proof fn lemma_tile_distance_positive(a: Tile, b: Tile)
    requires
        a != b,
    ensures
        tile_distance(a, b) >= DISTANCE_SCALE,
{
    let n = (dist_sq(a, b) * (DISTANCE_SCALE * DISTANCE_SCALE)) as nat;
    let dx = a.x - b.x;
    let dy = a.y - b.y;
    assert(dx * dx + dy * dy >= 1) by (nonlinear_arith)
        requires
            dx != 0 || dy != 0,
    ;
    assert(n >= DISTANCE_SCALE * DISTANCE_SCALE) by (nonlinear_arith)
        requires
            n == (dx * dx + dy * dy) * (DISTANCE_SCALE * DISTANCE_SCALE),
            dx * dx + dy * dy >= 1,
    ;
    let r = isqrt(n);
    lemma_isqrt_exists(n);
    assert(r >= DISTANCE_SCALE) by (nonlinear_arith)
        requires
            n >= DISTANCE_SCALE * DISTANCE_SCALE,
            n < (r + 1) * (r + 1),
    ;
}

pub proof fn lemma_isqrt_exists(n: nat)
    ensures
        is_isqrt(n, isqrt(n)),
{
    let r = isqrt_witness(n);
    assert(is_isqrt(n, r));
}

proof fn isqrt_witness(n: nat) -> (r: nat)
    ensures
        is_isqrt(n, r),
    decreases n,
{
    if n == 0 {
        assert(is_isqrt(0, 0)) by (nonlinear_arith);
        0
    } else {
        let p = isqrt_witness((n - 1) as nat);
        if (p + 1) * (p + 1) <= n {
            assert(n < (p + 2) * (p + 2)) by (nonlinear_arith)
                requires
                    n - 1 < (p + 1) * (p + 1),
            ;
            (p + 1) as nat
        } else {
            p
        }
    }
}

/// Integer square root by bisection.
fn isqrt_u128(n: u128) -> (r: u64)
    requires
        n < 0x1_0000_0000_0000_0000_0000_0000,
    ensures
        is_isqrt(n as nat, r as nat),
{
    let mut lo: u128 = 0;
    let mut hi: u128 = 0x1_0000_0000_0000;
    assert(n < hi * hi) by (nonlinear_arith)
        requires
            hi == 0x1_0000_0000_0000u128,
            n < 0x1_0000_0000_0000_0000_0000_0000,
    ;
    while hi - lo > 1
        invariant
            lo < hi <= 0x1_0000_0000_0000,
            lo * lo <= n,
            n < hi * hi,
        decreases hi - lo,
    {
        let mid: u128 = lo + (hi - lo) / 2;
        assert(mid * mid <= 0x1_0000_0000_0000_0000_0000_0000) by (nonlinear_arith)
            requires
                mid <= 0x1_0000_0000_0000,
        ;
        if mid * mid <= n {
            lo = mid;
        } else {
            hi = mid;
        }
    }
    assert(hi == lo + 1);
    lo as u64
}

impl Tile {
    pub fn new(x: i32, y: i32) -> (r: Tile)
        ensures
            r.x == x,
            r.y == y,
    {
        Tile { x, y }
    }

    /// Squared Euclidean distance to `other`.
    pub fn distance_squared(&self, other: &Tile) -> (r: u128)
        ensures
            r == dist_sq(*self, *other),
            r <= 0x2_0000_0000_0000_0000,
    {
        let dx: i64 = self.x as i64 - other.x as i64;
        let dy: i64 = self.y as i64 - other.y as i64;
        let ax: u128 = if dx < 0 { (-dx) as u128 } else { dx as u128 };
        let ay: u128 = if dy < 0 { (-dy) as u128 } else { dy as u128 };
        assert(ax * ax == dx * dx && ay * ay == dy * dy) by (nonlinear_arith)
            requires
                ax == dx || ax == -dx,
                ay == dy || ay == -dy,
        ;
        assert(ax * ax <= 0x1_0000_0000_0000_0000 && ay * ay <= 0x1_0000_0000_0000_0000)
            by (nonlinear_arith)
            requires
                ax <= 0x1_0000_0000,
                ay <= 0x1_0000_0000,
        ;
        ax * ax + ay * ay
    }

    /// Euclidean distance to `other` in fixed point (see `DISTANCE_SCALE`).
    pub fn distance(&self, other: &Tile) -> (r: u64)
        ensures
            r == tile_distance(*self, *other),
            r < 0x400_0000_0000,
    {
        let d = self.distance_squared(other);
        assert(d * 0x1_0000 <= 0x2_0000_0000_0000_0000 * 0x1_0000) by (nonlinear_arith)
            requires
                d <= 0x2_0000_0000_0000_0000,
        ;
        let scale: u128 = DISTANCE_SCALE as u128;
        assert(scale == 256);
        assert(scale * scale == 0x1_0000) by (nonlinear_arith)
            requires
                scale == 256,
        ;
        let n: u128 = d * (scale * scale);
        let r = isqrt_u128(n);
        proof {
            lemma_isqrt_exists(n as nat);
            lemma_isqrt_unique(n as nat, r as nat, isqrt(n as nat));
            assert(r < 0x400_0000_0000) by (nonlinear_arith)
                requires
                    r * r <= n,
                    n <= 0x2_0000_0000_0000_0000 * 0x1_0000,
            ;
        }
        r
    }
}

} // verus!
