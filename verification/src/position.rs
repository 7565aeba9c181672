//! Integer 3-dimensional coordinates and the crate's distance metric:
//! the floor of the Euclidean distance, computed by a verified integer
//! square root.

use vstd::prelude::*;

verus! {

/// Largest coordinate magnitude that the distance computation accepts;
/// it keeps every intermediate square sum inside `u128`.
pub const COORD_LIMIT: i64 = 576460752303423488;

/// An upper bound on the distance between any two in-range positions.
pub const DIST_MAX: u64 = 2305843009213693952;

pub open spec fn sq(x: int) -> int {
    x * x
}

/// The floor of the square root of `s`: the unique `r` with
/// `r * r <= s < (r + 1) * (r + 1)`.
pub open spec fn sqrt_floor(s: nat) -> nat
    decreases s,
{
    if s == 0 {
        0
    } else {
        let r = sqrt_floor((s - 1) as nat);
        if sq(r as int + 1) <= s {
            r + 1
        } else {
            r
        }
    }
}

pub proof fn lemma_sqrt_floor_bounds(s: nat)
    ensures
        sq(sqrt_floor(s) as int) <= s < sq(sqrt_floor(s) as int + 1),
    decreases s,
{
    if s == 0 {
        assert(sqrt_floor(0) == 0);
        assert(sq(1) == 1) by (nonlinear_arith) {}
    } else {
        lemma_sqrt_floor_bounds((s - 1) as nat);
        let r = sqrt_floor((s - 1) as nat);
        assert(sq(r as int) <= s - 1 < sq(r as int + 1));
        if sq(r as int + 1) <= s {
            assert(sqrt_floor(s) == r + 1);
            assert(sq(r as int + 1) == s);
            assert(sq(r as int + 2) > s) by (nonlinear_arith)
                requires
                    sq(r as int + 1) == s,
                    r >= 0,
            {
            }
            assert(sq(sqrt_floor(s) as int) <= s < sq(sqrt_floor(s) as int + 1));
        } else {
            assert(sqrt_floor(s) == r);
            assert(sq(sqrt_floor(s) as int) <= s < sq(sqrt_floor(s) as int + 1));
        }
    }
}

pub proof fn lemma_sqrt_floor_unique(s: nat, r: nat)
    requires
        sq(r as int) <= s < sq(r as int + 1),
    ensures
        r == sqrt_floor(s),
{
    lemma_sqrt_floor_bounds(s);
    let f = sqrt_floor(s);
    if r < f {
        assert(sq(r as int + 1) <= sq(f as int)) by (nonlinear_arith)
            requires
                r as int + 1 <= f as int,
            {
            }
    } else if f < r {
        assert(sq(f as int + 1) <= sq(r as int)) by (nonlinear_arith)
            requires
                f as int + 1 <= r as int,
            {
            }
    }
}

/// The floor of the square root, computed by binary search.
pub fn isqrt(s: u128) -> (r: u64)
    ensures
        r == sqrt_floor(s as nat),
{
    let mut lo: u128 = 0;
    let mut hi: u128 = 0x10000000000000000;
    proof {
        assert(sq(0x10000000000000000) > u128::MAX as int) by (nonlinear_arith) {}
    }
    while lo + 1 < hi
        invariant
            lo < hi <= 0x10000000000000000,
            sq(lo as int) <= s as int,
            (s as int) < sq(hi as int),
        decreases hi - lo,
    {
        let mid = lo + (hi - lo) / 2;
        proof {
            assert(mid * mid <= u128::MAX) by (nonlinear_arith)
                requires
                    mid < 0x10000000000000000,
            {
            }
        }
        if mid * mid <= s {
            lo = mid;
        } else {
            hi = mid;
        }
    }
    proof {
        lemma_sqrt_floor_unique(s as nat, lo as nat);
    }
    lo as u64
}

/// An immutable 3-dimensional coordinate.
#[derive(Debug, Clone, Copy, PartialEq, Eq, Structural)]
pub struct Position {
    pub x: i64,
    pub y: i64,
    pub z: i64,
}

/// The squared Euclidean distance between two positions.
pub open spec fn dist_sq(a: Position, b: Position) -> int {
    sq(a.x - b.x) + sq(a.y - b.y) + sq(a.z - b.z)
}

/// The distance metric of the whole crate: the floor of the Euclidean
/// distance between two positions.
pub open spec fn dist(a: Position, b: Position) -> int {
    sqrt_floor(dist_sq(a, b) as nat) as int
}

pub proof fn lemma_dist_sq_nonneg(a: Position, b: Position)
    ensures
        dist_sq(a, b) >= 0,
        dist_sq(a, b) == 0 <==> a == b,
{
    assert(sq(a.x - b.x) >= 0 && (sq(a.x - b.x) == 0 <==> a.x == b.x)) by (nonlinear_arith) {}
    assert(sq(a.y - b.y) >= 0 && (sq(a.y - b.y) == 0 <==> a.y == b.y)) by (nonlinear_arith) {}
    assert(sq(a.z - b.z) >= 0 && (sq(a.z - b.z) == 0 <==> a.z == b.z)) by (nonlinear_arith) {}
}

/// The distance is symmetric, never negative, and zero exactly on equal
/// coordinate triples.
pub proof fn lemma_dist_metric(a: Position, b: Position)
    ensures
        dist(a, b) == dist(b, a),
        dist(a, b) >= 0,
        dist(a, b) == 0 <==> a == b,
        dist(a, a) == 0,
{
    lemma_dist_sq_nonneg(a, b);
    assert(dist_sq(a, b) == dist_sq(b, a)) by (nonlinear_arith) {}
    lemma_sqrt_floor_bounds(dist_sq(a, b) as nat);
    if dist_sq(a, b) > 0 {
        assert(sqrt_floor(dist_sq(a, b) as nat) > 0) by {
            if sqrt_floor(dist_sq(a, b) as nat) == 0 {
                assert(sq(1) == 1);
            }
        }
    }
    lemma_dist_sq_nonneg(a, a);
}

pub proof fn lemma_dist_bound(a: Position, b: Position)
    requires
        a.wf(),
        b.wf(),
    ensures
        0 <= dist(a, b) <= DIST_MAX,
{
    lemma_dist_sq_nonneg(a, b);
    assert(dist_sq(a, b) < sq(DIST_MAX + 1)) by (nonlinear_arith)
        requires
            -COORD_LIMIT <= a.x <= COORD_LIMIT,
            -COORD_LIMIT <= a.y <= COORD_LIMIT,
            -COORD_LIMIT <= b.x <= COORD_LIMIT,
            -COORD_LIMIT <= b.y <= COORD_LIMIT,
            -COORD_LIMIT <= a.z <= COORD_LIMIT,
            -COORD_LIMIT <= b.z <= COORD_LIMIT,
    {
    }
    lemma_sqrt_floor_bounds(dist_sq(a, b) as nat);
    let r = sqrt_floor(dist_sq(a, b) as nat);
    if r > DIST_MAX {
        assert(sq(DIST_MAX + 1) <= sq(r as int)) by (nonlinear_arith)
            requires
                DIST_MAX + 1 <= r as int,
            {
            }
    }
}

impl Position {
    /// All coordinates are small enough for the distance computation.
    pub open spec fn wf(self) -> bool {
        &&& -COORD_LIMIT <= self.x <= COORD_LIMIT
        &&& -COORD_LIMIT <= self.y <= COORD_LIMIT
        &&& -COORD_LIMIT <= self.z <= COORD_LIMIT
    }

    pub fn new(x: i64, y: i64, z: i64) -> (r: Self)
        requires
            -COORD_LIMIT <= x <= COORD_LIMIT,
            -COORD_LIMIT <= y <= COORD_LIMIT,
            -COORD_LIMIT <= z <= COORD_LIMIT,
        ensures
            r == (Position { x, y, z }),
            r.wf(),
    {
        Position { x, y, z }
    }

    /// The origin.
    pub fn zero() -> (r: Self)
        ensures
            r == (Position { x: 0i64, y: 0i64, z: 0i64 }),
            r.wf(),
    {
        Position { x: 0, y: 0, z: 0 }
    }

    /// The distance between `a` and `b`.
    pub fn distance(a: &Self, b: &Self) -> (r: u64)
        requires
            a.wf(),
            b.wf(),
        ensures
            r == dist(*a, *b),
            r <= DIST_MAX,
    {
        let dx = (a.x as i128) - (b.x as i128);
        let dy = (a.y as i128) - (b.y as i128);
        let dz = (a.z as i128) - (b.z as i128);
        proof {
            assert(0 <= dx * dx <= sq(2 * COORD_LIMIT as int) && dx * dx == sq(a.x - b.x))
                by (nonlinear_arith)
                requires
                    dx == a.x - b.x,
                    -2 * COORD_LIMIT as int <= dx <= 2 * COORD_LIMIT as int,
            {
            }
            assert(0 <= dy * dy <= sq(2 * COORD_LIMIT as int) && dy * dy == sq(a.y - b.y))
                by (nonlinear_arith)
                requires
                    dy == a.y - b.y,
                    -2 * COORD_LIMIT as int <= dy <= 2 * COORD_LIMIT as int,
            {
            }
            assert(0 <= dz * dz <= sq(2 * COORD_LIMIT as int) && dz * dz == sq(a.z - b.z))
                by (nonlinear_arith)
                requires
                    dz == a.z - b.z,
                    -2 * COORD_LIMIT as int <= dz <= 2 * COORD_LIMIT as int,
            {
            }
        }
        let sx = (dx * dx) as u128;
        let sy = (dy * dy) as u128;
        let sz = (dz * dz) as u128;
        let s = sx + sy + sz;
        let r = isqrt(s);
        proof {
            lemma_dist_bound(*a, *b);
            lemma_dist_sq_nonneg(*a, *b);
        }
        r
    }

    /// The distance from `self` to `other`.
    pub fn distance_to(&self, other: &Self) -> (r: u64)
        requires
            self.wf(),
            other.wf(),
        ensures
            r == dist(*self, *other),
            r <= DIST_MAX,
    {
        Position::distance(self, other)
    }
}

impl Default for Position {
    /// The origin.
    fn default() -> (r: Self)
        ensures
            r == (Position { x: 0i64, y: 0i64, z: 0i64 }),
    {
        Position { x: 0, y: 0, z: 0 }
    }
}

} // verus!
