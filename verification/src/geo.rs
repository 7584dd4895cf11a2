//! Geographic coordinates in fixed-point microdegrees and the integer
//! distance metric used for insertion planning.
//!
//! Coordinates are stored as integer microdegrees so that all planning
//! arithmetic is exact.  The planning metric is the Euclidean distance on
//! the (lat, lon) microdegree grid, computed with an integer square root;
//! it serves as a proxy for the great-circle distance and is only ever
//! compared against other values of itself.  It is not proportional to
//! great-circle distance: a degree of longitude spans less ground toward
//! the poles and no latitude scaling is applied, so rankings can differ
//! from a spherical metric's for east-west detours at high latitude.
//! Road distances are not derived from it: those come from the external
//! geometry provider when segments are materialized.

use vstd::prelude::*;

verus! {

/// One microdegree is a millionth of a degree.
pub const MICRO_PER_DEGREE: i64 = 1_000_000;

/// Largest representable latitude: 90 degrees in microdegrees.
pub const MAX_LAT: i64 = 90_000_000;

/// Largest representable longitude: 180 degrees in microdegrees.
pub const MAX_LON: i64 = 180_000_000;

/// Strict upper bound on the planning distance between two valid
/// coordinates.
pub const MAX_DIST: u64 = 500_000_000;

/// A geographic point, in integer microdegrees.
#[derive(Clone, Copy, Debug, PartialEq, Eq, Structural)]
pub struct Coords {
    /// Latitude in microdegrees, in `-MAX_LAT ..= MAX_LAT`.
    pub lat: i64,
    /// Longitude in microdegrees, in `-MAX_LON ..= MAX_LON`.
    pub lon: i64,
}

impl Coords {
    /// The coordinate lies within the geographic range.
    pub open spec fn valid(self) -> bool {
        &&& -MAX_LAT <= self.lat <= MAX_LAT
        &&& -MAX_LON <= self.lon <= MAX_LON
    }
}

/// Every coordinate of the sequence lies within the geographic range.
pub open spec fn valid_coords_seq(s: Seq<Coords>) -> bool {
    forall|i: int| 0 <= i < s.len() ==> (#[trigger] s[i]).valid()
}

/// The square of an integer.
pub open spec fn sq(x: int) -> int {
    x * x
}

/// Mathematical floor of the square root, defined by counting up.
pub open spec fn isqrt_spec(n: nat) -> nat
    decreases n,
{
    if n == 0 {
        0
    } else {
        let r = isqrt_spec((n - 1) as nat);
        if (r + 1) * (r + 1) <= n {
            (r + 1) as nat
        } else {
            r
        }
    }
}

/// `isqrt_spec(n)` is the unique `r` with `r * r <= n < (r + 1) * (r + 1)`.
pub proof fn lemma_isqrt_bounds(n: nat)
    ensures
        (isqrt_spec(n) as int) * (isqrt_spec(n) as int) <= n as int,
        (n as int) < (isqrt_spec(n) as int + 1) * (isqrt_spec(n) as int + 1),
    decreases n,
{
    if n == 0 {
        assert(isqrt_spec(n) == 0);
        assert((isqrt_spec(n) as int) * (isqrt_spec(n) as int) <= n as int);
        assert((n as int) < (isqrt_spec(n) as int + 1) * (isqrt_spec(n) as int + 1));
    } else {
        lemma_isqrt_bounds((n - 1) as nat);
        let r = isqrt_spec((n - 1) as nat);
        assert((r as int + 1) * (r as int + 1) >= 0) by (nonlinear_arith)
            requires
                r >= 0,
        ;
        if (r + 1) * (r + 1) <= n {
            assert(isqrt_spec(n) == r + 1);
            assert(n - 1 < (r + 1) * (r + 1));
            assert(n == (r + 1) * (r + 1));
            assert((r + 1) * (r + 1) < (r + 2) * (r + 2)) by (nonlinear_arith)
                requires
                    r >= 0,
            ;
            assert((isqrt_spec(n) as int) * (isqrt_spec(n) as int) == (r as int + 1) * (r as int
                + 1));
            assert((isqrt_spec(n) as int) * (isqrt_spec(n) as int) <= n as int);
        } else {
            assert(isqrt_spec(n) == r);
            assert((isqrt_spec(n) as int) * (isqrt_spec(n) as int) <= n as int);
        }
    }
}

/// Any `r` satisfying the square-root bracketing equals `isqrt_spec(n)`.
pub proof fn lemma_isqrt_unique(n: nat, r: nat)
    requires
        (r as int) * (r as int) <= n as int,
        (n as int) < (r as int + 1) * (r as int + 1),
    ensures
        r == isqrt_spec(n),
{
    lemma_isqrt_bounds(n);
    let s = isqrt_spec(n);
    if r < s {
        assert((r + 1) * (r + 1) <= s * s) by (nonlinear_arith)
            requires
                0 <= r,
                r + 1 <= s,
        ;
    } else if s < r {
        assert((s + 1) * (s + 1) <= r * r) by (nonlinear_arith)
            requires
                0 <= s,
                s + 1 <= r,
        ;
    }
}

/// Integer square root by binary search.
pub fn isqrt(n: u64) -> (r: u64)
    ensures
        r as nat == isqrt_spec(n as nat),
        r * r <= n,
{
    let mut lo: u64 = 0;
    let mut hi: u64 = 0xFFFF_FFFF;
    assert((n as int) < (0xFFFF_FFFFu64 + 1) * (0xFFFF_FFFFu64 + 1)) by (nonlinear_arith);
    while lo < hi
        invariant
            lo <= hi <= 0xFFFF_FFFFu64,
            (lo as int) * (lo as int) <= n as int,
            (n as int) < (hi as int + 1) * (hi as int + 1),
        decreases hi - lo,
    {
        let mid: u64 = lo + (hi - lo + 1) / 2;
        proof {
            assert((mid as int) * (mid as int) <= 0xFFFF_FFFFi64 * 0xFFFF_FFFFi64)
                by (nonlinear_arith)
                requires
                    0 <= mid <= 0xFFFF_FFFFu64,
            ;
        }
        let sqv: u128 = (mid as u128) * (mid as u128);
        if sqv <= n as u128 {
            lo = mid;
        } else {
            hi = mid - 1;
        }
    }
    proof {
        lemma_isqrt_unique(n as nat, lo as nat);
    }
    lo
}

/// Squared planning distance between two coordinates, in microdegrees.
pub open spec fn sq_dist(a: Coords, b: Coords) -> int {
    sq(a.lat - b.lat) + sq(a.lon - b.lon)
}

/// Planning distance: Euclidean distance on the microdegree grid,
/// rounded down to an integer.
pub open spec fn dist_spec(a: Coords, b: Coords) -> int {
    isqrt_spec(sq_dist(a, b) as nat) as int
}

/// The planning distance between valid coordinates stays below
/// `MAX_DIST`.
pub proof fn lemma_dist_bound(a: Coords, b: Coords)
    requires
        a.valid(),
        b.valid(),
    ensures
        0 <= dist_spec(a, b) < MAX_DIST,
{
    let dlat = a.lat - b.lat;
    let dlon = a.lon - b.lon;
    assert(0 <= sq(dlat) <= 32_400_000_000_000_000) by (nonlinear_arith)
        requires
            -180_000_000 <= dlat <= 180_000_000,
    ;
    assert(0 <= sq(dlon) <= 129_600_000_000_000_000) by (nonlinear_arith)
        requires
            -360_000_000 <= dlon <= 360_000_000,
    ;
    let s = sq_dist(a, b) as nat;
    lemma_isqrt_bounds(s);
    let r = isqrt_spec(s);
    if r >= MAX_DIST {
        assert((MAX_DIST as int) * (MAX_DIST as int) <= r * r) by (nonlinear_arith)
            requires
                MAX_DIST <= r,
        ;
    }
}

/// Planning distance between two valid coordinates.
pub fn dist(a: &Coords, b: &Coords) -> (r: u64)
    requires
        a.valid(),
        b.valid(),
    ensures
        r as int == dist_spec(*a, *b),
        r < MAX_DIST,
{
    let dlat: i64 = a.lat - b.lat;
    let dlon: i64 = a.lon - b.lon;
    proof {
        assert(0 <= dlat * dlat <= 32_400_000_000_000_000) by (nonlinear_arith)
            requires
                -180_000_000 <= dlat <= 180_000_000,
        ;
        assert(0 <= dlon * dlon <= 129_600_000_000_000_000) by (nonlinear_arith)
            requires
                -360_000_000 <= dlon <= 360_000_000,
        ;
    }
    let s: i64 = dlat * dlat + dlon * dlon;
    let r = isqrt(s as u64);
    proof {
        assert(s as int == sq_dist(*a, *b));
        assert((s as u64) as nat == sq_dist(*a, *b) as nat);
        lemma_dist_bound(*a, *b);
    }
    r
}

} // verus!
