//! Integer square root, used both for edge weights (Euclidean distance in
//! fixed-point units) and for normalising the dot product when the turn
//! annotator reports how sharp a turn is.

use vstd::prelude::*;

verus! {

/// Largest radicand `isqrt` accepts: 10^28, comfortably above every
/// product the rest of the crate feeds it.
pub const MAX_RADICAND: u128 = 10_000_000_000_000_000_000_000_000_000;

/// Square root of `MAX_RADICAND`: 10^14, the initial upper bound of the
/// binary search.
pub const MAX_ROOT: u64 = 100_000_000_000_000;

/// `r` is the integer square root of `n`, rounded down.
pub open spec fn is_sqrt_floor(n: int, r: int) -> bool {
    0 <= r && r * r <= n < (r + 1) * (r + 1)
}

/// The integer square root of `n`, rounded down. `lemma_sqrt_floor_exists`
/// shows the choice is inhabited and `lemma_sqrt_floor_unique` that it is
/// unambiguous.
pub open spec fn sqrt_floor(n: int) -> int {
    choose|r: int| is_sqrt_floor(n, r)
}

/// Two integer square roots of the same radicand coincide.
pub proof fn lemma_sqrt_floor_unique(n: int, r1: int, r2: int)
    requires
        is_sqrt_floor(n, r1),
        is_sqrt_floor(n, r2),
    ensures
        r1 == r2,
{
    if r1 < r2 {
        assert((r1 + 1) * (r1 + 1) <= r2 * r2) by (nonlinear_arith)
            requires 0 <= r1, r1 < r2;
    }
    if r2 < r1 {
        assert((r2 + 1) * (r2 + 1) <= r1 * r1) by (nonlinear_arith)
            requires 0 <= r2, r2 < r1;
    }
}

/// Every non-negative integer has an integer square root.
pub proof fn lemma_sqrt_floor_exists(n: int)
    requires
        n >= 0,
    ensures
        is_sqrt_floor(n, sqrt_floor(n)),
    decreases n,
{
    if n == 0 {
        assert(is_sqrt_floor(0, 0));
    } else {
        lemma_sqrt_floor_exists(n - 1);
        let r = sqrt_floor(n - 1);
        if (r + 1) * (r + 1) <= n {
            assert(is_sqrt_floor(n, r + 1)) by (nonlinear_arith)
                requires 0 <= r, r * r <= n - 1, n - 1 < (r + 1) * (r + 1), (r + 1) * (r + 1) <= n;
        } else {
            assert(is_sqrt_floor(n, r));
        }
    }
    let w = choose|w: int| is_sqrt_floor(n, w);
    lemma_sqrt_floor_unique(n, w, sqrt_floor(n));
}

/// Integer square root by binary search, rounded down.
pub fn isqrt(n: u128) -> (r: u64)
    requires
        n <= MAX_RADICAND,
    ensures
        is_sqrt_floor(n as int, r as int),
        r as int == sqrt_floor(n as int),
{
    let mut lo: u64 = 0;
    let mut hi: u64 = MAX_ROOT;
    proof {
        assert((MAX_ROOT as int) * (MAX_ROOT as int) == MAX_RADICAND as int) by (nonlinear_arith);
        assert((n as int) < ((MAX_ROOT as int) + 1) * ((MAX_ROOT as int) + 1)) by (nonlinear_arith)
            requires n as int <= (MAX_ROOT as int) * (MAX_ROOT as int);
    }
    while lo < hi
        invariant
            lo <= hi <= MAX_ROOT,
            (lo as int) * (lo as int) <= n as int,
            (n as int) < ((hi as int) + 1) * ((hi as int) + 1),
        decreases hi - lo,
    {
        let mid: u64 = lo + (hi - lo + 1) / 2;
        proof {
            assert((mid as u128) * (mid as u128) <= u128::MAX) by (nonlinear_arith)
                requires mid as int <= MAX_ROOT as int;
        }
        let sq: u128 = (mid as u128) * (mid as u128);
        if sq <= n {
            lo = mid;
        } else {
            hi = mid - 1;
        }
    }
    proof {
        assert(is_sqrt_floor(n as int, lo as int));
        lemma_sqrt_floor_exists(n as int);
        lemma_sqrt_floor_unique(n as int, lo as int, sqrt_floor(n as int));
    }
    lo
}

} // verus!
