//! Turn-by-turn guidance: classify the bend of a route at every node it
//! passes through, from the geometry of the two adjacent segments.
//!
//! All decisions are exact integer arithmetic on the fixed-point
//! coordinates. The deflection angle between the incoming and the
//! outgoing segment is "straight" when it is under the 10-degree
//! dead-band, which absorbs coordinate noise; the test compares the
//! squared cosine of the deflection against cos^2(10 deg) ~ 0.96984631,
//! rendered as the ratio `COS2_NUM / COS2_DEN`. The side of a turn comes
//! from the sign of the orientation product
//! `-from_at.x * at_to.y + from_at.y * at_to.x`: a positive value means a
//! right turn. This convention assumes y grows upward; it is preserved
//! as stated, not corrected.

use vstd::prelude::*;

use crate::graph::{coord_ok, dist_sq, lemma_dist_sq_bounds};
use crate::math::{isqrt, sqrt_floor};
use crate::utils::{Angle, Direction};

verus! {

/// Numerator of the squared-cosine dead-band threshold.
pub const COS2_NUM: u128 = 96_984_631;

/// Denominator of the squared-cosine dead-band threshold.
pub const COS2_DEN: u128 = 100_000_000;

/// Dot product of the incoming segment `from -> at` with the outgoing
/// segment `at -> to`.
pub open spec fn dot_of(from: (i64, i64), at: (i64, i64), to: (i64, i64)) -> int {
    (at.0 - from.0) * (to.0 - at.0) + (at.1 - from.1) * (to.1 - at.1)
}

/// Orientation of the bend: `-from_at.x * at_to.y + from_at.y * at_to.x`.
/// Positive means the route bends right (y grows upward).
pub open spec fn orient_of(from: (i64, i64), at: (i64, i64), to: (i64, i64)) -> int {
    (at.1 - from.1) * (to.0 - at.0) - (at.0 - from.0) * (to.1 - at.1)
}

/// The corner counts as straight: one of its segments has zero length, or
/// the deflection angle is inside the 10-degree dead-band, i.e. the
/// cosine of the deflection exceeds cos(10 deg).
pub open spec fn is_straight_at(from: (i64, i64), at: (i64, i64), to: (i64, i64)) -> bool {
    ||| from == at
    ||| at == to
    ||| (dot_of(from, at, to) > 0 && dot_of(from, at, to) * dot_of(from, at, to) * (
    COS2_DEN as int) > (COS2_NUM as int) * dist_sq(from, at) * dist_sq(at, to))
}

/// The cosine of the deflection angle, scaled by 1000 and rounded toward
/// zero — exactly: the magnitude is the largest `k` with
/// `k^2 * |u|^2 * |v|^2 <= 10^6 * dot^2`, the sign that of the dot
/// product. The angle in degrees is the arc cosine of the ratio.
pub open spec fn cosine_milli_of(from: (i64, i64), at: (i64, i64), to: (i64, i64)) -> int {
    let d = dot_of(from, at, to);
    let p = dist_sq(from, at) * dist_sq(at, to);
    let k = sqrt_floor((1_000_000 * (d * d)) / p);
    if d >= 0 {
        k
    } else {
        -k
    }
}

/// The planar Lagrange identity: the squared dot product plus the
/// squared orientation product equals the product of the squared norms.
/// In particular the dot product obeys the Cauchy-Schwarz bound.
pub proof fn lemma_lagrange(ux: int, uy: int, vx: int, vy: int)
    ensures
        (ux * vx + uy * vy) * (ux * vx + uy * vy) + (uy * vx - ux * vy) * (uy * vx - ux * vy) == (
        ux * ux + uy * uy) * (vx * vx + vy * vy),
{
    let a: int = ux * vx;
    let b: int = uy * vy;
    let c: int = ux * vy;
    let g: int = uy * vx;
    assert(a * b == c * g) by (nonlinear_arith)
        requires
            a == ux * vx,
            b == uy * vy,
            c == ux * vy,
            g == uy * vx,
    ;
    assert((a + b) * (a + b) == a * a + 2 * (a * b) + b * b) by (nonlinear_arith);
    assert((g - c) * (g - c) == g * g - 2 * (c * g) + c * c) by (nonlinear_arith);
    assert((ux * ux + uy * uy) * (vx * vx + vy * vy) == (ux * ux) * (vx * vx) + (ux * ux) * (vy
        * vy) + (uy * uy) * (vx * vx) + (uy * uy) * (vy * vy)) by (nonlinear_arith);
    assert((ux * ux) * (vx * vx) == a * a && (ux * ux) * (vy * vy) == c * c && (uy * uy) * (vx
        * vx) == g * g && (uy * uy) * (vy * vy) == b * b) by (nonlinear_arith)
        requires
            a == ux * vx,
            b == uy * vy,
            c == ux * vy,
            g == uy * vx,
    ;
    assert(ux * vx + uy * vy == a + b);
    assert(uy * vx - ux * vy == g - c);
}

/// Classification of one corner: `Straight` inside the dead-band or on a
/// degenerate segment, otherwise a turn to the side given by the
/// orientation sign, carrying the scaled cosine of the deflection.
pub open spec fn classify(from: (i64, i64), at: (i64, i64), to: (i64, i64)) -> Angle {
    if is_straight_at(from, at, to) {
        Angle::Straight
    } else {
        Angle::Turn(
            cosine_milli_of(from, at, to) as i64,
            if orient_of(from, at, to) > 0 {
                Direction::Right
            } else {
                Direction::Left
            },
        )
    }
}

/// The annotation owed at position `k` of a route: the endpoints are
/// always `Straight`, an interior node is classified from its
/// neighbours' coordinates.
pub open spec fn annotation_at(coords: Seq<(i64, i64)>, route: Seq<usize>, k: int) -> Angle {
    if k == 0 || k == route.len() - 1 {
        Angle::Straight
    } else {
        classify(
            coords[route[k - 1] as int],
            coords[route[k] as int],
            coords[route[k + 1] as int],
        )
    }
}

/// Classify one corner of a route by exact integer arithmetic.
pub fn classify_corner(from: (i64, i64), at: (i64, i64), to: (i64, i64)) -> (a: Angle)
    requires
        coord_ok(from),
        coord_ok(at),
        coord_ok(to),
    ensures
        a == classify(from, at, to),
{
    if (from.0 == at.0 && from.1 == at.1) || (at.0 == to.0 && at.1 == to.1) {
        return Angle::Straight;
    }
    let ux: i64 = at.0 - from.0;
    let uy: i64 = at.1 - from.1;
    let vx: i64 = to.0 - at.0;
    let vy: i64 = to.1 - at.1;
    proof {
        assert(-4_000_000_000_000 <= (ux as int) * (vx as int) <= 4_000_000_000_000
            && -4_000_000_000_000 <= (uy as int) * (vy as int) <= 4_000_000_000_000
            && -4_000_000_000_000 <= (uy as int) * (vx as int) <= 4_000_000_000_000
            && -4_000_000_000_000 <= (ux as int) * (vy as int) <= 4_000_000_000_000 && 0 <= (
        ux as int) * (ux as int) <= 4_000_000_000_000 && 0 <= (uy as int) * (uy as int)
            <= 4_000_000_000_000 && 0 <= (vx as int) * (vx as int) <= 4_000_000_000_000 && 0 <= (
        vy as int) * (vy as int) <= 4_000_000_000_000) by (nonlinear_arith)
            requires
                -2_000_000 <= ux <= 2_000_000,
                -2_000_000 <= uy <= 2_000_000,
                -2_000_000 <= vx <= 2_000_000,
                -2_000_000 <= vy <= 2_000_000,
        ;
    }
    let dot: i128 = (ux as i128) * (vx as i128) + (uy as i128) * (vy as i128);
    let uu: i128 = (ux as i128) * (ux as i128) + (uy as i128) * (uy as i128);
    let vv: i128 = (vx as i128) * (vx as i128) + (vy as i128) * (vy as i128);
    proof {
        assert(dot as int == dot_of(from, at, to));
        assert(uu as int == dist_sq(from, at));
        assert(vv as int == dist_sq(at, to));
        assert(uu >= 1 && vv >= 1) by (nonlinear_arith)
            requires
                uu as int == (ux as int) * (ux as int) + (uy as int) * (uy as int),
                vv as int == (vx as int) * (vx as int) + (vy as int) * (vy as int),
                ux != 0 || uy != 0,
                vx != 0 || vy != 0,
        ;
    }
    let mut straight = false;
    if dot > 0 {
        proof {
            assert(0 < (dot as int) * (dot as int) <= 64_000_000_000_000_000_000_000_000
                && 0 <= (uu as int) * (vv as int) <= 64_000_000_000_000_000_000_000_000)
                by (nonlinear_arith)
                requires
                    0 < dot as int <= 8_000_000_000_000,
                    0 <= uu as int <= 8_000_000_000_000,
                    0 <= vv as int <= 8_000_000_000_000,
            ;
        }
        let lhs: u128 = (dot as u128) * (dot as u128) * COS2_DEN;
        let rhs: u128 = COS2_NUM * ((uu as u128) * (vv as u128));
        proof {
            assert(rhs as int == (COS2_NUM as int) * dist_sq(from, at) * dist_sq(at, to))
                by (nonlinear_arith)
                requires
                    rhs as int == (COS2_NUM as int) * ((uu as int) * (vv as int)),
                    uu as int == dist_sq(from, at),
                    vv as int == dist_sq(at, to),
            ;
        }
        straight = lhs > rhs;
    }
    proof {
        assert(straight == is_straight_at(from, at, to));
    }
    if straight {
        return Angle::Straight;
    }
    proof {
        assert(!is_straight_at(from, at, to));
        assert(0 <= (uu as int) * (vv as int) <= 64_000_000_000_000_000_000_000_000
            && 1 <= (uu as int) * (vv as int)) by (nonlinear_arith)
            requires
                1 <= uu as int <= 8_000_000_000_000,
                1 <= vv as int <= 8_000_000_000_000,
        ;
    }
    let prod: u128 = (uu as u128) * (vv as u128);
    let dmag: u128 = if dot >= 0 {
        dot as u128
    } else {
        (-dot) as u128
    };
    proof {
        assert((dmag as int) * (dmag as int) == (dot as int) * (dot as int)
            && dmag as int <= 8_000_000_000_000) by (nonlinear_arith)
            requires
                dmag as int == (if dot as int >= 0 {
                    dot as int
                } else {
                    -(dot as int)
                }),
                -8_000_000_000_000 <= dot as int <= 8_000_000_000_000,
        ;
        assert(0 <= (dmag as int) * (dmag as int) <= 64_000_000_000_000_000_000_000_000)
            by (nonlinear_arith)
            requires
                0 <= dmag as int <= 8_000_000_000_000,
        ;
    }
    let num: u128 = 1_000_000 * (dmag * dmag);
    let ratio: u128 = num / prod;
    proof {
        // Cauchy-Schwarz keeps the scaled ratio at or below 10^6
        lemma_lagrange(ux as int, uy as int, vx as int, vy as int);
        assert((dot as int) * (dot as int) <= (uu as int) * (vv as int)) by (nonlinear_arith)
            requires
                (dot as int) * (dot as int) + (((uy as int) * (vx as int) - (ux as int) * (
                vy as int)) * ((uy as int) * (vx as int) - (ux as int) * (vy as int))) == (
                uu as int) * (vv as int),
        ;
        assert(ratio <= 1_000_000) by (nonlinear_arith)
            requires
                ratio as int == (num as int) / (prod as int),
                num as int == 1_000_000 * ((dmag as int) * (dmag as int)),
                (dmag as int) * (dmag as int) <= prod as int,
                prod as int >= 1,
        ;
    }
    let cmu: u64 = isqrt(ratio);
    proof {
        assert(cmu <= 1000) by (nonlinear_arith)
            requires
                (cmu as int) * (cmu as int) <= 1_000_000,
        ;
    }
    let cm: i64 = if dot >= 0 {
        cmu as i64
    } else {
        -(cmu as i64)
    };
    let delta: i128 = (uy as i128) * (vx as i128) - (ux as i128) * (vy as i128);
    proof {
        assert(delta as int == orient_of(from, at, to));
        assert(cm as int == cosine_milli_of(from, at, to));
    }
    let dir = Direction::from(delta > 0);
    Angle::Turn(cm, dir)
}

/// Turn classification for every node on the route: one entry per route
/// position, `Straight` at both ends, the interior classified from the
/// coordinates of each node and its two neighbours on the route.
pub fn annotate_turns(route: &Vec<usize>, coordinates: &Vec<(i64, i64)>) -> (r: Vec<Angle>)
    requires
        forall|k: int|
            0 <= k < route@.len() ==> ((#[trigger] route@[k]) as int) < coordinates@.len(),
        forall|i: int| 0 <= i < coordinates@.len() ==> coord_ok(#[trigger] coordinates@[i]),
    ensures
        r@.len() == route@.len(),
        forall|k: int|
            0 <= k < route@.len() ==> #[trigger] r@[k] == annotation_at(coordinates@, route@, k),
{
    let len = route.len();
    let mut r: Vec<Angle> = Vec::new();
    if len == 0 {
        return r;
    }
    r.push(Angle::Straight);
    let mut k: usize = 1;
    while k + 1 < len
        invariant
            1 <= k,
            k as int <= len as int - 1 || k == 1,
            len == route@.len(),
            r@.len() == k as int,
            forall|t: int| 0 <= t < k ==> #[trigger] r@[t] == annotation_at(coordinates@, route@, t),
            forall|t: int|
                0 <= t < route@.len() ==> ((#[trigger] route@[t]) as int) < coordinates@.len(),
            forall|i: int| 0 <= i < coordinates@.len() ==> coord_ok(#[trigger] coordinates@[i]),
        decreases len - k,
    {
        let a = classify_corner(
            coordinates[route[k - 1]],
            coordinates[route[k]],
            coordinates[route[k + 1]],
        );
        r.push(a);
        k = k + 1;
    }
    if len >= 2 {
        r.push(Angle::Straight);
    }
    r
}

} // verus!
