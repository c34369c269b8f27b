//! Laws of the library that relate several functions, stated and proved
//! once so callers and tests can rely on them by name.

use vstd::prelude::*;

use crate::graph::{dist_sq, Graph};
use crate::math::{lemma_sqrt_floor_exists, sqrt_floor};
use crate::turns::{annotation_at, classify, cosine_milli_of, dot_of, is_straight_at, lemma_lagrange, orient_of, COS2_DEN, COS2_NUM};
use crate::utils::{Angle, Direction};

verus! {

/// Law: every annotated route is `Straight` at its first and its last
/// position, whatever the geometry in between.
pub proof fn lemma_endpoints_straight(coords: Seq<(i64, i64)>, route: Seq<usize>)
    requires
        route.len() >= 1,
    ensures
        annotation_at(coords, route, 0) == Angle::Straight,
        annotation_at(coords, route, route.len() - 1) == Angle::Straight,
{
}

/// Law: a corner whose two segments point the same way (orientation
/// product zero, positive dot product — three collinear points walked
/// without reversal) is classified `Straight`.
pub proof fn lemma_collinear_straight(from: (i64, i64), at: (i64, i64), to: (i64, i64))
    requires
        orient_of(from, at, to) == 0,
        dot_of(from, at, to) > 0,
    ensures
        classify(from, at, to) == Angle::Straight,
{
    let ux: int = at.0 - from.0;
    let uy: int = at.1 - from.1;
    let vx: int = to.0 - at.0;
    let vy: int = to.1 - at.1;
    assert(dist_sq(from, at) == ux * ux + uy * uy);
    assert(dist_sq(at, to) == vx * vx + vy * vy);
    assert(dot_of(from, at, to) == ux * vx + uy * vy);
    assert(orient_of(from, at, to) == uy * vx - ux * vy);
    assert(uy * vx == ux * vy);
    // with zero orientation, the Lagrange identity collapses to equality
    // between the squared dot product and the product of the squared norms
    lemma_lagrange(ux, uy, vx, vy);
    assert((uy * vx - ux * vy) * (uy * vx - ux * vy) == 0) by (nonlinear_arith)
        requires
            uy * vx - ux * vy == 0,
    ;
    assert(dot_of(from, at, to) * dot_of(from, at, to) == dist_sq(from, at) * dist_sq(at, to));
    assert(dot_of(from, at, to) * dot_of(from, at, to) * (COS2_DEN as int) > (COS2_NUM as int)
        * dist_sq(from, at) * dist_sq(at, to)) by (nonlinear_arith)
        requires
            dist_sq(from, at) * dist_sq(at, to) == dot_of(from, at, to) * dot_of(from, at, to),
            dot_of(from, at, to) > 0,
    ;
}

/// Law: a corner whose segments are perpendicular (dot product zero,
/// neither segment degenerate) is a turn of ninety degrees — its scaled
/// cosine is exactly zero — to the side named by the orientation sign.
pub proof fn lemma_right_angle_turn(from: (i64, i64), at: (i64, i64), to: (i64, i64))
    requires
        dot_of(from, at, to) == 0,
        from != at,
        at != to,
    ensures
        classify(from, at, to) == Angle::Turn(
            0,
            if orient_of(from, at, to) > 0 {
                Direction::Right
            } else {
                Direction::Left
            },
        ),
{
    let ux: int = at.0 - from.0;
    let uy: int = at.1 - from.1;
    let vx: int = to.0 - at.0;
    let vy: int = to.1 - at.1;
    assert(ux != 0 || uy != 0);
    assert(vx != 0 || vy != 0);
    assert(dist_sq(from, at) >= 1 && dist_sq(at, to) >= 1) by (nonlinear_arith)
        requires
            dist_sq(from, at) == ux * ux + uy * uy,
            dist_sq(at, to) == vx * vx + vy * vy,
            ux != 0 || uy != 0,
            vx != 0 || vy != 0,
    ;
    let prod = dist_sq(from, at) * dist_sq(at, to);
    assert(prod >= 1) by (nonlinear_arith)
        requires
            prod == dist_sq(from, at) * dist_sq(at, to),
            dist_sq(from, at) >= 1,
            dist_sq(at, to) >= 1,
    ;
    // a zero dot product makes the scaled-cosine radicand zero
    assert((1_000_000 * (0int * 0)) / prod == 0) by (nonlinear_arith)
        requires
            prod >= 1,
    ;
    lemma_sqrt_floor_exists(0);
    let r = sqrt_floor(0);
    assert(r == 0) by (nonlinear_arith)
        requires
            0 <= r,
            r * r <= 0,
    ;
    assert(cosine_milli_of(from, at, to) == 0);
    assert(!(dot_of(from, at, to) > 0));
}

/// Law: every reported turn is at least the dead-band angle and at most
/// a full reversal — for nondegenerate segments, a `Turn`'s scaled
/// cosine lies between -1000 (180 degrees) and 984 (just under the
/// 10-degree dead-band threshold, cos 10 deg ~ 0.9848).
pub proof fn lemma_turn_magnitude_in_band(from: (i64, i64), at: (i64, i64), to: (i64, i64))
    requires
        from != at,
        at != to,
    ensures
        match classify(from, at, to) {
            Angle::Straight => true,
            Angle::Turn(cm, _) => -1000 <= cm <= 984,
        },
{
    if !is_straight_at(from, at, to) {
        let ux: int = at.0 - from.0;
        let uy: int = at.1 - from.1;
        let vx: int = to.0 - at.0;
        let vy: int = to.1 - at.1;
        let d = dot_of(from, at, to);
        assert(ux != 0 || uy != 0);
        assert(vx != 0 || vy != 0);
        assert(dist_sq(from, at) >= 1 && dist_sq(at, to) >= 1) by (nonlinear_arith)
            requires
                dist_sq(from, at) == ux * ux + uy * uy,
                dist_sq(at, to) == vx * vx + vy * vy,
                ux != 0 || uy != 0,
                vx != 0 || vy != 0,
        ;
        let p = dist_sq(from, at) * dist_sq(at, to);
        assert(p >= 1) by (nonlinear_arith)
            requires
                p == dist_sq(from, at) * dist_sq(at, to),
                dist_sq(from, at) >= 1,
                dist_sq(at, to) >= 1,
        ;
        lemma_lagrange(ux, uy, vx, vy);
        assert(d * d >= 0) by (nonlinear_arith);
        assert(d * d <= p) by (nonlinear_arith)
            requires
                d * d + (uy * vx - ux * vy) * (uy * vx - ux * vy) == p,
        ;
        let num = 1_000_000 * (d * d);
        let ratio = num / p;
        vstd::arithmetic::div_mod::lemma_fundamental_div_mod(num, p);
        assert(0 <= ratio <= 1_000_000) by (nonlinear_arith)
            requires
                num == ratio * p + (num % p),
                0 <= num % p < p,
                num == 1_000_000 * (d * d),
                d * d >= 0,
                d * d <= p,
                p >= 1,
        ;
        lemma_sqrt_floor_exists(ratio);
        let k = sqrt_floor(ratio);
        assert(0 <= k <= 1000) by (nonlinear_arith)
            requires
                0 <= k,
                k * k <= ratio,
                ratio <= 1_000_000,
        ;
        assert(cosine_milli_of(from, at, to) == if d >= 0 {
            k
        } else {
            -k
        });
        if d >= 0 {
            // outside the dead-band, the squared cosine is at most
            // cos^2(10 deg), so the scaled cosine is at most 984
            assert((COS2_NUM as int) * p == (COS2_NUM as int) * dist_sq(from, at) * dist_sq(
                at,
                to,
            )) by (nonlinear_arith)
                requires
                    p == dist_sq(from, at) * dist_sq(at, to),
            ;
            if d == 0 {
                assert(d * d * (COS2_DEN as int) <= (COS2_NUM as int) * p) by (nonlinear_arith)
                    requires
                        d == 0,
                        p >= 1,
                ;
            }
            assert(d * d * (COS2_DEN as int) <= (COS2_NUM as int) * p);
            assert(ratio <= 969_846) by (nonlinear_arith)
                requires
                    num == ratio * p + (num % p),
                    0 <= num % p < p,
                    num == 1_000_000 * (d * d),
                    d * d * (COS2_DEN as int) <= (COS2_NUM as int) * p,
                    COS2_DEN == 100_000_000u128,
                    COS2_NUM == 96_984_631u128,
                    p >= 1,
            ;
            assert(k <= 984) by (nonlinear_arith)
                requires
                    0 <= k,
                    k * k <= ratio,
                    ratio <= 969_846,
            ;
        }
    }
}

/// Law: turn annotation is deterministic — two annotation sequences that
/// both satisfy the contract of `annotate_turns` for the same route and
/// coordinates are equal.
pub proof fn lemma_annotate_deterministic(
    coords: Seq<(i64, i64)>,
    route: Seq<usize>,
    r1: Seq<Angle>,
    r2: Seq<Angle>,
)
    requires
        r1.len() == route.len(),
        r2.len() == route.len(),
        forall|k: int| 0 <= k < route.len() ==> #[trigger] r1[k] == annotation_at(coords, route, k),
        forall|k: int| 0 <= k < route.len() ==> #[trigger] r2[k] == annotation_at(coords, route, k),
    ensures
        r1 =~= r2,
{
}

/// Law: graph construction is a function of its inputs — two graphs that
/// both satisfy the contract of `build_graph` for the same coordinates
/// and connections carry identical coordinate and adjacency tables.
pub proof fn lemma_build_deterministic(
    g1: Graph,
    g2: Graph,
    coords: Seq<(i64, i64)>,
    conns: Seq<(usize, usize)>,
)
    requires
        g1.coordinates@ == coords,
        g2.coordinates@ == coords,
        g1.nodes@.len() == coords.len(),
        g2.nodes@.len() == coords.len(),
        forall|q: int|
            0 <= q < coords.len() ==> #[trigger] g1.nodes@[q]@ == crate::graph::adj_of(
                q,
                conns,
                coords,
            ),
        forall|q: int|
            0 <= q < coords.len() ==> #[trigger] g2.nodes@[q]@ == crate::graph::adj_of(
                q,
                conns,
                coords,
            ),
    ensures
        g1.coordinates@ == g2.coordinates@,
        forall|q: int| 0 <= q < coords.len() ==> #[trigger] g1.nodes@[q]@ == g2.nodes@[q]@,
{
}

/// Law: a route of a single node costs nothing.
pub proof fn lemma_single_node_route_cost(g: Graph, n: usize)
    ensures
        g.route_cost_spec(seq![n]) == 0,
{
}

/// Law: on valid endpoints that no route of the graph connects, the
/// search reports `NotReachable` and nothing else: a successful result
/// would exhibit a connecting route, `InvalidNode` is reserved for
/// out-of-range endpoints, and `MalformedInput` never comes from a
/// search. (That the search neither panics nor diverges holds of every
/// verified function of this crate.)
pub proof fn lemma_unconnected_is_not_reachable(
    g: Graph,
    start: usize,
    goal: usize,
    r: Result<Vec<usize>, crate::graph::RouteError>,
)
    requires
        (start as int) < g.spec_node_count(),
        (goal as int) < g.spec_node_count(),
        forall|p: Seq<usize>| !g.is_route(p, start, goal),
        match r {
            Ok(route) => g.is_route(route@, start, goal),
            Err(e) => e != crate::graph::RouteError::MalformedInput && (e
                == crate::graph::RouteError::InvalidNode <==> ((start as int)
                >= g.spec_node_count() || (goal as int) >= g.spec_node_count())),
        },
    ensures
        r == Err::<Vec<usize>, crate::graph::RouteError>(crate::graph::RouteError::NotReachable),
{
    match r {
        Ok(route) => {
            assert(!g.is_route(route@, start, goal));
            assert(false);
        },
        Err(e) => {
        },
    }
}

/// Law: the search's reported cost is a function of its inputs — any
/// two routes that both satisfy the search contract for the same graph
/// and query (each a route from start to goal costing no more than any
/// other) cost exactly the same.
pub proof fn lemma_search_cost_deterministic(
    g: Graph,
    start: usize,
    goal: usize,
    r1: Seq<usize>,
    r2: Seq<usize>,
)
    requires
        g.is_route(r1, start, goal),
        g.is_route(r2, start, goal),
        forall|q: Seq<usize>|
            #[trigger] g.is_route(q, start, goal) ==> g.route_cost_spec(r1) <= g.route_cost_spec(q),
        forall|q: Seq<usize>|
            #[trigger] g.is_route(q, start, goal) ==> g.route_cost_spec(r2) <= g.route_cost_spec(q),
    ensures
        g.route_cost_spec(r1) == g.route_cost_spec(r2),
{
}

} // verus!
