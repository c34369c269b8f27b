//! The graph: one fixed-point coordinate per node, and per-node adjacency
//! lists whose edge weights are the Euclidean distance between the two
//! endpoints, rounded down to fixed-point units.

use vstd::prelude::*;

use crate::math::{isqrt, lemma_sqrt_floor_exists, sqrt_floor};
use crate::utils::{Angle, Edge, COORD_LIMIT};

verus! {

/// The explicit failure modes of graph construction and search.
#[derive(Copy, Clone, Debug, PartialEq, Eq, Structural)]
pub enum RouteError {
    /// A connection pair names a node id outside the coordinate list.
    MalformedInput,
    /// A query's start or goal is not a valid node id.
    InvalidNode,
    /// The goal is not connected to the start.
    NotReachable,
}

/// Both components of the fixed-point coordinate are within the supported
/// range.
pub open spec fn coord_ok(p: (i64, i64)) -> bool {
    -COORD_LIMIT <= p.0 <= COORD_LIMIT && -COORD_LIMIT <= p.1 <= COORD_LIMIT
}

/// Squared Euclidean distance between two coordinates.
pub open spec fn dist_sq(a: (i64, i64), b: (i64, i64)) -> int {
    (b.0 - a.0) * (b.0 - a.0) + (b.1 - a.1) * (b.1 - a.1)
}

/// Edge weight: the Euclidean distance between the two endpoints, rounded
/// down to whole fixed-point units.
pub open spec fn weight(a: (i64, i64), b: (i64, i64)) -> int {
    sqrt_floor(dist_sq(a, b))
}

/// A connection pair is well formed when both of its node ids are valid
/// indices into the coordinate list.
pub open spec fn pair_ok(p: (usize, usize), n: int) -> bool {
    (p.0 as int) < n && (p.1 as int) < n
}

/// The adjacency list that node `node` ends up with after the connection
/// pairs in `pairs` have been inserted in order: each pair `(i, j)`
/// appends the edge toward `j` to node `i`'s list and the edge toward `i`
/// to node `j`'s list, both carrying the Euclidean weight of the pair.
pub open spec fn adj_of(node: int, pairs: Seq<(usize, usize)>, coords: Seq<(i64, i64)>) -> Seq<
    Edge,
>
    decreases pairs.len(),
{
    if pairs.len() == 0 {
        Seq::empty()
    } else {
        let rest = adj_of(node, pairs.drop_last(), coords);
        let p = pairs.last();
        let c = weight(coords[p.0 as int], coords[p.1 as int]) as u64;
        let with_fwd = if p.0 as int == node {
            rest.push(Edge { node: p.1, cost: c })
        } else {
            rest
        };
        if p.1 as int == node {
            with_fwd.push(Edge { node: p.0, cost: c })
        } else {
            with_fwd
        }
    }
}

/// Distance is symmetric, so mirror edges carry identical weights.
pub proof fn lemma_weight_symmetric(a: (i64, i64), b: (i64, i64))
    ensures
        weight(a, b) == weight(b, a),
{
    assert(dist_sq(a, b) == dist_sq(b, a)) by (nonlinear_arith);
}

/// In-range coordinates keep the squared distance at or below
/// 8 * 10^12 (and at or above zero).
pub proof fn lemma_dist_sq_bounds(a: (i64, i64), b: (i64, i64))
    requires
        coord_ok(a),
        coord_ok(b),
    ensures
        0 <= dist_sq(a, b) <= 8_000_000_000_000,
{
    assert(0 <= dist_sq(a, b) <= 8_000_000_000_000) by (nonlinear_arith)
        requires
            -COORD_LIMIT <= a.0 <= COORD_LIMIT,
            -COORD_LIMIT <= a.1 <= COORD_LIMIT,
            -COORD_LIMIT <= b.0 <= COORD_LIMIT,
            -COORD_LIMIT <= b.1 <= COORD_LIMIT,
    ;
}

/// In-range coordinates keep the edge weight at or below 3 * 10^6.
pub proof fn lemma_weight_bounds(a: (i64, i64), b: (i64, i64))
    requires
        coord_ok(a),
        coord_ok(b),
    ensures
        0 <= weight(a, b) <= 3_000_000,
{
    lemma_dist_sq_bounds(a, b);
    lemma_sqrt_floor_exists(dist_sq(a, b));
    let r = sqrt_floor(dist_sq(a, b));
    assert(r <= 3_000_000) by (nonlinear_arith)
        requires
            0 <= r,
            r * r <= 8_000_000_000_000,
    ;
}

/// The routing graph: one coordinate per node (node ids are the 0-based
/// positions) and one adjacency list per node. Read-only once built; every
/// search allocates its own private state.
#[derive(Debug)]
pub struct Graph {
    pub coordinates: Vec<(i64, i64)>,
    pub nodes: Vec<Vec<Edge>>,
}

impl Graph {
    /// Number of nodes.
    pub open spec fn spec_node_count(self) -> int {
        self.coordinates@.len() as int
    }

    /// Edge `k` of node `i` points at a valid node and carries the
    /// Euclidean weight of its endpoints.
    pub open spec fn edge_ok(self, i: int, k: int) -> bool {
        let e = self.nodes@[i]@[k];
        &&& (e.node as int) < self.spec_node_count()
        &&& e.cost as int == weight(self.coordinates@[i], self.coordinates@[e.node as int])
    }

    /// Well-formedness: one adjacency list per coordinate, every
    /// coordinate in range, every edge valid and derived.
    pub open spec fn wf(self) -> bool {
        &&& self.nodes@.len() == self.coordinates@.len()
        &&& forall|i: int|
            0 <= i < self.coordinates@.len() ==> coord_ok(#[trigger] self.coordinates@[i])
        &&& forall|i: int, k: int|
            0 <= i < self.nodes@.len() && 0 <= k < self.nodes@[i]@.len() ==> self.edge_ok(i, k)
    }

    /// There is an edge from node `u` to node `v`.
    pub open spec fn has_edge(self, u: int, v: int) -> bool {
        exists|k: int|
            0 <= k < self.nodes@[u]@.len() && (#[trigger] self.nodes@[u]@[k]).node as int == v
    }

    /// Edge `k` of node `i` has a mirror: some edge of the node it points
    /// at leads back to node `i` at the same cost.
    pub open spec fn mirrored(self, i: int, k: int) -> bool {
        let e = self.nodes@[i]@[k];
        exists|k2: int|
            0 <= k2 < self.nodes@[e.node as int]@.len() && (#[trigger] self.nodes@[e.node
                as int]@[k2]).node as int == i && self.nodes@[e.node as int]@[k2].cost == e.cost
    }

    /// Every edge has a mirror edge of identical cost: the graph is
    /// undirected.
    pub open spec fn undirected(self) -> bool {
        forall|i: int, k: int|
            0 <= i < self.nodes@.len() && 0 <= k < self.nodes@[i]@.len()
                ==> #[trigger] self.mirrored(i, k)
    }

    /// `s` is a route through the graph from `start` to `goal`: nonempty,
    /// begins at `start`, ends at `goal`, every entry a valid node id, and
    /// every consecutive pair joined by an edge.
    pub open spec fn is_route(self, s: Seq<usize>, start: usize, goal: usize) -> bool {
        &&& s.len() >= 1
        &&& s[0] == start
        &&& s[s.len() - 1] == goal
        &&& forall|k: int| 0 <= k < s.len() ==> (#[trigger] s[k] as int) < self.spec_node_count()
        &&& forall|k: int|
            0 <= k < s.len() - 1 ==> #[trigger] self.has_edge(s[k] as int, s[k + 1] as int)
    }

    /// Total cost of a node sequence: the sum of the Euclidean weights of
    /// its consecutive pairs.
    pub open spec fn route_cost_spec(self, s: Seq<usize>) -> int
        decreases s.len(),
    {
        if s.len() <= 1 {
            0
        } else {
            self.route_cost_spec(s.drop_last()) + weight(
                self.coordinates@[s[s.len() - 2] as int],
                self.coordinates@[s[s.len() - 1] as int],
            )
        }
    }

    /// Euclidean distance between two in-range fixed-point coordinates,
    /// rounded down to whole fixed-point units.
    pub fn euclidean_distance(a: (i64, i64), b: (i64, i64)) -> (r: u64)
        requires
            coord_ok(a),
            coord_ok(b),
        ensures
            r as int == weight(a, b),
            r <= 3_000_000,
    {
        proof {
            lemma_dist_sq_bounds(a, b);
        }
        let dx: i64 = b.0 - a.0;
        let dy: i64 = b.1 - a.1;
        proof {
            assert(0 <= dx * dx <= 4_000_000_000_000 && 0 <= dy * dy <= 4_000_000_000_000)
                by (nonlinear_arith)
                requires
                    -2_000_000 <= dx <= 2_000_000,
                    -2_000_000 <= dy <= 2_000_000,
            ;
        }
        let sq: i64 = dx * dx + dy * dy;
        let r = isqrt(sq as u128);
        proof {
            lemma_weight_bounds(a, b);
            assert(sq as u128 as int == dist_sq(a, b));
        }
        r
    }
}

/// Append one edge to row `i` of an adjacency table.
fn push_edge(rows: &mut Vec<Vec<Edge>>, i: usize, e: Edge)
    requires
        (i as int) < old(rows)@.len(),
    ensures
        final(rows)@.len() == old(rows)@.len(),
        final(rows)@[i as int]@ == old(rows)@[i as int]@.push(e),
        forall|q: int|
            0 <= q < old(rows)@.len() && q != i as int ==> final(rows)@[q] == old(rows)@[q],
{
    let row = &mut rows[i];
    row.push(e);
}

/// The adjacency lists built from a prefix of the pairs are a prefix of
/// the lists built from all of them.
proof fn lemma_adj_prefix(node: int, pairs: Seq<(usize, usize)>, coords: Seq<(i64, i64)>)
    requires
        pairs.len() > 0,
    ensures
        adj_of(node, pairs, coords).len() >= adj_of(node, pairs.drop_last(), coords).len(),
        forall|k: int|
            0 <= k < adj_of(node, pairs.drop_last(), coords).len() ==> #[trigger] adj_of(
                node,
                pairs,
                coords,
            )[k] == adj_of(node, pairs.drop_last(), coords)[k],
{
}

/// Every edge that `adj_of` hands a node is valid and carries the derived
/// Euclidean weight.
proof fn lemma_adj_edges_ok(node: int, pairs: Seq<(usize, usize)>, coords: Seq<(i64, i64)>)
    requires
        forall|t: int| 0 <= t < pairs.len() ==> pair_ok(#[trigger] pairs[t], coords.len() as int),
        forall|i: int| 0 <= i < coords.len() ==> coord_ok(#[trigger] coords[i]),
        0 <= node < coords.len(),
    ensures
        forall|k: int|
            0 <= k < adj_of(node, pairs, coords).len() ==> {
                let e = #[trigger] adj_of(node, pairs, coords)[k];
                &&& (e.node as int) < coords.len()
                &&& e.cost as int == weight(coords[node], coords[e.node as int])
            },
    decreases pairs.len(),
{
    if pairs.len() > 0 {
        lemma_adj_edges_ok(node, pairs.drop_last(), coords);
        let rest = adj_of(node, pairs.drop_last(), coords);
        let p = pairs.last();
        assert(pairs[pairs.len() - 1] == p);
        lemma_weight_bounds(coords[p.0 as int], coords[p.1 as int]);
        lemma_weight_symmetric(coords[p.0 as int], coords[p.1 as int]);
        lemma_adj_prefix(node, pairs, coords);
        assert forall|k: int| 0 <= k < adj_of(node, pairs, coords).len() implies {
            let e = #[trigger] adj_of(node, pairs, coords)[k];
            &&& (e.node as int) < coords.len()
            &&& e.cost as int == weight(coords[node], coords[e.node as int])
        } by {
            if k >= rest.len() {
                assert(adj_of(node, pairs, coords)[k].cost as int == weight(
                    coords[p.0 as int],
                    coords[p.1 as int],
                ));
            }
        }
    }
}

/// Node `q`'s edge `e` has a mirror: some edge of the node that `e`
/// points at leads back to `q` at the same cost.
pub open spec fn mirror_in(q: int, e: Edge, pairs: Seq<(usize, usize)>, coords: Seq<(i64, i64)>) -> bool {
    exists|k2: int|
        0 <= k2 < adj_of(e.node as int, pairs, coords).len() && (#[trigger] adj_of(
            e.node as int,
            pairs,
            coords,
        )[k2]).node as int == q && adj_of(e.node as int, pairs, coords)[k2].cost == e.cost
}

/// Every edge that `adj_of` hands out has a mirror edge of identical cost
/// in the list of the node it points at.
proof fn lemma_adj_mirror(pairs: Seq<(usize, usize)>, coords: Seq<(i64, i64)>)
    requires
        forall|t: int| 0 <= t < pairs.len() ==> pair_ok(#[trigger] pairs[t], coords.len() as int),
        forall|i: int| 0 <= i < coords.len() ==> coord_ok(#[trigger] coords[i]),
    ensures
        forall|q: int, k: int|
            0 <= q < coords.len() && 0 <= k < adj_of(q, pairs, coords).len() ==> mirror_in(
                q,
                #[trigger] adj_of(q, pairs, coords)[k],
                pairs,
                coords,
            ),
    decreases pairs.len(),
{
    if pairs.len() > 0 {
        lemma_adj_mirror(pairs.drop_last(), coords);
        let p = pairs.last();
        assert(pairs[pairs.len() - 1] == p);
        let c = weight(coords[p.0 as int], coords[p.1 as int]) as u64;
        assert forall|q: int, k: int|
            0 <= q < coords.len() && 0 <= k < adj_of(q, pairs, coords).len() implies mirror_in(
            q,
            #[trigger] adj_of(q, pairs, coords)[k],
            pairs,
            coords,
        ) by {
            lemma_adj_prefix(q, pairs, coords);
            lemma_adj_edges_ok(q, pairs, coords);
            let full = adj_of(q, pairs, coords);
            let rest = adj_of(q, pairs.drop_last(), coords);
            let e = full[k];
            assert((e.node as int) < coords.len());
            if k < rest.len() {
                assert(rest[k] == e);
                assert(mirror_in(q, e, pairs.drop_last(), coords));
                let restm = adj_of(e.node as int, pairs.drop_last(), coords);
                let k2 = choose|k2: int|
                    0 <= k2 < restm.len() && (#[trigger] restm[k2]).node as int == q
                        && restm[k2].cost == e.cost;
                lemma_adj_prefix(e.node as int, pairs, coords);
                assert(adj_of(e.node as int, pairs, coords)[k2] == restm[k2]);
            } else {
                // e was appended by the last pair, so it is one half of a
                // mirror pair; the other half is the trailing edge of the
                // pointed-at node's list.
                let fullm = adj_of(e.node as int, pairs, coords);
                if e.node as int == p.1 as int && q == p.0 as int && e == (Edge {
                    node: p.1,
                    cost: c,
                }) {
                    assert(fullm[fullm.len() - 1] == (Edge { node: p.0, cost: c }));
                } else {
                    assert(q == p.1 as int && e == (Edge { node: p.0, cost: c }));
                    if p.0 as int == p.1 as int {
                        assert(fullm[fullm.len() - 1] == (Edge { node: p.0, cost: c }));
                    } else {
                        assert(fullm[fullm.len() - 1] == (Edge { node: p.1, cost: c }));
                    }
                }
                assert(fullm[fullm.len() - 1].node as int == q && fullm[fullm.len() - 1].cost
                    == e.cost);
            }
        }
    } else {
        assert forall|q: int, k: int|
            0 <= q < coords.len() && 0 <= k < adj_of(q, pairs, coords).len() implies mirror_in(
            q,
            #[trigger] adj_of(q, pairs, coords)[k],
            pairs,
            coords,
        ) by {
            assert(adj_of(q, pairs, coords).len() == 0);
        }
    }
}

impl Graph {
    /// Build the graph from one coordinate per node and a list of
    /// undirected connection pairs. Each pair contributes one edge in each
    /// direction, both weighted by the Euclidean distance between the
    /// pair's endpoints; duplicate pairs are kept. Fails with
    /// `MalformedInput` exactly when some pair names a node id outside the
    /// coordinate list.
    pub fn build_graph(coordinates: Vec<(i64, i64)>, connections: &Vec<(usize, usize)>) -> (r:
        Result<Graph, RouteError>)
        requires
            forall|i: int| 0 <= i < coordinates@.len() ==> coord_ok(#[trigger] coordinates@[i]),
        ensures
            match r {
                Ok(g) => {
                    &&& forall|t: int|
                        0 <= t < connections@.len() ==> pair_ok(
                            #[trigger] connections@[t],
                            coordinates@.len() as int,
                        )
                    &&& g.wf()
                    &&& g.undirected()
                    &&& g.coordinates@ == coordinates@
                    &&& forall|q: int|
                        0 <= q < coordinates@.len() ==> #[trigger] g.nodes@[q]@ == adj_of(
                            q,
                            connections@,
                            coordinates@,
                        )
                },
                Err(e) => {
                    &&& e == RouteError::MalformedInput
                    &&& exists|t: int|
                        0 <= t < connections@.len() && !pair_ok(
                            #[trigger] connections@[t],
                            coordinates@.len() as int,
                        )
                },
            },
    {
        let n = coordinates.len();
        let mut t: usize = 0;
        while t < connections.len()
            invariant
                t <= connections@.len(),
                n == coordinates@.len(),
                forall|q: int| 0 <= q < t ==> pair_ok(#[trigger] connections@[q], n as int),
            decreases connections@.len() - t,
        {
            let (i, j) = connections[t];
            if i >= n || j >= n {
                proof {
                    assert(!pair_ok(connections@[t as int], n as int));
                }
                return Err(RouteError::MalformedInput);
            }
            t = t + 1;
        }
        let mut nodes: Vec<Vec<Edge>> = Vec::new();
        let mut q: usize = 0;
        while q < n
            invariant
                nodes@.len() == q as int,
                q <= n,
                forall|i: int| 0 <= i < q ==> (#[trigger] nodes@[i])@ =~= Seq::<Edge>::empty(),
            decreases n as int - q,
        {
            nodes.push(Vec::new());
            q = q + 1;
        }
        let mut t: usize = 0;
        while t < connections.len()
            invariant
                n == coordinates@.len(),
                nodes@.len() == n as int,
                t <= connections@.len(),
                forall|i: int| 0 <= i < coordinates@.len() ==> coord_ok(#[trigger] coordinates@[i]),
                forall|q: int|
                    0 <= q < connections@.len() ==> pair_ok(#[trigger] connections@[q], n as int),
                forall|q: int|
                    0 <= q < n ==> (#[trigger] nodes@[q])@ == adj_of(
                        q,
                        connections@.take(t as int),
                        coordinates@,
                    ),
            decreases connections@.len() - t,
        {
            let (i, j) = connections[t];
            let c = Graph::euclidean_distance(coordinates[i], coordinates[j]);
            let ghost pre = nodes@;
            push_edge(&mut nodes, i, Edge { node: j, cost: c });
            let ghost mid = nodes@;
            push_edge(&mut nodes, j, Edge { node: i, cost: c });
            proof {
                let cs = connections@;
                let t0 = t as int;
                let p = cs[t0];
                assert(cs.take(t0 + 1).drop_last() =~= cs.take(t0));
                assert(cs.take(t0 + 1).last() == p);
                lemma_weight_bounds(coordinates@[p.0 as int], coordinates@[p.1 as int]);
                assert(weight(coordinates@[p.0 as int], coordinates@[p.1 as int]) as u64 == c);
                assert forall|q: int| 0 <= q < n implies (#[trigger] nodes@[q])@ == adj_of(
                    q,
                    cs.take(t0 + 1),
                    coordinates@,
                ) by {
                    let rest = adj_of(q, cs.take(t0), coordinates@);
                    assert(pre[q]@ == rest);
                    if q == i as int && q == j as int {
                        assert(nodes@[q]@ =~= rest.push(Edge { node: j, cost: c }).push(
                            Edge { node: i, cost: c },
                        ));
                    } else if q == i as int {
                        assert(nodes@[q] == mid[q]);
                        assert(nodes@[q]@ =~= rest.push(Edge { node: j, cost: c }));
                    } else if q == j as int {
                        assert(mid[q] == pre[q]);
                        assert(nodes@[q]@ =~= rest.push(Edge { node: i, cost: c }));
                    } else {
                        assert(nodes@[q] == pre[q]);
                    }
                }
            }
            t = t + 1;
        }
        proof {
            assert(connections@.take(connections@.len() as int) =~= connections@);
        }
        let g = Graph { coordinates, nodes };
        proof {
            assert forall|i: int, k: int|
                0 <= i < g.nodes@.len() && 0 <= k < g.nodes@[i]@.len() implies g.edge_ok(i, k) by {
                lemma_adj_edges_ok(i, connections@, g.coordinates@);
                assert(g.nodes@[i]@ == adj_of(i, connections@, g.coordinates@));
            }
            lemma_adj_mirror(connections@, g.coordinates@);
            assert forall|i: int, k: int|
                0 <= i < g.nodes@.len() && 0 <= k < g.nodes@[i]@.len() implies #[trigger] g
                .mirrored(i, k) by {
                let e = g.nodes@[i]@[k];
                assert(g.nodes@[i]@ == adj_of(i, connections@, g.coordinates@));
                assert(mirror_in(i, e, connections@, g.coordinates@));
                assert(g.edge_ok(i, k));
                let k2 = choose|k2: int|
                    0 <= k2 < adj_of(e.node as int, connections@, g.coordinates@).len() && (
                    #[trigger] adj_of(e.node as int, connections@, g.coordinates@)[k2]).node as int
                        == i && adj_of(e.node as int, connections@, g.coordinates@)[k2].cost
                        == e.cost;
                assert(g.nodes@[e.node as int]@ == adj_of(
                    e.node as int,
                    connections@,
                    g.coordinates@,
                ));
                assert(g.nodes@[e.node as int]@[k2].node as int == i);
            }
        }
        Ok(g)
    }
}

/// A found route: the ordered node ids from start to goal, and one turn
/// annotation per node.
#[derive(Debug, Clone)]
pub struct Path {
    pub path: Vec<usize>,
    pub angles: Vec<Angle>,
}

impl Graph {
    /// Number of nodes in the graph.
    pub fn node_count(&self) -> (n: usize)
        ensures
            n as int == self.spec_node_count(),
    {
        self.coordinates.len()
    }

    /// Total cost of a node sequence: the sum of the Euclidean weights of
    /// its consecutive pairs, in fixed-point distance units.
    pub fn route_cost(&self, route: &Vec<usize>) -> (c: u128)
        requires
            self.wf(),
            forall|k: int|
                0 <= k < route@.len() ==> ((#[trigger] route@[k]) as int) < self.spec_node_count(),
        ensures
            c as int == self.route_cost_spec(route@),
    {
        if route.len() <= 1 {
            return 0;
        }
        let mut c: u128 = 0;
        let mut k: usize = 1;
        while k < route.len()
            invariant
                1 <= k <= route@.len(),
                2 <= route@.len(),
                self.wf(),
                forall|t: int|
                    0 <= t < route@.len() ==> ((#[trigger] route@[t]) as int)
                        < self.spec_node_count(),
                c as int == self.route_cost_spec(route@.take(k as int)),
                c as int <= 3_000_000 * (k as int - 1),
            decreases route@.len() - k,
        {
            let a = self.coordinates[route[k - 1]];
            let b = self.coordinates[route[k]];
            let w = Graph::euclidean_distance(a, b);
            proof {
                let t1 = k as int + 1;
                assert(route@.take(t1).drop_last() =~= route@.take(k as int));
                assert(route@.take(t1)[t1 - 1] == route@[k as int]);
                assert(route@.take(t1)[t1 - 2] == route@[k as int - 1]);
            }
            c = c + (w as u128);
            k = k + 1;
        }
        proof {
            assert(route@.take(route@.len() as int) =~= route@);
        }
        c
    }

    /// Search and annotate in one call: the lowest-cost route from
    /// `start` to `goal` together with its per-node turn classification.
    /// The route, its cost bound, its optimality and its freedom from
    /// repeats, and the failures, are exactly those of `shortest_path`;
    /// the annotations are exactly those of `annotate_turns`.
    pub fn dijkstra(&self, start: usize, goal: usize) -> (r: Result<Path, RouteError>)
        requires
            self.wf(),
        ensures
            match r {
                Ok(p) => {
                    &&& self.is_route(p.path@, start, goal)
                    &&& (start == goal ==> p.path@ =~= seq![start])
                    &&& self.route_cost_spec(p.path@) < u64::MAX as int
                    &&& forall|q: Seq<usize>|
                        #[trigger] self.is_route(q, start, goal) ==> self.route_cost_spec(p.path@)
                            <= self.route_cost_spec(q)
                    &&& forall|i: int, j: int|
                        0 <= i < j < p.path@.len() ==> p.path@[i] != p.path@[j]
                    &&& p.angles@.len() == p.path@.len()
                    &&& forall|k: int|
                        0 <= k < p.path@.len() ==> #[trigger] p.angles@[k]
                            == crate::turns::annotation_at(self.coordinates@, p.path@, k)
                },
                Err(e) => {
                    &&& e != RouteError::MalformedInput
                    &&& (e == RouteError::InvalidNode <==> ((start as int)
                        >= self.spec_node_count() || (goal as int) >= self.spec_node_count()))
                    &&& (e == RouteError::NotReachable ==> (start as int) < self.spec_node_count()
                        && (goal as int) < self.spec_node_count() && start != goal && !(exists|p: Seq<usize>|
                        self.is_route(p, start, goal) && self.route_cost_spec(p) < u64::MAX as int))
                },
            },
            ((start as int) < self.spec_node_count() && (goal as int) < self.spec_node_count() && (
            exists|p: Seq<usize>|
                self.is_route(p, start, goal) && self.route_cost_spec(p) < u64::MAX as int))
                ==> r is Ok,
    {
        let route = match self.shortest_path(start, goal) {
            Ok(route) => route,
            Err(e) => {
                return Err(e);
            },
        };
        let angles = crate::turns::annotate_turns(&route, &self.coordinates);
        Ok(Path { path: route, angles })
    }
}

} // verus!
