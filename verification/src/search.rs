//! The shortest-path search: a label-setting relaxation driven by the
//! min-queue of `state`, stopping early once the goal is popped, followed
//! by reconstruction of the route from the predecessor table.
//!
//! A node may enter the queue more than once as cheaper paths to it are
//! found; stale entries (whose recorded cost exceeds the node's current
//! best distance) and entries for already-settled nodes are discarded when
//! popped. A node counts as settled only when it is popped with a cost no
//! worse than its current best distance.

use vstd::prelude::*;

use crate::graph::{weight, Graph, RouteError};
use crate::state::{pop_min, State};
use crate::utils::Prev;

verus! {

/// Sum of a distance table, the part of the termination measure that
/// shrinks whenever a relaxation succeeds.
pub open spec fn sum_dist(s: Seq<u64>) -> int
    decreases s.len(),
{
    if s.len() == 0 {
        0
    } else {
        sum_dist(s.drop_last()) + s.last()
    }
}

proof fn lemma_sum_dist_nonneg(s: Seq<u64>)
    ensures
        sum_dist(s) >= 0,
    decreases s.len(),
{
    if s.len() > 0 {
        lemma_sum_dist_nonneg(s.drop_last());
    }
}

proof fn lemma_sum_dist_update(s: Seq<u64>, i: int, v: u64)
    requires
        0 <= i < s.len(),
    ensures
        sum_dist(s.update(i, v)) == sum_dist(s) - s[i] + v,
    decreases s.len(),
{
    if i == s.len() - 1 {
        assert(s.update(i, v).drop_last() =~= s.drop_last());
        assert(s.update(i, v).last() == v);
    } else {
        lemma_sum_dist_update(s.drop_last(), i, v);
        assert(s.update(i, v).drop_last() =~= s.drop_last().update(i, v));
        assert(s.update(i, v).last() == s.last());
    }
}

/// Overwrite one element of a vector.
fn set_at<T>(v: &mut Vec<T>, i: usize, x: T)
    requires
        (i as int) < old(v)@.len(),
    ensures
        final(v)@ == old(v)@.update(i as int, x),
{
    let p = &mut v[i];
    *p = x;
}

/// After removing some other index, an entry of a queue is still present.
proof fn lemma_remove_keeps_entry(q: Seq<State>, i: int, t: int)
    requires
        0 <= i < q.len(),
        0 <= t < q.len(),
        t != i,
    ensures
        exists|t2: int| 0 <= t2 < q.remove(i).len() && #[trigger] q.remove(i)[t2] == q[t],
{
    if t < i {
        assert(q.remove(i)[t] == q[t]);
    } else {
        assert(q.remove(i)[t - 1] == q[t]);
    }
}

impl Graph {
    /// Some route from `start` to `v` costs exactly `c`.
    pub open spec fn reaches_at_cost(self, start: usize, v: usize, c: int) -> bool {
        exists|p: Seq<usize>| self.is_route(p, start, v) && self.route_cost_spec(p) == c
    }

    /// No route from `start` to `v` costs less than `c`.
    pub open spec fn cost_optimal(self, start: usize, v: usize, c: int) -> bool {
        forall|p: Seq<usize>| #[trigger] self.is_route(p, start, v) ==> c <= self.route_cost_spec(p)
    }

    /// The queue-free half of the search invariant: the start is at
    /// distance zero; every finite tentative distance is the cost of a
    /// real route; every settled node's distance is finite and optimal,
    /// and all of its edges have been relaxed.
    pub open spec fn settled_inv(self, dist: Seq<u64>, visited: Seq<bool>, start: usize) -> bool {
        let n = self.spec_node_count();
        &&& dist.len() == n
        &&& visited.len() == n
        &&& (start as int) < n
        &&& dist[start as int] == 0
        &&& forall|v: int|
            0 <= v < n && (#[trigger] dist[v]) < u64::MAX ==> self.reaches_at_cost(
                start,
                v as usize,
                dist[v] as int,
            )
        &&& forall|u: int| 0 <= u < n && #[trigger] visited[u] ==> dist[u] < u64::MAX
        &&& forall|u: int|
            0 <= u < n && #[trigger] visited[u] ==> self.cost_optimal(
                start,
                u as usize,
                dist[u] as int,
            )
        &&& forall|u: int, k: int|
            0 <= u < n && visited[u] && 0 <= k < self.nodes@[u]@.len() ==> dist[(#[trigger] self
                .nodes@[u]@[k]).node as int] as int <= dist[u] as int + self.nodes@[u]@[k].cost as int
    }

    /// The queue half of the search invariant: entries name valid nodes,
    /// carry finite costs that dominate the node's current distance, and
    /// every discovered, unsettled node still has an exact entry.
    /// `pending` names a node currently being settled, whose entry has
    /// already been popped (pass the node count when none is).
    pub open spec fn queue_inv(
        self,
        dist: Seq<u64>,
        visited: Seq<bool>,
        queue: Seq<State>,
        pending: int,
    ) -> bool {
        let n = self.spec_node_count();
        &&& forall|t: int| 0 <= t < queue.len() ==> ((#[trigger] queue[t]).position as int) < n
        &&& forall|t: int| 0 <= t < queue.len() ==> ((#[trigger] queue[t]).cost as int) < u64::MAX as int
        &&& forall|t: int|
            0 <= t < queue.len() ==> dist[(#[trigger] queue[t]).position as int] <= queue[t].cost
        &&& forall|v: int|
            0 <= v < n && (#[trigger] dist[v]) < u64::MAX && !visited[v] && v != pending
                ==> exists|t: int|
                0 <= t < queue.len() && ((#[trigger] queue[t]).position as int) == v && queue[t].cost
                    == dist[v]
    }

    /// Extending a route by one edge extends its cost by that edge's
    /// weight.
    proof fn lemma_route_extend(self, p: Seq<usize>, start: usize, u: usize, v: usize)
        requires
            self.wf(),
            self.is_route(p, start, u),
            self.has_edge(u as int, v as int),
            (v as int) < self.spec_node_count(),
        ensures
            self.is_route(p.push(v), start, v),
            self.route_cost_spec(p.push(v)) == self.route_cost_spec(p) + weight(
                self.coordinates@[u as int],
                self.coordinates@[v as int],
            ),
    {
        let q = p.push(v);
        assert(q.drop_last() =~= p);
        assert(q[q.len() - 1] == v);
        assert(q[q.len() - 2] == u);
        assert forall|k: int| 0 <= k < q.len() - 1 implies #[trigger] self.has_edge(
            q[k] as int,
            q[k + 1] as int,
        ) by {
            if k < p.len() - 1 {
                assert(q[k] == p[k] && q[k + 1] == p[k + 1]);
                assert(self.has_edge(p[k] as int, p[k + 1] as int));
            } else {
                assert(q[k] == u && q[k + 1] == v);
            }
        }
    }

    /// The frontier argument: any route through the graph either costs
    /// the sentinel or more, ends settled at no more than its own cost,
    /// or passes a queue entry that costs no more than it does.
    proof fn lemma_frontier(
        self,
        dist: Seq<u64>,
        visited: Seq<bool>,
        queue: Seq<State>,
        start: usize,
        p: Seq<usize>,
        v: usize,
    )
        requires
            self.wf(),
            self.settled_inv(dist, visited, start),
            self.queue_inv(dist, visited, queue, self.spec_node_count()),
            self.is_route(p, start, v),
        ensures
            self.route_cost_spec(p) >= u64::MAX as int || (visited[v as int] && dist[v as int] as int
                <= self.route_cost_spec(p)) || (exists|t: int|
                0 <= t < queue.len() && ((#[trigger] queue[t]).cost as int)
                    <= self.route_cost_spec(p)),
        decreases p.len(),
    {
        let n = self.spec_node_count();
        let cost = self.route_cost_spec(p);
        if p.len() == 1 {
            assert(v == start);
            assert(cost == 0);
            if !visited[start as int] {
                assert(dist[start as int] == 0);
                let t = choose|t: int|
                    0 <= t < queue.len() && ((#[trigger] queue[t]).position as int)
                        == start as int && queue[t].cost == dist[start as int];
                assert(queue[t].cost as int <= cost);
            }
        } else {
            let p0 = p.drop_last();
            let u = p[p.len() - 2];
            assert(p0[0] == start && p0[p0.len() - 1] == u);
            assert forall|k: int| 0 <= k < p0.len() implies ((#[trigger] p0[k]) as int) < n by {
                assert(p0[k] == p[k]);
            }
            assert forall|k: int| 0 <= k < p0.len() - 1 implies #[trigger] self.has_edge(
                p0[k] as int,
                p0[k + 1] as int,
            ) by {
                assert(p0[k] == p[k] && p0[k + 1] == p[k + 1]);
                assert(self.has_edge(p[k] as int, p[k + 1] as int));
            }
            assert(self.is_route(p0, start, u));
            assert(self.has_edge(p[p.len() - 2] as int, p[(p.len() - 2) + 1] as int));
            assert(p[(p.len() - 2) + 1] == v);
            assert(self.has_edge(u as int, v as int));
            let w = weight(self.coordinates@[u as int], self.coordinates@[v as int]);
            crate::graph::lemma_weight_bounds(
                self.coordinates@[u as int],
                self.coordinates@[v as int],
            );
            assert(cost == self.route_cost_spec(p0) + w);
            let c0 = self.route_cost_spec(p0);
            self.lemma_frontier(dist, visited, queue, start, p0, u);
            if c0 >= u64::MAX as int {
                assert(cost >= u64::MAX as int);
            } else if exists|t: int|
                0 <= t < queue.len() && ((#[trigger] queue[t]).cost as int) <= c0 {
                let t = choose|t: int|
                    0 <= t < queue.len() && ((#[trigger] queue[t]).cost as int) <= c0;
                assert(queue[t].cost as int <= cost);
            } else {
                assert(visited[u as int] && dist[u as int] as int <= c0);
                let k = choose|k: int|
                    0 <= k < self.nodes@[u as int]@.len() && ((#[trigger] self.nodes@[u
                        as int]@[k]).node as int) == v as int;
                assert(self.edge_ok(u as int, k));
                assert(dist[(self.nodes@[u as int]@[k]).node as int] as int <= dist[u as int] as int
                    + self.nodes@[u as int]@[k].cost as int);
                assert(dist[v as int] as int <= cost);
                if dist[v as int] == u64::MAX {
                    assert(cost >= u64::MAX as int);
                } else if !visited[v as int] {
                    let t = choose|t: int|
                        0 <= t < queue.len() && ((#[trigger] queue[t]).position as int)
                            == v as int && queue[t].cost == dist[v as int];
                    assert(queue[t].cost as int <= cost);
                }
            }
        }
    }
}

/// Indexing into a sequence after removing one element.
proof fn lemma_remove_entries(q: Seq<State>, i: int)
    requires
        0 <= i < q.len(),
    ensures
        forall|t: int|
            0 <= t < q.remove(i).len() ==> #[trigger] q.remove(i)[t] == (if t < i {
                q[t]
            } else {
                q[t + 1]
            }),
{
}

/// The rank a node holds during reconstruction: its settle rank, or the
/// rank ceiling for a node that was never settled.
pub open spec fn walk_msr(rank: Map<int, int>, nextr: int, visited: Seq<bool>, v: int) -> int {
    if 0 <= v < visited.len() && visited[v] {
        rank[v]
    } else {
        nextr
    }
}

/// Termination measure of the predecessor walk.
pub open spec fn walk_measure(
    done: bool,
    rank: Map<int, int>,
    nextr: int,
    visited: Seq<bool>,
    v: int,
) -> int {
    if done {
        0
    } else {
        walk_msr(rank, nextr, visited, v) + 1
    }
}

impl Graph {
    /// The settle ranks agree with the settled flags: exactly the
    /// settled nodes are ranked, each below the running ceiling.
    pub open spec fn rank_inv(self, visited: Seq<bool>, rank: Map<int, int>, nextr: int) -> bool {
        let n = self.spec_node_count();
        &&& 0 <= nextr
        &&& visited.len() == n
        &&& forall|v: int| 0 <= v < n ==> ((#[trigger] visited[v]) <==> rank.dom().contains(v))
        &&& forall|v: int| 0 <= v < n && #[trigger] visited[v] ==> 0 <= rank[v] < nextr
    }

    /// The predecessor table is consistent with the distances and the
    /// settle order: the start is its own marker, an undiscovered node
    /// is unmarked, and a reached-via entry follows a real edge whose
    /// source was settled (or is `pending`, the node being settled right
    /// now) with the exact distance sum, earlier in the settle order
    /// than any settled node it feeds.
    pub open spec fn prev_links_ok(
        self,
        prevs: Seq<Prev>,
        dist: Seq<u64>,
        visited: Seq<bool>,
        rank: Map<int, int>,
        start: usize,
        pending: int,
    ) -> bool {
        let n = self.spec_node_count();
        &&& prevs.len() == n
        &&& ((start as int) < n ==> prevs[start as int] == Prev::Start)
        &&& forall|v: int|
            0 <= v < n ==> match #[trigger] prevs[v] {
                Prev::Undefined => dist[v] == u64::MAX,
                Prev::Start => v == start as int && dist[v] == 0,
                Prev::Node(u) => {
                    &&& (u as int) < n
                    &&& (u as int) != v
                    &&& self.has_edge(u as int, v)
                    &&& dist[u as int] < u64::MAX
                    &&& dist[v] < u64::MAX
                    &&& dist[v] as int == dist[u as int] as int + weight(
                        self.coordinates@[u as int],
                        self.coordinates@[v],
                    )
                    &&& ((u as int == pending && !visited[v]) || (rank.dom().contains(u as int)
                        && (visited[v] ==> rank[u as int] < rank[v])))
                },
            }
    }

    /// A route whose consecutive distances each grow by exactly the
    /// joining edge's weight costs the distance difference of its
    /// endpoints.
    proof fn lemma_telescope(self, dist: Seq<u64>, route: Seq<usize>)
        requires
            route.len() >= 1,
            forall|k: int| 0 <= k < route.len() ==> ((#[trigger] route[k]) as int) < dist.len(),
            forall|j: int|
                0 <= j < route.len() - 1 ==> dist[(#[trigger] route[j + 1]) as int] as int
                    == dist[route[j] as int] as int + weight(
                    self.coordinates@[route[j] as int],
                    self.coordinates@[route[j + 1] as int],
                ),
        ensures
            self.route_cost_spec(route) == dist[route[route.len() - 1] as int] as int
                - dist[route[0] as int] as int,
        decreases route.len(),
    {
        if route.len() > 1 {
            let r0 = route.drop_last();
            assert forall|j: int|
                0 <= j < r0.len() - 1 implies dist[(#[trigger] r0[j + 1]) as int] as int
                == dist[r0[j] as int] as int + weight(
                self.coordinates@[r0[j] as int],
                self.coordinates@[r0[j + 1] as int],
            ) by {
                assert(r0[j] == route[j] && r0[j + 1] == route[j + 1]);
                assert(dist[(route[j + 1]) as int] as int == dist[route[j] as int] as int + weight(
                    self.coordinates@[route[j] as int],
                    self.coordinates@[route[j + 1] as int],
                ));
            }
            self.lemma_telescope(dist, r0);
            assert(dist[(route[route.len() - 2 + 1]) as int] as int
                == dist[route[route.len() - 2] as int] as int + weight(
                self.coordinates@[route[route.len() - 2] as int],
                self.coordinates@[route[route.len() - 1] as int],
            ));
        }
    }

    /// Lowest-cost route from `start` to `goal`.
    ///
    /// On success the returned node sequence is a route of the graph
    /// from `start` to `goal` that repeats no node, costs less than the
    /// `u64` sentinel, and costs no more than any other route between
    /// the two; a query from a node to itself succeeds with the
    /// single-element route. `InvalidNode` is returned exactly when
    /// `start` or `goal` is not a node id; `NotReachable` only when no
    /// route below the sentinel cost connects the two (in particular,
    /// whenever the search succeeds on some input, it succeeds on it
    /// every time).
    pub fn shortest_path(&self, start: usize, goal: usize) -> (r: Result<Vec<usize>, RouteError>)
        requires
            self.wf(),
        ensures
            match r {
                Ok(route) => {
                    &&& self.is_route(route@, start, goal)
                    &&& (start == goal ==> route@ =~= seq![start])
                    &&& self.route_cost_spec(route@) < u64::MAX as int
                    &&& forall|q: Seq<usize>|
                        #[trigger] self.is_route(q, start, goal) ==> self.route_cost_spec(route@)
                            <= self.route_cost_spec(q)
                    &&& forall|i: int, j: int|
                        0 <= i < j < route@.len() ==> route@[i] != route@[j]
                },
                Err(e) => {
                    &&& e != RouteError::MalformedInput
                    &&& (e == RouteError::InvalidNode <==> ((start as int) >= self.spec_node_count()
                        || (goal as int) >= self.spec_node_count()))
                    &&& (e == RouteError::NotReachable ==> (start as int) < self.spec_node_count()
                        && (goal as int) < self.spec_node_count() && start != goal && !(exists|p: Seq<usize>|
                        self.is_route(p, start, goal) && self.route_cost_spec(p) < u64::MAX as int))
                },
            },
            ((start as int) < self.spec_node_count() && (goal as int) < self.spec_node_count() && (
            exists|p: Seq<usize>|
                self.is_route(p, start, goal) && self.route_cost_spec(p) < u64::MAX as int))
                ==> r is Ok,
    {
        let n = self.nodes.len();
        if start >= n || goal >= n {
            return Err(RouteError::InvalidNode);
        }
        // fresh per-query state: best known cost (u64::MAX standing for
        // "not discovered"), settled flags, tagged predecessors, and the
        // ghost settle order
        let mut dist: Vec<u64> = Vec::new();
        let mut visited: Vec<bool> = Vec::new();
        let mut prevs: Vec<Prev> = Vec::new();
        let mut k: usize = 0;
        while k < n
            invariant
                dist@.len() == k as int,
                visited@.len() == k as int,
                prevs@.len() == k as int,
                k <= n,
                forall|v: int| 0 <= v < k ==> (#[trigger] prevs@[v]) == Prev::Undefined,
                forall|v: int| 0 <= v < k ==> (#[trigger] dist@[v]) == u64::MAX,
                forall|v: int| 0 <= v < k ==> !(#[trigger] visited@[v]),
            decreases n - k,
        {
            dist.push(u64::MAX);
            visited.push(false);
            prevs.push(Prev::Undefined);
            k = k + 1;
        }
        set_at(&mut dist, start, 0);
        set_at(&mut prevs, start, Prev::Start);
        let mut queue: Vec<State> = Vec::new();
        queue.push(State { cost: 0, position: start });
        let ghost mut rank: Map<int, int> = Map::empty();
        let ghost mut nextr: int = 0;
        let mut found = false;
        proof {
            let self_route = seq![start];
            assert(self_route[0] == start && self_route[self_route.len() - 1] == start);
            assert(self.is_route(self_route, start, start));
            assert(self.route_cost_spec(self_route) == 0);
            assert(self.reaches_at_cost(start, start, 0));
            assert(queue@[0] == State { cost: 0u64, position: start });
            assert forall|v: int|
                0 <= v < n as int && (#[trigger] dist@[v]) < u64::MAX && !visited@[v] && v
                    != n as int implies exists|t: int|
                0 <= t < queue@.len() && ((#[trigger] queue@[t]).position as int) == v
                    && queue@[t].cost == dist@[v] by {
                assert(v == start as int);
                assert(queue@[0].position as int == v && queue@[0].cost == dist@[v]);
            }
        }

        while queue.len() > 0
            invariant_except_break
                self.wf(),
                n as int == self.spec_node_count(),
                (start as int) < n as int,
                (goal as int) < n as int,
                !found,
                dist@.len() == n as int,
                prevs@.len() == n as int,
                visited@.len() == n as int,
                self.settled_inv(dist@, visited@, start),
                self.rank_inv(visited@, rank, nextr),
                self.prev_links_ok(prevs@, dist@, visited@, rank, start, n as int),
                self.queue_inv(dist@, visited@, queue@, n as int),
            ensures
                dist@.len() == n as int,
                prevs@.len() == n as int,
                visited@.len() == n as int,
                self.settled_inv(dist@, visited@, start),
                self.rank_inv(visited@, rank, nextr),
                self.prev_links_ok(prevs@, dist@, visited@, rank, start, n as int),
                found ==> dist@[goal as int] < u64::MAX && self.cost_optimal(
                    start,
                    goal,
                    dist@[goal as int] as int,
                ),
                !found ==> queue@.len() == 0 && self.queue_inv(dist@, visited@, queue@, n as int),
            decreases sum_dist(dist@) + queue@.len(),
        {
            proof {
                lemma_sum_dist_nonneg(dist@);
            }
            let ghost q0 = queue@;
            let popped = pop_min(&mut queue);
            let s = match popped {
                Some(s) => s,
                None => {
                    // pop_min returns an entry whenever the queue is nonempty
                    proof {
                        assert(false);
                    }
                    return Err(RouteError::NotReachable);
                },
            };
            let ghost i = choose|i: int|
                0 <= i < q0.len() && q0[i] == s && queue@ == q0.remove(i);
            proof {
                lemma_remove_entries(q0, i);
                assert(dist@[s.position as int] <= s.cost);
            }
            if s.position == goal {
                // early exit: the goal has been popped; its distance is
                // already optimal, by the frontier argument on the
                // pre-pop queue and the minimality of the popped entry
                proof {
                    assert(dist@[goal as int] < u64::MAX);
                    assert forall|p: Seq<usize>| #[trigger] self.is_route(p, start, goal) implies
                        dist@[goal as int] as int <= self.route_cost_spec(p) by {
                        self.lemma_frontier(dist@, visited@, q0, start, p, goal);
                        let c = self.route_cost_spec(p);
                        if c >= u64::MAX as int {
                        } else if visited@[goal as int] && dist@[goal as int] as int <= c {
                        } else {
                            let t = choose|t: int|
                                0 <= t < q0.len() && ((#[trigger] q0[t]).cost as int) <= c;
                            assert(!q0[t].spec_precedes(s));
                            assert(s.cost <= q0[t].cost);
                        }
                    }
                }
                found = true;
                break;
            }
            let dcur = dist[s.position];
            if visited[s.position] || s.cost > dcur {
                // stale entry or already-settled node: discard; every
                // other discovered node keeps its exact entry
                proof {
                    lemma_sum_dist_nonneg(dist@);
                    assert forall|v: int|
                        0 <= v < n as int && (#[trigger] dist@[v]) < u64::MAX && !visited@[v] && v
                            != n as int implies exists|t: int|
                        0 <= t < queue@.len() && ((#[trigger] queue@[t]).position as int) == v
                            && queue@[t].cost == dist@[v] by {
                        let t = choose|t: int|
                            0 <= t < q0.len() && ((#[trigger] q0[t]).position as int) == v
                                && q0[t].cost == dist@[v];
                        assert(q0[t] != s);
                        assert(t != i);
                        lemma_remove_keeps_entry(q0, i, t);
                    }
                }
                continue;
            }
            // settle s.position: its tentative distance is optimal, by
            // the frontier argument on the pre-pop queue
            proof {
                assert(s.cost == dist@[s.position as int]);
                assert forall|p: Seq<usize>| #[trigger] self.is_route(p, start, s.position) implies
                    s.cost as int <= self.route_cost_spec(p) by {
                    self.lemma_frontier(dist@, visited@, q0, start, p, s.position);
                    let c = self.route_cost_spec(p);
                    if c >= u64::MAX as int {
                    } else if visited@[s.position as int] && dist@[s.position as int] as int <= c {
                    } else {
                        let t = choose|t: int|
                            0 <= t < q0.len() && ((#[trigger] q0[t]).cost as int) <= c;
                        assert(!q0[t].spec_precedes(s));
                        assert(s.cost <= q0[t].cost);
                    }
                }
                assert forall|v: int|
                    0 <= v < n as int && (#[trigger] dist@[v]) < u64::MAX && !visited@[v] && v
                        != s.position as int implies exists|t: int|
                    0 <= t < queue@.len() && ((#[trigger] queue@[t]).position as int) == v
                        && queue@[t].cost == dist@[v] by {
                    let t = choose|t: int|
                        0 <= t < q0.len() && ((#[trigger] q0[t]).position as int) == v && q0[t].cost
                            == dist@[v];
                    assert(q0[t] != s);
                    assert(t != i);
                    lemma_remove_keeps_entry(q0, i, t);
                }
            }
            let ghost s0: int = sum_dist(dist@) + queue@.len();
            let deg = self.nodes[s.position].len();
            let mut e: usize = 0;
            while e < deg
                invariant
                    self.wf(),
                    n as int == self.spec_node_count(),
                    (start as int) < n as int,
                    (s.position as int) < n as int,
                    e <= deg,
                    deg == self.nodes@[s.position as int]@.len(),
                    dist@.len() == n as int,
                    prevs@.len() == n as int,
                    visited@.len() == n as int,
                    dist@[s.position as int] == s.cost,
                    !visited@[s.position as int],
                    (s.cost as int) < u64::MAX as int,
                    self.settled_inv(dist@, visited@, start),
                    self.rank_inv(visited@, rank, nextr),
                    self.prev_links_ok(prevs@, dist@, visited@, rank, start, s.position as int),
                    self.queue_inv(dist@, visited@, queue@, s.position as int),
                    forall|p: Seq<usize>|
                        #[trigger] self.is_route(p, start, s.position) ==> s.cost as int
                            <= self.route_cost_spec(p),
                    forall|k2: int|
                        0 <= k2 < e ==> dist@[(#[trigger] self.nodes@[s.position
                            as int]@[k2]).node as int] as int <= s.cost as int + self.nodes@[s
                            .position as int]@[k2].cost as int,
                    sum_dist(dist@) + queue@.len() <= s0,
                decreases deg - e,
            {
                let edge = self.nodes[s.position][e];
                proof {
                    assert(self.edge_ok(s.position as int, e as int));
                }
                // gate re-insertion on "cost improved", never on a
                // first-touch flag; an overflowing tentative cost can
                // never be an improvement
                if s.cost < u64::MAX - edge.cost {
                    let nc = s.cost + edge.cost;
                    if nc < dist[edge.node] {
                        proof {
                            lemma_sum_dist_update(dist@, edge.node as int, nc);
                            // the improved route: some optimal route to
                            // the settled source, extended by this edge
                            assert(self.reaches_at_cost(
                                start,
                                s.position,
                                dist@[s.position as int] as int,
                            ));
                            let pu = choose|p: Seq<usize>|
                                self.is_route(p, start, s.position) && self.route_cost_spec(p)
                                    == dist@[s.position as int] as int;
                            assert(self.has_edge(s.position as int, edge.node as int));
                            self.lemma_route_extend(pu, start, s.position, edge.node);
                            assert(self.route_cost_spec(pu.push(edge.node)) == nc as int);
                            // a settled target would already be at or
                            // below this cost: the improvement shows the
                            // target is unsettled
                            if visited@[edge.node as int] {
                                assert(self.cost_optimal(
                                    start,
                                    edge.node,
                                    dist@[edge.node as int] as int,
                                ));
                                assert(self.is_route(pu.push(edge.node), start, edge.node));
                                assert(false);
                            }
                            assert(edge.node != start);
                            assert(edge.node != s.position);
                            assert(self.reaches_at_cost(start, edge.node, nc as int));
                        }
                        let ghost dist0 = dist@;
                        let ghost prevs0 = prevs@;
                        let ghost queue0 = queue@;
                        set_at(&mut dist, edge.node, nc);
                        set_at(&mut prevs, edge.node, Prev::Node(s.position));
                        queue.push(State { cost: nc, position: edge.node });
                        proof {
                            assert forall|v: int|
                                0 <= v < n as int && (#[trigger] dist@[v]) < u64::MAX implies self
                                .reaches_at_cost(start, v as usize, dist@[v] as int) by {
                                if v != edge.node as int {
                                    assert(dist0[v] == dist@[v]);
                                }
                            }
                            // settled nodes keep their distances, their
                            // optimality, and their relaxed edges
                            assert forall|u: int|
                                0 <= u < n as int && #[trigger] visited@[u] implies dist@[u]
                                < u64::MAX && self.cost_optimal(start, u as usize, dist@[u] as int)
                                by {
                                assert(u != edge.node as int);
                                assert(dist@[u] == dist0[u]);
                            }
                            assert forall|u: int, k2: int|
                                0 <= u < n as int && visited@[u] && 0 <= k2 < self.nodes@[u]@.len()
                                    implies dist@[(#[trigger] self.nodes@[u]@[k2]).node as int] as int
                                <= dist@[u] as int + self.nodes@[u]@[k2].cost as int by {
                                assert(u != edge.node as int);
                                assert(dist@[u] == dist0[u]);
                                assert(self.edge_ok(u, k2));
                                let nb = self.nodes@[u]@[k2].node as int;
                                if nb != edge.node as int {
                                    assert(dist@[nb] == dist0[nb]);
                                } else {
                                    assert(dist@[nb] as int <= dist0[nb] as int);
                                }
                            }
                            assert forall|v: int|
                                0 <= v < n as int && (#[trigger] dist@[v]) < u64::MAX
                                    && !visited@[v] && v != s.position as int implies exists|t: int|
                                0 <= t < queue@.len() && ((#[trigger] queue@[t]).position as int)
                                    == v && queue@[t].cost == dist@[v] by {
                                if v == edge.node as int {
                                    assert(queue@[queue@.len() - 1].position as int == v
                                        && queue@[queue@.len() - 1].cost == dist@[v]);
                                } else {
                                    assert(dist0[v] == dist@[v]);
                                    let t = choose|t: int|
                                        0 <= t < queue0.len() && ((#[trigger] queue0[t]).position
                                            as int) == v && queue0[t].cost == dist0[v];
                                    assert(queue@[t] == queue0[t]);
                                    assert(queue@[t].position as int == v && queue@[t].cost
                                        == dist@[v]);
                                }
                            }
                            assert forall|v: int| 0 <= v < n as int implies match #[trigger] prevs@[v] {
                                Prev::Undefined => dist@[v] == u64::MAX,
                                Prev::Start => v == start as int && dist@[v] == 0,
                                Prev::Node(u) => {
                                    &&& (u as int) < n as int
                                    &&& (u as int) != v
                                    &&& self.has_edge(u as int, v)
                                    &&& dist@[u as int] < u64::MAX
                                    &&& dist@[v] < u64::MAX
                                    &&& dist@[v] as int == dist@[u as int] as int + weight(
                                        self.coordinates@[u as int],
                                        self.coordinates@[v],
                                    )
                                    &&& ((u as int == s.position as int && !visited@[v]) || (rank
                                        .dom().contains(u as int) && (visited@[v] ==> rank[u as int]
                                        < rank[v])))
                                },
                            } by {
                                if v == edge.node as int {
                                    assert(self.edge_ok(s.position as int, e as int));
                                    assert(!visited@[v]);
                                } else {
                                    assert(prevs@[v] == prevs0[v]);
                                    assert(dist@[v] == dist0[v]);
                                    match prevs0[v] {
                                        Prev::Node(u) => {
                                            assert(u as int != edge.node as int);
                                            assert(dist@[u as int] == dist0[u as int]);
                                        },
                                        _ => {},
                                    }
                                }
                            }
                        }
                    }
                }
                proof {
                    assert(dist@[(self.nodes@[s.position as int]@[e as int]).node as int] as int
                        <= s.cost as int + self.nodes@[s.position as int]@[e as int].cost as int);
                    assert forall|k2: int|
                        0 <= k2 < e + 1 implies dist@[(#[trigger] self.nodes@[s.position
                        as int]@[k2]).node as int] as int <= s.cost as int + self.nodes@[s.position
                        as int]@[k2].cost as int by {
                        assert(self.edge_ok(s.position as int, k2));
                    }
                }
                e = e + 1;
            }
            let ghost vis0 = visited@;
            set_at(&mut visited, s.position, true);
            proof {
                let ghost rank0 = rank;
                let ghost nextr0 = nextr;
                rank = rank.insert(s.position as int, nextr);
                nextr = nextr + 1;
                assert(self.cost_optimal(start, s.position, dist@[s.position as int] as int));
                // the settle ranks stay in step with the settled flags
                assert forall|v: int|
                    0 <= v < n as int implies ((#[trigger] visited@[v]) <==> rank.dom().contains(
                    v,
                )) by {
                    if v != s.position as int {
                        assert(visited@[v] == vis0[v]);
                    }
                }
                // the freshly settled node keeps every settled-node duty
                assert forall|u: int|
                    0 <= u < n as int && #[trigger] visited@[u] implies dist@[u] < u64::MAX
                    && self.cost_optimal(start, u as usize, dist@[u] as int) by {
                    if u != s.position as int {
                        assert(visited@[u] == vis0[u]);
                    }
                }
                assert forall|u: int, k2: int|
                    0 <= u < n as int && visited@[u] && 0 <= k2 < self.nodes@[u]@.len() implies
                    dist@[(#[trigger] self.nodes@[u]@[k2]).node as int] as int <= dist@[u] as int
                    + self.nodes@[u]@[k2].cost as int by {
                    if u == s.position as int {
                        assert(dist@[(self.nodes@[s.position as int]@[k2]).node as int] as int
                            <= s.cost as int + self.nodes@[s.position as int]@[k2].cost as int);
                    } else {
                        assert(visited@[u] == vis0[u]);
                    }
                }
                assert forall|v: int| 0 <= v < n as int implies match #[trigger] prevs@[v] {
                    Prev::Undefined => dist@[v] == u64::MAX,
                    Prev::Start => v == start as int && dist@[v] == 0,
                    Prev::Node(u) => {
                        &&& (u as int) < n as int
                        &&& (u as int) != v
                        &&& self.has_edge(u as int, v)
                        &&& dist@[u as int] < u64::MAX
                        &&& dist@[v] < u64::MAX
                        &&& dist@[v] as int == dist@[u as int] as int + weight(
                            self.coordinates@[u as int],
                            self.coordinates@[v],
                        )
                        &&& ((u as int == n as int && !visited@[v]) || (rank.dom().contains(
                            u as int,
                        ) && (visited@[v] ==> rank[u as int] < rank[v])))
                    },
                } by {
                    match prevs@[v] {
                        Prev::Node(u) => {
                            if v == s.position as int {
                                // the new node's source settled earlier
                                assert(u as int != s.position as int);
                                assert(rank0.dom().contains(u as int));
                                assert(vis0[u as int]);
                                assert(rank[u as int] == rank0[u as int]);
                                assert(rank[u as int] < nextr0);
                                assert(rank[v] == nextr0);
                            } else {
                                assert(visited@[v] == vis0[v]);
                                if u as int == s.position as int {
                                    // relaxed from the node being settled:
                                    // its target is still unsettled
                                    assert(!vis0[v]);
                                    assert(rank.dom().contains(u as int));
                                    assert(!visited@[v]);
                                } else {
                                    if vis0[v] {
                                        assert(rank[u as int] == rank0[u as int]);
                                        assert(rank[v] == rank0[v]);
                                    }
                                }
                            }
                        },
                        _ => {},
                    }
                }
                lemma_sum_dist_nonneg(dist@);
            }
        }
        // if the goal was never popped, the queue drained: everything
        // discovered is settled, so a route below the sentinel cost
        // would have been found
        if dist[goal] == u64::MAX {
            proof {
                assert(!found);
                assert(!(exists|p: Seq<usize>|
                    self.is_route(p, start, goal) && self.route_cost_spec(p) < u64::MAX as int))
                    by {
                    if exists|p: Seq<usize>|
                        self.is_route(p, start, goal) && self.route_cost_spec(p) < u64::MAX as int {
                        let p = choose|p: Seq<usize>|
                            self.is_route(p, start, goal) && self.route_cost_spec(p)
                                < u64::MAX as int;
                        self.lemma_frontier(dist@, visited@, queue@, start, p, goal);
                        assert(false);
                    }
                }
                assert(start != goal);
            }
            return Err(RouteError::NotReachable);
        }
        proof {
            if !found {
                assert forall|p: Seq<usize>| #[trigger] self.is_route(p, start, goal) implies
                    dist@[goal as int] as int <= self.route_cost_spec(p) by {
                    self.lemma_frontier(dist@, visited@, queue@, start, p, goal);
                }
            }
            assert(self.cost_optimal(start, goal, dist@[goal as int] as int));
        }
        // walk the predecessor chain backward from the goal; settle
        // ranks drop strictly along it, so it reaches the start marker
        // through pairwise-distinct nodes
        let mut rev: Vec<usize> = Vec::new();
        rev.push(goal);
        let mut current: usize = goal;
        let mut done = false;
        while !done
            invariant
                self.wf(),
                n as int == self.spec_node_count(),
                (start as int) < n as int,
                (goal as int) < n as int,
                (current as int) < n as int,
                dist@[current as int] < u64::MAX,
                rev@.len() >= 1,
                rev@[0] == goal,
                rev@[rev@.len() - 1] == current,
                forall|t: int| 0 <= t < rev@.len() ==> ((#[trigger] rev@[t]) as int) < n as int,
                forall|t: int|
                    0 <= t < rev@.len() - 1 ==> #[trigger] self.has_edge(
                        rev@[t + 1] as int,
                        rev@[t] as int,
                    ),
                forall|t: int|
                    0 <= t < rev@.len() - 1 ==> dist@[(#[trigger] rev@[t]) as int] as int
                        == dist@[rev@[t + 1] as int] as int + weight(
                        self.coordinates@[rev@[t + 1] as int],
                        self.coordinates@[rev@[t] as int],
                    ),
                forall|t1: int, t2: int|
                    0 <= t1 < t2 < rev@.len() ==> walk_msr(
                        rank,
                        nextr,
                        visited@,
                        (#[trigger] rev@[t2]) as int,
                    ) < walk_msr(rank, nextr, visited@, (#[trigger] rev@[t1]) as int),
                self.rank_inv(visited@, rank, nextr),
                self.prev_links_ok(prevs@, dist@, visited@, rank, start, n as int),
                done ==> current == start,
                start == goal ==> rev@ =~= seq![goal] && (done || current == goal),
            decreases walk_measure(done, rank, nextr, visited@, current as int),
        {
            match prevs[current] {
                Prev::Start => {
                    proof {
                        assert(current == start);
                    }
                    done = true;
                },
                Prev::Undefined => {
                    // a discovered node always carries a marker
                    proof {
                        assert(dist@[current as int] == u64::MAX);
                        assert(false);
                    }
                    return Err(RouteError::NotReachable);
                },
                Prev::Node(u) => {
                    proof {
                        let pv = prevs@[current as int];
                        assert(pv == Prev::Node(u));
                        // the source is settled, so its rank lies below
                        // the current node's measure
                        assert(rank.dom().contains(u as int));
                        assert(visited@[u as int]);
                        assert(walk_msr(rank, nextr, visited@, u as int) == rank[u as int]);
                        if visited@[current as int] {
                            assert(rank[u as int] < rank[current as int]);
                        } else {
                            assert(rank[u as int] < nextr);
                        }
                        assert(walk_msr(rank, nextr, visited@, u as int) < walk_msr(
                            rank,
                            nextr,
                            visited@,
                            current as int,
                        ));
                    }
                    let ghost old_rev = rev@;
                    rev.push(u);
                    proof {
                        assert forall|t1: int, t2: int|
                            0 <= t1 < t2 < rev@.len() implies walk_msr(
                            rank,
                            nextr,
                            visited@,
                            (#[trigger] rev@[t2]) as int,
                        ) < walk_msr(rank, nextr, visited@, (#[trigger] rev@[t1]) as int) by {
                            if t2 == rev@.len() - 1 {
                                assert(rev@[t2] == u);
                                assert(rev@[t1] == old_rev[t1]);
                                if t1 < old_rev.len() - 1 {
                                    assert(walk_msr(rank, nextr, visited@, old_rev[old_rev.len()
                                        - 1] as int) < walk_msr(
                                        rank,
                                        nextr,
                                        visited@,
                                        old_rev[t1] as int,
                                    ));
                                }
                            } else {
                                assert(rev@[t1] == old_rev[t1] && rev@[t2] == old_rev[t2]);
                            }
                        }
                    }
                    current = u;
                },
            }
        }
        // the chain reached the start marker: reverse it into the route
        let mut route: Vec<usize> = Vec::new();
        let mut k: usize = rev.len();
        while k > 0
            invariant
                k <= rev@.len(),
                route@.len() == rev@.len() - k as int,
                forall|t: int|
                    0 <= t < route@.len() ==> #[trigger] route@[t] == rev@[rev@.len() - 1 - t],
            decreases k,
        {
            k = k - 1;
            route.push(rev[k]);
        }
        proof {
            let ll = rev@.len();
            assert(route@[0] == rev@[ll - 1]);
            assert(route@[route@.len() - 1] == rev@[0]);
            assert forall|t: int| 0 <= t < route@.len() - 1 implies #[trigger] self.has_edge(
                route@[t] as int,
                route@[t + 1] as int,
            ) by {
                assert(route@[t] == rev@[ll - 1 - t]);
                assert(route@[t + 1] == rev@[ll - 1 - (t + 1)]);
                assert(self.has_edge(rev@[(ll - 2 - t) + 1] as int, rev@[ll - 2 - t] as int));
            }
            assert(self.is_route(route@, start, goal));
            assert forall|j: int|
                0 <= j < route@.len() - 1 implies dist@[(#[trigger] route@[j + 1]) as int] as int
                == dist@[route@[j] as int] as int + weight(
                self.coordinates@[route@[j] as int],
                self.coordinates@[route@[j + 1] as int],
            ) by {
                assert(route@[j] == rev@[ll - 1 - j]);
                assert(route@[j + 1] == rev@[ll - 1 - (j + 1)]);
                assert(dist@[(rev@[ll - 2 - j]) as int] as int == dist@[rev@[(ll - 2 - j)
                    + 1] as int] as int + weight(
                    self.coordinates@[rev@[(ll - 2 - j) + 1] as int],
                    self.coordinates@[rev@[ll - 2 - j] as int],
                ));
            }
            self.lemma_telescope(dist@, route@);
            assert(self.route_cost_spec(route@) == dist@[goal as int] as int);
            assert forall|i2: int, j2: int| 0 <= i2 < j2 < route@.len() implies route@[i2]
                != route@[j2] by {
                assert(route@[i2] == rev@[ll - 1 - i2]);
                assert(route@[j2] == rev@[ll - 1 - j2]);
                assert(walk_msr(rank, nextr, visited@, rev@[ll - 1 - i2] as int) < walk_msr(
                    rank,
                    nextr,
                    visited@,
                    rev@[ll - 1 - j2] as int,
                ));
            }
            if start == goal {
                assert(route@ =~= seq![start]);
            }
        }
        Ok(route)
    }
}

} // verus!
