//! End-to-end checks of graph construction, the shortest-path search and
//! the turn annotator, on the fixed-point scale of 10^4 units per map
//! unit used by the bundled loader.

use wayfinder::graph::{Graph, Path, RouteError};
use wayfinder::turns::annotate_turns;
use wayfinder::utils::{Angle, Direction};

const S: i64 = 10_000; // fixed-point units per map unit

fn triangle() -> Graph {
    // nodes at (0,0), (1,0), (1,1); edges (0,1), (1,2), (0,2)
    let coords = vec![(0, 0), (S, 0), (S, S)];
    let edges = vec![(0usize, 1usize), (1, 2), (0, 2)];
    Graph::build_graph(coords, &edges).unwrap()
}

#[test]
fn direct_route_beats_two_hop() {
    // the direct diagonal costs sqrt(2) ~ 1.4142, the two-hop path 2.0
    let g = triangle();
    let p = g.dijkstra(0, 2).unwrap();
    assert_eq!(p.path, vec![0, 2]);
    assert_eq!(g.route_cost(&p.path), 14142);
    assert_eq!(p.angles, vec![Angle::Straight, Angle::Straight]);
}

#[test]
fn route_endpoints_are_start_and_goal() {
    let g = triangle();
    for (s, t) in [(0usize, 1usize), (1, 0), (0, 2), (2, 1)] {
        let p = g.dijkstra(s, t).unwrap();
        assert_eq!(*p.path.first().unwrap(), s);
        assert_eq!(*p.path.last().unwrap(), t);
    }
}

#[test]
fn same_node_is_single_element_route() {
    let g = triangle();
    let p = g.dijkstra(1, 1).unwrap();
    assert_eq!(p.path, vec![1]);
    assert_eq!(g.route_cost(&p.path), 0);
    assert_eq!(p.angles, vec![Angle::Straight]);
}

#[test]
fn disconnected_goal_is_not_reachable() {
    let coords = vec![(0, 0), (S, 0), (5 * S, 5 * S), (6 * S, 5 * S)];
    let edges = vec![(0usize, 1usize), (2, 3)];
    let g = Graph::build_graph(coords, &edges).unwrap();
    assert_eq!(g.shortest_path(0, 3), Err(RouteError::NotReachable));
    assert_eq!(g.shortest_path(3, 0), Err(RouteError::NotReachable));
    assert!(g.shortest_path(0, 1).is_ok());
}

#[test]
fn out_of_range_endpoint_is_invalid() {
    let g = triangle();
    assert_eq!(g.shortest_path(0, 9), Err(RouteError::InvalidNode));
    assert_eq!(g.shortest_path(9, 0), Err(RouteError::InvalidNode));
    assert!(matches!(g.dijkstra(7, 7), Err(RouteError::InvalidNode)));
}

#[test]
fn bad_connection_pair_is_malformed() {
    let coords = vec![(0, 0), (S, 0)];
    let edges = vec![(0usize, 2usize)];
    assert!(matches!(
        Graph::build_graph(coords, &edges),
        Err(RouteError::MalformedInput)
    ));
}

#[test]
fn collinear_points_are_straight() {
    // (0,0) -> (1,0) -> (2,0)
    let coords = vec![(0, 0), (S, 0), (2 * S, 0)];
    let edges = vec![(0usize, 1usize), (1, 2)];
    let g = Graph::build_graph(coords.clone(), &edges).unwrap();
    let p = g.dijkstra(0, 2).unwrap();
    assert_eq!(p.path, vec![0, 1, 2]);
    assert_eq!(
        p.angles,
        vec![Angle::Straight, Angle::Straight, Angle::Straight]
    );
    let a = annotate_turns(&vec![0, 1, 2], &coords);
    assert_eq!(a, vec![Angle::Straight, Angle::Straight, Angle::Straight]);
}

#[test]
fn right_angle_is_a_quarter_turn() {
    // (0,0) -> (1,0) -> (1,1): with y growing upward this bends left;
    // the scaled cosine 0 stands for exactly 90 degrees
    let coords = vec![(0, 0), (S, 0), (S, S)];
    let edges = vec![(0usize, 1usize), (1, 2)];
    let g = Graph::build_graph(coords, &edges).unwrap();
    let p = g.dijkstra(0, 2).unwrap();
    assert_eq!(p.path, vec![0, 1, 2]);
    assert_eq!(p.angles.len(), 3);
    assert_eq!(p.angles[0], Angle::Straight);
    assert_eq!(p.angles[1], Angle::Turn(0, Direction::Left));
    assert_eq!(p.angles[2], Angle::Straight);
}

#[test]
fn mirrored_right_angle_turns_right() {
    // (0,0) -> (1,0) -> (1,-1) bends right under the same convention
    let coords = vec![(0, 0), (S, 0), (S, -S)];
    let a = annotate_turns(&vec![0, 1, 2], &coords);
    assert_eq!(a[1], Angle::Turn(0, Direction::Right));
}

#[test]
fn forty_five_degree_turn_cosine() {
    // (0,0) -> (1,0) -> (2,1): cos 45 ~ 0.707, scaled and floored to 707
    let coords = vec![(0, 0), (S, 0), (2 * S, S)];
    let a = annotate_turns(&vec![0, 1, 2], &coords);
    assert_eq!(a[1], Angle::Turn(707, Direction::Left));
}

#[test]
fn shallow_bend_is_inside_dead_band() {
    // about 5 degrees of deflection: absorbed as Straight
    let coords = vec![(0, 0), (S, 0), (2 * S, 875)];
    let a = annotate_turns(&vec![0, 1, 2], &coords);
    assert_eq!(a, vec![Angle::Straight, Angle::Straight, Angle::Straight]);
}

#[test]
fn fifteen_degree_bend_is_a_turn() {
    // about 15 degrees of deflection: outside the dead-band
    let coords = vec![(0, 0), (S, 0), (2 * S, 2679)];
    let a = annotate_turns(&vec![0, 1, 2], &coords);
    assert!(matches!(a[1], Angle::Turn(_, Direction::Left)));
}

#[test]
fn zero_length_segment_is_straight() {
    // coincident consecutive nodes must not poison the classification
    let coords = vec![(0, 0), (0, 0), (S, 0)];
    let a = annotate_turns(&vec![0, 1, 2], &coords);
    assert_eq!(a, vec![Angle::Straight, Angle::Straight, Angle::Straight]);
}

#[test]
fn annotation_length_matches_route() {
    let coords = vec![(0, 0), (S, 0), (2 * S, 0), (3 * S, 0), (3 * S, S)];
    for len in 1..=5usize {
        let route: Vec<usize> = (0..len).collect();
        let a = annotate_turns(&route, &coords);
        assert_eq!(a.len(), route.len());
        assert_eq!(a[0], Angle::Straight);
        assert_eq!(*a.last().unwrap(), Angle::Straight);
    }
}

#[test]
fn identical_input_gives_identical_output() {
    let coords = vec![(0, 0), (S, 0), (S, S), (0, S), (2 * S, S)];
    let edges = vec![(0usize, 1usize), (1, 2), (2, 3), (3, 0), (2, 4), (1, 4)];
    let g1 = Graph::build_graph(coords.clone(), &edges).unwrap();
    let g2 = Graph::build_graph(coords, &edges).unwrap();
    let p1: Path = g1.dijkstra(0, 4).unwrap();
    let p2: Path = g1.dijkstra(0, 4).unwrap();
    let p3: Path = g2.dijkstra(0, 4).unwrap();
    assert_eq!(p1.path, p2.path);
    assert_eq!(p1.angles, p2.angles);
    assert_eq!(p1.path, p3.path);
    assert_eq!(p1.angles, p3.angles);
}

fn all_simple_paths(
    edges: &[(usize, usize)],
    n: usize,
    at: usize,
    goal: usize,
    seen: &mut Vec<bool>,
    cur: &mut Vec<usize>,
    out: &mut Vec<Vec<usize>>,
) {
    if at == goal {
        out.push(cur.clone());
        return;
    }
    for &(a, b) in edges {
        let next = if a == at {
            b
        } else if b == at {
            a
        } else {
            continue;
        };
        if next >= n || seen[next] {
            continue;
        }
        seen[next] = true;
        cur.push(next);
        all_simple_paths(edges, n, next, goal, seen, cur, out);
        cur.pop();
        seen[next] = false;
    }
}

#[test]
fn search_is_optimal_on_small_graph() {
    // exhaustive comparison against every simple path, n <= 8
    let coords = vec![
        (0, 0),
        (S, 0),
        (2 * S, 0),
        (0, S),
        (S, S),
        (2 * S, S),
        (S, 2 * S),
    ];
    let edges = vec![
        (0usize, 1usize),
        (1, 2),
        (0, 3),
        (1, 4),
        (2, 5),
        (3, 4),
        (4, 5),
        (3, 6),
        (4, 6),
        (5, 6),
        (0, 4),
        (2, 4),
    ];
    let g = Graph::build_graph(coords, &edges).unwrap();
    for goal in 0..7usize {
        let p = g.dijkstra(0, goal).unwrap();
        let found = g.route_cost(&p.path);
        let mut seen = vec![false; 7];
        seen[0] = true;
        let mut cur = vec![0usize];
        let mut out = Vec::new();
        all_simple_paths(&edges, 7, 0, goal, &mut seen, &mut cur, &mut out);
        assert!(!out.is_empty());
        for alt in &out {
            assert!(found <= g.route_cost(alt));
        }
    }
}

#[test]
fn euclidean_weight_is_exact() {
    // a 3-4-5 triangle leg: distance 5.0 in map units
    let coords = vec![(0, 0), (3 * S, 4 * S)];
    let edges = vec![(0usize, 1usize)];
    let g = Graph::build_graph(coords, &edges).unwrap();
    assert_eq!(g.node_count(), 2);
    let p = g.dijkstra(0, 1).unwrap();
    assert_eq!(g.route_cost(&p.path), 50_000);
}

#[test]
fn duplicate_edges_are_kept_and_harmless() {
    let coords = vec![(0, 0), (S, 0), (2 * S, 0)];
    let edges = vec![(0usize, 1usize), (0, 1), (1, 2), (1, 2)];
    let g = Graph::build_graph(coords, &edges).unwrap();
    let p = g.dijkstra(0, 2).unwrap();
    assert_eq!(p.path, vec![0, 1, 2]);
    assert_eq!(g.route_cost(&p.path), 20_000);
}

#[test]
fn equal_cost_tie_breaks_by_node_id() {
    // a unit square: two shortest routes from 0 to 3 tie at cost 2.0;
    // the queue breaks ties by ascending node id, so node 1 is settled
    // first and the route through it is the one reported
    let coords = vec![(0, 0), (S, 0), (0, S), (S, S)];
    let edges = vec![(0usize, 1usize), (0, 2), (1, 3), (2, 3)];
    let g = Graph::build_graph(coords, &edges).unwrap();
    let p = g.dijkstra(0, 3).unwrap();
    assert_eq!(p.path, vec![0, 1, 3]);
    assert_eq!(g.route_cost(&p.path), 20_000);
}

#[test]
fn direction_from_orientation_sign() {
    // the orientation test feeds `delta > 0` into the conversion:
    // a positive orientation product means a right turn
    assert_eq!(Direction::from(true), Direction::Right);
    assert_eq!(Direction::from(false), Direction::Left);
}

#[test]
fn cosine_is_exact_at_unit_scale() {
    // even with coordinates of a single fixed-point unit, the scaled
    // cosine is exact: a 45-degree bend reports 707, never 1000
    let coords = vec![(0, 0), (1, 0), (2, 1)];
    let a = annotate_turns(&vec![0, 1, 2], &coords);
    assert_eq!(a[1], Angle::Turn(707, Direction::Left));
}
