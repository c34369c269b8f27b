//! Small shared vocabulary: turn directions, turn annotations, incident
//! edges, and the tagged predecessor marker used by the search.

use vstd::prelude::*;

verus! {

/// Largest magnitude a fixed-point coordinate may have, in fixed-point
/// units. The bound keeps every intermediate product of the distance and
/// turn-angle computations inside `i64` / `u128` range.
pub const COORD_LIMIT: i64 = 1_000_000;

/// Which way a route bends at a node.
#[derive(Copy, Clone, Debug, PartialEq, Eq, Structural)]
pub enum Direction {
    Left,
    Right,
}

impl From<bool> for Direction {
    /// `false` maps to `Left`, `true` to `Right`, matching the sign test
    /// on the orientation product: a positive product means a right turn.
    fn from(from: bool) -> (d: Direction) {
        match from {
            false => Direction::Left,
            true => Direction::Right,
        }
    }
}

impl vstd::std_specs::convert::FromSpecImpl<bool> for Direction {
    open spec fn obeys_from_spec() -> bool {
        true
    }

    open spec fn from_spec(from: bool) -> Direction {
        if from {
            Direction::Right
        } else {
            Direction::Left
        }
    }
}

/// The classification of one route entry: either no appreciable bend, or a
/// turn. A `Turn` carries the cosine of the deflection angle between the
/// incoming and outgoing segments, scaled by 1000 and rounded toward zero,
/// together with the side the route bends to. The angle in degrees is the
/// arc cosine of that ratio; rendering it is presentation work and happens
/// outside this crate.
#[derive(Copy, Clone, Debug, PartialEq, Eq, Structural)]
pub enum Angle {
    Straight,
    Turn(i64, Direction),
}

/// One incident connection of a node: the neighbour reached and the cost
/// of the hop, in fixed-point distance units.
#[derive(Copy, Clone, Debug, PartialEq, Eq, Structural)]
pub struct Edge {
    pub node: usize,
    pub cost: u64,
}

/// Tagged predecessor of a node during a search: not discovered yet, the
/// search's start node, or reached through the given node.
#[derive(Copy, Clone, Debug, PartialEq, Eq, Structural)]
pub enum Prev {
    Start,
    Undefined,
    Node(usize),
}

} // verus!
