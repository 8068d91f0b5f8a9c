//! Nodes of the travelling-salesman instance and the distance between them.
//!
//! A node is a labeled point of the plane with integer coordinates.  The
//! distance between two nodes is the Euclidean length of the segment between
//! them, rounded down to an integer, as `dist` states and `node_distance`
//! computes.

use vstd::prelude::*;
use crate::isqrt::{is_floor_sqrt, floor_sqrt, lemma_floor_sqrt, lemma_floor_sqrt_unique, isqrt};

verus! {

/// A labeled point of the plane.  Within a node set, `id` is the position of
/// the node in the set.
#[derive(Clone, Copy, Debug, PartialEq, Eq, Structural)]
pub struct Node {
    pub id: usize,
    pub x: i32,
    pub y: i32,
}

/// The squared Euclidean distance between `a` and `b`.
pub open spec fn sq_dist(a: Node, b: Node) -> int {
    (a.x - b.x) * (a.x - b.x) + (a.y - b.y) * (a.y - b.y)
}

/// The distance between `a` and `b`: the Euclidean length of the segment
/// between them, rounded down to an integer.
pub open spec fn dist(a: Node, b: Node) -> int {
    floor_sqrt(sq_dist(a, b))
}

/// An upper bound on any distance between nodes: every distance is below
/// 2^33, since squared distances are below 2^65.
pub open spec fn max_dist() -> int {
    0x2_0000_0000
}

/// Squared distances are nonnegative and below 2^65.
pub proof fn lemma_sq_dist_bounds(a: Node, b: Node)
    ensures
        0 <= sq_dist(a, b),
        sq_dist(a, b) < 0x4_0000_0000_0000_0000,
        a == b ==> sq_dist(a, b) == 0,
{
    let dx = a.x - b.x;
    let dy = a.y - b.y;
    assert(0 <= dx * dx && dx * dx < 0x2_0000_0000_0000_0000) by (nonlinear_arith)
        requires
            -0x1_0000_0000 < dx < 0x1_0000_0000,
    ;
    assert(0 <= dy * dy && dy * dy < 0x2_0000_0000_0000_0000) by (nonlinear_arith)
        requires
            -0x1_0000_0000 < dy < 0x1_0000_0000,
    ;
    if a == b {
        assert(dx == 0 && dy == 0);
        assert(sq_dist(a, b) == 0 * 0 + 0 * 0);
    }
}

/// The distance is a well-defined floor square root, is symmetric, is zero
/// from a node to itself, and is below `max_dist()`.
pub proof fn lemma_dist_basics(a: Node, b: Node)
    ensures
        is_floor_sqrt(sq_dist(a, b), dist(a, b)),
        0 <= dist(a, b) < max_dist(),
        dist(a, b) == dist(b, a),
        dist(a, a) == 0,
{
    lemma_sq_dist_bounds(a, b);
    lemma_sq_dist_bounds(b, a);
    lemma_sq_dist_bounds(a, a);
    lemma_floor_sqrt(sq_dist(a, b));
    lemma_floor_sqrt(sq_dist(b, a));
    lemma_floor_sqrt(sq_dist(a, a));
    assert(sq_dist(a, b) == sq_dist(b, a)) by (nonlinear_arith);
    lemma_floor_sqrt_unique(sq_dist(a, b), dist(a, b), dist(b, a));
    assert(is_floor_sqrt(0, 0));
    lemma_floor_sqrt_unique(0, dist(a, a), 0);
    let r = dist(a, b);
    assert(r < 0x2_0000_0000) by (nonlinear_arith)
        requires
            0 <= r,
            r * r <= sq_dist(a, b),
            sq_dist(a, b) < 0x4_0000_0000_0000_0000,
    ;
}

/// Computes the distance between two nodes.
pub fn node_distance(a: &Node, b: &Node) -> (r: u64)
    ensures
        r as int == dist(*a, *b),
{
    let dx: i128 = a.x as i128 - b.x as i128;
    let dy: i128 = a.y as i128 - b.y as i128;
    proof {
        lemma_sq_dist_bounds(*a, *b);
        assert(0 <= dx * dx && dx * dx < 0x2_0000_0000_0000_0000) by (nonlinear_arith)
            requires
                -0x1_0000_0000 < dx < 0x1_0000_0000,
        ;
        assert(0 <= dy * dy && dy * dy < 0x2_0000_0000_0000_0000) by (nonlinear_arith)
            requires
                -0x1_0000_0000 < dy < 0x1_0000_0000,
        ;
    }
    let sq: i128 = dx * dx + dy * dy;
    assert(sq as int == sq_dist(*a, *b));
    isqrt(sq as u128)
}

} // verus!
