//! Routes over a node set: cost, well-formedness, and the 2-opt move.
//!
//! A route is a closed tour: one entry longer than the node set, anchored at
//! node 0 at both ends, visiting every node exactly once in between.  The
//! 2-opt move reverses an inner segment of the route; the lemmas here state
//! what that does to the cost and to the set of visited nodes.

use vstd::prelude::*;
use vstd::seq_lib::lemma_multiset_commutative;
use crate::node::{Node, dist, lemma_dist_basics};

verus! {

/// The length of a path: the sum of the distances of consecutive pairs.
pub open spec fn path_cost(s: Seq<Node>) -> int
    decreases s.len(),
{
    if s.len() < 2 {
        0
    } else {
        dist(s[0], s[1]) + path_cost(s.drop_first())
    }
}

/// A path cost is nonnegative and below `2^33` per edge.
pub proof fn lemma_path_cost_bounds(s: Seq<Node>)
    ensures
        0 <= path_cost(s) <= s.len() * 0x2_0000_0000,
    decreases s.len(),
{
    if s.len() >= 2 {
        lemma_dist_basics(s[0], s[1]);
        lemma_path_cost_bounds(s.drop_first());
    }
}

/// Splitting a path at a point splits its cost around the connecting edge.
pub proof fn lemma_path_cost_concat(x: Seq<Node>, y: Seq<Node>)
    requires
        x.len() >= 1,
        y.len() >= 1,
    ensures
        path_cost(x + y) == path_cost(x) + path_cost(y) + dist(x.last(), y.first()),
    decreases x.len(),
{
    if x.len() == 1 {
        assert((x + y).drop_first() =~= y);
        assert((x + y)[0] == x[0]);
        assert((x + y)[1] == y[0]);
    } else {
        assert((x + y).drop_first() =~= x.drop_first() + y);
        lemma_path_cost_concat(x.drop_first(), y);
        assert((x + y)[0] == x[0]);
        assert((x + y)[1] == x[1]);
    }
}

/// Walking a path backwards costs the same, since distances are symmetric.
pub proof fn lemma_path_cost_reverse(s: Seq<Node>)
    ensures
        path_cost(s.reverse()) == path_cost(s),
    decreases s.len(),
{
    if s.len() >= 2 {
        let t = s.drop_first();
        lemma_path_cost_reverse(t);
        assert(s.reverse() =~= t.reverse() + seq![s[0]]);
        lemma_path_cost_concat(t.reverse(), seq![s[0]]);
        assert(t.reverse().last() == t[0]);
        lemma_dist_basics(s[0], s[1]);
    }
}

/// The route with the segment from position `i` to position `k`, both
/// included, reversed.
pub open spec fn reversed_segment(s: Seq<Node>, i: int, k: int) -> Seq<Node> {
    s.subrange(0, i) + s.subrange(i, k + 1).reverse() + s.subrange(k + 1, s.len() as int)
}

/// The gain of the 2-opt move at `(i, k)`: what the two removed edges cost
/// beyond the two edges that replace them.
pub open spec fn move_delta(s: Seq<Node>, i: int, k: int) -> int {
    dist(s[i - 1], s[i]) + dist(s[k], s[k + 1]) - dist(s[i - 1], s[k]) - dist(s[i], s[k + 1])
}

/// No 2-opt move on `s` is strictly improving.
pub open spec fn locally_optimal(s: Seq<Node>) -> bool {
    forall|i: int, k: int| 1 <= i < k <= s.len() - 2 ==> #[trigger] move_delta(s, i, k) <= 0
}

/// Reversing the inner segment `[i, k]` lowers the path cost by exactly the
/// gain of the move.
pub proof fn lemma_reversed_segment_cost(s: Seq<Node>, i: int, k: int)
    requires
        1 <= i <= k <= s.len() - 2,
    ensures
        path_cost(reversed_segment(s, i, k)) == path_cost(s) - move_delta(s, i, k),
{
    let n1 = s.len() as int;
    let a = s.subrange(0, i);
    let b = s.subrange(i, k + 1);
    let c = s.subrange(k + 1, n1);
    let rb = b.reverse();
    assert(s =~= a + b + c);
    lemma_path_cost_reverse(b);
    lemma_path_cost_concat(a, b);
    lemma_path_cost_concat(a + b, c);
    lemma_path_cost_concat(a, rb);
    lemma_path_cost_concat(a + rb, c);
    assert(a.last() == s[i - 1]);
    assert(b.first() == s[i]);
    assert(b.last() == s[k]);
    assert(rb.first() == s[k]);
    assert(rb.last() == s[i]);
    assert(c.first() == s[k + 1]);
    assert((a + b).last() == s[k]);
    assert((a + rb).last() == s[i]);
    assert(path_cost(s) == path_cost(a) + path_cost(b) + path_cost(c) + dist(s[i - 1], s[i])
        + dist(s[k], s[k + 1]));
}

/// Reversing an inner segment moves nodes around but keeps everything else:
/// the length, the two anchor positions, everything outside the segment, and
/// the multiset of interior nodes.
pub proof fn lemma_reversed_segment_shape(s: Seq<Node>, i: int, k: int)
    requires
        1 <= i <= k <= s.len() - 2,
    ensures
        reversed_segment(s, i, k).len() == s.len(),
        forall|p: int| 0 <= p < i ==> #[trigger] reversed_segment(s, i, k)[p] == s[p],
        forall|p: int| k < p < s.len() ==> #[trigger] reversed_segment(s, i, k)[p] == s[p],
        forall|p: int| i <= p <= k ==> #[trigger] reversed_segment(s, i, k)[p] == s[i + k - p],
        reversed_segment(s, i, k).subrange(0, s.len() - 1).to_multiset() == s.subrange(
            0,
            s.len() - 1,
        ).to_multiset(),
{
    let n1 = s.len() as int;
    let a = s.subrange(0, i);
    let b = s.subrange(i, k + 1);
    let rb = b.reverse();
    let r = reversed_segment(s, i, k);
    assert(rb.len() == k + 1 - i);
    assert forall|p: int| i <= p <= k implies #[trigger] r[p] == s[i + k - p] by {
        assert(r[p] == rb[p - i]);
        assert(rb[p - i] == b[b.len() - 1 - (p - i)]);
        assert(b[k - p] == s[i + k - p]);
    }
    let c1 = s.subrange(k + 1, n1 - 1);
    assert(r.subrange(0, n1 - 1) =~= a + rb + c1);
    assert(s.subrange(0, n1 - 1) =~= a + b + c1);
    b.lemma_reverse_to_multiset();
    lemma_multiset_commutative(a, rb);
    lemma_multiset_commutative(a + rb, c1);
    lemma_multiset_commutative(a, b);
    lemma_multiset_commutative(a + b, c1);
}

/// The node set of an instance: at least three nodes, each labeled by its
/// position.
pub open spec fn nodes_wf(nodes: Seq<Node>) -> bool {
    &&& nodes.len() >= 3
    &&& forall|i: int| 0 <= i < nodes.len() ==> (#[trigger] nodes[i]).id == i
}

/// A closed route over the node set: one entry longer than the node set,
/// anchored at node 0 at both ends, and visiting every node exactly once
/// among the interior positions.
pub open spec fn route_wf(route: Seq<Node>, nodes: Seq<Node>) -> bool {
    &&& route.len() == nodes.len() + 1
    &&& route[0] == nodes[0]
    &&& route[route.len() - 1] == route[0]
    &&& route.subrange(0, nodes.len() as int).to_multiset() == nodes.to_multiset()
}

/// A well-formed node set has no repeated node, so each node counts once in
/// its multiset.
pub proof fn lemma_nodes_distinct(nodes: Seq<Node>)
    requires
        nodes_wf(nodes),
    ensures
        nodes.no_duplicates(),
        forall|q: int| 0 <= q < nodes.len() ==> nodes.to_multiset().count(#[trigger] nodes[q])
            == 1,
{
    broadcast use vstd::seq_lib::group_to_multiset_ensures;

    nodes.lemma_multiset_has_no_duplicates();
}

/// Every entry of a well-formed route is a node of the node set, found there
/// at the position its label names.
pub proof fn lemma_route_members(route: Seq<Node>, nodes: Seq<Node>)
    requires
        nodes_wf(nodes),
        route_wf(route, nodes),
    ensures
        forall|p: int| 0 <= p < route.len() ==> (#[trigger] route[p]).id < nodes.len()
            && nodes[route[p].id as int] == route[p],
{
    broadcast use vstd::seq_lib::group_to_multiset_ensures;

    let n = nodes.len() as int;
    let interior = route.subrange(0, n);
    assert forall|p: int| 0 <= p < route.len() implies (#[trigger] route[p]).id < nodes.len()
        && nodes[route[p].id as int] == route[p] by {
        let p2: int = if p < n {
            p
        } else {
            0
        };
        assert(route[p] == interior[p2]);
        assert(interior.contains(interior[p2]));
        assert(nodes.to_multiset().count(interior[p2]) > 0);
        assert(nodes.contains(route[p]));
        let q = choose|q: int| 0 <= q < nodes.len() && nodes[q] == route[p];
        assert(nodes[q].id == q);
    }
}

/// Law: in a well-formed route the interior positions, the closing anchor
/// copy excluded, hold every node of the node set exactly once — no
/// duplicates, no omissions.
pub proof fn lemma_route_interior_exactly_once(route: Seq<Node>, nodes: Seq<Node>)
    requires
        nodes_wf(nodes),
        route_wf(route, nodes),
    ensures
        forall|q: int| 0 <= q < nodes.len() ==> route.subrange(
            0,
            nodes.len() as int,
        ).to_multiset().count(#[trigger] nodes[q]) == 1,
        route.subrange(0, nodes.len() as int).no_duplicates(),
{
    broadcast use vstd::seq_lib::group_to_multiset_ensures;

    let interior = route.subrange(0, nodes.len() as int);
    lemma_nodes_distinct(nodes);
    assert forall|x: Node| interior.to_multiset().contains(x) implies interior.to_multiset().count(
        x,
    ) == 1 by {
        assert(nodes.to_multiset().count(x) > 0);
        assert(nodes.contains(x));
        let q = choose|q: int| 0 <= q < nodes.len() && nodes[q] == x;
        assert(nodes.to_multiset().count(nodes[q]) == 1);
    }
    interior.lemma_multiset_has_no_duplicates_conv();
}

/// A sequence that holds each node of a well-formed node set exactly once,
/// and nothing else, carries the same multiset as the node set.
pub proof fn lemma_multiset_matches_nodes(s: Seq<Node>, nodes: Seq<Node>)
    requires
        nodes_wf(nodes),
        forall|q: int| 0 <= q < nodes.len() ==> s.to_multiset().count(#[trigger] nodes[q]) == 1,
        forall|p: int| 0 <= p < s.len() ==> nodes.contains(#[trigger] s[p]),
    ensures
        s.to_multiset() == nodes.to_multiset(),
{
    broadcast use vstd::seq_lib::group_to_multiset_ensures;

    lemma_nodes_distinct(nodes);
    assert forall|x: Node| s.to_multiset().count(x) == nodes.to_multiset().count(x) by {
        if nodes.contains(x) {
            let q = choose|q: int| 0 <= q < nodes.len() && nodes[q] == x;
            assert(s.to_multiset().count(nodes[q]) == 1);
            assert(nodes.to_multiset().count(nodes[q]) == 1);
        } else {
            if s.to_multiset().count(x) > 0 {
                assert(s.contains(x));
                let p = choose|p: int| 0 <= p < s.len() && s[p] == x;
                assert(nodes.contains(s[p]));
            }
        }
    }
    assert(s.to_multiset() =~= nodes.to_multiset());
}

/// At position `p` of a route, the node visited is an unvisited node at
/// minimal distance from the node before it, ties broken by lowest label:
/// the choice of the nearest-neighbour heuristic.
pub open spec fn greedy_choice(route: Seq<Node>, nodes: Seq<Node>, p: int) -> bool {
    forall|q: int|
        0 <= q < nodes.len() && !route.subrange(0, p).contains(#[trigger] nodes[q]) ==> (dist(
            route[p - 1],
            route[p],
        ) < dist(route[p - 1], nodes[q]) || (dist(route[p - 1], route[p]) == dist(
            route[p - 1],
            nodes[q],
        ) && route[p].id <= nodes[q].id))
}

/// Law: a route over exactly three nodes admits no improving 2-opt move, so
/// local search leaves it unchanged whatever the starting permutation.
pub proof fn lemma_three_nodes_locally_optimal(route: Seq<Node>, nodes: Seq<Node>)
    requires
        nodes_wf(nodes),
        route_wf(route, nodes),
        nodes.len() == 3,
    ensures
        locally_optimal(route),
{
    assert forall|i: int, k: int| 1 <= i < k <= route.len() - 2 implies #[trigger] move_delta(
        route,
        i,
        k,
    ) <= 0 by {
        assert(i == 1 && k == 2);
        assert(route[3] == route[0]);
        lemma_dist_basics(route[0], route[1]);
        lemma_dist_basics(route[0], route[2]);
        lemma_dist_basics(route[1], route[2]);
        lemma_dist_basics(route[1], route[0]);
        lemma_dist_basics(route[2], route[0]);
    }
}

} // verus!
