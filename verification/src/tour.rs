//! The travelling-salesman instance: node set, cached distance matrix,
//! tour constructors, and 2-opt local search.

use vstd::prelude::*;
use vstd::seq_lib::lemma_multiset_commutative;
use rand::prelude::SliceRandom;
use rand::Rng;
use crate::node::{Node, dist, lemma_dist_basics, node_distance};
use crate::route::{
    path_cost, lemma_path_cost_bounds, lemma_path_cost_concat, reversed_segment, move_delta,
    locally_optimal, lemma_reversed_segment_cost, lemma_reversed_segment_shape, nodes_wf,
    route_wf, lemma_nodes_distinct, lemma_route_members, greedy_choice,
    lemma_multiset_matches_nodes,
};

verus! {

/// Returned by the constructors when the input holds fewer than three
/// points: a tour needs at least a triangle.
#[derive(Clone, Copy, Debug, PartialEq, Eq, Structural)]
pub struct InvalidInputError;

/// A travelling-salesman instance: the node set, the current route over it,
/// the cost found by the last cost calculation, and the cached matrix of
/// pairwise distances.
#[derive(Debug)]
pub struct Tour {
    pub nodes: Vec<Node>,
    pub route: Vec<Node>,
    pub cost: u128,
    pub distance: Vec<Vec<u64>>,
}

impl Tour {
    /// The distance matrix is square over the node set, and each entry is
    /// either still unset (zero) or the distance of its pair of nodes.
    pub open spec fn mat_wf(self) -> bool {
        &&& self.distance@.len() == self.nodes@.len()
        &&& forall|i: int|
            0 <= i < self.nodes@.len() ==> (#[trigger] self.distance@[i])@.len()
                == self.nodes@.len()
        &&& forall|i: int, j: int|
            0 <= i < self.nodes@.len() && 0 <= j < self.nodes@.len() ==> ((
            #[trigger] self.distance@[i]@[j]) == 0 || self.distance@[i]@[j] as int == dist(
                self.nodes@[i],
                self.nodes@[j],
            ))
    }

    /// Every entry of the distance matrix has been computed.
    pub open spec fn mat_complete(self) -> bool {
        forall|i: int, j: int|
            0 <= i < self.nodes@.len() && 0 <= j < self.nodes@.len() ==> (
            #[trigger] self.distance@[i]@[j]) as int == dist(self.nodes@[i], self.nodes@[j])
    }

    /// The instance invariant: a well-formed node set, a well-formed closed
    /// route over it, and a distance matrix that holds no wrong entry.
    pub open spec fn wf(self) -> bool {
        &&& nodes_wf(self.nodes@)
        &&& route_wf(self.route@, self.nodes@)
        &&& self.mat_wf()
    }

    /// Law: the filled distance matrix is symmetric and zero on the
    /// diagonal, as the distance itself is.
    pub proof fn lemma_matrix_symmetric(self)
        requires
            self.wf(),
            self.mat_complete(),
        ensures
            forall|a: int, b: int|
                0 <= a < self.nodes@.len() && 0 <= b < self.nodes@.len() ==> (
                #[trigger] self.distance@[a]@[b]) == self.distance@[b]@[a],
            forall|a: int| 0 <= a < self.nodes@.len() ==> (#[trigger] self.distance@[a]@[a]) == 0,
    {
        assert forall|a: int, b: int|
            0 <= a < self.nodes@.len() && 0 <= b
                < self.nodes@.len() implies (#[trigger] self.distance@[a]@[b])
            == self.distance@[b]@[a] by {
            lemma_dist_basics(self.nodes@[a], self.nodes@[b]);
        }
        assert forall|a: int|
            0 <= a < self.nodes@.len() implies (#[trigger] self.distance@[a]@[a]) == 0 by {
            lemma_dist_basics(self.nodes@[a], self.nodes@[a]);
        }
    }

    /// Builds the instance from a sequence of points, labeling them in input
    /// order, with the route initially visiting them in that order.  Fails
    /// if fewer than three points are given.
    pub fn new(positions: Vec<(i32, i32)>) -> (r: Result<Tour, InvalidInputError>)
        ensures
            positions@.len() < 3 <==> r is Err,
            r is Ok ==> ({
                let t = r->Ok_0;
                &&& t.wf()
                &&& t.nodes@.len() == positions@.len()
                &&& forall|i: int|
                    0 <= i < positions@.len() ==> t.nodes@[i] == (Node {
                        id: i as usize,
                        x: positions@[i].0,
                        y: positions@[i].1,
                    })
                &&& forall|i: int| 0 <= i < positions@.len() ==> t.route@[i] == t.nodes@[i]
                &&& t.route@[positions@.len() as int] == t.nodes@[0]
                &&& t.cost == 0
                &&& forall|i: int, j: int|
                    0 <= i < positions@.len() && 0 <= j < positions@.len() ==> (
                    #[trigger] t.distance@[i]@[j]) == 0
            }),
    {
        if positions.len() < 3 {
            return Err(InvalidInputError);
        }
        let n = positions.len();
        let mut nodes: Vec<Node> = Vec::new();
        let mut route: Vec<Node> = Vec::new();
        let mut id: usize = 0;
        while id < n
            invariant
                n == positions@.len(),
                3 <= n,
                id <= n,
                nodes@.len() == id,
                route@.len() == id,
                forall|i: int|
                    0 <= i < id ==> nodes@[i] == (Node {
                        id: i as usize,
                        x: positions@[i].0,
                        y: positions@[i].1,
                    }),
                forall|i: int| 0 <= i < id ==> route@[i] == nodes@[i],
            decreases n - id,
        {
            let p = positions[id];
            let nd = Node { id: id, x: p.0, y: p.1 };
            nodes.push(nd);
            route.push(nd);
            id += 1;
        }
        route.push(nodes[0]);
        let matrix = zero_matrix(n);
        let t = Tour { nodes, route, cost: 0, distance: matrix };
        proof {
            assert(t.route@.subrange(0, n as int) =~= t.nodes@);
        }
        Ok(t)
    }

    /// Looks the distance of two nodes of the set up in the cache, falling
    /// back on computing it while the matrix is not yet filled.
    fn distance(&self, node_1: &Node, node_2: &Node) -> (r: u64)
        requires
            nodes_wf(self.nodes@),
            self.mat_wf(),
            node_1.id < self.nodes@.len(),
            self.nodes@[node_1.id as int] == *node_1,
            node_2.id < self.nodes@.len(),
            self.nodes@[node_2.id as int] == *node_2,
        ensures
            r as int == dist(*node_1, *node_2),
    {
        let d = self.distance[node_1.id][node_2.id];
        if d != 0 {
            return d;
        }
        let d2 = self.distance[node_2.id][node_1.id];
        if d2 != 0 {
            proof {
                lemma_dist_basics(*node_1, *node_2);
            }
            return d2;
        }
        node_distance(node_1, node_2)
    }

    /// Fills the distance matrix with every pairwise distance.
    pub fn distance_matrix(&mut self)
        requires
            old(self).wf(),
        ensures
            final(self).wf(),
            final(self).mat_complete(),
            final(self).nodes@ == old(self).nodes@,
            final(self).route@ == old(self).route@,
            final(self).cost == old(self).cost,
    {
        let n = self.nodes.len();
        let mut matrix: Vec<Vec<u64>> = Vec::new();
        let mut i: usize = 0;
        while i < n
            invariant
                self.wf(),
                self == old(self),
                n == self.nodes@.len(),
                i <= n,
                matrix@.len() == i,
                forall|i2: int| 0 <= i2 < i ==> (#[trigger] matrix@[i2])@.len() == n,
                forall|i2: int, j2: int|
                    0 <= i2 < i && 0 <= j2 < n ==> (#[trigger] matrix@[i2]@[j2]) as int == dist(
                        self.nodes@[i2],
                        self.nodes@[j2],
                    ),
            decreases n - i,
        {
            let mut row: Vec<u64> = Vec::new();
            let mut j: usize = 0;
            while j < n
                invariant
                    self.wf(),
                    self == old(self),
                    n == self.nodes@.len(),
                    i < n,
                    j <= n,
                    row@.len() == j,
                    forall|j2: int|
                        0 <= j2 < j ==> (#[trigger] row@[j2]) as int == dist(
                            self.nodes@[i as int],
                            self.nodes@[j2],
                        ),
                decreases n - j,
            {
                let d = self.distance(&self.nodes[i], &self.nodes[j]);
                row.push(d);
                j += 1;
            }
            matrix.push(row);
            i += 1;
        }
        self.distance = matrix;
    }

    /// Recomputes the cost of the current route: the sum of the distances of
    /// its consecutive pairs.
    pub fn calculate_cost(&mut self)
        requires
            old(self).wf(),
        ensures
            final(self).wf(),
            final(self).nodes@ == old(self).nodes@,
            final(self).route@ == old(self).route@,
            final(self).distance@ == old(self).distance@,
            final(self).cost as int == path_cost(old(self).route@),
    {
        let len = self.route.len();
        let mut cost: u128 = 0;
        let mut i: usize = 0;
        proof {
            lemma_route_members(self.route@, self.nodes@);
            assert(self.route@.subrange(0, 1) =~= seq![self.route@[0]]);
        }
        while i < len - 1
            invariant
                self.wf(),
                self == old(self),
                len == self.route@.len(),
                len >= 4,
                i <= len - 1,
                forall|p: int|
                    0 <= p < len ==> (#[trigger] self.route@[p]).id < self.nodes@.len()
                        && self.nodes@[self.route@[p].id as int] == self.route@[p],
                cost as int == path_cost(self.route@.subrange(0, i as int + 1)),
                cost as int <= (i as int) * 0x2_0000_0000,
            decreases len - 1 - i,
        {
            let d = self.distance(&self.route[i], &self.route[i + 1]);
            proof {
                lemma_dist_basics(self.route@[i as int], self.route@[i as int + 1]);
                let x = self.route@.subrange(0, i as int + 1);
                let y = seq![self.route@[i as int + 1]];
                assert(self.route@.subrange(0, i as int + 2) =~= x + y);
                lemma_path_cost_concat(x, y);
                assert(x.last() == self.route@[i as int]);
                assert((i as int + 1) * 0x2_0000_0000 <= 0x1_0000_0000_0000_0000 * 0x2_0000_0000)
                    by (nonlinear_arith)
                    requires
                        i as int + 1 <= 0x1_0000_0000_0000_0000,
                ;
            }
            cost = cost + d as u128;
            i += 1;
        }
        proof {
            assert(self.route@.subrange(0, len as int) =~= self.route@);
        }
        self.cost = cost;
    }

    /// Replaces the route by a random closed tour: node 0 stays the anchor
    /// at both ends, and the other nodes follow in shuffled order.
    pub fn random_tour(&mut self)
        requires
            old(self).wf(),
        ensures
            final(self).wf(),
            final(self).nodes@ == old(self).nodes@,
            final(self).distance@ == old(self).distance@,
            final(self).cost == old(self).cost,
            final(self).route@.len() == old(self).nodes@.len() + 1,
            final(self).route@[0] == old(self).nodes@[0],
    {
        let n = self.nodes.len();
        let mut rest: Vec<Node> = Vec::new();
        let mut i: usize = 1;
        while i < n
            invariant
                self.wf(),
                self == old(self),
                n == self.nodes@.len(),
                1 <= i <= n,
                rest@.len() == i - 1,
                forall|p: int| 0 <= p < i - 1 ==> rest@[p] == self.nodes@[p + 1],
            decreases n - i,
        {
            rest.push(self.nodes[i]);
            i += 1;
        }
        proof {
            assert(rest@ =~= self.nodes@.subrange(1, n as int));
        }
        let ghost tail = self.nodes@.subrange(1, n as int);
        shuffle_nodes(&mut rest);
        let mut route: Vec<Node> = Vec::new();
        route.push(self.nodes[0]);
        let mut j: usize = 0;
        while j < rest.len()
            invariant
                self.wf(),
                self == old(self),
                n == self.nodes@.len(),
                rest@.len() == n - 1,
                j <= n - 1,
                route@.len() == j + 1,
                route@[0] == self.nodes@[0],
                forall|p: int| 0 <= p < j ==> route@[p + 1] == rest@[p],
            decreases rest@.len() - j,
        {
            route.push(rest[j]);
            j += 1;
        }
        route.push(self.nodes[0]);
        proof {
            assert(route@.subrange(0, n as int) =~= seq![self.nodes@[0]] + rest@);
            assert(self.nodes@ =~= seq![self.nodes@[0]] + tail);
            lemma_multiset_commutative(seq![self.nodes@[0]], rest@);
            lemma_multiset_commutative(seq![self.nodes@[0]], tail);
        }
        self.route = route;
    }

    /// Builds an instance of `n` nodes whose coordinates are drawn at random
    /// within the rectangle `[0, width) x [0, height)`, with the route
    /// initially visiting them in label order.  Fails if fewer than three
    /// nodes are asked for.
    pub fn create_random_nodes(n: usize, width: i32, height: i32) -> (r: Result<
        Tour,
        InvalidInputError,
    >)
        requires
            width >= 1,
            height >= 1,
        ensures
            n < 3 <==> r is Err,
            r is Ok ==> ({
                let t = r->Ok_0;
                &&& t.wf()
                &&& t.nodes@.len() == n
                &&& forall|i: int|
                    0 <= i < n ==> 0 <= (#[trigger] t.nodes@[i]).x < width && 0 <= t.nodes@[i].y
                        < height
                &&& forall|i: int| 0 <= i < n ==> t.route@[i] == t.nodes@[i]
                &&& t.route@[n as int] == t.nodes@[0]
                &&& t.cost == 0
            }),
    {
        if n < 3 {
            return Err(InvalidInputError);
        }
        let mut nodes: Vec<Node> = Vec::new();
        let mut route: Vec<Node> = Vec::new();
        let mut id: usize = 0;
        while id < n
            invariant
                3 <= n,
                id <= n,
                nodes@.len() == id,
                route@.len() == id,
                forall|i: int|
                    0 <= i < id ==> (#[trigger] nodes@[i]).id == i && 0 <= nodes@[i].x < width && 0
                        <= nodes@[i].y < height,
                forall|i: int| 0 <= i < id ==> route@[i] == nodes@[i],
                width >= 1,
                height >= 1,
            decreases n - id,
        {
            let x = rand_below(width);
            let y = rand_below(height);
            let nd = Node { id: id, x: x, y: y };
            nodes.push(nd);
            route.push(nd);
            id += 1;
        }
        route.push(nodes[0]);
        let matrix = zero_matrix(n);
        let t = Tour { nodes, route, cost: 0, distance: matrix };
        proof {
            assert(t.route@.subrange(0, n as int) =~= t.nodes@);
        }
        Ok(t)
    }

    /// Replaces the route by the nearest-neighbour tour: starting at node 0,
    /// it repeatedly visits the unvisited node nearest to the current one,
    /// ties broken by lowest label, then closes the loop back to node 0.
    /// Fills the distance matrix first.
    pub fn nearest_neighbour_tour(&mut self)
        requires
            old(self).wf(),
        ensures
            final(self).wf(),
            final(self).mat_complete(),
            final(self).nodes@ == old(self).nodes@,
            final(self).cost == old(self).cost,
            final(self).route@[0] == old(self).nodes@[0],
            forall|p: int|
                1 <= p < old(self).nodes@.len() ==> greedy_choice(
                    final(self).route@,
                    final(self).nodes@,
                    p,
                ),
    {
        self.distance_matrix();
        let n = self.nodes.len();
        let ghost nodes = self.nodes@;
        let mut route: Vec<Node> = Vec::new();
        route.push(self.nodes[0]);
        let mut visited: Vec<bool> = Vec::new();
        let mut t: usize = 0;
        while t < n
            invariant
                t <= n,
                visited@.len() == t,
                count_true(visited@) == 0,
                forall|j: int| 0 <= j < t ==> !(#[trigger] visited@[j]),
            decreases n - t,
        {
            proof {
                lemma_count_true_push(visited@, false);
            }
            visited.push(false);
            t += 1;
        }
        proof {
            broadcast use vstd::seq_lib::group_to_multiset_ensures;
            broadcast use vstd::multiset::group_multiset_axioms;

            lemma_count_true_update(visited@, 0, true);
            lemma_nodes_distinct(nodes);
            assert(route@ =~= Seq::<Node>::empty().push(nodes[0]));
            assert forall|q: int| 0 <= q < n implies route@.to_multiset().count(
                #[trigger] nodes[q],
            ) == (if q == 0 {
                1int
            } else {
                0int
            }) by {
                assert(route@.to_multiset() =~= Seq::<Node>::empty().to_multiset().insert(
                    nodes[0],
                ));
                assert(!Seq::<Node>::empty().contains(nodes[q]));
                assert(Seq::<Node>::empty().to_multiset().count(nodes[q]) == 0);
                if q != 0 {
                    assert(nodes[q] != nodes[0]);
                }
            }
        }
        visited.set(0, true);
        let mut cur: usize = 0;
        let mut step: usize = 1;
        while step < n
            invariant
                self.wf(),
                self.mat_complete(),
                self.nodes@ == nodes,
                nodes_wf(nodes),
                n == nodes.len(),
                1 <= step <= n,
                route@.len() == step,
                route@[0] == nodes[0],
                visited@.len() == n,
                count_true(visited@) == step,
                forall|q: int|
                    0 <= q < n ==> route@.to_multiset().count(#[trigger] nodes[q]) == (if
                    visited@[q] {
                        1int
                    } else {
                        0int
                    }),
                forall|p: int|
                    0 <= p < step ==> (#[trigger] route@[p]).id < n && nodes[route@[p].id as int]
                        == route@[p],
                cur == route@[step - 1].id,
                cur < n,
                forall|p: int| 1 <= p < step ==> greedy_choice(route@, nodes, p),
            decreases n - step,
        {
            let mut best: usize = 0;
            let mut best_d: u64 = 0;
            let mut found = false;
            let mut j: usize = 0;
            while j < n
                invariant
                    self.wf(),
                    self.mat_complete(),
                    self.nodes@ == nodes,
                    n == nodes.len(),
                    visited@.len() == n,
                    cur < n,
                    j <= n,
                    found ==> best < j && j <= n,
                    found ==> best < n && !visited@[best as int],
                    found ==> best_d as int == dist(nodes[cur as int], nodes[best as int]),
                    forall|j2: int|
                        0 <= j2 < j && !(#[trigger] visited@[j2]) ==> (found && ((best_d as int)
                            < dist(nodes[cur as int], nodes[j2]) || ((best_d as int) == dist(
                            nodes[cur as int],
                            nodes[j2],
                        ) && best <= j2))),
                    !found ==> forall|j2: int| 0 <= j2 < j ==> (#[trigger] visited@[j2]),
                decreases n - j,
            {
                if !visited[j] {
                    let dj = self.distance[cur][j];
                    if !found || dj < best_d {
                        best = j;
                        best_d = dj;
                        found = true;
                    }
                }
                j += 1;
            }
            proof {
                if !found {
                    lemma_count_true_all(visited@);
                }
                assert(found);
            }
            let chosen = self.nodes[best];
            let ghost route_pre = route@;
            let ghost visited_pre = visited@;
            proof {
                lemma_count_true_update(visited_pre, best as int, true);
            }
            route.push(chosen);
            visited.set(best, true);
            proof {
                broadcast use vstd::seq_lib::group_to_multiset_ensures;
                broadcast use vstd::multiset::group_multiset_axioms;

                lemma_nodes_distinct(nodes);
                assert(route@ == route_pre.push(chosen));
                assert(route@.to_multiset() =~= route_pre.to_multiset().insert(chosen));
                assert forall|q: int| 0 <= q < n implies route@.to_multiset().count(
                    #[trigger] nodes[q],
                ) == (if visited@[q] {
                    1int
                } else {
                    0int
                }) by {
                    if q != best {
                        assert(nodes[q] != nodes[best as int]);
                    }
                }
                assert(route@.subrange(0, step as int) =~= route_pre);
                assert forall|p: int| 1 <= p < step + 1 implies greedy_choice(
                    route@,
                    nodes,
                    p,
                ) by {
                    if p < step {
                        assert(route@.subrange(0, p) =~= route_pre.subrange(0, p));
                        assert(greedy_choice(route_pre, nodes, p));
                        assert(route@[p - 1] == route_pre[p - 1]);
                        assert(route@[p] == route_pre[p]);
                    } else {
                        assert(route@[p - 1] == route_pre[step - 1]);
                        assert(route_pre[step - 1] == nodes[cur as int]);
                        assert(route@[p] == nodes[best as int]);
                        assert forall|q: int|
                            0 <= q < n && !route@.subrange(0, p).contains(
                                #[trigger] nodes[q],
                            ) implies (dist(route@[p - 1], route@[p]) < dist(
                            route@[p - 1],
                            nodes[q],
                        ) || (dist(route@[p - 1], route@[p]) == dist(route@[p - 1], nodes[q])
                            && route@[p].id <= nodes[q].id)) by {
                            assert(route_pre.to_multiset().count(nodes[q]) == 0);
                            assert(!visited_pre[q]);
                            assert((best_d as int) < dist(nodes[cur as int], nodes[q]) || ((best_d
                                as int) == dist(nodes[cur as int], nodes[q]) && best <= q));
                        }
                    }
                }
            }
            cur = best;
            step += 1;
        }
        let ghost interior = route@;
        route.push(self.nodes[0]);
        proof {
            broadcast use vstd::seq_lib::group_to_multiset_ensures;

            lemma_count_true_full(visited@);
            assert forall|p: int| 0 <= p < interior.len() implies nodes.contains(
                #[trigger] interior[p],
            ) by {
                assert(nodes[interior[p].id as int] == interior[p]);
            }
            lemma_multiset_matches_nodes(interior, nodes);
            assert(route@.subrange(0, n as int) =~= interior);
            assert forall|p: int| 1 <= p < n implies greedy_choice(route@, nodes, p) by {
                assert(route@.subrange(0, p) =~= interior.subrange(0, p));
                assert(greedy_choice(interior, nodes, p));
                assert(route@[p - 1] == interior[p - 1]);
                assert(route@[p] == interior[p]);
            }
        }
        self.route = route;
    }

    /// 2-opt local search.  Fills the distance matrix, then sweeps all inner
    /// index pairs `(i, k)`, reversing the segment between them whenever
    /// that strictly shortens the route, and repeats full sweeps until one
    /// finds no improving move.  The result visits the same nodes, costs no
    /// more than the starting route, and admits no improving move; a route
    /// that already admits none comes back unchanged.
    pub fn two_opt(&mut self)
        requires
            old(self).wf(),
        ensures
            final(self).wf(),
            final(self).mat_complete(),
            final(self).nodes@ == old(self).nodes@,
            final(self).cost == old(self).cost,
            final(self).route@.len() == old(self).route@.len(),
            final(self).route@[0] == old(self).route@[0],
            path_cost(final(self).route@) <= path_cost(old(self).route@),
            locally_optimal(final(self).route@),
            locally_optimal(old(self).route@) ==> final(self).route@ == old(self).route@,
    {
        self.distance_matrix();
        let ghost route0 = self.route@;
        let ghost nodes = self.nodes@;
        let n1 = self.route.len();
        proof {
            lemma_path_cost_bounds(route0);
        }
        let mut improved = true;
        while improved
            invariant
                self.wf(),
                self.mat_complete(),
                self.nodes@ == nodes,
                self.cost == old(self).cost,
                route0 == old(self).route@,
                self.route@.len() == n1,
                n1 == nodes.len() + 1,
                n1 >= 4,
                self.route@[0] == route0[0],
                0 <= path_cost(self.route@) <= path_cost(route0),
                !improved ==> locally_optimal(self.route@),
                locally_optimal(route0) ==> self.route@ == route0,
            decreases path_cost(self.route@) + (if improved {
                1int
            } else {
                0int
            }),
        {
            improved = false;
            let ghost sweep0 = self.route@;
            let mut i: usize = 1;
            while i < n1 - 2
                invariant
                    self.wf(),
                    self.mat_complete(),
                    self.nodes@ == nodes,
                    self.cost == old(self).cost,
                    route0 == old(self).route@,
                    self.route@.len() == n1,
                    n1 == nodes.len() + 1,
                    n1 >= 4,
                    self.route@[0] == route0[0],
                    1 <= i <= n1 - 2,
                    0 <= path_cost(self.route@) <= path_cost(sweep0),
                    path_cost(sweep0) <= path_cost(route0),
                    improved ==> path_cost(self.route@) < path_cost(sweep0),
                    !improved ==> self.route@ == sweep0 && (forall|i2: int, k2: int|
                        1 <= i2 < i as int && i2 < k2 <= n1 - 2 ==> #[trigger] move_delta(
                            self.route@,
                            i2,
                            k2,
                        ) <= 0),
                    locally_optimal(route0) ==> self.route@ == route0,
                decreases n1 - 2 - i,
            {
                let mut k: usize = i + 1;
                while k < n1 - 1
                    invariant
                        self.wf(),
                        self.mat_complete(),
                        self.nodes@ == nodes,
                        self.cost == old(self).cost,
                        route0 == old(self).route@,
                        self.route@.len() == n1,
                        n1 == nodes.len() + 1,
                        n1 >= 4,
                        self.route@[0] == route0[0],
                        1 <= i < n1 - 2,
                        i + 1 <= k <= n1 - 1,
                        0 <= path_cost(self.route@) <= path_cost(sweep0),
                        path_cost(sweep0) <= path_cost(route0),
                        improved ==> path_cost(self.route@) < path_cost(sweep0),
                        !improved ==> self.route@ == sweep0 && (forall|i2: int, k2: int|
                            1 <= i2 < i as int && i2 < k2 <= n1 - 2 ==> #[trigger] move_delta(
                                self.route@,
                                i2,
                                k2,
                            ) <= 0) && (forall|k2: int|
                            (i as int) < k2 < (k as int) ==> #[trigger] move_delta(
                                self.route@,
                                i as int,
                                k2,
                            ) <= 0),
                        locally_optimal(route0) ==> self.route@ == route0,
                    decreases n1 - 1 - k,
                {
                    proof {
                        lemma_route_members(self.route@, nodes);
                        lemma_dist_basics(self.route@[i as int - 1], self.route@[i as int]);
                        lemma_dist_basics(self.route@[k as int], self.route@[k as int + 1]);
                        lemma_dist_basics(self.route@[i as int - 1], self.route@[k as int]);
                        lemma_dist_basics(self.route@[i as int], self.route@[k as int + 1]);
                    }
                    let na = self.route[i - 1];
                    let nb = self.route[i];
                    let nc = self.route[k];
                    let nd2 = self.route[k + 1];
                    let removed = self.distance[na.id][nb.id] + self.distance[nc.id][nd2.id];
                    let added = self.distance[na.id][nc.id] + self.distance[nb.id][nd2.id];
                    proof {
                        assert(removed as int - added as int == move_delta(
                            self.route@,
                            i as int,
                            k as int,
                        ));
                    }
                    if added < removed {
                        let ghost r_pre = self.route@;
                        proof {
                            lemma_reversed_segment_cost(r_pre, i as int, k as int);
                            lemma_reversed_segment_shape(r_pre, i as int, k as int);
                        }
                        reverse_segment(&mut self.route, i, k);
                        improved = true;
                        proof {
                            lemma_path_cost_bounds(self.route@);
                            assert(self.route@[0] == r_pre[0]);
                            assert(self.route@[n1 - 1] == r_pre[n1 - 1]);
                            assert(self.route@.subrange(0, n1 - 1).to_multiset()
                                == r_pre.subrange(0, n1 - 1).to_multiset());
                            assert(path_cost(self.route@) < path_cost(r_pre));
                            if locally_optimal(route0) {
                                assert(move_delta(route0, i as int, k as int) <= 0);
                                assert(false);
                            }
                        }
                    } else {
                        proof {
                            assert(move_delta(self.route@, i as int, k as int) <= 0);
                        }
                    }
                    k += 1;
                }
                proof {
                    if !improved {
                        assert forall|i2: int, k2: int|
                            1 <= i2 < i as int + 1 && i2 < k2 <= n1 - 2 implies #[trigger] move_delta(
                            self.route@,
                            i2,
                            k2,
                        ) <= 0 by {
                            if i2 == i as int {
                                assert(move_delta(self.route@, i as int, k2) <= 0);
                            }
                        }
                    }
                }
                i += 1;
            }
            proof {
                if !improved {
                    assert forall|i2: int, k2: int|
                        1 <= i2 < k2 <= n1 - 2 implies #[trigger] move_delta(
                        self.route@,
                        i2,
                        k2,
                    ) <= 0 by {
                        assert(i2 < n1 - 2);
                    }
                    assert(locally_optimal(self.route@));
                }
            }
        }
    }
}

/// Reverses, in place, the segment of the route from position `i` to
/// position `k`, both included.
fn reverse_segment(route: &mut Vec<Node>, i: usize, k: usize)
    requires
        1 <= i <= k,
        k + 2 <= old(route)@.len(),
    ensures
        final(route)@ == reversed_segment(old(route)@, i as int, k as int),
{
    let ghost s0 = route@;
    let mut lo = i;
    let mut hi = k;
    while lo < hi
        invariant
            i <= lo,
            hi <= k,
            lo + hi == i + k,
            lo <= hi + 1,
            k < s0.len(),
            route@.len() == s0.len(),
            forall|p: int| 0 <= p < s0.len() && (p < i || p > k) ==> route@[p] == s0[p],
            forall|p: int| i <= p < lo ==> route@[p] == s0[i + k - p],
            forall|p: int| hi < p <= k ==> route@[p] == s0[i + k - p],
            forall|p: int| lo <= p <= hi ==> route@[p] == s0[p],
        decreases hi + 1 - lo,
    {
        let a = route[lo];
        let b = route[hi];
        route.set(lo, b);
        route.set(hi, a);
        lo += 1;
        hi -= 1;
    }
    proof {
        lemma_reversed_segment_shape(s0, i as int, k as int);
        assert forall|p: int| 0 <= p < s0.len() implies route@[p] == reversed_segment(
            s0,
            i as int,
            k as int,
        )[p] by {
            if i <= p <= k {
                if lo <= p <= hi {
                    assert(p == lo && p == hi);
                    assert(i + k - p == p);
                }
                assert(route@[p] == s0[i + k - p]);
            }
        }
        assert(route@ =~= reversed_segment(s0, i as int, k as int));
    }
}

/// How many entries of the sequence are true: tracks how many nodes the
/// nearest-neighbour walk has visited.
spec fn count_true(s: Seq<bool>) -> int
    decreases s.len(),
{
    if s.len() == 0 {
        0
    } else {
        count_true(s.drop_last()) + (if s.last() {
            1int
        } else {
            0int
        })
    }
}

proof fn lemma_count_true_push(s: Seq<bool>, b: bool)
    ensures
        count_true(s.push(b)) == count_true(s) + (if b {
            1int
        } else {
            0int
        }),
{
    assert(s.push(b).drop_last() =~= s);
    assert(s.push(b).last() == b);
}

proof fn lemma_count_true_update(s: Seq<bool>, i: int, b: bool)
    requires
        0 <= i < s.len(),
    ensures
        count_true(s.update(i, b)) == count_true(s) - (if s[i] {
            1int
        } else {
            0int
        }) + (if b {
            1int
        } else {
            0int
        }),
    decreases s.len(),
{
    if i == s.len() - 1 {
        assert(s.update(i, b).drop_last() =~= s.drop_last());
        assert(s.update(i, b).last() == b);
    } else {
        assert(s.update(i, b).drop_last() =~= s.drop_last().update(i, b));
        assert(s.update(i, b).last() == s.last());
        lemma_count_true_update(s.drop_last(), i, b);
        assert(s.drop_last()[i] == s[i]);
    }
}

proof fn lemma_count_true_bounds(s: Seq<bool>)
    ensures
        0 <= count_true(s) <= s.len(),
    decreases s.len(),
{
    if s.len() > 0 {
        lemma_count_true_bounds(s.drop_last());
    }
}

proof fn lemma_count_true_all(s: Seq<bool>)
    requires
        forall|j: int| 0 <= j < s.len() ==> s[j],
    ensures
        count_true(s) == s.len(),
    decreases s.len(),
{
    if s.len() > 0 {
        assert(forall|j: int| 0 <= j < s.len() - 1 ==> s.drop_last()[j] == s[j]);
        lemma_count_true_all(s.drop_last());
    }
}

proof fn lemma_count_true_full(s: Seq<bool>)
    requires
        count_true(s) == s.len(),
    ensures
        forall|j: int| 0 <= j < s.len() ==> s[j],
    decreases s.len(),
{
    if s.len() > 0 {
        lemma_count_true_bounds(s.drop_last());
        assert(s.last());
        lemma_count_true_full(s.drop_last());
        assert forall|j: int| 0 <= j < s.len() implies s[j] by {
            if j < s.len() - 1 {
                assert(s.drop_last()[j]);
            }
        }
    }
}

/// Relies on rand's `SliceRandom::shuffle` with `thread_rng`: it permutes
/// the slice in place by swapping elements, so the length and the multiset
/// of elements are kept; the order that comes out is not specified.
#[verifier::external_body]
fn shuffle_nodes(v: &mut Vec<Node>)
    ensures
        final(v)@.len() == old(v)@.len(),
        final(v)@.to_multiset() == old(v)@.to_multiset(),
{
    v.shuffle(&mut rand::thread_rng());
}

/// Relies on rand's `Rng::gen_range` with `thread_rng`: on a nonempty range
/// `0..bound` it returns a value of the range; it panics only on an empty
/// range, which the precondition rules out.
#[verifier::external_body]
fn rand_below(bound: i32) -> (r: i32)
    requires
        bound >= 1,
    ensures
        0 <= r < bound,
{
    rand::thread_rng().gen_range(0..bound)
}

/// A square matrix of the given size, all zero: no distance computed yet.
fn zero_matrix(n: usize) -> (m: Vec<Vec<u64>>)
    ensures
        m@.len() == n,
        forall|i: int| 0 <= i < n ==> (#[trigger] m@[i])@.len() == n,
        forall|i: int, j: int| 0 <= i < n && 0 <= j < n ==> (#[trigger] m@[i]@[j]) == 0,
{
    let mut matrix: Vec<Vec<u64>> = Vec::new();
    let mut i: usize = 0;
    while i < n
        invariant
            i <= n,
            matrix@.len() == i,
            forall|i2: int| 0 <= i2 < i ==> (#[trigger] matrix@[i2])@.len() == n,
            forall|i2: int, j2: int|
                0 <= i2 < i && 0 <= j2 < n ==> (#[trigger] matrix@[i2]@[j2]) == 0,
        decreases n - i,
    {
        let mut row: Vec<u64> = Vec::new();
        let mut j: usize = 0;
        while j < n
            invariant
                j <= n,
                row@.len() == j,
                forall|j2: int| 0 <= j2 < j ==> (#[trigger] row@[j2]) == 0,
            decreases n - j,
        {
            row.push(0);
            j += 1;
        }
        matrix.push(row);
        i += 1;
    }
    matrix
}

} // verus!
