use tsp_two_opt::node::Node;
use tsp_two_opt::tour::Tour;

fn ids(route: &Vec<Node>) -> Vec<usize> {
    route.iter().map(|nd| nd.id).collect()
}

fn interior_is_permutation(route: &Vec<Node>, n: usize) -> bool {
    if route.len() != n + 1 {
        return false;
    }
    let mut seen = vec![false; n];
    for nd in route[..n].iter() {
        if nd.id >= n || seen[nd.id] {
            return false;
        }
        seen[nd.id] = true;
    }
    seen.iter().all(|&b| b)
}

fn five_points() -> Vec<(i32, i32)> {
    vec![(0, 0), (100, 50), (50, 100), (25, 25), (35, 50)]
}

#[test]
fn new_rejects_fewer_than_three_points() {
    assert!(Tour::new(vec![]).is_err());
    assert!(Tour::new(vec![(1, 2)]).is_err());
    assert!(Tour::new(vec![(1, 2), (3, 4)]).is_err());
    assert!(Tour::new(vec![(1, 2), (3, 4), (5, 6)]).is_ok());
}

#[test]
fn new_labels_nodes_in_input_order() {
    let t = Tour::new(five_points()).unwrap();
    assert_eq!(t.nodes.len(), 5);
    for (i, nd) in t.nodes.iter().enumerate() {
        assert_eq!(nd.id, i);
    }
    assert_eq!(t.nodes[3].x, 25);
    assert_eq!(t.nodes[3].y, 25);
    assert_eq!(ids(&t.route), vec![0, 1, 2, 3, 4, 0]);
    assert_eq!(t.cost, 0);
}

#[test]
fn distance_matrix_is_symmetric_and_zero_on_diagonal() {
    let mut t = Tour::new(five_points()).unwrap();
    t.distance_matrix();
    for a in 0..5 {
        for b in 0..5 {
            assert_eq!(t.distance[a][b], t.distance[b][a]);
        }
        assert_eq!(t.distance[a][a], 0);
    }
}

#[test]
fn distance_matrix_holds_rounded_euclidean_distances() {
    let mut t = Tour::new(five_points()).unwrap();
    t.distance_matrix();
    assert_eq!(t.distance[0][3], 35);
    assert_eq!(t.distance[0][1], 111);
    assert_eq!(t.distance[0][2], 111);
    assert_eq!(t.distance[0][4], 61);
    assert_eq!(t.distance[3][4], 26);
    assert_eq!(t.distance[4][2], 52);
    assert_eq!(t.distance[2][1], 70);
}

#[test]
fn calculate_cost_sums_route_edges() {
    let mut t = Tour::new(vec![(0, 0), (10, 0), (10, 10), (0, 10)]).unwrap();
    t.calculate_cost();
    assert_eq!(t.cost, 40);
}

#[test]
fn calculate_cost_works_before_the_matrix_is_filled() {
    let mut t = Tour::new(five_points()).unwrap();
    assert_eq!(t.distance[0][3], 0);
    t.calculate_cost();
    assert_eq!(t.cost, 111 + 70 + 79 + 26 + 61);
}

#[test]
fn random_tour_keeps_the_anchor_and_permutes_the_rest() {
    let mut t = Tour::new(five_points()).unwrap();
    for _ in 0..10 {
        t.random_tour();
        assert_eq!(t.route.len(), 6);
        assert_eq!(t.route[0].id, 0);
        assert_eq!(t.route[5].id, 0);
        assert!(interior_is_permutation(&t.route, 5));
    }
}

#[test]
fn nearest_neighbour_tour_is_the_pinned_greedy_sequence() {
    let mut t = Tour::new(five_points()).unwrap();
    t.nearest_neighbour_tour();
    assert_eq!(ids(&t.route), vec![0, 3, 4, 2, 1, 0]);
    t.calculate_cost();
    assert_eq!(t.cost, 35 + 26 + 52 + 70 + 111);
}

#[test]
fn nearest_neighbour_tour_visits_every_node_once() {
    let mut t = Tour::new(vec![(0, 0), (7, 3), (2, 9), (5, 5), (9, 1), (1, 4)]).unwrap();
    t.nearest_neighbour_tour();
    assert!(interior_is_permutation(&t.route, 6));
    assert_eq!(t.route[0].id, 0);
}

#[test]
fn two_opt_uncrosses_a_square() {
    // Visiting the square's corners in the order below traces both
    // diagonals: an X-shaped crossing.
    let mut t = Tour::new(vec![(0, 0), (10, 10), (10, 0), (0, 10)]).unwrap();
    t.calculate_cost();
    assert_eq!(t.cost, 14 + 10 + 14 + 10);
    t.two_opt();
    t.calculate_cost();
    assert_eq!(t.cost, 40);
    assert_eq!(ids(&t.route), vec![0, 2, 1, 3, 0]);
    assert!(interior_is_permutation(&t.route, 4));
}

#[test]
fn two_opt_never_raises_the_cost() {
    let mut t = Tour::new(five_points()).unwrap();
    for _ in 0..5 {
        t.random_tour();
        t.calculate_cost();
        let before = t.cost;
        t.two_opt();
        t.calculate_cost();
        assert!(t.cost <= before);
        assert!(interior_is_permutation(&t.route, 5));
    }
}

#[test]
fn two_opt_is_idempotent() {
    let mut t = Tour::new(five_points()).unwrap();
    t.random_tour();
    t.two_opt();
    let first = ids(&t.route);
    t.calculate_cost();
    let first_cost = t.cost;
    t.two_opt();
    assert_eq!(ids(&t.route), first);
    t.calculate_cost();
    assert_eq!(t.cost, first_cost);
}

#[test]
fn two_opt_leaves_three_node_routes_unchanged() {
    for points in [
        vec![(0, 0), (10, 0), (5, 9)],
        vec![(10, 0), (0, 0), (5, 9)],
        vec![(5, 9), (10, 0), (0, 0)],
    ] {
        let mut t = Tour::new(points).unwrap();
        let before = ids(&t.route);
        t.two_opt();
        assert_eq!(ids(&t.route), before);
    }
}

#[test]
fn two_opt_handles_coincident_points() {
    let mut t = Tour::new(vec![(3, 3), (3, 3), (3, 3), (3, 3)]).unwrap();
    t.two_opt();
    t.calculate_cost();
    assert_eq!(t.cost, 0);
    assert!(interior_is_permutation(&t.route, 4));
}

#[test]
fn create_random_nodes_rejects_fewer_than_three() {
    assert!(Tour::create_random_nodes(0, 10, 10).is_err());
    assert!(Tour::create_random_nodes(2, 10, 10).is_err());
}

#[test]
fn create_random_nodes_stays_in_the_rectangle() {
    let t = Tour::create_random_nodes(20, 100, 50).unwrap();
    assert_eq!(t.nodes.len(), 20);
    for (i, nd) in t.nodes.iter().enumerate() {
        assert_eq!(nd.id, i);
        assert!(0 <= nd.x && nd.x < 100);
        assert!(0 <= nd.y && nd.y < 50);
    }
    assert_eq!(t.route.len(), 21);
    assert!(interior_is_permutation(&t.route, 20));
}

#[test]
fn full_pipeline_on_random_nodes() {
    let mut t = Tour::create_random_nodes(12, 200, 200).unwrap();
    t.nearest_neighbour_tour();
    t.calculate_cost();
    let greedy = t.cost;
    t.two_opt();
    t.calculate_cost();
    assert!(t.cost <= greedy);
    assert!(interior_is_permutation(&t.route, 12));
    assert_eq!(t.route[0].id, 0);
    assert_eq!(t.route[12].id, 0);
}
