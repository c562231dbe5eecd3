use std::f64::consts::PI;
use tsp_algorithms::angular_sort;
use tsp_algorithms::greedy_edge;
use tsp_algorithms::nearest_neighbor;
use tsp_algorithms::sonar_visit;
use tsp_algorithms::sorting::order_by_keys;
use tsp_algorithms::two_opt;
use tsp_algorithms::utils::{
    calculate_tour_length, create_distance_matrix, generate_normalized_points, Point, UNIT,
};
use tsp_algorithms::zigzag;

fn binary_angle(angle: f64) -> u32 {
    let mut a = angle;
    if a < 0.0 {
        a += 2.0 * PI;
    }
    (((a / (2.0 * PI)) * 4294967296.0) as u64).min(u32::MAX as u64) as u32
}

fn pt(x: f64, y: f64, angle: f64, id: usize) -> Point {
    Point {
        x: (x * UNIT as f64).round() as u32,
        y: (y * UNIT as f64).round() as u32,
        angle: binary_angle(angle),
        id,
    }
}

fn unit_square() -> Vec<Point> {
    vec![
        pt(0.0, 0.0, PI, 0),
        pt(1.0, 0.0, 0.0, 1),
        pt(1.0, 1.0, PI / 4.0, 2),
        pt(0.0, 1.0, PI / 2.0, 3),
    ]
}

/// A generated instance with the polar angle of each point about the centre.
fn instance(n: usize, grid_size: usize, seed: u64) -> Vec<Point> {
    generate_normalized_points(n, grid_size, seed)
        .into_iter()
        .enumerate()
        .map(|(id, (x, y))| {
            let dx = x as f64 / UNIT as f64 - 0.5;
            let dy = y as f64 / UNIT as f64 - 0.5;
            Point { x, y, angle: binary_angle(dy.atan2(dx)), id }
        })
        .collect()
}

fn assert_permutation(tour: &[usize], n: usize) {
    assert_eq!(tour.len(), n);
    let mut seen = std::collections::HashSet::new();
    for &id in tour {
        assert!(id < n);
        assert!(seen.insert(id));
    }
}

fn permutations(n: usize) -> Vec<Vec<usize>> {
    if n == 0 {
        return vec![vec![]];
    }
    let mut all = Vec::new();
    for shorter in permutations(n - 1) {
        for at in 0..=shorter.len() {
            let mut longer = shorter.clone();
            longer.insert(at, n - 1);
            all.push(longer);
        }
    }
    all
}

#[test]
fn test_angular_sort_visits_all() {
    let points = unit_square();

    let tour = angular_sort::generate_tour(&points);

    assert_eq!(tour.len(), points.len());

    // Check no duplicates
    let mut seen = std::collections::HashSet::new();
    for &id in &tour {
        assert!(seen.insert(id));
    }
}

#[test]
fn test_greedy_edge_visits_all() {
    let points = unit_square();
    let graph = create_distance_matrix(&points);

    let tour = greedy_edge::generate_tour(points.len(), &graph);

    assert_eq!(tour.len(), points.len());

    // Check no duplicates
    let mut seen = std::collections::HashSet::new();
    for &id in &tour {
        assert!(seen.insert(id));
    }
}

#[test]
fn test_nearest_neighbor_visits_all() {
    let points = unit_square();
    let graph = create_distance_matrix(&points);

    let tour = nearest_neighbor::generate_tour(points.len(), &graph, 0);

    assert_eq!(tour.len(), points.len());
    assert_eq!(tour[0], 0); // Should start from city 0

    // Check no duplicates
    let mut seen = std::collections::HashSet::new();
    for &id in &tour {
        assert!(seen.insert(id));
    }
}

#[test]
fn test_sonar_visit_visits_all() {
    let points = instance(10, 20, 42);
    let tour = sonar_visit::generate_tour(&points, 20);

    assert_eq!(tour.len(), points.len());

    // Check no duplicates
    let mut seen = std::collections::HashSet::new();
    for &id in &tour {
        assert!(seen.insert(id));
    }
}

#[test]
fn test_two_opt_improves_tour() {
    let points = unit_square();
    let graph = create_distance_matrix(&points);

    // Suboptimal tour with crossing edges
    let suboptimal = vec![0, 2, 1, 3];
    let improved = two_opt::improve(&suboptimal, &graph, 100);

    let original_length = calculate_tour_length(&suboptimal, &graph);
    let improved_length = calculate_tour_length(&improved, &graph);

    assert!(improved_length <= original_length);
}

#[test]
fn test_zigzag_no_worse() {
    let points = unit_square();
    let graph = create_distance_matrix(&points);
    let angular_tour = angular_sort::generate_tour(&points);
    let zigzag_tour = zigzag::optimize(&angular_tour, &points, &graph);

    let angular_length = calculate_tour_length(&angular_tour, &graph);
    let zigzag_length = calculate_tour_length(&zigzag_tour, &graph);

    assert!(zigzag_length as f64 / UNIT as f64 <= angular_length as f64 / UNIT as f64 + 0.0001);
}

#[test]
fn constructions_return_permutations_on_generated_instances() {
    for &n in &[0usize, 1, 2, 3, 4, 5, 8, 13, 40, 120] {
        let points = instance(n, 40, 12345);
        assert_eq!(points.len(), n);
        let graph = create_distance_matrix(&points);
        assert_permutation(&angular_sort::generate_tour(&points), n);
        assert_permutation(&sonar_visit::generate_tour(&points, 40), n);
        assert_permutation(&greedy_edge::generate_tour(n, &graph), n);
        if n > 0 {
            for start in [0, n / 2, n - 1] {
                let tour = nearest_neighbor::generate_tour(n, &graph, start);
                assert_permutation(&tour, n);
                assert_eq!(tour[0], start);
            }
        } else {
            assert!(nearest_neighbor::generate_tour(0, &graph, 0).is_empty());
            assert!(nearest_neighbor::generate_tour(0, &graph, 5).is_empty());
        }
    }
}

#[test]
fn improvements_keep_permutations_and_do_not_lengthen() {
    for &n in &[0usize, 1, 2, 3, 4, 5, 8, 13, 40, 120] {
        let points = instance(n, 40, 12345);
        let graph = create_distance_matrix(&points);
        let start = angular_sort::generate_tour(&points);
        let before = calculate_tour_length(&start, &graph);
        let two = two_opt::improve(&start, &graph, 100);
        assert_permutation(&two, n);
        assert!(calculate_tour_length(&two, &graph) <= before);
        let zig = zigzag::optimize(&start, &points, &graph);
        assert_permutation(&zig, n);
        assert!(calculate_tour_length(&zig, &graph) <= before);
    }
}

#[test]
fn nearest_neighbor_takes_the_closest_and_the_lowest_on_ties() {
    // From 0 the cities 1 and 2 are equally near: 1 is taken. From 1 city 3 is nearest.
    let graph = vec![
        vec![0, 5, 5, 9],
        vec![5, 0, 7, 1],
        vec![5, 7, 0, 2],
        vec![9, 1, 2, 0],
    ];
    assert_eq!(nearest_neighbor::generate_tour(4, &graph, 0), vec![0, 1, 3, 2]);
    assert_eq!(nearest_neighbor::generate_tour(4, &graph, 3), vec![3, 1, 0, 2]);
    assert_eq!(nearest_neighbor::generate_tour(1, &graph, 0), vec![0]);
    // Only the first two cities of a larger matrix.
    assert_eq!(nearest_neighbor::generate_tour(2, &graph, 1), vec![1, 0]);
    // Even the largest distances are distances.
    let far = vec![vec![0, u64::MAX], vec![u64::MAX, 0]];
    assert_eq!(nearest_neighbor::generate_tour(2, &far, 0), vec![0, 1]);
}

#[test]
fn greedy_edge_joins_the_shortest_edges_first() {
    // Points on a line at 0, 1, 3, 7: the edges 0-1, 1-2, 2-3 are kept, then 0-3 closes.
    let line = vec![
        vec![0, 1, 3, 7],
        vec![1, 0, 2, 6],
        vec![3, 2, 0, 4],
        vec![7, 6, 4, 0],
    ];
    assert_eq!(greedy_edge::generate_tour(4, &line), vec![0, 1, 2, 3]);
    // The shortest edge joins 1 and 3, then 0 and 2; 0-1 joins the two chains
    // and 2-3 closes the tour. City 0 got its edge to 2 first.
    let crossed = vec![
        vec![0, 6, 2, 9],
        vec![6, 0, 8, 1],
        vec![2, 8, 0, 7],
        vec![9, 1, 7, 0],
    ];
    assert_eq!(greedy_edge::generate_tour(4, &crossed), vec![0, 2, 3, 1]);
    assert_eq!(greedy_edge::generate_tour(0, &crossed), Vec::<usize>::new());
    assert_eq!(greedy_edge::generate_tour(1, &crossed), vec![0]);
    assert_eq!(greedy_edge::generate_tour(2, &crossed), vec![0, 1]);
    assert_eq!(greedy_edge::generate_tour(3, &crossed), vec![0, 2, 1]);
    // All edges equal: the order of the cities decides.
    let flat = vec![vec![0, 3, 3, 3], vec![3, 0, 3, 3], vec![3, 3, 0, 3], vec![3, 3, 3, 0]];
    assert_eq!(greedy_edge::generate_tour(4, &flat), vec![0, 1, 3, 2]);
}

#[test]
fn greedy_edge_returns_permutations_on_irregular_matrices() {
    let mut state = 7u64;
    for n in 0..30usize {
        let mut g = vec![vec![0u64; n]; n];
        for i in 0..n {
            for j in (i + 1)..n {
                state = state.wrapping_mul(6364136223846793005).wrapping_add(1442695040888963407);
                let w = (state >> 33) % 6;
                g[i][j] = w;
                g[j][i] = w;
            }
        }
        let tour = greedy_edge::generate_tour(n, &g);
        assert_permutation(&tour, n);
        if n > 0 {
            assert_eq!(tour[0], 0);
        }
    }
}

#[test]
fn angular_sort_orders_by_angle_and_keeps_ties_in_place() {
    let points = vec![
        Point { x: 0, y: 0, angle: 300, id: 0 },
        Point { x: 0, y: 0, angle: 100, id: 1 },
        Point { x: 0, y: 0, angle: 200, id: 2 },
        Point { x: 0, y: 0, angle: 100, id: 3 },
        Point { x: 0, y: 0, angle: 0, id: 4 },
        Point { x: 0, y: 0, angle: u32::MAX, id: 5 },
    ];
    assert_eq!(angular_sort::generate_tour(&points), vec![4, 1, 3, 2, 0, 5]);
    assert_eq!(angular_sort::generate_tour(&unit_square()), vec![1, 2, 3, 0]);
    assert_eq!(angular_sort::generate_tour(&[]), Vec::<usize>::new());
    // The tour names the points by their identity, not by their place.
    let renamed = vec![
        Point { x: 0, y: 0, angle: 9, id: 1 },
        Point { x: 0, y: 0, angle: 3, id: 0 },
    ];
    assert_eq!(angular_sort::generate_tour(&renamed), vec![0, 1]);
}

#[test]
fn positions_are_ordered_by_key_then_by_place() {
    let keys = vec![(5, 1), (3, 9), (5, 0), (3, 9), (0, 0), (u64::MAX, u64::MAX)];
    assert_eq!(order_by_keys(&keys), vec![4, 1, 3, 2, 0, 5]);
    assert_eq!(order_by_keys(&[]), Vec::<usize>::new());
    assert_eq!(order_by_keys(&[(1, 1)]), vec![0]);
}

#[test]
fn sonar_sweeps_sector_by_sector_from_the_centre_outwards() {
    let half = UNIT / 2;
    let quarter = 1u32 << 30;
    // grid_size 1: four sectors of a quarter turn each.
    let points = vec![
        Point { x: half + 300, y: half, angle: 3 * quarter + 5, id: 0 },
        Point { x: half + 200, y: half, angle: 17, id: 1 },
        Point { x: half + 100, y: half, angle: quarter - 1, id: 2 },
        Point { x: half, y: half + 50, angle: quarter, id: 3 },
        Point { x: half, y: half + 100, angle: 0, id: 4 },
        Point { x: half, y: half, angle: u32::MAX, id: 5 },
    ];
    // Sector 0 holds 1, 2, 4 at distances 200, 100, 100; sector 1 holds 3; sector 3 holds 0 and 5.
    assert_eq!(sonar_visit::generate_tour(&points, 1), vec![2, 4, 1, 3, 5, 0]);
    // With eight sectors the point at a quarter turn less one step moves to sector 1.
    assert_eq!(sonar_visit::generate_tour(&points, 2), vec![4, 1, 2, 3, 0, 5]);
    assert_eq!(sonar_visit::generate_tour(&[], 40), Vec::<usize>::new());
}

#[test]
fn sonar_gives_the_same_sweep_every_time() {
    let points = instance(200, 40, 12345);
    let first = sonar_visit::generate_tour(&points, 40);
    for _ in 0..5 {
        assert_eq!(sonar_visit::generate_tour(&points, 40), first);
    }
    // Calls in between do not matter.
    let _ = sonar_visit::generate_tour(&instance(50, 40, 7), 10);
    assert_eq!(sonar_visit::generate_tour(&points, 40), first);
    assert_permutation(&first, 200);
}

#[test]
fn two_opt_reaches_the_square_from_every_permutation() {
    let graph = create_distance_matrix(&unit_square());
    for start in permutations(4) {
        let improved = two_opt::improve(&start, &graph, 100);
        assert_permutation(&improved, 4);
        assert_eq!(calculate_tour_length(&improved, &graph), 4_000_000, "from {:?}", start);
    }
}

#[test]
fn two_opt_reverses_the_segment_between_the_exchanged_edges() {
    let graph = create_distance_matrix(&unit_square());
    assert_eq!(two_opt::improve(&[0, 2, 1, 3], &graph, 100), vec![0, 1, 2, 3]);
    // No passes, no change; short tours have nothing to exchange.
    assert_eq!(two_opt::improve(&[0, 2, 1, 3], &graph, 0), vec![0, 2, 1, 3]);
    assert_eq!(two_opt::improve(&[], &graph, 100), Vec::<usize>::new());
    assert_eq!(two_opt::improve(&[2], &graph, 100), vec![2]);
    assert_eq!(two_opt::improve(&[2, 0], &graph, 100), vec![2, 0]);
    assert_eq!(two_opt::improve(&[2, 0, 1], &graph, 100), vec![2, 0, 1]);
}

#[test]
fn two_opt_leaves_no_improving_exchange() {
    let points = instance(60, 40, 12345);
    let graph = create_distance_matrix(&points);
    let start: Vec<usize> = (0..60).collect();
    let t = two_opt::improve(&start, &graph, 1000);
    let n = t.len();
    for i in 0..n - 1 {
        for j in i + 2..n {
            if i == 0 && j == n - 1 {
                continue;
            }
            let after = (j + 1) % n;
            let old = graph[t[i]][t[i + 1]] as u128 + graph[t[j]][t[after]] as u128;
            let new = graph[t[i]][t[j]] as u128 + graph[t[i + 1]][t[after]] as u128;
            assert!(new >= old);
        }
    }
}

#[test]
fn zigzag_exchanges_neighbours_where_that_is_shorter() {
    // Cities on a line at 0, 2, 1, 3, 4 in tour order: visiting the third before the second pays.
    let points = vec![
        Point { x: 0, y: 0, angle: 0, id: 0 },
        Point { x: 200, y: 0, angle: 0, id: 1 },
        Point { x: 100, y: 0, angle: 0, id: 2 },
        Point { x: 300, y: 0, angle: 0, id: 3 },
        Point { x: 400, y: 0, angle: 0, id: 4 },
    ];
    let graph = create_distance_matrix(&points);
    assert_eq!(zigzag::optimize(&[0, 1, 2, 3, 4], &points, &graph), vec![0, 2, 1, 3, 4]);
    assert!(zigzag::should_zigzag(1, &points));
    assert!(!zigzag::should_zigzag(2, &points));
    // In order already: nothing changes.
    assert_eq!(zigzag::optimize(&[0, 2, 1, 3, 4], &points, &graph), vec![0, 2, 1, 3, 4]);
    // The last three positions are never exchanged: too few are left behind them.
    assert_eq!(zigzag::optimize(&[4, 0, 2, 1], &points, &graph), vec![4, 0, 2, 1]);
    assert_eq!(zigzag::optimize(&[], &points, &graph), Vec::<usize>::new());
    assert_eq!(zigzag::optimize(&[3], &points, &graph), vec![3]);
    assert_eq!(zigzag::optimize(&[3, 1], &points, &graph), vec![3, 1]);
    // A city named twice is visited once.
    assert_eq!(zigzag::optimize(&[3, 1, 3, 0], &points, &graph), vec![3, 1, 0]);
}

#[test]
fn two_opt_needs_a_symmetric_matrix_to_shorten() {
    // From 2 to 1 is far, from 1 to 2 is not: reversing the two cities
    // between the edges 0-1 and 2-3 looks like a gain and is a loss.
    let one_way = vec![
        vec![0, 1, 0, 0],
        vec![900, 0, 0, 0],
        vec![0, 1000, 0, 200],
        vec![0, 0, 0, 0],
    ];
    let start = vec![0, 1, 2, 3];
    assert_eq!(calculate_tour_length(&start, &one_way), 201);
    let after = two_opt::improve(&start, &one_way, 100);
    assert_eq!(after, vec![0, 2, 1, 3]);
    assert_eq!(calculate_tour_length(&after, &one_way), 1000);
}
