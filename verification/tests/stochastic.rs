use std::f64::consts::PI;
use tsp_algorithms::genetic;
use tsp_algorithms::nearest_neighbor;
use tsp_algorithms::simulated_annealing;
use tsp_algorithms::utils::{
    calculate_tour_length, create_distance_matrix, generate_normalized_points, Point, UNIT,
};

fn pt(x: f64, y: f64, angle: f64, id: usize) -> Point {
    Point {
        x: (x * UNIT as f64).round() as u32,
        y: (y * UNIT as f64).round() as u32,
        angle: ((angle / (2.0 * PI)) * 4294967296.0) as u32,
        id,
    }
}

fn unit_square() -> Vec<Point> {
    vec![
        pt(0.0, 0.0, PI, 0),
        pt(1.0, 0.0, 0.0, 1),
        pt(1.0, 1.0, PI / 4.0, 2),
        pt(0.0, 1.0, PI / 2.0, 3),
    ]
}

fn instance(n: usize) -> Vec<Point> {
    generate_normalized_points(n, 40, 12345)
        .into_iter()
        .enumerate()
        .map(|(id, (x, y))| Point { x, y, angle: 0, id })
        .collect()
}

/// The slack of each iteration under the Metropolis rule: `-t * ln(u)` in
/// coordinate steps, for a temperature that cools by `cooling_rate` each time.
fn metropolis_slack(iterations: usize, initial_temperature: f64, cooling_rate: f64) -> Vec<u64> {
    let mut state = 2024u64;
    let mut temperature = initial_temperature;
    let mut slack = Vec::with_capacity(iterations);
    for _ in 0..iterations {
        state = state.wrapping_mul(6364136223846793005).wrapping_add(1442695040888963407);
        let u = ((state >> 11) as f64 + 1.0) / (1u64 << 53) as f64;
        slack.push((-temperature * u.ln() * UNIT as f64) as u64);
        temperature *= cooling_rate;
    }
    slack
}

fn assert_permutation(tour: &[usize], n: usize) {
    assert_eq!(tour.len(), n);
    let mut seen = std::collections::HashSet::new();
    for &id in tour {
        assert!(id < n);
        assert!(seen.insert(id));
    }
}

#[test]
fn test_simulated_annealing_visits_all() {
    let points = unit_square();
    let graph = create_distance_matrix(&points);
    let initial = nearest_neighbor::generate_tour(points.len(), &graph, 0);
    let tour = simulated_annealing::optimize(&graph, &initial, &metropolis_slack(5000, 1.0, 0.9995));

    assert_eq!(tour.len(), points.len());

    // Check no duplicates
    let mut seen = std::collections::HashSet::new();
    for &id in &tour {
        assert!(seen.insert(id));
    }
}

#[test]
fn test_genetic_algorithm_visits_all() {
    let points = unit_square();
    let graph = create_distance_matrix(&points);
    let tour = genetic::optimize(&graph, 4, 50, 100, 100_000);

    assert_eq!(tour.len(), points.len());

    // Check no duplicates
    let mut seen = std::collections::HashSet::new();
    for &id in &tour {
        assert!(seen.insert(id));
    }
}

#[test]
fn annealing_never_returns_a_longer_tour() {
    for &n in &[0usize, 1, 2, 3, 5, 12, 40] {
        let points = instance(n);
        let graph = create_distance_matrix(&points);
        let initial: Vec<usize> = (0..n).collect();
        let before = calculate_tour_length(&initial, &graph);
        for schedule in [
            metropolis_slack(2000, 1.0, 0.9995),
            metropolis_slack(2000, 0.0, 1.0),
            vec![u64::MAX; 500],
            vec![0; 500],
            vec![],
        ] {
            let tour = simulated_annealing::optimize(&graph, &initial, &schedule);
            assert_permutation(&tour, n);
            assert!(calculate_tour_length(&tour, &graph) <= before);
            if schedule.is_empty() || n < 2 {
                assert_eq!(tour, initial);
            }
        }
    }
}

#[test]
fn annealing_untangles_the_crossed_square() {
    let graph = create_distance_matrix(&unit_square());
    // With no slack only shortening proposals are taken.
    let tour = simulated_annealing::optimize(&graph, &[0, 2, 1, 3], &vec![0; 400]);
    assert_eq!(calculate_tour_length(&tour, &graph), 4_000_000);
}

#[test]
fn proposals_are_decided_by_the_edges_around_the_segment() {
    let graph = vec![
        vec![0, 1, 5, 1],
        vec![1, 0, 1, 5],
        vec![5, 1, 0, 1],
        vec![1, 5, 1, 0],
    ];
    // Tour 0 2 1 3: reversing positions 1..=2 replaces the edges 0-2 and 1-3 (10) by 0-1 and 2-3 (2).
    let mut tour = vec![0, 2, 1, 3];
    assert!(simulated_annealing::propose(&graph, &mut tour, 1, 2, 0));
    assert_eq!(tour, vec![0, 1, 2, 3]);
    // Back again costs 8 more: refused with slack 8, taken with slack 9.
    assert!(!simulated_annealing::propose(&graph, &mut tour, 2, 1, 8));
    assert_eq!(tour, vec![0, 1, 2, 3]);
    assert!(simulated_annealing::propose(&graph, &mut tour, 2, 1, 9));
    assert_eq!(tour, vec![0, 2, 1, 3]);
    // A proposal that changes nothing in length needs some slack.
    let even = vec![vec![0, 3, 3, 3], vec![3, 0, 3, 3], vec![3, 3, 0, 3], vec![3, 3, 3, 0]];
    let mut flat = vec![0, 1, 2, 3];
    assert!(!simulated_annealing::propose(&even, &mut flat, 1, 2, 0));
    assert_eq!(flat, vec![0, 1, 2, 3]);
    assert!(simulated_annealing::propose(&even, &mut flat, 1, 2, 1));
    assert_eq!(flat, vec![0, 2, 1, 3]);
    // For the whole tour the edges around the segment are the closing edge,
    // counted on both sides, against none: the reversal is taken.
    let mut whole = vec![0, 1, 2, 3];
    assert!(simulated_annealing::propose(&graph, &mut whole, 0, 3, 0));
    assert_eq!(whole, vec![3, 2, 1, 0]);
    // The segment from position 0 wraps around for the edge before it.
    let mut wrapped = vec![2, 1, 3, 0];
    assert!(simulated_annealing::propose(&graph, &mut wrapped, 1, 0, 0));
    assert_eq!(wrapped, vec![1, 2, 3, 0]);
}

#[test]
fn genetic_algorithm_returns_a_tour_whatever_the_settings() {
    let points = instance(15);
    let graph = create_distance_matrix(&points);
    for &(n, population, generations, rate) in &[
        (0usize, 1usize, 0usize, 0u32),
        (0, 5, 3, 100_000),
        (1, 1, 0, 0),
        (1, 4, 5, 1_000_000),
        (2, 3, 4, 500_000),
        (15, 1, 10, 100_000),
        (15, 2, 10, 0),
        (15, 30, 0, 100_000),
        (15, 30, 20, 1_000_000),
        (15, 30, 20, u32::MAX),
    ] {
        let tour = genetic::optimize(&graph, n, population, generations, rate);
        assert_permutation(&tour, n);
    }
}

#[test]
fn genetic_algorithm_finds_the_square() {
    let graph = create_distance_matrix(&unit_square());
    // Three different tours exist; fifty random ones hold the shortest, and the best is kept.
    let tour = genetic::optimize(&graph, 4, 50, 100, 100_000);
    assert_eq!(calculate_tour_length(&tour, &graph), 4_000_000);
}

#[test]
fn order_crossover_keeps_the_segment_and_fills_in_the_order_of_the_second_parent() {
    let mother = vec![0, 1, 2, 3, 4, 5, 6, 7];
    let father = vec![3, 7, 5, 1, 6, 0, 2, 4];
    assert_eq!(genetic::order_crossover(&mother, &father, 2, 4), vec![1, 6, 2, 3, 4, 0, 7, 5]);
    // The whole of the first parent, or a single city of it.
    assert_eq!(genetic::order_crossover(&mother, &father, 0, 7), mother);
    assert_eq!(genetic::order_crossover(&mother, &father, 7, 7), vec![3, 5, 1, 6, 0, 2, 4, 7]);
    assert_eq!(genetic::order_crossover(&mother, &father, 0, 0), vec![0, 7, 5, 1, 6, 2, 4, 3]);
    assert_eq!(genetic::order_crossover(&[0], &[0], 0, 0), vec![0]);
    assert_eq!(genetic::order_crossover(&[1, 0], &[0, 1], 1, 1), vec![1, 0]);
    for start in 0..8 {
        for end in start..8 {
            let child = genetic::order_crossover(&mother, &father, start, end);
            assert_permutation(&child, 8);
            assert_eq!(&child[start..=end], &mother[start..=end]);
        }
    }
}

#[test]
fn roulette_wheel_picks_the_slot_under_the_ball() {
    let wheel = [5u128, 0, 3, 2];
    assert_eq!(genetic::roulette_pick(&wheel, 0), 0);
    assert_eq!(genetic::roulette_pick(&wheel, 4), 0);
    assert_eq!(genetic::roulette_pick(&wheel, 5), 2);
    assert_eq!(genetic::roulette_pick(&wheel, 7), 2);
    assert_eq!(genetic::roulette_pick(&wheel, 8), 3);
    assert_eq!(genetic::roulette_pick(&wheel, 9), 3);
    // Beyond the wheel: the last slot.
    assert_eq!(genetic::roulette_pick(&wheel, 10), 3);
    assert_eq!(genetic::roulette_pick(&wheel, u128::MAX), 3);
    assert_eq!(genetic::roulette_pick(&[0, 0, 0], 0), 2);
    assert_eq!(genetic::roulette_pick(&[7], 3), 0);
}

#[test]
fn fitness_is_the_inverse_of_the_length() {
    assert_eq!(genetic::fitness_of(1), genetic::FITNESS_SCALE);
    assert_eq!(genetic::fitness_of(0), genetic::FITNESS_SCALE);
    assert_eq!(genetic::fitness_of(4), 1u128 << 62);
    assert_eq!(genetic::fitness_of(3), 6_148_914_691_236_517_205);
    assert_eq!(genetic::fitness_of(genetic::FITNESS_SCALE), 1);
    assert_eq!(genetic::fitness_of(genetic::FITNESS_SCALE + 1), 0);
    assert_eq!(genetic::fitness_of(u128::MAX), 0);
}
