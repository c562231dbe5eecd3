use tsp_algorithms::angular_sort;
use tsp_algorithms::benchmark::{
    find_max_n, grid_size_for, measure_time, rank_results, search_capacity, BenchmarkResult,
    Search, INSTANCE_SEED,
};
use tsp_algorithms::nearest_neighbor;
use tsp_algorithms::utils::{generate_normalized_points, Point, UNIT};

fn instance(n: usize) -> Vec<Point> {
    generate_normalized_points(n, grid_size_for(n), INSTANCE_SEED)
        .into_iter()
        .enumerate()
        .map(|(id, (x, y))| {
            let dx = x as f64 / UNIT as f64 - 0.5;
            let dy = y as f64 / UNIT as f64 - 0.5;
            let mut angle = dy.atan2(dx);
            if angle < 0.0 {
                angle += 2.0 * std::f64::consts::PI;
            }
            let steps = (angle / (2.0 * std::f64::consts::PI) * 4294967296.0) as u64;
            Point { x, y, angle: steps.min(u32::MAX as u64) as u32, id }
        })
        .collect()
}

fn result(name: &str, max_n: usize) -> BenchmarkResult {
    BenchmarkResult { name: name.to_string(), max_n, time_ns: 0, error: None }
}

/// Drives the state machine by hand and records the sizes it asks for.
fn probes(cost: impl Fn(usize) -> u128, min_n: usize, max_n: usize, timeout: u128) -> Vec<usize> {
    let mut state = Search::start(min_n, max_n);
    let mut asked = Vec::new();
    while let Some(size) = state.probe_size() {
        asked.push(size);
        state = state.advance(cost(size), max_n, timeout);
    }
    asked
}

#[test]
fn search_finds_the_boundary_of_monotone_costs() {
    // cost(n) = 10 n against a budget of 500: sizes up to 50 are feasible.
    assert_eq!(search_capacity(|n| 10 * n as u128, 4, 1000, 500), (50, 500));
    assert_eq!(search_capacity(|n| 10 * n as u128, 50, 1000, 500), (50, 500));
    assert_eq!(search_capacity(|n| 10 * n as u128, 4, 50, 500), (50, 500));
    assert_eq!(search_capacity(|n| 10 * n as u128, 4, 49, 500), (49, 490));
    // Quadratic and factorial-like growth.
    assert_eq!(search_capacity(|n| (n * n) as u128, 1, 100_000, 1_000_000), (1000, 1_000_000));
    let factorial = |n: usize| (1..=n as u128).product::<u128>();
    assert_eq!(search_capacity(factorial, 4, 12, 50_000), (8, 40_320));
    // Everything is feasible: the cap is returned.
    assert_eq!(search_capacity(|_| 1, 10, 500_000, 1_000_000_000), (500_000, 1));
    assert_eq!(search_capacity(|_| 7, 3, 3, 7), (3, 7));
}

#[test]
fn search_boundary_holds_for_every_budget() {
    let cost = |n: usize| (n as u128) * (n as u128) / 3 + 2 * n as u128;
    for timeout in 0..400u128 {
        for &(min_n, max_n) in &[(1usize, 60usize), (1, 7), (5, 5), (2, 1000)] {
            let (size, elapsed) = search_capacity(cost, min_n, max_n, timeout);
            assert_eq!(elapsed, cost(size));
            if cost(min_n) <= timeout {
                assert!(min_n <= size && size <= max_n);
                assert!(cost(size) <= timeout);
                if size < max_n {
                    assert!(cost(size + 1) > timeout);
                }
                // Monotone costs: the largest feasible size of the range.
                for m in min_n..=max_n.min(80) {
                    assert_eq!(cost(m) <= timeout, m <= size);
                }
            } else {
                // Not even the smallest size finishes in time: it is returned all the same.
                assert_eq!(size, min_n);
            }
        }
    }
}

#[test]
fn search_without_a_feasible_minimum_returns_the_minimum() {
    assert_eq!(search_capacity(|_| 2, 4, 12, 1), (4, 2));
    // An empty range: the minimum, run once for its time.
    assert_eq!(search_capacity(|n| n as u128, 9, 3, 100), (9, 9));
}

#[test]
fn growth_doubles_then_grows_by_half_then_steps() {
    // Budget 1000: under 10 doubles, under 100 grows by half, else steps by one.
    let cost = |n: usize| n as u128;
    assert_eq!(
        probes(cost, 1, 10_000, 1000)[..9],
        [1, 2, 4, 8, 16, 24, 36, 54, 81]
    );
    let asked = probes(cost, 1, 10_000, 1000);
    // 81 grows by half to 122, from where the search steps by one up to the first failure.
    assert_eq!(asked[9], 122);
    assert_eq!(asked[10], 123);
    assert_eq!(asked[asked.len() - 2], 1001);
    // The last probe is the verifying run at the settled size.
    assert_eq!(asked[asked.len() - 1], 1000);
    // Growing by half rounds up: 5 -> 8, 7 -> 11.
    assert_eq!(probes(|n| if n < 5 { 0 } else { 50 }, 5, 100, 1000)[..3], [5, 8, 12]);
    assert_eq!(probes(|_| 50, 7, 100, 1000)[..2], [7, 11]);
}

#[test]
fn growth_is_clamped_and_refined_by_bisection() {
    // Doubling 10 -> 20 -> 40 -> 80 -> clamp at 100, which fails; then bisect 80..100.
    let cost = |n: usize| if n <= 93 { 0 } else { u128::MAX };
    assert_eq!(probes(cost, 10, 100, 1000), vec![10, 20, 40, 80, 100, 90, 95, 92, 93, 94, 93]);
    // At the cap the forced step leaves the range and ends the growth.
    assert_eq!(probes(|_| 0, 10, 40, 1000), vec![10, 20, 40, 40]);
    assert_eq!(probes(|_| 0, 3, 4, 1000), vec![3, 4, 4]);
}

#[test]
fn state_machine_steps_are_exact() {
    let max_n = 100;
    let timeout = 1000;
    assert_eq!(Search::start(4, 12), Search::Growing { best: 4, probe: 4 });
    assert_eq!(Search::start(13, 12), Search::Verifying { size: 13 });
    let growing = Search::Growing { best: 10, probe: 20 };
    assert_eq!(growing.probe_size(), Some(20));
    assert_eq!(growing.advance(9, max_n, timeout), Search::Growing { best: 20, probe: 40 });
    assert_eq!(growing.advance(10, max_n, timeout), Search::Growing { best: 20, probe: 30 });
    assert_eq!(growing.advance(99, max_n, timeout), Search::Growing { best: 20, probe: 30 });
    assert_eq!(growing.advance(100, max_n, timeout), Search::Growing { best: 20, probe: 21 });
    assert_eq!(growing.advance(1000, max_n, timeout), Search::Growing { best: 20, probe: 21 });
    assert_eq!(growing.advance(1001, max_n, timeout), Search::Refining { low: 10, high: 20 });
    let close = Search::Growing { best: 10, probe: 11 };
    assert_eq!(close.advance(1001, max_n, timeout), Search::Verifying { size: 10 });
    let at_cap = Search::Growing { best: 60, probe: 100 };
    assert_eq!(at_cap.advance(0, max_n, timeout), Search::Verifying { size: 100 });
    let near_cap = Search::Growing { best: 40, probe: 80 };
    assert_eq!(near_cap.advance(0, max_n, timeout), Search::Growing { best: 80, probe: 100 });
    let refining = Search::Refining { low: 10, high: 20 };
    assert_eq!(refining.probe_size(), Some(15));
    assert_eq!(refining.advance(1000, max_n, timeout), Search::Refining { low: 15, high: 20 });
    assert_eq!(refining.advance(1001, max_n, timeout), Search::Refining { low: 10, high: 15 });
    let last = Search::Refining { low: 10, high: 12 };
    assert_eq!(last.probe_size(), Some(11));
    assert_eq!(last.advance(1, max_n, timeout), Search::Verifying { size: 11 });
    assert_eq!(last.advance(1001, max_n, timeout), Search::Verifying { size: 10 });
    let verifying = Search::Verifying { size: 11 };
    assert_eq!(verifying.probe_size(), Some(11));
    assert_eq!(verifying.advance(77, max_n, timeout), Search::Finished { size: 11, elapsed: 77 });
    let finished = Search::Finished { size: 11, elapsed: 77 };
    assert_eq!(finished.probe_size(), None);
    assert_eq!(finished.advance(5, max_n, timeout), finished);
}

#[test]
fn grid_grows_with_the_square_root_of_the_size() {
    assert_eq!(grid_size_for(0), 40);
    assert_eq!(grid_size_for(10), 40);
    assert_eq!(grid_size_for(400), 40);
    assert_eq!(grid_size_for(440), 40);
    assert_eq!(grid_size_for(441), 42);
    assert_eq!(grid_size_for(10_000), 200);
    assert_eq!(grid_size_for(500_000), 1414);
    assert_eq!(INSTANCE_SEED, 12345);
}

#[test]
fn timing_returns_the_result_of_the_run() {
    let (value, _elapsed) = measure_time(|| (1..=10u64).sum::<u64>());
    assert_eq!(value, 55);
    let (tour, _) = measure_time(|| angular_sort::generate_tour(&instance(50)));
    assert_eq!(tour.len(), 50);
}

#[test]
fn fast_solver_reaches_the_cap() {
    // Ten seconds are plenty for forty points.
    let found = find_max_n(
        "AngularSort",
        |n| instance(n),
        |points: &Vec<Point>, graph: &Vec<Vec<u64>>, _n| {
            assert!(graph.is_empty());
            angular_sort::generate_tour(points)
        },
        10,
        40,
        10_000_000_000,
        false,
    );
    assert_eq!(found.name, "AngularSort");
    assert_eq!(found.max_n, 40);
    assert!(found.error.is_none());
    assert!(found.time_ns <= 10_000_000_000);
}

#[test]
fn solver_that_needs_the_matrix_gets_it() {
    let found = find_max_n(
        "NearestNeighbor",
        |n| instance(n),
        |points: &Vec<Point>, graph: &Vec<Vec<u64>>, n| {
            assert_eq!(points.len(), n);
            assert_eq!(graph.len(), n);
            nearest_neighbor::generate_tour(points.len(), graph, 0)
        },
        10,
        30,
        10_000_000_000,
        true,
    );
    assert_eq!(found.max_n, 30);
}

#[test]
fn no_budget_leaves_the_minimum() {
    let found = find_max_n(
        "NearestNeighbor",
        |n| instance(n),
        |points: &Vec<Point>, graph: &Vec<Vec<u64>>, _n| {
            nearest_neighbor::generate_tour(points.len(), graph, 0)
        },
        25,
        30,
        0,
        true,
    );
    assert_eq!(found.max_n, 25);
    assert!(found.time_ns > 0);
}

#[test]
fn results_are_ranked_by_size_with_ties_in_place() {
    let results = vec![
        result("a", 12),
        result("b", 20),
        result("c", 500_000),
        result("d", 20),
        result("e", 4),
        result("f", 500_000),
    ];
    assert_eq!(rank_results(&results), vec![2, 5, 1, 3, 0, 4]);
    assert_eq!(rank_results(&[]), Vec::<usize>::new());
    assert_eq!(rank_results(&[result("only", 1)]), vec![0]);
    let same = vec![result("x", 7), result("y", 7), result("z", 7)];
    assert_eq!(rank_results(&same), vec![0, 1, 2]);
}
