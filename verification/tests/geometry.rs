use std::f64::consts::PI;
use tsp_algorithms::utils::{
    calculate_efficiency, calculate_mst, calculate_tour_length, create_distance_matrix, distance,
    distance_coords, generate_normalized_points, isqrt, Lcg, Point, UNIT,
};

fn pt(x: f64, y: f64, angle: f64, id: usize) -> Point {
    Point {
        x: (x * UNIT as f64).round() as u32,
        y: (y * UNIT as f64).round() as u32,
        angle: ((angle / (2.0 * PI)) * 4294967296.0) as u32,
        id,
    }
}

fn unit_square() -> Vec<Point> {
    vec![
        pt(0.0, 0.0, PI, 0),
        pt(1.0, 0.0, 0.0, 1),
        pt(1.0, 1.0, PI / 4.0, 2),
        pt(0.0, 1.0, PI / 2.0, 3),
    ]
}

fn in_units(length: u128) -> f64 {
    length as f64 / UNIT as f64
}

/// The generator as it reads in floating point, for comparison.
fn float_points(num_points: usize, grid_size: usize, seed: u64) -> Vec<(f64, f64)> {
    let mut state = seed;
    let mut next = move || {
        state = (state.wrapping_mul(1103515245).wrapping_add(12345)) % (1 << 31);
        state as f64 / (1u64 << 31) as f64
    };
    let grid_step = 1.0 / grid_size as f64;
    let mut valid: Vec<(f64, f64)> = Vec::new();
    for gx in 0..grid_size {
        for gy in 0..grid_size {
            let x = (gx as f64 + 0.5) * grid_step;
            let y = (gy as f64 + 0.5) * grid_step;
            let dx = x - 0.5;
            let dy = y - 0.5;
            if (dx * dx + dy * dy).sqrt() <= 0.45 {
                valid.push((x, y));
            }
        }
    }
    let n = valid.len();
    for i in (1..n).rev() {
        let j = (next() * (i + 1) as f64) as usize;
        valid.swap(i, j);
    }
    valid.into_iter().take(num_points).collect()
}

#[test]
fn test_distance() {
    let from = pt(0.0, 0.0, 0.0, 0);
    let to = pt(3.0, 4.0, 0.0, 1);
    assert!((in_units(distance(&from, &to) as u128) - 5.0).abs() < 0.0001);
}

#[test]
fn test_tour_length() {
    let points = unit_square();
    let graph = create_distance_matrix(&points);
    let tour = vec![0, 1, 2, 3];
    let length = calculate_tour_length(&tour, &graph);
    assert!((in_units(length) - 4.0).abs() < 0.0001);
}

#[test]
fn distance_is_the_floor_of_the_root() {
    assert_eq!(distance_coords(0, 0, 3_000_000, 4_000_000), 5_000_000);
    assert_eq!(distance_coords(3_000_000, 4_000_000, 0, 0), 5_000_000);
    assert_eq!(distance_coords(0, 0, 1_000_000, 1_000_000), 1_414_213);
    assert_eq!(distance_coords(7, 7, 7, 7), 0);
    assert_eq!(distance_coords(0, 0, 1, 1), 1);
    assert_eq!(distance_coords(0, 0, 2, 2), 2);
    // The longest distance there is: the diagonal of the whole coordinate range.
    assert_eq!(distance_coords(0, 0, u32::MAX, u32::MAX), 6_074_000_998);
    assert_eq!(distance_coords(u32::MAX, 0, 0, u32::MAX), 6_074_000_998);
}

#[test]
fn integer_square_root_brackets_its_argument() {
    for v in [0u128, 1, 2, 3, 4, 8, 9, 15, 16, 17, 99, 100, 101, 1 << 40, (1 << 40) + 1] {
        let r = isqrt(v) as u128;
        assert!(r * r <= v && v < (r + 1) * (r + 1), "v = {}", v);
    }
    let top: u128 = 0x4_0000_0000_0000_0000 - 1;
    assert_eq!(isqrt(top), 0x2_0000_0000 - 1);
    assert_eq!(isqrt(2_000_000_000_000), 1_414_213);
}

#[test]
fn distance_matrix_is_square_symmetric_with_zero_diagonal() {
    let points = vec![
        pt(0.1, 0.2, 0.0, 0),
        pt(0.9, 0.3, 0.0, 1),
        pt(0.5, 0.5, 0.0, 2),
        pt(0.25, 0.75, 0.0, 3),
        pt(0.9, 0.3, 0.0, 4),
    ];
    let graph = create_distance_matrix(&points);
    assert_eq!(graph.len(), 5);
    for i in 0..5 {
        assert_eq!(graph[i].len(), 5);
        assert_eq!(graph[i][i], 0);
        for j in 0..5 {
            assert_eq!(graph[i][j], graph[j][i]);
            assert_eq!(graph[i][j], distance(&points[i], &points[j]));
        }
    }
    // Two points in one place are at distance zero.
    assert_eq!(graph[1][4], 0);
    assert_eq!(graph[0][1], 806_225);
    assert!(create_distance_matrix(&[]).is_empty());
}

#[test]
fn tour_length_closes_the_cycle() {
    let graph = vec![vec![0, 1, 10], vec![10, 0, 1], vec![1, 10, 0]];
    assert_eq!(calculate_tour_length(&[], &graph), 0);
    assert_eq!(calculate_tour_length(&[1], &graph), 0);
    assert_eq!(calculate_tour_length(&[0, 1], &graph), 11);
    assert_eq!(calculate_tour_length(&[0, 1, 2], &graph), 3);
    assert_eq!(calculate_tour_length(&[0, 2, 1], &graph), 30);
    // Revisits are summed like any other step.
    assert_eq!(calculate_tour_length(&[0, 1, 0, 1], &graph), 22);
    let heavy = vec![vec![u64::MAX, u64::MAX], vec![u64::MAX, u64::MAX]];
    assert_eq!(calculate_tour_length(&[0, 1, 0], &heavy), 3 * (u64::MAX as u128));
}

#[test]
fn spanning_tree_of_the_unit_square_has_three_sides() {
    let graph = create_distance_matrix(&unit_square());
    assert_eq!(calculate_mst(&graph), 3_000_000);
    let empty: Vec<Vec<u64>> = vec![];
    assert_eq!(calculate_mst(&empty), 0);
    assert_eq!(calculate_mst(&[vec![0]]), 0);
    // A star is cheaper than the path 0-1-2-3.
    let star = vec![vec![0, 2, 2, 2], vec![2, 0, 5, 9], vec![2, 5, 0, 5], vec![2, 9, 5, 0]];
    assert_eq!(calculate_mst(&star), 6);
    // Edges of length zero count as edges.
    let twins = vec![vec![0, 0, 4], vec![0, 0, 4], vec![4, 4, 0]];
    assert_eq!(calculate_mst(&twins), 4);
}

#[test]
fn spanning_tree_is_a_lower_bound_on_small_instances() {
    let points = vec![
        pt(0.1, 0.2, 0.0, 0),
        pt(0.9, 0.3, 0.0, 1),
        pt(0.5, 0.5, 0.0, 2),
        pt(0.25, 0.75, 0.0, 3),
        pt(0.7, 0.9, 0.0, 4),
    ];
    let graph = create_distance_matrix(&points);
    let mst = calculate_mst(&graph);
    let (_, optimum) = tsp_algorithms::brute_force::brute_force_exact(&graph, 5);
    assert!(mst <= optimum);
}

#[test]
fn efficiency_is_the_percentage_rounded_down() {
    assert_eq!(calculate_efficiency(0, 10), 0);
    assert_eq!(calculate_efficiency(10, 10), 100);
    assert_eq!(calculate_efficiency(4_000_000, 3_000_000), 75);
    assert_eq!(calculate_efficiency(3, 2), 66);
    assert_eq!(calculate_efficiency(2, 3), 150);
}

#[test]
fn generator_follows_its_recurrence() {
    let mut rng = Lcg::new(12345);
    assert_eq!(rng.next(), 1_406_932_606);
    assert_eq!(rng.next(), 654_583_775);
    assert_eq!(rng.next(), 1_449_466_924);
    let mut one = Lcg::new(1);
    assert_eq!(one.next(), 1_103_527_590);
    // Seeds wrap like 64-bit integers before the state is cut to 31 bits.
    let mut big = Lcg::new(u64::MAX);
    let expected = (u64::MAX.wrapping_mul(1103515245).wrapping_add(12345)) % (1 << 31);
    assert_eq!(big.next() as u64, expected);
    let mut again = Lcg::new(12345);
    for _ in 0..1000 {
        assert!(again.next() < (1 << 31));
    }
}

#[test]
fn instance_positions_are_exact() {
    assert_eq!(
        generate_normalized_points(5, 4, 7),
        vec![(125000, 625000), (375000, 125000), (625000, 875000), (625000, 625000), (375000, 625000)]
    );
    assert_eq!(
        generate_normalized_points(3, 2, 1),
        vec![(250000, 750000), (750000, 750000), (250000, 250000)]
    );
    assert_eq!(generate_normalized_points(3, 1, 1), vec![(500000, 500000)]);
    assert_eq!(generate_normalized_points(3, 0, 1), vec![]);
    assert_eq!(generate_normalized_points(0, 20, 42), vec![]);
    let ten = generate_normalized_points(10, 20, 42);
    assert_eq!(ten[0], (825000, 725000));
    assert_eq!(ten[9], (475000, 725000));
}

#[test]
fn instance_positions_lie_in_the_disc_and_differ() {
    let all = generate_normalized_points(usize::MAX, 20, 42);
    assert_eq!(all.len(), 256);
    for &(x, y) in &all {
        let dx = x as f64 / UNIT as f64 - 0.5;
        let dy = y as f64 / UNIT as f64 - 0.5;
        assert!((dx * dx + dy * dy).sqrt() <= 0.45 + 1e-6);
    }
    let mut sorted = all.clone();
    sorted.sort();
    sorted.dedup();
    assert_eq!(sorted.len(), all.len());
    // The same call gives the same instance; a prefix of it for fewer points.
    assert_eq!(generate_normalized_points(usize::MAX, 20, 42), all);
    assert_eq!(generate_normalized_points(17, 20, 42), &all[..17]);
}

#[test]
fn instance_positions_agree_with_the_floating_point_reading() {
    for &(num, grid, seed) in
        &[(10usize, 20usize, 42u64), (50, 40, 12345), (300, 40, 12345), (1000, 63, 12345), (7, 3, 9)]
    {
        let ours = generate_normalized_points(num, grid, seed);
        let theirs = float_points(num, grid, seed);
        assert_eq!(ours.len(), theirs.len());
        for (a, b) in ours.iter().zip(theirs.iter()) {
            assert!((a.0 as f64 / UNIT as f64 - b.0).abs() < 2e-6);
            assert!((a.1 as f64 / UNIT as f64 - b.1).abs() < 2e-6);
        }
    }
}

/// The weight of the lightest spanning tree, by trying every choice of parents.
fn lightest_tree(graph: &[Vec<u64>]) -> u128 {
    let n = graph.len();
    if n <= 1 {
        return 0;
    }
    let mut best = u128::MAX;
    let mut par = vec![0usize; n];
    loop {
        // A choice of parents is a tree if every city reaches city 0.
        let mut is_tree = true;
        for v in 1..n {
            let mut at = v;
            let mut steps = 0;
            while at != 0 && steps <= n {
                at = par[at];
                steps += 1;
            }
            if at != 0 {
                is_tree = false;
            }
        }
        if is_tree {
            let weight: u128 = (1..n).map(|v| graph[par[v]][v] as u128).sum();
            best = best.min(weight);
        }
        // The next choice of parents for the cities 1 to n - 1.
        let mut v = 1;
        while v < n {
            par[v] += 1;
            if par[v] < n {
                break;
            }
            par[v] = 0;
            v += 1;
        }
        if v == n {
            return best;
        }
    }
}

#[test]
fn spanning_tree_weight_is_the_least_of_all_trees() {
    let mut state = 11u64;
    for n in 0..6usize {
        for _ in 0..6 {
            let mut g = vec![vec![0u64; n]; n];
            for i in 0..n {
                for j in (i + 1)..n {
                    state = state.wrapping_mul(6364136223846793005).wrapping_add(1442695040888963407);
                    let w = (state >> 33) % 9;
                    g[i][j] = w;
                    g[j][i] = w;
                }
            }
            assert_eq!(calculate_mst(&g), lightest_tree(&g));
        }
    }
}
