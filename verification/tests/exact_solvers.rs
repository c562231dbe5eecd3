use std::f64::consts::PI;
use tsp_algorithms::brute_force::{
    brute_force_exact, find_optimal, generate_subsets, get_max_feasible_n, held_karp,
};
use tsp_algorithms::tour::{is_distance_matrix_of_cities, is_square_matrix, is_valid_tour};
use tsp_algorithms::utils::{calculate_tour_length, create_distance_matrix, Point, UNIT};

fn pt(x: f64, y: f64, angle: f64, id: usize) -> Point {
    Point {
        x: (x * UNIT as f64).round() as u32,
        y: (y * UNIT as f64).round() as u32,
        angle: ((angle / (2.0 * PI)) * 4294967296.0) as u32,
        id,
    }
}

fn unit_square() -> Vec<Point> {
    vec![
        pt(0.0, 0.0, PI, 0),
        pt(1.0, 0.0, 0.0, 1),
        pt(1.0, 1.0, PI / 4.0, 2),
        pt(0.0, 1.0, PI / 2.0, 3),
    ]
}

fn in_units(length: u128) -> f64 {
    length as f64 / UNIT as f64
}

fn is_permutation(tour: &[usize], n: usize) -> bool {
    let mut seen = vec![false; n];
    for &c in tour {
        if c >= n || seen[c] {
            return false;
        }
        seen[c] = true;
    }
    tour.len() == n
}

/// A small deterministic matrix: symmetric, zero diagonal, irregular weights.
fn scrambled_matrix(n: usize, salt: u64) -> Vec<Vec<u64>> {
    let mut g = vec![vec![0u64; n]; n];
    let mut state = salt.wrapping_mul(6364136223846793005).wrapping_add(1442695040888963407);
    for i in 0..n {
        for j in (i + 1)..n {
            state = state.wrapping_mul(6364136223846793005).wrapping_add(1442695040888963407);
            let w = (state >> 33) % 1000 + 1;
            g[i][j] = w;
            g[j][i] = w;
        }
    }
    g
}

#[test]
fn test_brute_force_finds_optimal() {
    let points = unit_square();
    let graph = create_distance_matrix(&points);
    let (tour, length) = brute_force_exact(&graph, 4);

    // Square perimeter should be 4
    assert!((in_units(length) - 4.0).abs() < 0.0001);
    assert_eq!(tour.len(), 4);
}

#[test]
fn test_held_karp_finds_optimal() {
    let points = unit_square();
    let graph = create_distance_matrix(&points);
    let (tour, length) = held_karp(&graph, 4);

    // Square perimeter should be 4
    assert!((in_units(length) - 4.0).abs() < 0.0001);
    assert_eq!(tour.len(), 4);
}

#[test]
fn unit_square_optimum_is_exactly_four_units() {
    let graph = create_distance_matrix(&unit_square());
    let (bf_tour, bf_len) = brute_force_exact(&graph, 4);
    let (hk_tour, hk_len) = held_karp(&graph, 4);
    assert_eq!(bf_len, 4_000_000);
    assert_eq!(hk_len, 4_000_000);
    assert_eq!(bf_tour, vec![0, 1, 2, 3]);
    assert!(is_permutation(&hk_tour, 4));
    assert_eq!(calculate_tour_length(&hk_tour, &graph), 4_000_000);
}

#[test]
fn exact_solvers_agree_up_to_nine_cities() {
    for n in 0..=9usize {
        for salt in 0..4u64 {
            let graph = scrambled_matrix(n, salt + 10 * n as u64);
            let (bf_tour, bf_len) = brute_force_exact(&graph, n);
            let (hk_tour, hk_len) = held_karp(&graph, n);
            assert_eq!(bf_len, hk_len, "n = {}, salt = {}", n, salt);
            assert!(is_permutation(&bf_tour, n));
            assert!(is_permutation(&hk_tour, n));
            assert_eq!(calculate_tour_length(&bf_tour, &graph), bf_len);
            assert_eq!(calculate_tour_length(&hk_tour, &graph), hk_len);
            if n >= 1 {
                assert_eq!(bf_tour[0], 0);
                assert_eq!(hk_tour[0], 0);
            }
        }
    }
}

#[test]
fn held_karp_on_asymmetric_matrix_reports_the_backward_reading() {
    // 0 -> 1 -> 2 -> 0 costs 3, the other direction costs 30.
    let graph = vec![vec![0, 1, 10], vec![10, 0, 1], vec![1, 10, 0]];
    let (tour, length) = held_karp(&graph, 3);
    assert_eq!(length, 3);
    assert_eq!(tour, vec![0, 2, 1]);
    let mut backwards = tour.clone();
    backwards.reverse();
    assert_eq!(calculate_tour_length(&backwards, &graph), 3);
    let (bf_tour, bf_len) = brute_force_exact(&graph, 3);
    assert_eq!(bf_len, 3);
    assert_eq!(bf_tour, vec![0, 1, 2]);
}

#[test]
fn brute_force_keeps_first_found_on_ties() {
    // All edges equal: every tour has the same length, the identity stays.
    let graph = vec![vec![0, 5, 5, 5], vec![5, 0, 5, 5], vec![5, 5, 0, 5], vec![5, 5, 5, 0]];
    let (tour, length) = brute_force_exact(&graph, 4);
    assert_eq!(tour, vec![0, 1, 2, 3]);
    assert_eq!(length, 20);
}

#[test]
fn exact_solvers_handle_trivial_sizes() {
    let empty: Vec<Vec<u64>> = vec![];
    assert_eq!(brute_force_exact(&empty, 0), (vec![], 0));
    assert_eq!(held_karp(&empty, 0), (vec![], 0));
    let one = vec![vec![0u64]];
    assert_eq!(brute_force_exact(&one, 1), (vec![0], 0));
    assert_eq!(held_karp(&one, 1), (vec![0], 0));
    let two = vec![vec![0u64, 7], vec![7, 0]];
    assert_eq!(brute_force_exact(&two, 2), (vec![0, 1], 14));
    assert_eq!(held_karp(&two, 2), (vec![0, 1], 14));
}

#[test]
fn dispatcher_refuses_twenty_one_cities() {
    let graph = scrambled_matrix(21, 3);
    assert!(find_optimal(&graph, 21).is_none());
    // Beyond the limit the matrix is not even read.
    let empty: Vec<Vec<u64>> = vec![];
    assert!(find_optimal(&empty, 1000).is_none());
}

#[test]
fn dispatcher_uses_both_solvers_within_range() {
    let small = scrambled_matrix(6, 1);
    let (tour, length) = find_optimal(&small, 6).unwrap();
    assert_eq!((tour, length), brute_force_exact(&small, 6));
    let medium = scrambled_matrix(11, 2);
    let (tour, length) = find_optimal(&medium, 11).unwrap();
    assert!(is_permutation(&tour, 11));
    assert_eq!(calculate_tour_length(&tour, &medium), length);
    assert_eq!((tour, length), held_karp(&medium, 11));
    assert_eq!(get_max_feasible_n(), 20);
}

#[test]
fn held_karp_beats_or_matches_every_sampled_tour_at_twelve() {
    let n = 12;
    let graph = scrambled_matrix(n, 77);
    let (tour, length) = held_karp(&graph, n);
    assert!(is_permutation(&tour, n));
    assert_eq!(calculate_tour_length(&tour, &graph), length);
    let mut candidate: Vec<usize> = (0..n).collect();
    let mut state = 99u64;
    for _ in 0..2000 {
        state = state.wrapping_mul(6364136223846793005).wrapping_add(1442695040888963407);
        let i = 1 + ((state >> 33) as usize) % (n - 1);
        state = state.wrapping_mul(6364136223846793005).wrapping_add(1442695040888963407);
        let j = 1 + ((state >> 33) as usize) % (n - 1);
        candidate.swap(i, j);
        assert!(length <= calculate_tour_length(&candidate, &graph));
    }
}

#[test]
fn subsets_of_each_size_are_complete_and_distinct() {
    // Cities 1..5: C(4, k) subsets of size k, none containing city 0.
    let expected = [1usize, 4, 6, 4, 1, 0];
    for size in 0..=5usize {
        let subsets = generate_subsets(5, size);
        assert_eq!(subsets.len(), expected[size]);
        for &mask in &subsets {
            assert_eq!(mask & 1, 0);
            assert!(mask < 32);
            assert_eq!(mask.count_ones() as usize, size);
        }
        let mut sorted = subsets.clone();
        sorted.sort();
        sorted.dedup();
        assert_eq!(sorted.len(), subsets.len());
    }
    assert_eq!(generate_subsets(4, 2), vec![0b0110, 0b1010, 0b1100]);
    assert_eq!(generate_subsets(0, 0), vec![0]);
    assert_eq!(generate_subsets(1, 1), Vec::<usize>::new());
}

#[test]
fn held_karp_returns_the_first_shortest_tour_of_the_dictionary() {
    // All edges equal: every tour is shortest, the lowest cities come first.
    let flat = vec![vec![0, 5, 5, 5], vec![5, 0, 5, 5], vec![5, 5, 0, 5], vec![5, 5, 5, 0]];
    assert_eq!(held_karp(&flat, 4), (vec![0, 1, 2, 3], 20));
    // The square has two shortest tours from corner 0: around by 1 or around by 3.
    let ring = vec![vec![0, 1, 2, 1], vec![1, 0, 1, 2], vec![2, 1, 0, 1], vec![1, 2, 1, 0]];
    assert_eq!(held_karp(&ring, 4), (vec![0, 1, 2, 3], 4));
    assert_eq!(brute_force_exact(&ring, 4), (vec![0, 1, 2, 3], 4));
    // Among all tours of the returned length none comes earlier.
    let graph = scrambled_matrix(7, 5);
    let (tour, length) = held_karp(&graph, 7);
    let mut candidate: Vec<usize> = (0..7).collect();
    let mut stack = vec![0usize; 7];
    let mut i = 1;
    loop {
        if calculate_tour_length(&candidate, &graph) == length {
            assert!(tour <= candidate);
        }
        // The next permutation of the cities after city 0, by Heap's method.
        while i < 7 && stack[i] >= i - 1 {
            stack[i] = 0;
            i += 1;
        }
        if i >= 7 {
            break;
        }
        let j = if (i - 1) % 2 == 0 { 1 } else { 1 + stack[i] };
        candidate.swap(j, i);
        stack[i] += 1;
        i = 1;
    }
}

#[test]
fn brute_force_keeps_the_first_of_the_shortest_it_tries() {
    // The search tries 0 1 2 3 first, then 0 1 3 2, 0 2 1 3, 0 2 3 1, 0 3 2 1, 0 3 1 2.
    // Here 0 1 3 2 and its mirror 0 2 3 1 are shortest.
    let graph = vec![vec![0, 1, 1, 9], vec![1, 0, 9, 1], vec![1, 9, 0, 1], vec![9, 1, 1, 0]];
    assert_eq!(brute_force_exact(&graph, 4), (vec![0, 1, 3, 2], 4));
    assert_eq!(held_karp(&graph, 4), (vec![0, 1, 3, 2], 4));
    // Here 0 2 1 3 and its mirror 0 3 1 2 are shortest.
    let other = vec![vec![0, 9, 1, 1], vec![9, 0, 1, 1], vec![1, 1, 0, 9], vec![1, 1, 9, 0]];
    assert_eq!(brute_force_exact(&other, 4), (vec![0, 2, 1, 3], 4));
}

#[test]
fn matrices_and_tours_can_be_checked() {
    let graph = create_distance_matrix(&unit_square());
    assert!(is_square_matrix(&graph));
    assert!(is_distance_matrix_of_cities(&graph));
    assert!(is_square_matrix(&[]));
    assert!(is_distance_matrix_of_cities(&[]));
    assert!(!is_square_matrix(&[vec![0, 1], vec![1]]));
    assert!(!is_distance_matrix_of_cities(&[vec![0, 1], vec![1]]));
    assert!(!is_distance_matrix_of_cities(&[vec![0, 1], vec![2, 0]]));
    assert!(!is_distance_matrix_of_cities(&[vec![0, 1], vec![1, 3]]));
    assert!(is_valid_tour(&[], 0));
    assert!(is_valid_tour(&[2, 0, 1], 3));
    assert!(!is_valid_tour(&[2, 0, 2], 3));
    assert!(!is_valid_tour(&[0, 1, 3], 3));
    assert!(!is_valid_tour(&[0, 1], 3));
    assert!(!is_valid_tour(&[0, 1, 2, 0], 3));
    for n in 0..8usize {
        let graph = scrambled_matrix(n, 1);
        assert!(is_distance_matrix_of_cities(&graph));
        assert!(is_valid_tour(&brute_force_exact(&graph, n).0, n));
        assert!(is_valid_tour(&held_karp(&graph, n).0, n));
    }
}
