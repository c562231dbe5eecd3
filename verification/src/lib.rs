//! Exact and heuristic solvers for the travelling-salesman problem over
//! integer distance matrices, with an adaptive search for the largest
//! instance a solver handles within a time budget.
//!
//! Distances are unsigned integers in fixed-point units, so every tour
//! length is an exact sum and the optimality of the exact solvers is a
//! statement about integers.

pub mod angular_sort;
pub mod benchmark;
pub mod bitmask;
pub mod brute_force;
pub mod chains;
pub mod genetic;
pub mod greedy_edge;
pub mod nearest_neighbor;
pub mod random;
pub mod simulated_annealing;
pub mod sonar_visit;
pub mod sorting;
pub mod spanning_tree;
pub mod subset_dp;
pub mod tour;
pub mod two_opt;
pub mod union_find;
pub mod utils;
pub mod zigzag;
