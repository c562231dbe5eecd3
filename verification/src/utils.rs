//! Geometry: points on an integer grid, distances, distance matrices and
//! the length of a tour.
//!
//! Coordinates are fixed-point numbers with [`UNIT`] steps to the unit
//! length. Angles are fractions of a full turn in steps of 2^-32, so every
//! `u32` is an angle and the whole range covers one turn.

use vstd::prelude::*;
use crate::spanning_tree::{
    edge_weights, is_minimum_spanning_weight, is_ranked, is_spanning_tree, lemma_prim_is_minimal,
    tree_weight,
};
use crate::tour::{
    all_below, dist, is_distance_matrix, is_square, is_symmetric, is_tour, no_repeats, path_length,
    tour_length,
};

verus! {

/// The number of coordinate steps in one unit of length.
pub const UNIT: u32 = 1_000_000;

/// A city: its position, its polar angle about the centre of the sampling
/// region, and the identity under which tours name it.
#[derive(Clone, Copy, Debug, PartialEq, Eq)]
pub struct Point {
    pub x: u32,
    pub y: u32,
    pub angle: u32,
    pub id: usize,
}

/// `r` is the largest number whose square is at most `v`.
pub open spec fn is_floor_sqrt(r: int, v: int) -> bool {
    0 <= r && r * r <= v < (r + 1) * (r + 1)
}

/// The largest `r` with `r * r <= v`.
pub open spec fn floor_sqrt(v: int) -> int {
    choose|r: int| is_floor_sqrt(r, v)
}

/// The squared Euclidean distance between two positions.
pub open spec fn squared_distance(x1: u32, y1: u32, x2: u32, y2: u32) -> int {
    (x2 - x1) * (x2 - x1) + (y2 - y1) * (y2 - y1)
}

/// The Euclidean distance between two positions, rounded down.
pub open spec fn euclidean(x1: u32, y1: u32, x2: u32, y2: u32) -> int {
    floor_sqrt(squared_distance(x1, y1, x2, y2))
}

/// A number has at most one floor square root.
pub proof fn lemma_floor_sqrt_unique(a: int, b: int, v: int)
    requires
        is_floor_sqrt(a, v),
        is_floor_sqrt(b, v),
    ensures
        a == b,
{
    if a < b {
        assert((a + 1) * (a + 1) <= b * b) by (nonlinear_arith)
            requires
                0 <= a + 1 <= b,
        ;
    }
    if b < a {
        assert((b + 1) * (b + 1) <= a * a) by (nonlinear_arith)
            requires
                0 <= b + 1 <= a,
        ;
    }
}

/// Whoever brackets `v` between two consecutive squares has its floor square root.
pub proof fn lemma_floor_sqrt_is(r: int, v: int)
    requires
        is_floor_sqrt(r, v),
    ensures
        floor_sqrt(v) == r,
{
    let c = floor_sqrt(v);
    lemma_floor_sqrt_unique(c, r, v);
}

/// The floor square root of a number that is not negative exists.
pub proof fn lemma_floor_sqrt_bounds(v: int)
    requires
        0 <= v,
    ensures
        is_floor_sqrt(floor_sqrt(v), v),
    decreases v,
{
    if v == 0 {
        assert(is_floor_sqrt(0, 0));
    } else {
        lemma_floor_sqrt_bounds(v - 1);
        let r = floor_sqrt(v - 1);
        if (r + 1) * (r + 1) <= v {
            assert((r + 1) * (r + 1) == v);
            assert((r + 2) * (r + 2) > v) by (nonlinear_arith)
                requires
                    (r + 1) * (r + 1) == v,
                    r >= 0,
            ;
            assert(is_floor_sqrt(r + 1, v));
        } else {
            assert(is_floor_sqrt(r, v));
        }
    }
}

/// Computes the floor square root by bisection.
pub fn isqrt(v: u128) -> (r: u64)
    requires
        v < 0x4_0000_0000_0000_0000,
    ensures
        r == floor_sqrt(v as int),
        r < 0x2_0000_0000,
{
    let mut lo: u128 = 0;
    let mut hi: u128 = 0x2_0000_0000;
    assert(0x2_0000_0000int * 0x2_0000_0000int == 0x4_0000_0000_0000_0000int);
    while hi - lo > 1
        invariant
            lo < hi <= 0x2_0000_0000,
            lo * lo <= v < hi * hi,
        decreases hi - lo,
    {
        let mid = lo + (hi - lo) / 2;
        assert(mid * mid < 0x4_0000_0000_0000_0000) by (nonlinear_arith)
            requires
                0 <= mid < 0x2_0000_0000,
        ;
        if mid * mid <= v {
            lo = mid;
        } else {
            hi = mid;
        }
    }
    proof {
        lemma_floor_sqrt_is(lo as int, v as int);
    }
    lo as u64
}

/// The Euclidean distance between two positions, rounded down.
pub fn distance_coords(x1: u32, y1: u32, x2: u32, y2: u32) -> (d: u64)
    ensures
        d == euclidean(x1, y1, x2, y2),
{
    let dx: u128 = if x2 >= x1 { (x2 - x1) as u128 } else { (x1 - x2) as u128 };
    let dy: u128 = if y2 >= y1 { (y2 - y1) as u128 } else { (y1 - y2) as u128 };
    assert(dx * dx <= 0xffff_ffff * 0xffff_ffff) by (nonlinear_arith)
        requires
            0 <= dx <= 0xffff_ffff,
    ;
    assert(dy * dy <= 0xffff_ffff * 0xffff_ffff) by (nonlinear_arith)
        requires
            0 <= dy <= 0xffff_ffff,
    ;
    assert(dx * dx == (x2 - x1) * (x2 - x1)) by (nonlinear_arith)
        requires
            dx == x2 - x1 || dx == x1 - x2,
    ;
    assert(dy * dy == (y2 - y1) * (y2 - y1)) by (nonlinear_arith)
        requires
            dy == y2 - y1 || dy == y1 - y2,
    ;
    isqrt(dx * dx + dy * dy)
}

/// The Euclidean distance between two points, rounded down.
pub fn distance(start: &Point, end: &Point) -> (d: u64)
    ensures
        d == euclidean(start.x, start.y, end.x, end.y),
{
    distance_coords(start.x, start.y, end.x, end.y)
}

/// The distance is the same in both directions, and zero from a position to itself.
pub proof fn lemma_euclidean_symmetric(x1: u32, y1: u32, x2: u32, y2: u32)
    ensures
        euclidean(x1, y1, x2, y2) == euclidean(x2, y2, x1, y1),
        euclidean(x1, y1, x1, y1) == 0,
{
    assert(squared_distance(x1, y1, x2, y2) == squared_distance(x2, y2, x1, y1)) by (nonlinear_arith);
    assert(squared_distance(x1, y1, x1, y1) == 0);
    lemma_floor_sqrt_is(0, 0);
}

/// `graph` holds the rounded-down Euclidean distance of every pair of `points`.
pub open spec fn is_matrix_of(graph: Seq<Vec<u64>>, points: Seq<Point>) -> bool {
    &&& graph.len() == points.len()
    &&& is_square(graph)
    &&& forall|i: int, j: int|
        0 <= i < points.len() && 0 <= j < points.len() ==> #[trigger] dist(graph, i, j) == euclidean(
            points[i].x,
            points[i].y,
            points[j].x,
            points[j].y,
        )
}

/// A matrix of Euclidean distances is symmetric and zero on its diagonal.
pub proof fn lemma_matrix_of_is_distance_matrix(graph: Seq<Vec<u64>>, points: Seq<Point>)
    requires
        is_matrix_of(graph, points),
    ensures
        is_distance_matrix(graph),
{
    assert forall|i: int, j: int| 0 <= i < graph.len() && 0 <= j < graph.len() implies #[trigger] dist(
        graph,
        i,
        j,
    ) == dist(graph, j, i) by {
        lemma_euclidean_symmetric(points[i].x, points[i].y, points[j].x, points[j].y);
    }
    assert forall|i: int| 0 <= i < graph.len() implies #[trigger] dist(graph, i, i) == 0 by {
        lemma_euclidean_symmetric(points[i].x, points[i].y, points[i].x, points[i].y);
    }
}

/// Builds the matrix of pairwise distances of `points`.
pub fn create_distance_matrix(points: &[Point]) -> (graph: Vec<Vec<u64>>)
    ensures
        is_matrix_of(graph@, points@),
        is_distance_matrix(graph@),
{
    let n = points.len();
    let mut graph: Vec<Vec<u64>> = Vec::new();
    let mut i: usize = 0;
    while i < n
        invariant
            i <= n,
            n == points@.len(),
            graph@.len() == i,
            forall|a: int| 0 <= a < i ==> (#[trigger] graph@[a]).len() == n,
            forall|a: int, b: int|
                0 <= a < i && 0 <= b < n ==> #[trigger] dist(graph@, a, b) == euclidean(
                    points@[a].x,
                    points@[a].y,
                    points@[b].x,
                    points@[b].y,
                ),
        decreases n - i,
    {
        let mut row: Vec<u64> = Vec::new();
        let mut j: usize = 0;
        while j < n
            invariant
                i < n,
                j <= n,
                n == points@.len(),
                row@.len() == j,
                forall|b: int|
                    0 <= b < j ==> (#[trigger] row@[b]) == euclidean(
                        points@[i as int].x,
                        points@[i as int].y,
                        points@[b].x,
                        points@[b].y,
                    ),
            decreases n - j,
        {
            row.push(distance(&points[i], &points[j]));
            j = j + 1;
        }
        let ghost before = graph@;
        graph.push(row);
        proof {
            assert forall|a: int, b: int| 0 <= a < i + 1 && 0 <= b < n implies #[trigger] dist(
                graph@,
                a,
                b,
            ) == euclidean(points@[a].x, points@[a].y, points@[b].x, points@[b].y) by {
                if a < i {
                    assert(graph@[a] == before[a]);
                    assert(dist(before, a, b) == dist(graph@, a, b));
                }
            }
        }
        i = i + 1;
    }
    proof {
        lemma_matrix_of_is_distance_matrix(graph@, points@);
    }
    graph
}

/// Computes the length of the closed tour `tour` under `graph`.
pub fn calculate_tour_length(tour: &[usize], graph: &[Vec<u64>]) -> (total: u128)
    requires
        is_square(graph@),
        all_below(tour@, graph@.len() as int),
    ensures
        total == tour_length(tour@, graph@),
{
    let n = tour.len();
    if n == 0 {
        return 0;
    }
    let mut total: u128 = 0;
    let mut i: usize = 1;
    assert(tour@.take(1).len() == 1);
    while i < n
        invariant
            1 <= i <= n,
            n == tour@.len(),
            is_square(graph@),
            all_below(tour@, graph@.len() as int),
            total == path_length(tour@.take(i as int), graph@),
            total <= (i - 1) * u64::MAX,
        decreases n - i,
    {
        let d = graph[tour[i - 1]][tour[i]];
        proof {
            let p = tour@.take(i + 1);
            assert(p.drop_last() =~= tour@.take(i as int));
            assert(p[p.len() - 2] == tour@[i - 1]);
            assert(p[p.len() - 1] == tour@[i as int]);
        }
        total = total + d as u128;
        i = i + 1;
    }
    assert(tour@.take(n as int) =~= tour@);
    total + graph[tour[n - 1]][tour[0]] as u128
}

/// The quality of a solution against the optimum, in percent rounded down;
/// zero for a solution of length zero.
pub fn calculate_efficiency(solution_length: u128, optimal_length: u128) -> (percent: u128)
    requires
        optimal_length * 100 <= u128::MAX,
    ensures
        solution_length == 0 ==> percent == 0,
        solution_length > 0 ==> percent == (optimal_length * 100) / (solution_length as int),
{
    if solution_length == 0 {
        return 0;
    }
    optimal_length * 100 / solution_length
}

/// A linear congruential generator with a 31-bit state, for reproducible instances.
pub struct Lcg {
    seed: u64,
}

/// The state that follows `seed`.
#[verifier::opaque]
pub open spec fn lcg_step(seed: u64) -> u64 {
    (((seed * 1103515245 + 12345) % 0x1_0000_0000_0000_0000) % 0x8000_0000) as u64
}

impl Lcg {
    /// The current state.
    pub closed spec fn state(&self) -> u64 {
        self.seed
    }

    /// A generator that starts from `seed`.
    pub fn new(seed: u64) -> (g: Lcg)
        ensures
            g.state() == seed,
    {
        Lcg { seed }
    }

    /// Advances the generator and returns the new state, a number below
    /// 2^31 that stands for the fraction `value / 2^31` of the unit interval.
    pub fn next(&mut self) -> (value: u32)
        ensures
            final(self).state() == lcg_step(old(self).state()),
            value == final(self).state(),
            value < 0x8000_0000,
    {
        let product = self.seed.wrapping_mul(1103515245).wrapping_add(12345);
        self.seed = product % 0x8000_0000;
        proof {
            reveal(lcg_step);
            let s = old(self).seed as int;
            let m = 0x1_0000_0000_0000_0000int;
            let a = (s * 1103515245) % m;
            assert(product == (a + 12345) % m);
            assert((a + 12345) % m == (s * 1103515245 + 12345) % m) by {
                vstd::arithmetic::div_mod::lemma_add_mod_noop(s * 1103515245, 12345, m);
                vstd::arithmetic::div_mod::lemma_add_mod_noop(a, 12345, m);
                vstd::arithmetic::div_mod::lemma_mod_twice(s * 1103515245, m);
            }
        }
        self.seed as u32
    }
}

/// The centre of cell `g` of a row of `grid_size` cells across the unit
/// length, as a coordinate, rounded down.
pub open spec fn cell_centre(g: int, grid_size: int) -> int {
    ((2 * g + 1) * UNIT) / (2 * grid_size)
}

/// The centre of the cell `(gx, gy)` lies within 0.45 of the centre of the
/// unit square. In whole numbers: with `a = 2 * gx + 1 - grid_size` and `b`
/// likewise, `100 * (a * a + b * b) <= 81 * grid_size * grid_size`.
pub open spec fn cell_in_disc(gx: int, gy: int, grid_size: int) -> bool {
    let a = 2 * gx + 1 - grid_size;
    let b = 2 * gy + 1 - grid_size;
    100 * (a * a + b * b) <= 81 * (grid_size * grid_size)
}

/// The centres of the cells within the disc among the first `count` cells
/// of the grid, the cells counted column by column.
pub open spec fn disc_cells(grid_size: int, count: int) -> Seq<(u32, u32)>
    decreases count,
{
    if count <= 0 || grid_size <= 0 {
        Seq::empty()
    } else {
        let gx = (count - 1) / grid_size;
        let gy = (count - 1) % grid_size;
        let before = disc_cells(grid_size, count - 1);
        if cell_in_disc(gx, gy, grid_size) {
            before.push((cell_centre(gx, grid_size) as u32, cell_centre(gy, grid_size) as u32))
        } else {
            before
        }
    }
}

/// The position with which position `i` is exchanged when the generator
/// gave `value`: the fraction `value / 2^31` of the `i + 1` positions.
#[verifier::opaque]
pub open spec fn shuffle_target(value: u64, i: int) -> int {
    (value * (i + 1)) / 0x8000_0000
}

/// The sequence after the exchanges of a Fisher-Yates shuffle for the
/// positions from `i` down to 1, driven by the generator in state `seed`.
pub open spec fn shuffled(items: Seq<(u32, u32)>, seed: u64, i: int) -> Seq<(u32, u32)>
    decreases i,
{
    if i < 1 {
        items
    } else {
        let value = lcg_step(seed);
        let j = shuffle_target(value, i);
        shuffled(items.update(i, items[j]).update(j, items[i]), value, i - 1)
    }
}

/// The positions of a random instance: the first `num_points` of the
/// shuffled cell centres within the disc, or all of them if there are fewer.
pub open spec fn normalized_points(num_points: int, grid_size: int, seed: u64) -> Seq<(u32, u32)> {
    let cells = disc_cells(grid_size, grid_size * grid_size);
    let mixed = shuffled(cells, seed, cells.len() - 1);
    if num_points < mixed.len() {
        mixed.take(num_points)
    } else {
        mixed
    }
}

/// Whether the centre of the cell `(gx, gy)` lies within the disc.
fn in_disc(gx: usize, gy: usize, grid_size: usize) -> (inside: bool)
    requires
        gx < grid_size <= u32::MAX,
        gy < grid_size,
    ensures
        inside == cell_in_disc(gx as int, gy as int, grid_size as int),
{
    let g = grid_size as u128;
    let ax = 2 * gx as u128 + 1;
    let ay = 2 * gy as u128 + 1;
    let a: u128 = if ax >= g { ax - g } else { g - ax };
    let b: u128 = if ay >= g { ay - g } else { g - ay };
    proof {
        let ia = 2 * gx + 1 - grid_size;
        let ib = 2 * gy + 1 - grid_size;
        assert(a * a == ia * ia) by (nonlinear_arith)
            requires
                a == ia || a == -ia,
        ;
        assert(b * b == ib * ib) by (nonlinear_arith)
            requires
                b == ib || b == -ib,
        ;
        assert(a * a <= 0x1_0000_0000 * 0x1_0000_0000) by (nonlinear_arith)
            requires
                0 <= a <= 0x1_0000_0000,
        ;
        assert(b * b <= 0x1_0000_0000 * 0x1_0000_0000) by (nonlinear_arith)
            requires
                0 <= b <= 0x1_0000_0000,
        ;
        assert(g * g <= 0x1_0000_0000 * 0x1_0000_0000) by (nonlinear_arith)
            requires
                0 <= g <= 0x1_0000_0000,
        ;
    }
    100 * (a * a + b * b) <= 81 * (g * g)
}

/// The centre of cell `g` of a row of `grid_size` cells, as a coordinate.
fn centre_of(g: usize, grid_size: usize) -> (c: u32)
    requires
        g < grid_size <= u32::MAX,
    ensures
        c == cell_centre(g as int, grid_size as int),
{
    let numerator = (2 * g as u128 + 1) * UNIT as u128;
    let denominator = 2 * grid_size as u128;
    proof {
        let n = numerator as int;
        let d = denominator as int;
        assert(n < d * UNIT) by (nonlinear_arith)
            requires
                n == (2 * g + 1) * UNIT,
                d == 2 * grid_size,
                g < grid_size,
                UNIT > 0,
        ;
        vstd::arithmetic::div_mod::lemma_div_is_ordered(n, d * UNIT - 1, d);
        assert((d * UNIT - 1) / d < UNIT) by (nonlinear_arith)
            requires
                d > 0,
                UNIT > 0,
        ;
        vstd::arithmetic::div_mod::lemma_div_pos_is_pos(n, d);
    }
    (numerator / denominator) as u32
}

/// The position with which position `i` is exchanged when the generator
/// gave `value`.
fn shuffle_index(value: u32, i: usize) -> (j: usize)
    requires
        value < 0x8000_0000,
    ensures
        j == shuffle_target(value as u64, i as int),
        j <= i,
{
    proof {
        reveal(shuffle_target);
        let v = value as int;
        let steps = i + 1;
        assert(0 <= v * steps < 0x8000_0000 * steps) by (nonlinear_arith)
            requires
                0 <= v < 0x8000_0000,
                steps > 0,
        ;
        vstd::arithmetic::div_mod::lemma_div_is_ordered(
            v * steps,
            0x8000_0000 * steps - 1,
            0x8000_0000,
        );
        assert((0x8000_0000 * steps - 1) / 0x8000_0000 < steps) by (nonlinear_arith)
            requires
                steps > 0,
        ;
        vstd::arithmetic::div_mod::lemma_div_pos_is_pos(v * steps, 0x8000_0000);
        assert(0x8000_0000 * steps <= 0x8000_0000 * 0x1_0000_0000_0000_0000) by (nonlinear_arith)
            requires
                steps <= 0x1_0000_0000_0000_0000,
        ;
    }
    ((value as u128 * (i as u128 + 1)) / 0x8000_0000) as usize
}

/// Generates the positions of a random instance on a grid of `grid_size`
/// by `grid_size` cells over the unit square: the centres of the cells
/// that lie within 0.45 of the centre of the square are shuffled by the
/// generator seeded with `seed`, and the first `num_points` are returned,
/// or all if there are fewer.
pub fn generate_normalized_points(num_points: usize, grid_size: usize, seed: u64) -> (positions:
    Vec<(u32, u32)>)
    requires
        grid_size <= u32::MAX,
    ensures
        positions@ == normalized_points(num_points as int, grid_size as int, seed),
        positions@.len() <= num_points,
{
    let mut rng = Lcg::new(seed);
    let mut valid_positions: Vec<(u32, u32)> = Vec::new();
    let mut gx: usize = 0;
    while gx < grid_size
        invariant
            gx <= grid_size <= u32::MAX,
            valid_positions@ == disc_cells(grid_size as int, gx * grid_size),
        decreases grid_size - gx,
    {
        let mut gy: usize = 0;
        while gy < grid_size
            invariant
                gx < grid_size <= u32::MAX,
                gy <= grid_size,
                valid_positions@ == disc_cells(grid_size as int, gx * grid_size + gy),
            decreases grid_size - gy,
        {
            proof {
                let count = gx * grid_size + gy + 1;
                vstd::arithmetic::div_mod::lemma_fundamental_div_mod_converse(
                    count - 1,
                    grid_size as int,
                    gx as int,
                    gy as int,
                );
            }
            if in_disc(gx, gy, grid_size) {
                let x = centre_of(gx, grid_size);
                let y = centre_of(gy, grid_size);
                valid_positions.push((x, y));
            }
            gy = gy + 1;
        }
        proof {
            assert((gx + 1) * grid_size == gx * grid_size + grid_size) by (nonlinear_arith);
        }
        gx = gx + 1;
    }
    // Fisher-Yates shuffle.
    let n = valid_positions.len();
    let ghost cells = valid_positions@;
    let mut i: usize = if n == 0 { 0 } else { n - 1 };
    while i >= 1
        invariant
            i < n || (n == 0 && i == 0),
            valid_positions@.len() == n,
            shuffled(valid_positions@, rng.state(), i as int) == shuffled(
                cells,
                seed,
                cells.len() - 1,
            ),
        decreases i,
    {
        let ghost before = valid_positions@;
        let ghost state = rng.state();
        let value = rng.next();
        let j = shuffle_index(value, i);
        let a = valid_positions[i];
        let b = valid_positions[j];
        valid_positions.set(i, b);
        valid_positions.set(j, a);
        proof {
            assert(valid_positions@ == before.update(i as int, before[j as int]).update(
                j as int,
                before[i as int],
            ));
            assert(shuffled(before, state, i as int) == shuffled(
                valid_positions@,
                rng.state(),
                i - 1,
            ));
        }
        i = i - 1;
    }
    // The first `num_points` of the shuffled positions.
    let count = if num_points < n { num_points } else { n };
    let mut positions: Vec<(u32, u32)> = Vec::new();
    let mut k: usize = 0;
    while k < count
        invariant
            k <= count <= n,
            valid_positions@.len() == n,
            positions@ == valid_positions@.take(k as int),
        decreases count - k,
    {
        positions.push(valid_positions[k]);
        proof {
            assert(positions@ =~= valid_positions@.take(k + 1));
        }
        k = k + 1;
    }
    proof {
        assert(valid_positions@.take(n as int) =~= valid_positions@);
        assert(grid_size * grid_size == grid_size as int * grid_size as int);
    }
    positions
}

/// The length of the shortest edge from one of the first `count` cities of
/// `order` to `city`.
pub open spec fn cheapest_link(order: Seq<usize>, count: int, city: int, graph: Seq<Vec<u64>>) -> int
    decreases count,
{
    if count <= 1 {
        dist(graph, order[0] as int, city)
    } else {
        let before = cheapest_link(order, count - 1, city, graph);
        let last = dist(graph, order[count - 1] as int, city);
        if last < before { last } else { before }
    }
}

/// The summed length of the edges by which the cities at positions 1 to
/// `count - 1` of `order` are linked, each by its shortest edge to the
/// cities before it.
pub open spec fn linked_weight(order: Seq<usize>, count: int, graph: Seq<Vec<u64>>) -> int
    decreases count,
{
    if count <= 1 {
        0
    } else {
        linked_weight(order, count - 1, graph) + cheapest_link(
            order,
            count - 1,
            order[count - 1] as int,
            graph,
        )
    }
}

/// `order` is an order in which Prim's algorithm takes the cities into the
/// tree: it starts at city 0, and each next city is one that is linked to
/// the cities before it by an edge as short as any that leaves them.
pub open spec fn is_prim_order(order: Seq<usize>, graph: Seq<Vec<u64>>) -> bool {
    &&& is_tour(order, graph.len() as int)
    &&& order.len() > 0 ==> order[0] == 0
    &&& forall|k: int, city: usize|
        1 <= k < order.len() && city < graph.len() && !order.take(k).contains(city)
            ==> cheapest_link(order, k, order[k] as int, graph) <= #[trigger] cheapest_link(
            order,
            k,
            city as int,
            graph,
        )
}

/// The cheapest link is the length of an edge from one of the cities, and
/// no edge from them is shorter.
pub proof fn lemma_cheapest_link(order: Seq<usize>, count: int, city: int, graph: Seq<Vec<u64>>)
    requires
        1 <= count <= order.len(),
    ensures
        exists|a: int|
            0 <= a < count && cheapest_link(order, count, city, graph) == dist(
                graph,
                #[trigger] order[a] as int,
                city,
            ),
        forall|a: int|
            0 <= a < count ==> cheapest_link(order, count, city, graph) <= dist(
                graph,
                #[trigger] order[a] as int,
                city,
            ),
    decreases count,
{
    if count <= 1 {
        assert(cheapest_link(order, count, city, graph) == dist(graph, order[0] as int, city));
    } else {
        lemma_cheapest_link(order, count - 1, city, graph);
        let before = cheapest_link(order, count - 1, city, graph);
        let last = dist(graph, order[count - 1] as int, city);
        if last < before {
            assert(cheapest_link(order, count, city, graph) == dist(
                graph,
                order[count - 1] as int,
                city,
            ));
        } else {
            let a = choose|a: int|
                0 <= a < count - 1 && before == dist(graph, #[trigger] order[a] as int, city);
            assert(cheapest_link(order, count, city, graph) == dist(graph, order[a] as int, city));
        }
    }
}

/// Cheapest links and linked weights look only at the cities they count.
pub proof fn lemma_links_of_prefix(
    order: Seq<usize>,
    longer: Seq<usize>,
    count: int,
    city: int,
    graph: Seq<Vec<u64>>,
)
    requires
        1 <= count <= order.len() <= longer.len(),
        forall|a: int| 0 <= a < order.len() ==> order[a] == longer[a],
    ensures
        cheapest_link(order, count, city, graph) == cheapest_link(longer, count, city, graph),
        linked_weight(order, count, graph) == linked_weight(longer, count, graph),
    decreases count,
{
    if count > 1 {
        lemma_links_of_prefix(order, longer, count - 1, city, graph);
        lemma_links_of_prefix(order, longer, count - 1, order[count - 1] as int, graph);
    }
}

/// The weight of the spanning tree that Prim's algorithm grows from city
/// 0: each city joins the tree by the shortest edge that leaves the tree.
/// Under a symmetric matrix no spanning tree is lighter.
pub fn calculate_mst(graph: &[Vec<u64>]) -> (weight: u128)
    requires
        is_square(graph@),
    ensures
        exists|order: Seq<usize>| #[trigger]
            is_prim_order(order, graph@) && weight == linked_weight(
                order,
                graph@.len() as int,
                graph@,
            ),
        is_symmetric(graph@) ==> is_minimum_spanning_weight(weight as int, graph@),
{
    let n = graph.len();
    if n == 0 {
        proof {
            let none = Seq::<usize>::empty();
            assert(is_prim_order(none, graph@));
            assert(is_ranked(none, Seq::<int>::empty()));
            assert(is_spanning_tree(none, 0));
            assert(edge_weights(none, graph@) =~= Seq::<int>::empty());
            assert(tree_weight(none, graph@) == 0);
            assert forall|par: Seq<usize>| #[trigger] is_spanning_tree(par, 0) implies 0
                <= tree_weight(par, graph@) by {
                assert(edge_weights(par, graph@) =~= Seq::<int>::empty());
            }
        }
        return 0;
    }
    let mut selected: Vec<bool> = Vec::new();
    let mut k: usize = 0;
    while k < n
        invariant
            k <= n,
            selected@.len() == k,
            forall|c: int| 0 <= c < k ==> !selected@[c],
        decreases n - k,
    {
        selected.push(false);
        k = k + 1;
    }
    selected.set(0, true);
    let mut edge_count: usize = 0;
    let mut mst_weight: u128 = 0;
    let ghost mut order: Seq<usize> = seq![0usize];
    assert(order[0] == 0);
    while edge_count < n - 1
        invariant
            n == graph@.len(),
            n >= 1,
            is_square(graph@),
            selected@.len() == n,
            order.len() == edge_count + 1,
            edge_count <= n - 1,
            order[0] == 0,
            no_repeats(order),
            all_below(order, n as int),
            forall|c: usize| c < n ==> (selected@[c as int] <==> order.contains(c)),
            mst_weight == linked_weight(order, order.len() as int, graph@),
            mst_weight <= edge_count * u64::MAX,
            forall|k: int, city: usize|
                1 <= k < order.len() && city < n && !order.take(k).contains(city) ==> cheapest_link(
                    order,
                    k,
                    order[k] as int,
                    graph@,
                ) <= #[trigger] cheapest_link(order, k, city as int, graph@),
        decreases n - 1 - edge_count,
    {
        let mut found = false;
        let mut min: u64 = 0;
        let mut y: usize = 0;
        let mut i: usize = 0;
        while i < n
            invariant
                i <= n,
                n == graph@.len(),
                is_square(graph@),
                selected@.len() == n,
                found ==> y < n && !selected@[y as int] && exists|x: int|
                    0 <= x < n && selected@[x] && min == #[trigger] dist(graph@, x, y as int),
                forall|x: int, c: int|
                    0 <= x < i && 0 <= c < n && #[trigger] selected@[x] && !#[trigger] selected@[c]
                        ==> found,
                forall|x: int, c: int|
                    0 <= x < i && 0 <= c < n && selected@[x] && !selected@[c] ==> min
                        <= #[trigger] dist(graph@, x, c),
            decreases n - i,
        {
            if selected[i] {
                let mut j: usize = 0;
                while j < n
                    invariant
                        i < n,
                        j <= n,
                        n == graph@.len(),
                        is_square(graph@),
                        selected@.len() == n,
                        selected@[i as int],
                        found ==> y < n && !selected@[y as int] && exists|x: int|
                            0 <= x < n && selected@[x] && min == #[trigger] dist(
                                graph@,
                                x,
                                y as int,
                            ),
                        forall|x: int, c: int|
                            0 <= x < i && 0 <= c < n && #[trigger] selected@[x]
                                && !#[trigger] selected@[c] ==> found,
                        forall|x: int, c: int|
                            0 <= x < i && 0 <= c < n && selected@[x] && !selected@[c] ==> min
                                <= #[trigger] dist(graph@, x, c),
                        forall|c: int| 0 <= c < j && !#[trigger] selected@[c] ==> found,
                        forall|c: int|
                            0 <= c < j && !selected@[c] ==> min <= #[trigger] dist(
                                graph@,
                                i as int,
                                c,
                            ),
                    decreases n - j,
                {
                    if !selected[j] && (!found || graph[i][j] < min) {
                        min = graph[i][j];
                        y = j;
                        found = true;
                        proof {
                            assert(selected@[i as int] && min == dist(graph@, i as int, y as int));
                        }
                    }
                    j = j + 1;
                }
            }
            i = i + 1;
        }
        proof {
            // Some city is still outside the tree, so an edge was found.
            if !found {
                assert(order.contains(0)) by {
                    assert(order[0] == 0);
                }
                assert forall|c: usize| c < n implies order.contains(c) by {
                    assert(selected@[0]);
                    if !selected@[c as int] {
                        assert(0 <= 0 < n && 0 <= c < n && selected@[0] && !selected@[c as int]);
                    }
                }
                crate::tour::lemma_covering_length(order, n as int);
            }
            assert(found);
            let count = order.len() as int;
            let grown = order.push(y);
            assert(!order.contains(y));
            assert forall|city: usize| city < n && !order.contains(city) implies min
                <= #[trigger] cheapest_link(order, count, city as int, graph@) by {
                lemma_cheapest_link(order, count, city as int, graph@);
                let a = choose|a: int|
                    0 <= a < count && cheapest_link(order, count, city as int, graph@) == dist(
                        graph@,
                        #[trigger] order[a] as int,
                        city as int,
                    );
                assert(order.contains(order[a]));
                assert(selected@[order[a] as int]);
            }
            assert(cheapest_link(order, count, y as int, graph@) == min) by {
                lemma_cheapest_link(order, count, y as int, graph@);
                let x = choose|x: int|
                    0 <= x < n && selected@[x] && min == #[trigger] dist(graph@, x, y as int);
                assert(order.contains(x as usize));
                let a = choose|a: int| 0 <= a < order.len() && order[a] == x as usize;
                assert(cheapest_link(order, count, y as int, graph@) <= dist(
                    graph@,
                    order[a] as int,
                    y as int,
                ));
            }
            lemma_links_of_prefix(order, grown, count, y as int, graph@);
            assert(grown.take(count) =~= order);
            assert forall|k: int, city: usize|
                1 <= k < grown.len() && city < n && !grown.take(k).contains(
                    city,
                ) implies cheapest_link(grown, k, grown[k] as int, graph@)
                <= #[trigger] cheapest_link(grown, k, city as int, graph@) by {
                lemma_links_of_prefix(order, grown, if k < count { k } else { count }, city as int, graph@);
                lemma_links_of_prefix(
                    order,
                    grown,
                    if k < count { k } else { count },
                    grown[k] as int,
                    graph@,
                );
                if k < count {
                    assert(grown.take(k) =~= order.take(k));
                    assert(grown[k] == order[k]);
                    assert(cheapest_link(order, k, order[k] as int, graph@) <= cheapest_link(
                        order,
                        k,
                        city as int,
                        graph@,
                    ));
                }
            }
            assert forall|a: int, b: int| 0 <= a < b < grown.len() implies grown[a] != grown[b] by {
                if b == count {
                    assert(order.contains(order[a]));
                }
            }
            assert forall|c: usize| c < n implies ((c == y || selected@[c as int])
                <==> grown.contains(c)) by {
                if c == y {
                    assert(grown[count] == c);
                } else if order.contains(c) {
                    let a = choose|a: int| 0 <= a < order.len() && order[a] == c;
                    assert(grown[a] == c);
                } else if grown.contains(c) {
                    let a = choose|a: int| 0 <= a < grown.len() && grown[a] == c;
                    assert(order[a] == c);
                }
            }
            assert(linked_weight(grown, count + 1, graph@) == linked_weight(grown, count, graph@)
                + cheapest_link(grown, count, grown[count] as int, graph@));
            order = grown;
        }
        mst_weight = mst_weight + min as u128;
        selected.set(y, true);
        edge_count = edge_count + 1;
    }
    proof {
        crate::tour::lemma_no_repeats_bounds_length(order, n as int);
        assert(is_prim_order(order, graph@));
        if is_symmetric(graph@) {
            lemma_prim_is_minimal(order, graph@);
        }
    }
    mst_weight
}

} // verus!
