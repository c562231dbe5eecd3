//! The sonar sweep: the full turn is cut into equal sectors, and the
//! cities are visited sector by sector, within a sector from the centre
//! outwards.

use vstd::prelude::*;
use crate::angular_sort::{ids_along, ids_of, lemma_ids_along_is_tour};
use crate::sorting::{is_key_order, lemma_key_order_unique, order_by_keys};
use crate::tour::is_tour;
use crate::utils::{distance_coords, euclidean, Point, UNIT};

verus! {

/// The number of angle steps in a full turn.
pub const FULL_TURN: u64 = 0x1_0000_0000;

/// The sector of `angle` when the full turn is cut into `sectors` equal sectors.
pub open spec fn sector_of(angle: u32, sectors: int) -> int {
    (angle * sectors) / (FULL_TURN as int)
}

/// The rounded-down distance of a point from the centre of the unit square.
pub open spec fn from_centre(p: Point) -> int {
    euclidean(p.x, p.y, UNIT / 2, UNIT / 2)
}

/// The keys by which the sweep orders the points: the sector, then the
/// distance from the centre.
pub open spec fn sweep_keys(points: Seq<Point>, grid_size: usize) -> Seq<(u64, u64)> {
    Seq::new(
        points.len(),
        |k: int| (sector_of(points[k].angle, 4 * grid_size) as u64, from_centre(points[k]) as u64),
    )
}

/// `tour` lists the identities of `points` in the order of the sweep.
pub open spec fn is_sweep(tour: Seq<usize>, points: Seq<Point>, grid_size: usize) -> bool {
    exists|order: Seq<usize>| #[trigger]
        is_key_order(order, sweep_keys(points, grid_size)) && tour == ids_along(order, points)
}

/// The sweep is a function of the points and the grid size: whatever two
/// runs on the same points with the same grid size return, they return
/// the same.
pub proof fn lemma_sweep_is_unique(
    first: Seq<usize>,
    second: Seq<usize>,
    points: Seq<Point>,
    grid_size: usize,
)
    requires
        is_sweep(first, points, grid_size),
        is_sweep(second, points, grid_size),
    ensures
        first == second,
{
    let keys = sweep_keys(points, grid_size);
    let o1 = choose|order: Seq<usize>| #[trigger]
        is_key_order(order, keys) && first == ids_along(order, points);
    let o2 = choose|order: Seq<usize>| #[trigger]
        is_key_order(order, keys) && second == ids_along(order, points);
    lemma_key_order_unique(o1, o2, keys);
}

/// Lists the identities of `points` sector by sector for `4 * grid_size`
/// sectors, within a sector by ascending distance from the centre, points
/// of one sector at one distance in the order in which they were given.
pub fn generate_tour(points: &[Point], grid_size: usize) -> (tour: Vec<usize>)
    requires
        grid_size >= 1,
        4 * grid_size <= usize::MAX,
    ensures
        is_sweep(tour@, points@, grid_size),
        is_tour(ids_of(points@), points@.len() as int) ==> is_tour(tour@, points@.len() as int),
{
    let n = points.len();
    let angle_steps = 4 * grid_size;
    let mut keys: Vec<(u64, u64)> = Vec::new();
    let mut k: usize = 0;
    while k < n
        invariant
            k <= n,
            n == points@.len(),
            angle_steps == 4 * grid_size,
            angle_steps >= 1,
            keys@ == sweep_keys(points@, grid_size).take(k as int),
        decreases n - k,
    {
        let angle = points[k].angle;
        proof {
            let a = angle as int;
            let s = angle_steps as int;
            assert(a * s <= 0xffff_ffff * 0xffff_ffff_ffff_ffff) by (nonlinear_arith)
                requires
                    0 <= a <= 0xffff_ffff,
                    0 <= s <= 0xffff_ffff_ffff_ffff,
            ;
            assert((a * s) / 0x1_0000_0000 < s) by (nonlinear_arith)
                requires
                    0 <= a < 0x1_0000_0000,
                    s > 0,
            ;
            assert((a * s) / 0x1_0000_0000 >= 0) by (nonlinear_arith)
                requires
                    0 <= a,
                    s > 0,
            ;
        }
        let bucket_index = (angle as u128 * angle_steps as u128) / (FULL_TURN as u128);
        let from_middle = distance_coords(points[k].x, points[k].y, UNIT / 2, UNIT / 2);
        keys.push((bucket_index as u64, from_middle));
        proof {
            assert(keys@ =~= sweep_keys(points@, grid_size).take(k + 1));
        }
        k = k + 1;
    }
    proof {
        assert(sweep_keys(points@, grid_size).take(n as int) =~= sweep_keys(points@, grid_size));
    }
    let order = order_by_keys(keys.as_slice());
    let mut tour: Vec<usize> = Vec::new();
    k = 0;
    while k < n
        invariant
            k <= n,
            n == points@.len(),
            is_key_order(order@, sweep_keys(points@, grid_size)),
            tour@ == ids_along(order@, points@).take(k as int),
        decreases n - k,
    {
        tour.push(points[order[k]].id);
        proof {
            assert(tour@ =~= ids_along(order@, points@).take(k + 1));
        }
        k = k + 1;
    }
    proof {
        assert(ids_along(order@, points@).take(n as int) =~= ids_along(order@, points@));
        if is_tour(ids_of(points@), n as int) {
            lemma_ids_along_is_tour(order@, points@);
        }
    }
    tour
}

} // verus!
