//! The angular construction: visit the cities in the order of their polar
//! angle about the centre.

use vstd::prelude::*;
use crate::sorting::{is_key_order, order_by_keys};
use crate::tour::is_tour;
use crate::utils::Point;

verus! {

/// The keys by which the angular construction orders the points: the angle.
pub open spec fn angle_keys(points: Seq<Point>) -> Seq<(u64, u64)> {
    Seq::new(points.len(), |k: int| (points[k].angle as u64, 0u64))
}

/// The identities of the points.
pub open spec fn ids_of(points: Seq<Point>) -> Seq<usize> {
    Seq::new(points.len(), |k: int| points[k].id)
}

/// The identities of the points in the order `order` of their positions.
pub open spec fn ids_along(order: Seq<usize>, points: Seq<Point>) -> Seq<usize> {
    Seq::new(order.len(), |k: int| points[order[k] as int].id)
}

/// Listing the identities of points along an order of their positions
/// gives a tour if the identities themselves form one.
pub proof fn lemma_ids_along_is_tour(order: Seq<usize>, points: Seq<Point>)
    requires
        is_tour(order, points.len() as int),
        is_tour(ids_of(points), points.len() as int),
    ensures
        is_tour(ids_along(order, points), points.len() as int),
{
    let ids = ids_of(points);
    let along = ids_along(order, points);
    assert forall|k: int| 0 <= k < along.len() implies (#[trigger] along[k]) < points.len() by {
        assert(along[k] == ids[order[k] as int]);
    }
    assert forall|a: int, b: int| 0 <= a < b < along.len() implies along[a] != along[b] by {
        assert(along[a] == ids[order[a] as int]);
        assert(along[b] == ids[order[b] as int]);
        assert(order[a] != order[b]);
        if order[a] < order[b] {
            assert(ids[order[a] as int] != ids[order[b] as int]);
        } else {
            assert(ids[order[b] as int] != ids[order[a] as int]);
        }
    }
}

/// Lists the identities of `points` by ascending angle, points of equal
/// angle in the order in which they were given.
pub fn generate_tour(points: &[Point]) -> (tour: Vec<usize>)
    ensures
        exists|order: Seq<usize>| #[trigger]
            is_key_order(order, angle_keys(points@)) && tour@ == ids_along(order, points@),
        is_tour(ids_of(points@), points@.len() as int) ==> is_tour(tour@, points@.len() as int),
{
    let n = points.len();
    let mut keys: Vec<(u64, u64)> = Vec::new();
    let mut k: usize = 0;
    while k < n
        invariant
            k <= n,
            n == points@.len(),
            keys@ == angle_keys(points@).take(k as int),
        decreases n - k,
    {
        keys.push((points[k].angle as u64, 0));
        proof {
            assert(keys@ =~= angle_keys(points@).take(k + 1));
        }
        k = k + 1;
    }
    proof {
        assert(angle_keys(points@).take(n as int) =~= angle_keys(points@));
    }
    let order = order_by_keys(keys.as_slice());
    let mut tour: Vec<usize> = Vec::new();
    k = 0;
    while k < n
        invariant
            k <= n,
            n == points@.len(),
            is_key_order(order@, angle_keys(points@)),
            tour@ == ids_along(order@, points@).take(k as int),
        decreases n - k,
    {
        tour.push(points[order[k]].id);
        proof {
            assert(tour@ =~= ids_along(order@, points@).take(k + 1));
        }
        k = k + 1;
    }
    proof {
        assert(ids_along(order@, points@).take(n as int) =~= ids_along(order@, points@));
        if is_tour(ids_of(points@), n as int) {
            lemma_ids_along_is_tour(order@, points@);
        }
    }
    tour
}

} // verus!
