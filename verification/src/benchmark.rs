//! The adaptive capacity search: finds the largest problem size that a
//! solver finishes within a time budget, by growing the probe size until
//! a run overshoots and then bisecting between the last feasible and the
//! first infeasible size.
//!
//! The decisions form a small state machine, [`Search`], that is driven by
//! measured running times. Its behaviour against a fixed cost function is
//! the spec function [`outcome`].

use std::time::Duration;
use std::time::Instant;
use vstd::prelude::*;
use crate::tour::{all_below, no_repeats};
use crate::utils::{
    create_distance_matrix, floor_sqrt, is_matrix_of, isqrt, lemma_floor_sqrt_bounds, Point,
};

verus! {

/// The clock's reading: an opaque value.
#[verifier::external_type_specification]
#[verifier::external_body]
pub struct ExInstant(std::time::Instant);

/// `Instant::now` reads the monotonic clock; nothing is claimed of the reading.
pub assume_specification[ Instant::now ]() -> Instant;

/// `Instant::elapsed` gives the time since the reading was taken; nothing
/// is claimed of its amount.
pub assume_specification[ Instant::elapsed ](start: &Instant) -> Duration;

/// `Duration::as_nanos` gives the duration as a whole number of
/// nanoseconds; nothing is claimed of the number.
pub assume_specification[ Duration::as_nanos ](duration: &Duration) -> u128;

/// What a search found for one solver: the largest size that finished in
/// time and the running time, in nanoseconds, of the final run at that size.
#[derive(Debug)]
pub struct BenchmarkResult {
    pub name: String,
    pub max_n: usize,
    pub time_ns: u128,
    pub error: Option<String>,
}

/// The seed from which every problem instance is generated.
pub const INSTANCE_SEED: u64 = 12345;

/// The side of the sampling grid for an instance of `n` cities: twice the
/// square root of `n`, rounded down, and at least 40.
pub fn grid_size_for(n: usize) -> (g: usize)
    ensures
        g == if 2 * floor_sqrt(n as int) > 40 { 2 * floor_sqrt(n as int) } else { 40 },
{
    let root = isqrt(n as u128);
    proof {
        lemma_floor_sqrt_bounds(n as int);
        assert(2 * root <= root * root || root < 2) by (nonlinear_arith);
    }
    if root > 20 {
        (2 * root) as usize
    } else {
        40
    }
}

/// Runs `f` and returns its result with the time it took, in nanoseconds.
pub fn measure_time<T, F: FnOnce() -> T>(f: F) -> (r: (T, u128))
    requires
        call_requires(f, ()),
    ensures
        call_ensures(f, (), r.0),
{
    let start = Instant::now();
    let result = f();
    let elapsed = start.elapsed();
    (result, elapsed.as_nanos())
}

/// Where the search stands, and what it will run next.
#[derive(Clone, Copy, Debug, PartialEq, Eq)]
pub enum Search {
    /// `best` is the largest size seen to finish in time (the minimum size
    /// before anything ran); `probe` is the size to run next.
    Growing { best: usize, probe: usize },
    /// `low` finished in time, `high` did not (or is the size cap); the
    /// midpoint is run next.
    Refining { low: usize, high: usize },
    /// The boundary is settled at `size`; one more run gives the reported time.
    Verifying { size: usize },
    /// The search is over.
    Finished { size: usize, elapsed: u128 },
}

/// The size probed after `n` finished in `elapsed`: doubled while runs take
/// under a hundredth of the budget, grown by half while under a tenth, else
/// incremented; never beyond `max_n` unless that would make no progress.
pub open spec fn next_size(n: int, max_n: int, elapsed: int, timeout: int) -> int {
    let stepped = if elapsed < timeout / 100 {
        if 2 * n <= max_n { 2 * n } else { max_n }
    } else if elapsed < timeout / 10 {
        if n + (n + 1) / 2 <= max_n { n + (n + 1) / 2 } else { max_n }
    } else {
        n + 1
    };
    if stepped == n { n + 1 } else { stepped }
}

/// The state on leaving the growth phase with `low` as the largest feasible
/// size and `high` as the first size not known to be feasible.
pub open spec fn settle(low: usize, high: usize) -> Search {
    if low + 1 < high {
        Search::Refining { low, high }
    } else {
        Search::Verifying { size: low }
    }
}

impl Search {
    /// The initial state for sizes from `min_n` to `max_n`.
    pub open spec fn start_spec(min_n: usize, max_n: usize) -> Search {
        if min_n <= max_n {
            Search::Growing { best: min_n, probe: min_n }
        } else {
            Search::Verifying { size: min_n }
        }
    }

    /// The bounds each state keeps, given the size cap.
    pub open spec fn wf(self, max_n: usize) -> bool {
        match self {
            Search::Growing { best, probe } => best <= probe <= max_n,
            Search::Refining { low, high } => low + 1 < high <= max_n,
            Search::Verifying { size } => true,
            Search::Finished { size, elapsed } => true,
        }
    }

    /// The size to run next, or `None` when the search is over.
    pub open spec fn probe_spec(self) -> Option<usize> {
        match self {
            Search::Growing { best, probe } => Some(probe),
            Search::Refining { low, high } => Some(((low + high) / 2) as usize),
            Search::Verifying { size } => Some(size),
            Search::Finished { size, elapsed } => None,
        }
    }

    /// The state after the probe of this state took `elapsed`.
    pub open spec fn advance_spec(self, elapsed: u128, max_n: usize, timeout: u128) -> Search {
        match self {
            Search::Growing { best, probe } => {
                if elapsed > timeout {
                    settle(best, probe)
                } else {
                    let next = next_size(probe as int, max_n as int, elapsed as int, timeout as int);
                    if next <= max_n {
                        Search::Growing { best: probe, probe: next as usize }
                    } else {
                        settle(probe, max_n)
                    }
                }
            },
            Search::Refining { low, high } => {
                let mid = ((low + high) / 2) as usize;
                if elapsed <= timeout {
                    settle(mid, high)
                } else {
                    settle(low, mid)
                }
            },
            Search::Verifying { size } => Search::Finished { size, elapsed },
            Search::Finished { size, elapsed } => self,
        }
    }

    /// Every size the state names lies between the two ends of the range
    /// (or is the minimum size, when the range is empty).
    pub open spec fn within(self, min_n: usize, max_n: usize) -> bool {
        match self {
            Search::Growing { best, probe } => min_n <= best,
            Search::Refining { low, high } => min_n <= low,
            Search::Verifying { size } => min_n <= size <= max_n || (min_n > max_n && size == min_n),
            Search::Finished { size, elapsed } => min_n <= size <= max_n || (min_n > max_n && size
                == min_n),
        }
    }

    /// A bound on the number of probes still to come.
    pub open spec fn remaining(self, max_n: usize) -> nat {
        match self {
            Search::Growing { best, probe } => (max_n - probe + max_n + 4) as nat,
            Search::Refining { low, high } => (high - low + 2) as nat,
            Search::Verifying { size } => 1,
            Search::Finished { size, elapsed } => 0,
        }
    }

    /// Starts a search over the sizes from `min_n` to `max_n`.
    pub fn start(min_n: usize, max_n: usize) -> (s: Search)
        ensures
            s == Search::start_spec(min_n, max_n),
            s.wf(max_n),
    {
        if min_n <= max_n {
            Search::Growing { best: min_n, probe: min_n }
        } else {
            Search::Verifying { size: min_n }
        }
    }

    /// The size to run next, or `None` when the search is over.
    pub fn probe_size(&self) -> (p: Option<usize>)
        ensures
            p == self.probe_spec(),
    {
        match *self {
            Search::Growing { best, probe } => Some(probe),
            Search::Refining { low, high } => Some(((low as u128 + high as u128) / 2) as usize),
            Search::Verifying { size } => Some(size),
            Search::Finished { size, elapsed } => None,
        }
    }

    /// Takes the running time of the last probe and moves to the next state.
    pub fn advance(self, elapsed: u128, max_n: usize, timeout: u128) -> (s: Search)
        requires
            self.wf(max_n),
            max_n < usize::MAX,
        ensures
            s == self.advance_spec(elapsed, max_n, timeout),
            s.wf(max_n),
            !(self is Finished) ==> s.remaining(max_n) < self.remaining(max_n),
            forall|min_n: usize| self.within(min_n, max_n) ==> s.within(min_n, max_n),
    {
        match self {
            Search::Growing { best, probe } => {
                if elapsed > timeout {
                    settle_at(best, probe)
                } else {
                    let stepped = if elapsed < timeout / 100 {
                        if probe <= max_n / 2 { 2 * probe } else { max_n }
                    } else if elapsed < timeout / 10 {
                        let half = (probe - probe / 2);
                        assert(half == (probe + 1) / 2);
                        if half <= max_n - probe { probe + half } else { max_n }
                    } else {
                        probe + 1
                    };
                    let next = if stepped == probe { probe + 1 } else { stepped };
                    if next <= max_n {
                        Search::Growing { best: probe, probe: next }
                    } else {
                        settle_at(probe, max_n)
                    }
                }
            },
            Search::Refining { low, high } => {
                let mid = low + (high - low) / 2;
                if elapsed <= timeout {
                    settle_at(mid, high)
                } else {
                    settle_at(low, mid)
                }
            },
            Search::Verifying { size } => Search::Finished { size, elapsed },
            Search::Finished { size, elapsed } => self,
        }
    }
}

/// What the search returns when every probe of size `n` takes `cost(n)`:
/// the settled size and the time of the last run.
pub open spec fn outcome(s: Search, cost: spec_fn(usize) -> u128, max_n: usize, timeout: u128) -> (
    usize,
    u128,
)
    decreases s.remaining(max_n),
{
    match s {
        Search::Finished { size, elapsed } => (size, elapsed),
        _ => if s.wf(max_n) && max_n < usize::MAX {
            outcome(s.advance_spec(cost(s.probe_spec().unwrap()), max_n, timeout), cost, max_n, timeout)
        } else {
            (0, 0)
        },
    }
}

/// The result of a whole search against the cost function `cost`.
pub open spec fn capacity(cost: spec_fn(usize) -> u128, min_n: usize, max_n: usize, timeout: u128) -> (
    usize,
    u128,
) {
    outcome(Search::start_spec(min_n, max_n), cost, max_n, timeout)
}

/// Every run of `probe` at size `n` takes exactly `cost(n)`.
pub open spec fn follows<F: Fn(usize) -> u128>(probe: F, cost: spec_fn(usize) -> u128) -> bool {
    forall|n: usize, t: u128| #[trigger] call_ensures(probe, (n,), t) ==> t == cost(n)
}

/// Every step of the search keeps the bounds of the state and brings the
/// end nearer.
proof fn lemma_advance_decreases(s: Search, elapsed: u128, max_n: usize, timeout: u128)
    requires
        s.wf(max_n),
        max_n < usize::MAX,
        !(s is Finished),
    ensures
        s.advance_spec(elapsed, max_n, timeout).wf(max_n),
        s.advance_spec(elapsed, max_n, timeout).remaining(max_n) < s.remaining(max_n),
{
}

/// Runs the search: calls `probe` with each size the state machine asks
/// for and feeds the returned running time back, until the machine is done.
/// Returns the settled size with the time of the final run at that size.
pub fn search_capacity<F: Fn(usize) -> u128>(probe: F, min_n: usize, max_n: usize, timeout: u128) -> (r:
    (usize, u128))
    requires
        max_n < usize::MAX,
        forall|n: usize| call_requires(probe, (n,)),
    ensures
        call_ensures(probe, (r.0,), r.1),
        min_n <= max_n ==> min_n <= r.0 <= max_n,
        min_n > max_n ==> r.0 == min_n,
        forall|cost: spec_fn(usize) -> u128| #[trigger]
            follows(probe, cost) ==> r == capacity(cost, min_n, max_n, timeout),
{
    let mut state = Search::start(min_n, max_n);
    loop
        invariant_except_break
            !(state is Finished),
        invariant
            max_n < usize::MAX,
            forall|n: usize| call_requires(probe, (n,)),
            state.wf(max_n),
            state.within(min_n, max_n),
            forall|cost: spec_fn(usize) -> u128| #[trigger]
                follows(probe, cost) ==> outcome(state, cost, max_n, timeout) == capacity(
                    cost,
                    min_n,
                    max_n,
                    timeout,
                ),
        ensures
            state matches Search::Finished { size, elapsed } && call_ensures(probe, (size,), elapsed),
        decreases state.remaining(max_n),
    {
        let size = match state.probe_size() {
            Some(size) => size,
            None => { break ; },
        };
        let elapsed = probe(size);
        let next = state.advance(elapsed, max_n, timeout);
        proof {
            assert forall|cost: spec_fn(usize) -> u128| #[trigger] follows(probe, cost) implies outcome(
                next,
                cost,
                max_n,
                timeout,
            ) == capacity(cost, min_n, max_n, timeout) by {
                assert(cost(size) == elapsed);
            }
        }
        state = next;
        if let Search::Finished { size, elapsed } = state {
            break ;
        }
    }
    match state {
        Search::Finished { size, elapsed } => (size, elapsed),
        _ => (min_n, 0),
    }
}

/// What the boundary law says of each state: the sizes named feasible
/// finish in time, those named infeasible do not, and a settled size is
/// directly below an infeasible one unless it is the cap.
pub open spec fn brackets(
    s: Search,
    cost: spec_fn(usize) -> u128,
    min_n: usize,
    max_n: usize,
    timeout: u128,
) -> bool {
    match s {
        Search::Growing { best, probe } => min_n <= best && cost(best) <= timeout,
        Search::Refining { low, high } => min_n <= low && cost(low) <= timeout < cost(high),
        Search::Verifying { size } => is_boundary(size, cost, min_n, max_n, timeout),
        Search::Finished { size, elapsed } => is_boundary(size, cost, min_n, max_n, timeout)
            && elapsed == cost(size),
    }
}

/// `size` finishes in time and the next size, if the cap allows one, does not.
pub open spec fn is_boundary(
    size: usize,
    cost: spec_fn(usize) -> u128,
    min_n: usize,
    max_n: usize,
    timeout: u128,
) -> bool {
    &&& min_n <= size <= max_n
    &&& cost(size) <= timeout
    &&& size < max_n ==> cost((size + 1) as usize) > timeout
}

/// From a state that brackets the boundary the search ends on the boundary.
proof fn lemma_outcome_brackets(
    s: Search,
    cost: spec_fn(usize) -> u128,
    min_n: usize,
    max_n: usize,
    timeout: u128,
)
    requires
        s.wf(max_n),
        max_n < usize::MAX,
        brackets(s, cost, min_n, max_n, timeout),
    ensures
        is_boundary(outcome(s, cost, max_n, timeout).0, cost, min_n, max_n, timeout),
        outcome(s, cost, max_n, timeout).1 == cost(outcome(s, cost, max_n, timeout).0),
    decreases s.remaining(max_n),
{
    if !(s is Finished) {
        let elapsed = cost(s.probe_spec().unwrap());
        let next = s.advance_spec(elapsed, max_n, timeout);
        lemma_advance_decreases(s, elapsed, max_n, timeout);
        lemma_outcome_brackets(next, cost, min_n, max_n, timeout);
    }
}

/// The boundary law of the search. Against any cost function under which
/// the minimum size finishes in time, the search settles on a size that
/// finishes in time, reports that size's cost, and, unless it settled on
/// the cap, the next larger size does not finish in time.
pub proof fn lemma_capacity_boundary(
    cost: spec_fn(usize) -> u128,
    min_n: usize,
    max_n: usize,
    timeout: u128,
)
    requires
        min_n <= max_n < usize::MAX,
        cost(min_n) <= timeout,
    ensures
        is_boundary(capacity(cost, min_n, max_n, timeout).0, cost, min_n, max_n, timeout),
        capacity(cost, min_n, max_n, timeout).1 == cost(capacity(cost, min_n, max_n, timeout).0),
{
    lemma_outcome_brackets(Search::start_spec(min_n, max_n), cost, min_n, max_n, timeout);
}

/// Larger sizes never cost less.
pub open spec fn is_monotone(cost: spec_fn(usize) -> u128) -> bool {
    forall|a: usize, b: usize| a <= b ==> #[trigger] cost(a) <= #[trigger] cost(b)
}

/// Against a cost function that never decreases with size, the search
/// returns the largest size of the range that finishes in time: a size of
/// the range finishes in time exactly if it is at most the returned one.
pub proof fn lemma_capacity_is_largest(
    cost: spec_fn(usize) -> u128,
    min_n: usize,
    max_n: usize,
    timeout: u128,
)
    requires
        min_n <= max_n < usize::MAX,
        cost(min_n) <= timeout,
        is_monotone(cost),
    ensures
        forall|m: usize|
            min_n <= m <= max_n ==> (#[trigger] cost(m) <= timeout <==> m <= capacity(
                cost,
                min_n,
                max_n,
                timeout,
            ).0),
{
    lemma_capacity_boundary(cost, min_n, max_n, timeout);
    let r = capacity(cost, min_n, max_n, timeout).0;
    assert forall|m: usize| min_n <= m <= max_n implies (#[trigger] cost(m) <= timeout <==> m
        <= r) by {
        if m <= r {
            assert(cost(m) <= cost(r));
        } else {
            assert(cost((r + 1) as usize) <= cost(m));
        }
    }
}

/// Leaves the growth phase, or one bisection step: bisect further while
/// more than one size lies between `low` and `high`.
fn settle_at(low: usize, high: usize) -> (s: Search)
    ensures
        s == settle(low, high),
{
    if high >= 2 && low < high - 1 {
        Search::Refining { low, high }
    } else {
        Search::Verifying { size: low }
    }
}



/// Finds the largest size between `min_n` and `max_n` that `run_fn`
/// finishes within `timeout` nanoseconds.
///
/// Each probe takes fresh points from `make_points`, builds their distance
/// matrix if `needs_graph` is set (an empty matrix is passed otherwise, so
/// that solvers that read only the points are not charged for it), and
/// times one call of `run_fn`. The sizes probed are those that [`Search`]
/// asks for; the clock decides the rest.
pub fn find_max_n<G, F>(
    name: &str,
    make_points: G,
    run_fn: F,
    min_n: usize,
    max_n: usize,
    timeout: u128,
    needs_graph: bool,
) -> (r: BenchmarkResult) where
    G: Fn(usize) -> Vec<Point>,
    F: Fn(&Vec<Point>, &Vec<Vec<u64>>, usize) -> Vec<usize>,

    requires
        max_n < usize::MAX,
        forall|n: usize| call_requires(make_points, (n,)),
        forall|n: usize, points: Vec<Point>, graph: Vec<Vec<u64>>|
            call_ensures(make_points, (n,), points) && (if needs_graph {
                is_matrix_of(graph@, points@)
            } else {
                graph@.len() == 0
            }) ==> call_requires(run_fn, (&points, &graph, n)),
    ensures
        r.name@ == name@,
        r.error is None,
        min_n <= max_n ==> min_n <= r.max_n <= max_n,
        min_n > max_n ==> r.max_n == min_n,
{
    let probe = |n: usize| -> (elapsed: u128)
        {
            let points = make_points(n);
            let graph = if needs_graph {
                create_distance_matrix(points.as_slice())
            } else {
                Vec::new()
            };
            let run = || -> (tour: Vec<usize>) { run_fn(&points, &graph, n) };
            let timed = measure_time(run);
            timed.1
        };
    let (size, elapsed) = search_capacity(probe, min_n, max_n, timeout);
    BenchmarkResult { name: name.to_owned(), max_n: size, time_ns: elapsed, error: None }
}

/// `order` lists the positions of `results` by descending size, entries of
/// equal size in the order in which they were given.
pub open spec fn is_ranking(order: Seq<usize>, results: Seq<BenchmarkResult>) -> bool {
    &&& order.len() == results.len()
    &&& all_below(order, results.len() as int)
    &&& no_repeats(order)
    &&& forall|k: int, l: int|
        0 <= k < l < order.len() ==> results[order[k] as int].max_n > results[order[l] as int].max_n
            || (results[order[k] as int].max_n == results[order[l] as int].max_n && order[k]
            < order[l])
}

/// The order in which to report `results`: by descending size, entries of
/// equal size in the order in which they were given.
pub fn rank_results(results: &[BenchmarkResult]) -> (order: Vec<usize>)
    ensures
        is_ranking(order@, results@),
{
    let n = results.len();
    let mut order: Vec<usize> = Vec::new();
    let mut i: usize = 0;
    while i < n
        invariant
            i <= n,
            n == results@.len(),
            is_ranking(order@, results@.take(i as int)),
        decreases n - i,
    {
        // Find where position `i` belongs: behind every entry that is at least as large.
        let mut at: usize = order.len();
        while at > 0 && results[order[at - 1]].max_n < results[i].max_n
            invariant
                at <= order@.len(),
                i < n,
                n == results@.len(),
                is_ranking(order@, results@.take(i as int)),
                forall|k: int|
                    at <= k < order@.len() ==> results@[order@[k] as int].max_n
                        < results@[i as int].max_n,
            decreases at,
        {
            at = at - 1;
        }
        let ghost before = order@;
        order.insert(at, i);
        proof {
            let prefix = results@.take(i as int);
            let grown = results@.take(i + 1);
            assert(order@ =~= before.insert(at as int, i));
            assert forall|k: int| 0 <= k < order@.len() implies (#[trigger] order@[k]) < i + 1 by {
                if k < at {
                    assert(order@[k] == before[k]);
                } else if k > at {
                    assert(order@[k] == before[k - 1]);
                }
            }
            assert forall|k: int, l: int| 0 <= k < l < order@.len() implies order@[k] != order@[l]
                && (grown[order@[k] as int].max_n > grown[order@[l] as int].max_n || (
            grown[order@[k] as int].max_n == grown[order@[l] as int].max_n && order@[k]
                < order@[l])) by {
                let bk = if k < at { k } else { k - 1 };
                let bl = if l < at { l } else { l - 1 };
                if k != at {
                    assert(order@[k] == before[bk]);
                    assert(before[bk] < i);
                    assert(prefix[before[bk] as int] == grown[before[bk] as int]);
                }
                if l != at {
                    assert(order@[l] == before[bl]);
                    assert(before[bl] < i);
                    assert(prefix[before[bl] as int] == grown[before[bl] as int]);
                }
            }
        }
        i = i + 1;
    }
    assert(results@.take(n as int) =~= results@);
    order
}

} // verus!
