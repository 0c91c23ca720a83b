//! Statistics over repeated runs of an algorithm.

use vstd::prelude::*;
use crate::tsplib::Solution;

verus! {

/// One run: the length of its solution, the solution, and its wall time.
pub struct RunResult {
    pub cost: i32,
    pub solution: Solution,
    pub time_ms: u128,
}

/// Least and greatest cost over the runs, their sums, and the index of the
/// first run of least cost.
pub struct RunSummary {
    pub min_cost: i32,
    pub max_cost: i32,
    pub sum_cost: i128,
    pub sum_time_ms: u128,
    pub best_index: usize,
}

pub open spec fn cost_sum(results: Seq<RunResult>) -> int
    decreases results.len(),
{
    if results.len() == 0 {
        0
    } else {
        cost_sum(results.drop_last()) + results.last().cost
    }
}

pub open spec fn time_sum(results: Seq<RunResult>) -> int
    decreases results.len(),
{
    if results.len() == 0 {
        0
    } else {
        time_sum(results.drop_last()) + results.last().time_ms
    }
}

/// Aggregates the runs; `None` when there are none. The time sum saturates
/// at `u128::MAX`.
pub fn summarize_runs(results: &Vec<RunResult>) -> (r: Option<RunSummary>)
    ensures
        r is None <==> results@.len() == 0,
        r matches Some(s) ==> {
            &&& s.best_index < results@.len()
            &&& s.min_cost == results@[s.best_index as int].cost
            &&& forall|k: int| 0 <= k < results@.len() ==> s.min_cost <= #[trigger] results@[k].cost
            &&& forall|k: int| 0 <= k < s.best_index ==> s.min_cost < #[trigger] results@[k].cost
            &&& forall|k: int| 0 <= k < results@.len() ==> #[trigger] results@[k].cost <= s.max_cost
            &&& exists|k: int| 0 <= k < results@.len() && results@[k].cost == s.max_cost
            &&& s.sum_cost == cost_sum(results@)
            &&& s.sum_time_ms == (if time_sum(results@) > u128::MAX { u128::MAX as int } else { time_sum(results@) })
        },
{
    let len = results.len();
    if len == 0 {
        return None;
    }
    let mut min_cost = results[0].cost;
    let mut max_cost = results[0].cost;
    let mut best_index: usize = 0;
    let ghost mut max_index: int = 0;
    let mut sum_cost: i128 = 0;
    let mut sum_time: u128 = 0;
    let mut i: usize = 0;
    while i < len
        invariant
            len == results@.len(),
            0 <= i <= len,
            best_index < len,
            i > 0 ==> best_index < i,
            i == 0 ==> best_index == 0,
            min_cost == results@[best_index as int].cost,
            forall|k: int| 0 <= k < i ==> min_cost <= #[trigger] results@[k].cost,
            forall|k: int| 0 <= k < best_index ==> min_cost < #[trigger] results@[k].cost,
            0 <= max_index < len,
            max_cost == results@[max_index].cost,
            forall|k: int| 0 <= k < i ==> #[trigger] results@[k].cost <= max_cost,
            sum_cost == cost_sum(results@.take(i as int)),
            -2147483648 * i <= sum_cost <= 2147483647 * i,
            sum_time == (if time_sum(results@.take(i as int)) > u128::MAX { u128::MAX as int } else { time_sum(results@.take(i as int)) }),
        decreases len - i,
    {
        let c = results[i].cost;
        if c < min_cost {
            min_cost = c;
            best_index = i;
        }
        if c > max_cost {
            max_cost = c;
            proof {
                max_index = i as int;
            }
        }
        assert(results@.take(i as int + 1).drop_last() =~= results@.take(i as int));
        sum_cost = sum_cost + c as i128;
        let t = results[i].time_ms;
        if sum_time <= u128::MAX - t {
            sum_time = sum_time + t;
        } else {
            sum_time = u128::MAX;
        }
        i += 1;
    }
    assert(results@.take(len as int) =~= results@);
    Some(RunSummary { min_cost, max_cost, sum_cost, sum_time_ms: sum_time, best_index })
}

} // verus!
