//! When work is shared out, who took part, and what is counted.

use crate::parallel::{
    maps_in_order, mapped, noted_values, noted_workers, recorded, runs_parallel, worker_set,
    OrderedMap, ParallelExecution, ParallelMetrics,
};
use vstd::prelude::*;

verus! {

/// Work is shared out when there is enough of it, two pieces at the least, and more than one
/// thread.
pub proof fn law_when_work_is_shared_out(len: nat, threshold: usize, threads: usize)
    ensures
        runs_parallel(len, threshold, threads) <==> len >= 2 && len >= threshold && threads >= 2,
{
}

/// Every worker that took part is counted once; those from the sixty-fourth on count as one.
pub proof fn law_workers_that_took_part(workers: Seq<usize>, w: usize)
    ensures
        w < 63 ==> (worker_set(workers).contains(w) <==> workers.contains(w)),
        worker_set(workers).contains(63) <==> exists|i: int|
            0 <= i < workers.len() && #[trigger] workers[i] >= 63,
        w > 63 ==> !worker_set(workers).contains(w),
    decreases workers.len(),
{
    if workers.len() > 0 {
        let front = workers.drop_last();
        let last = workers.last();
        law_workers_that_took_part(front, w);
        assert(workers[workers.len() - 1] == last);
        if workers.contains(w) {
            let i = choose|i: int| 0 <= i < workers.len() && workers[i] == w;
            if i < front.len() {
                assert(front[i] == w);
            }
        }
        if front.contains(w) {
            let i = choose|i: int| 0 <= i < front.len() && front[i] == w;
            assert(workers[i] == w);
        }
        if exists|i: int| 0 <= i < front.len() && #[trigger] front[i] >= 63 {
            let i = choose|i: int| 0 <= i < front.len() && #[trigger] front[i] >= 63;
            assert(workers[i] == front[i]);
        }
        if exists|i: int| 0 <= i < workers.len() && #[trigger] workers[i] >= 63 {
            let i = choose|i: int| 0 <= i < workers.len() && #[trigger] workers[i] >= 63;
            if i < front.len() {
                assert(front[i] == workers[i]);
            }
        }
    }
}

/// What the workers noted comes apart into the values and the workers, in the same order.
pub proof fn law_notes_keep_their_order<R>(noted: Seq<(usize, R)>, i: int)
    requires
        0 <= i < noted.len(),
    ensures
        noted_values(noted).len() == noted.len(),
        noted_workers(noted).len() == noted.len(),
        noted[i] == (noted_workers(noted)[i], noted_values(noted)[i]),
{
}

/// Every item has its result in its own place.
pub proof fn law_results_stand_in_order<T, R, F: Fn(&T) -> R>(
    items: Seq<T>,
    map: F,
    r: OrderedMap<R>,
    before: ParallelMetrics,
    after: ParallelMetrics,
    i: int,
)
    requires
        mapped(items, map, r, before, after),
        0 <= i < items.len(),
    ensures
        r.values@.len() == items.len(),
        call_ensures(map, (&items[i],), r.values@[i]),
        r.execution.items == items.len(),
        1 <= r.execution.workers_used <= items.len(),
        !r.execution.parallel ==> r.execution.workers_used == 1,
{
    assert(maps_in_order(items, r.values@, map));
}

/// Each call counts itself and its items, and again among the shared ones where it was shared
/// out; the most workers ever are kept. The counters start over beyond their range.
pub proof fn law_calls_are_counted(m: ParallelMetrics, e: ParallelExecution)
    ensures
        ({
            let after = recorded(m, e);
            let all = 0x1_0000_0000_0000_0000int;
            &&& (after.calls - m.calls - 1) % all == 0
            &&& (after.items - m.items - e.items) % all == 0
            &&& e.parallel ==> (after.parallel_calls - m.parallel_calls - 1) % all == 0
            &&& e.parallel ==> (after.parallel_items - m.parallel_items - e.items) % all == 0
            &&& !e.parallel ==> after.parallel_calls == m.parallel_calls && after.parallel_items
                == m.parallel_items
            &&& after.max_workers_used >= m.max_workers_used
            &&& after.max_workers_used >= e.workers_used
            &&& after.max_workers_used == m.max_workers_used || after.max_workers_used
                == e.workers_used
        }),
{
    lemma_turns(m.calls, 1);
    lemma_turns(m.items, e.items as int);
    lemma_turns(m.parallel_calls, 1);
    lemma_turns(m.parallel_items, e.items as int);
}

proof fn lemma_turns(a: u64, b: int)
    ensures
        (crate::parallel::wrapped_sum(a, b) - a - b) % 0x1_0000_0000_0000_0000 == 0,
        b == 0 ==> crate::parallel::wrapped_sum(a, b) == a,
{
}

} // verus!
