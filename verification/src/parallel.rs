//! Ordered maps over independent entries, on several threads where it pays.
//!
//! The entries are handed in as owned or immutable values; nothing here takes a lock.

use rayon::prelude::{IntoParallelRefIterator, ParallelIterator};
use vstd::prelude::*;

verus! {

/// Below this many independent entries, scheduling usually costs more than the work. The
/// threshold applies to the entries that may run in parallel, not to the whole world.
pub const SNAPSHOT_PARALLEL_THRESHOLD: usize = 64;

/// How one map was run.
#[derive(Clone, Copy, Debug, PartialEq, Eq, Structural)]
pub struct ParallelExecution {
    pub items: usize,
    pub workers_used: usize,
    pub parallel: bool,
}

/// How all maps were run. The counters wrap around.
#[derive(Clone, Copy, Debug, PartialEq, Eq, Structural)]
pub struct ParallelMetrics {
    pub calls: u64,
    pub parallel_calls: u64,
    pub items: u64,
    pub parallel_items: u64,
    pub max_workers_used: u64,
}

/// The results of a map, in the order of its input.
#[derive(Debug)]
pub struct OrderedMap<T> {
    pub values: Vec<T>,
    pub execution: ParallelExecution,
}

/// Calls `rayon::current_num_threads`. How many threads there are depends on the machine
/// and on the pool in which the call is made, so nothing is said of it.
#[verifier::external_body]
fn current_num_threads() -> (n: usize) {
    rayon::current_num_threads()
}

/// Calls `rayon::current_thread_index`, which is `None` outside of a pool. Which thread
/// runs the call is up to the scheduler, so nothing is said of it.
#[verifier::external_body]
fn current_worker() -> (n: Option<usize>) {
    rayon::current_thread_index()
}

/// Maps one entry and notes the worker that did it; outside of a pool it is the first.
fn map_noted<T, R, F: Fn(&T) -> R>(item: &T, map: &F) -> (r: (usize, R))
    requires
        call_requires(*map, (item,)),
    ensures
        call_ensures(*map, (item,), r.1),
{
    let worker: usize = match current_worker() {
        Some(worker) => worker,
        None => 0,
    };
    (worker, map(item))
}

/// Calls `par_iter`, `map` and `collect` of `rayon`. Collecting an indexed parallel
/// iterator keeps the order: result `i` is that of entry `i`, on whatever thread.
#[verifier::external_body]
fn par_map_noted<T: Sync, R: Send, F: Fn(&T) -> R + Sync + Send>(items: &[T], map: &F) -> (r: Vec<
    (usize, R),
>)
    requires
        forall|i: int| 0 <= i < items@.len() ==> call_requires(*map, (&#[trigger] items@[i],)),
    ensures
        r@.len() == items@.len(),
        forall|i: int| 0 <= i < r@.len() ==> call_ensures(*map, (&items@[i],), (#[trigger] r@[i]).1),
{
    items.par_iter().map(|item| map_noted(item, map)).collect()
}

/// The workers that took part. Those from the 64th on count as one.
pub open spec fn worker_set(workers: Seq<usize>) -> Set<usize>
    decreases workers.len(),
{
    if workers.len() == 0 {
        Set::empty()
    } else {
        let last = workers.last();
        worker_set(workers.drop_last()).insert(if last < 63 { last } else { 63 })
    }
}

/// How many workers took part, exactly for up to 64 of them.
pub fn count_workers(workers: &Vec<usize>) -> (n: usize)
    ensures
        n == worker_set(workers@).len(),
{
    let mut seen: Vec<bool> = Vec::new();
    let mut k: usize = 0;
    while k < 64
        invariant
            k <= 64,
            seen@.len() == k,
            forall|j: int| 0 <= j < k ==> !#[trigger] seen@[j],
        decreases 64 - k,
    {
        seen.push(false);
        k += 1;
    }
    let mut n: usize = 0;
    let mut i: usize = 0;
    assert(workers@.take(0) =~= Seq::empty());
    while i < workers.len()
        invariant
            seen@.len() == 64,
            i <= workers@.len(),
            n <= i,
            worker_set(workers@.take(i as int)).finite(),
            n == worker_set(workers@.take(i as int)).len(),
            forall|j: usize|
                j < 64 ==> #[trigger] seen@[j as int] == worker_set(
                    workers@.take(i as int),
                ).contains(j),
        decreases workers@.len() - i,
    {
        assert(workers@.take(i + 1).drop_last() =~= workers@.take(i as int));
        let worker: usize = if workers[i] < 63 { workers[i] } else { 63 };
        if !seen[worker] {
            seen.set(worker, true);
            n += 1;
        }
        i += 1;
    }
    assert(workers@.take(i as int) =~= workers@);
    n
}

/// Whether results stand for their entries, one for one and in order.
pub open spec fn maps_in_order<T, R, F: Fn(&T) -> R>(items: Seq<T>, values: Seq<R>, map: F) -> bool {
    &&& values.len() == items.len()
    &&& forall|i: int|
        0 <= i < values.len() ==> call_ensures(map, (&items[i],), #[trigger] values[i])
}

/// The larger of the threshold and two entries.
pub open spec fn worth_it(threshold: usize) -> usize {
    if threshold < 2 { 2 } else { threshold }
}

/// Whether a map of `len` entries is worth running in parallel on `threads` threads: from
/// the threshold on, but never for less than two entries or on one thread.
pub open spec fn runs_parallel(len: nat, threshold: usize, threads: usize) -> bool {
    len >= worth_it(threshold) && threads > 1
}

/// Taking part are as many workers as were noted at most, never more than 64, and at least
/// one where there was anything to do.
pub proof fn law_worker_count(workers: Seq<usize>)
    ensures
        worker_set(workers).finite(),
        worker_set(workers).len() <= workers.len(),
        worker_set(workers).len() <= 64,
        worker_set(workers).len() == 0 <==> workers.len() == 0,
{
    lemma_workers_are_few(workers);
    let range = vstd::set_lib::set_int_range(0, 64);
    vstd::set_lib::lemma_int_range(0, 64);
    let numbers = worker_set(workers).map(|w: usize| w as int);
    assert(numbers.subset_of(range));
    vstd::set_lib::lemma_len_subset(numbers, range);
    vstd::set_lib::lemma_map_size(worker_set(workers), numbers, |w: usize| w as int);
    if workers.len() > 0 {
        let last = workers.last();
        assert(worker_set(workers).contains(if last < 63 { last } else { 63 }));
        if worker_set(workers).len() == 0 {
            assert(worker_set(workers) =~= Set::empty());
        }
    }
}

proof fn lemma_workers_are_few(workers: Seq<usize>)
    ensures
        worker_set(workers).finite(),
        worker_set(workers).len() <= workers.len(),
        forall|w: usize| worker_set(workers).contains(w) ==> w < 64,
    decreases workers.len(),
{
    if workers.len() > 0 {
        lemma_workers_are_few(workers.drop_last());
    }
}

/// The workers of noted results.
pub open spec fn noted_workers<R>(noted: Seq<(usize, R)>) -> Seq<usize> {
    Seq::new(noted.len(), |i: int| noted[i].0)
}

/// Noted results without their workers.
pub open spec fn noted_values<R>(noted: Seq<(usize, R)>) -> Seq<R> {
    Seq::new(noted.len(), |i: int| noted[i].1)
}

/// Takes noted results apart: the results in their order, and how many workers took part.
pub fn gather<R>(noted: Vec<(usize, R)>) -> (r: (Vec<R>, usize))
    ensures
        r.0@ == noted_values(noted@),
        r.1 == worker_set(noted_workers(noted@)).len(),
{
    let mut values: Vec<R> = Vec::new();
    let mut workers: Vec<usize> = Vec::new();
    for pair in it: noted
        invariant
            it.seq() == noted@,
            values@ == noted_values(noted@).take(it.index() as int),
            workers@ == noted_workers(noted@).take(it.index() as int),
    {
        let ghost i = it.index() as int;
        assert(pair == noted@[i]);
        values.push(pair.1);
        workers.push(pair.0);
        assert(values@ =~= noted_values(noted@).take(i + 1));
        assert(workers@ =~= noted_workers(noted@).take(i + 1));
    }
    assert(values@ =~= noted_values(noted@));
    assert(workers@ =~= noted_workers(noted@));
    let used: usize = count_workers(&workers);
    (values, used)
}

fn map_sequential<T, R, F: Fn(&T) -> R>(items: &[T], map: &F) -> (values: Vec<R>)
    requires
        forall|i: int| 0 <= i < items@.len() ==> call_requires(*map, (&#[trigger] items@[i],)),
    ensures
        maps_in_order(items@, values@, *map),
{
    let mut values: Vec<R> = Vec::new();
    let mut i: usize = 0;
    while i < items.len()
        invariant
            i <= items@.len(),
            values@.len() == i,
            forall|i: int| 0 <= i < items@.len() ==> call_requires(*map, (&#[trigger] items@[i],)),
            forall|j: int|
                0 <= j < values@.len() ==> call_ensures(*map, (&items@[j],), #[trigger] values@[j]),
        decreases items@.len() - i,
    {
        values.push(map(&items[i]));
        i += 1;
    }
    values
}

/// What a map did: the results stand in the order of the input, at most 64 workers and one
/// for each entry took part, one outside of the parallel path, and everything is counted.
pub open spec fn mapped<T, R, F: Fn(&T) -> R>(
    items: Seq<T>,
    map: F,
    r: OrderedMap<R>,
    before: ParallelMetrics,
    after: ParallelMetrics,
) -> bool {
    &&& maps_in_order(items, r.values@, map)
    &&& r.execution.items == items.len()
    &&& r.execution.workers_used <= 64
    &&& r.execution.workers_used <= items.len()
    &&& r.execution.workers_used == 0 <==> items.len() == 0
    &&& !r.execution.parallel ==> r.execution.workers_used <= 1
    &&& after == recorded(before, r.execution)
}

/// Maps every entry, in order, knowing how many threads there are. No more workers than
/// threads take part.
pub fn map_with_threads<T: Sync, R: Send, F: Fn(&T) -> R + Sync + Send>(
    items: &[T],
    threshold: usize,
    threads: usize,
    map: F,
    metrics: &mut ParallelMetrics,
) -> (r: OrderedMap<R>)
    requires
        forall|i: int| 0 <= i < items@.len() ==> call_requires(map, (&#[trigger] items@[i],)),
    ensures
        mapped(items@, map, r, *old(metrics), *final(metrics)),
        r.execution.parallel == runs_parallel(items@.len(), threshold, threads),
        threads >= 1 ==> r.execution.workers_used <= threads,
{
    let least: usize = if threshold < 2 { 2 } else { threshold };
    let parallel: bool = items.len() >= least && threads > 1;
    let (values, workers_used) = if parallel {
        let noted = par_map_noted(items, &map);
        proof {
            law_worker_count(noted_workers(noted@));
        }
        let (values, noted_workers) = gather(noted);
        // The threads of a pool are all that take part.
        let used: usize = if noted_workers > threads { threads } else { noted_workers };
        (values, used)
    } else {
        let values = map_sequential(items, &map);
        let used: usize = if items.len() == 0 { 0 } else { 1 };
        (values, used)
    };
    let execution = ParallelExecution { items: items.len(), workers_used, parallel };
    metrics.record(execution);
    OrderedMap { values, execution }
}

/// Maps every entry, in order. From the threshold on, and with more than one thread, the
/// entries are mapped in parallel; the result is in the order of the input either way. How
/// many threads there are is up to the machine; [`map_with_threads`] says what follows.
pub fn map_ordered<T: Sync, R: Send, F: Fn(&T) -> R + Sync + Send>(
    items: &[T],
    threshold: usize,
    map: F,
    metrics: &mut ParallelMetrics,
) -> (r: OrderedMap<R>)
    requires
        forall|i: int| 0 <= i < items@.len() ==> call_requires(map, (&#[trigger] items@[i],)),
    ensures
        mapped(items@, map, r, *old(metrics), *final(metrics)),
        exists|threads: usize|
            {
                &&& r.execution.parallel == #[trigger] runs_parallel(
                    items@.len(),
                    threshold,
                    threads,
                )
                &&& threads >= 1 ==> r.execution.workers_used <= threads
            },
{
    let threads: usize = current_num_threads();
    map_with_threads(items, threshold, threads, map, metrics)
}

// ---------------------------------------------------------------------------
// Counters.

/// A sum of a counter that wraps around.
pub open spec fn wrapped_sum(a: u64, b: int) -> u64 {
    ((a + b) % 0x1_0000_0000_0000_0000) as u64
}

/// The counters after one more map.
pub open spec fn recorded(m: ParallelMetrics, e: ParallelExecution) -> ParallelMetrics {
    ParallelMetrics {
        calls: wrapped_sum(m.calls, 1),
        items: wrapped_sum(m.items, e.items as int),
        parallel_calls: wrapped_sum(m.parallel_calls, if e.parallel { 1 } else { 0 }),
        parallel_items: wrapped_sum(m.parallel_items, if e.parallel { e.items as int } else { 0 }),
        max_workers_used: if m.max_workers_used < e.workers_used {
            e.workers_used as u64
        } else {
            m.max_workers_used
        },
    }
}

fn sum_wrapping(a: u64, b: u64) -> (r: u64)
    ensures
        r == wrapped_sum(a, b as int),
{
    let sum: u128 = a as u128 + b as u128;
    if sum >= 0x1_0000_0000_0000_0000 {
        (sum - 0x1_0000_0000_0000_0000) as u64
    } else {
        sum as u64
    }
}

impl ParallelMetrics {
    /// Nothing counted yet.
    pub fn new() -> (r: ParallelMetrics)
        ensures
            r == (ParallelMetrics {
                calls: 0,
                parallel_calls: 0,
                items: 0,
                parallel_items: 0,
                max_workers_used: 0,
            }),
    {
        ParallelMetrics {
            calls: 0,
            parallel_calls: 0,
            items: 0,
            parallel_items: 0,
            max_workers_used: 0,
        }
    }

    /// Counts one map.
    pub fn record(&mut self, execution: ParallelExecution)
        ensures
            *final(self) == recorded(*old(self), execution),
    {
        let items: u64 = execution.items as u64;
        self.calls = sum_wrapping(self.calls, 1);
        self.items = sum_wrapping(self.items, items);
        if execution.parallel {
            self.parallel_calls = sum_wrapping(self.parallel_calls, 1);
            self.parallel_items = sum_wrapping(self.parallel_items, items);
        }
        if self.max_workers_used < execution.workers_used as u64 {
            self.max_workers_used = execution.workers_used as u64;
        }
    }
}

} // verus!
