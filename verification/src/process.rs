//! The process scheduler: runs every worker as a child process on the
//! controller's own host, one process per bucket of the requested slots.
//!
//! The slot bucketing and the worker table live here; spawning the child
//! processes and delivering their shutdown signals is process I/O and stays
//! with the caller.

use vstd::prelude::*;

use crate::ids::WorkerId;

verus! {

/// How many slots one worker process hosts at most.
pub const SLOTS_PER_NODE: usize = 16;

/// Worker identifiers start here, so that they all print at the same width.
pub const FIRST_PROCESS_WORKER_ID: u64 = 100;

/// What the process scheduler records about one spawned worker.
pub struct ProcessWorker {
    pub job_id: String,
    pub run_id: i64,
}

/// The process scheduler's table of running workers and its counter for
/// fresh worker identifiers.
pub struct ProcessSchedulerState {
    pub workers: Vec<(WorkerId, ProcessWorker)>,
    pub worker_counter: u64,
}

/// The sum of a bucket list.
pub open spec fn sum_groups(s: Seq<usize>) -> int
    decreases s.len(),
{
    if s.len() == 0 {
        0
    } else {
        sum_groups(s.drop_last()) + s.last()
    }
}

/// Splits a requested slot count into the per-worker buckets: as many full
/// buckets of `SLOTS_PER_NODE` as fit, and one worker for the rest.
pub fn slot_groups(slots: usize) -> (r: Vec<usize>)
    ensures
        sum_groups(r@) == slots,
        forall|i: int| 0 <= i < r@.len() ==> 1 <= #[trigger] r@[i] <= SLOTS_PER_NODE,
        forall|i: int| 0 <= i < r@.len() - 1 ==> #[trigger] r@[i] == SLOTS_PER_NODE,
        r@.len() == (slots + SLOTS_PER_NODE - 1) as int / SLOTS_PER_NODE as int,
{
    let mut groups: Vec<usize> = Vec::new();
    let mut remaining = slots;
    while remaining >= SLOTS_PER_NODE
        invariant
            sum_groups(groups@) == slots - remaining,
            forall|i: int| 0 <= i < groups@.len() ==> #[trigger] groups@[i] == SLOTS_PER_NODE,
            groups@.len() * SLOTS_PER_NODE == slots - remaining,
        decreases remaining,
    {
        proof {
            assert(groups@.push(SLOTS_PER_NODE).drop_last() =~= groups@);
        }
        groups.push(SLOTS_PER_NODE);
        remaining = remaining - SLOTS_PER_NODE;
    }
    if remaining > 0 {
        proof {
            assert(groups@.push(remaining).drop_last() =~= groups@);
        }
        groups.push(remaining);
    }
    proof {
        let n = groups@.len();
        let sp = SLOTS_PER_NODE as int;
        if remaining > 0 {
            assert((n - 1) * sp == slots - remaining);
            assert(n == (slots + sp - 1) / sp) by (nonlinear_arith)
                requires
                    (n - 1) * sp == slots - remaining,
                    0 < remaining < sp,
                    n >= 1,
                    sp == 16,
            ;
        } else {
            assert(n == (slots + sp - 1) / sp) by (nonlinear_arith)
                requires
                    n * sp == slots,
                    sp == 16,
                    slots >= 0,
            ;
        }
    }
    groups
}

/// Whether the worker table has an entry for the worker.
pub open spec fn proc_workers_contain(s: Seq<(WorkerId, ProcessWorker)>, w: WorkerId) -> bool {
    exists|i: int| 0 <= i < s.len() && s[i].0 == w
}

/// Whether `x` occurs in the worker table `s`.
pub open spec fn worker_elem_of(x: (WorkerId, ProcessWorker), s: Seq<(WorkerId, ProcessWorker)>) -> bool {
    exists|j: int| 0 <= j < s.len() && s[j] == x
}

/// The entries a stop keeps are entries of the original table, with their
/// identifiers still distinct.
proof fn lemma_other_workers_kept(
    s: Seq<(WorkerId, ProcessWorker)>,
    job_id: Seq<char>,
    run_id: Option<i64>,
)
    requires
        forall|i: int, j: int| 0 <= i < j < s.len() ==> s[i].0 != s[j].0,
    ensures
        forall|i: int|
            0 <= i < ProcessSchedulerState::other_workers(s, job_id, run_id).len()
                ==> worker_elem_of(
                #[trigger] ProcessSchedulerState::other_workers(s, job_id, run_id)[i],
                s,
            ),
        forall|i: int, j: int|
            0 <= i < j < ProcessSchedulerState::other_workers(s, job_id, run_id).len()
                ==> ProcessSchedulerState::other_workers(s, job_id, run_id)[i].0
                != ProcessSchedulerState::other_workers(s, job_id, run_id)[j].0,
    decreases s.len(),
{
    if s.len() > 0 {
        let prefix = s.drop_last();
        lemma_other_workers_kept(prefix, job_id, run_id);
        let kept = ProcessSchedulerState::other_workers(s, job_id, run_id);
        let rest = ProcessSchedulerState::other_workers(prefix, job_id, run_id);
        assert forall|i: int| 0 <= i < kept.len() implies worker_elem_of(
            #[trigger] kept[i],
            s,
        ) by {
            if i < rest.len() {
                assert(worker_elem_of(rest[i], prefix));
                let j = choose|j: int| 0 <= j < prefix.len() && prefix[j] == rest[i];
                assert(s[j] == rest[i]);
            } else {
                assert(s[s.len() - 1] == kept[i]);
            }
        }
        assert forall|i: int, j: int| 0 <= i < j < kept.len() implies kept[i].0 != kept[j].0 by {
            if j < rest.len() {
            } else if !ProcessSchedulerState::worker_matches(s.last().1, job_id, run_id) {
                assert(worker_elem_of(rest[i], prefix));
                let a = choose|a: int| 0 <= a < prefix.len() && prefix[a] == rest[i];
                assert(s[a].0 != s[s.len() - 1].0);
            }
        }
    }
}

impl ProcessSchedulerState {
    /// Worker identifiers are distinct and below the counter.
    pub open spec fn wf(self) -> bool {
        &&& forall|i: int, j: int|
            0 <= i < j < self.workers@.len() ==> self.workers@[i].0 != self.workers@[j].0
        &&& forall|i: int|
            0 <= i < self.workers@.len() ==> (#[trigger] self.workers@[i].0).0
                < self.worker_counter
    }

    /// A fresh scheduler with no workers.
    pub fn new() -> (r: ProcessSchedulerState)
        ensures
            r.wf(),
            r.workers@.len() == 0,
            r.worker_counter == FIRST_PROCESS_WORKER_ID,
    {
        ProcessSchedulerState { workers: Vec::new(), worker_counter: FIRST_PROCESS_WORKER_ID }
    }

    /// Records one spawned worker under a fresh identifier.
    pub fn add_worker(&mut self, job_id: String, run_id: i64) -> (r: WorkerId)
        requires
            old(self).wf(),
            old(self).worker_counter < u64::MAX,
        ensures
            final(self).wf(),
            r == WorkerId(old(self).worker_counter),
            !proc_workers_contain(old(self).workers@, r),
            final(self).worker_counter == old(self).worker_counter + 1,
            final(self).workers@.len() == old(self).workers@.len() + 1,
            final(self).workers@.drop_last() == old(self).workers@,
            final(self).workers@.last().0 == r,
            final(self).workers@.last().1.job_id@ == job_id@,
            final(self).workers@.last().1.run_id == run_id,
    {
        let id = WorkerId(self.worker_counter);
        self.worker_counter = self.worker_counter + 1;
        self.workers.push((id, ProcessWorker { job_id, run_id }));
        proof {
            assert(self.workers@.drop_last() =~= old(self).workers@);
        }
        id
    }

    /// Whether a worker's record matches a job and, when given, a run.
    pub open spec fn worker_matches(
        w: ProcessWorker,
        job_id: Seq<char>,
        run_id: Option<i64>,
    ) -> bool {
        &&& w.job_id@ == job_id
        &&& (run_id is None || run_id == Some(w.run_id))
    }

    /// The identifiers of the workers of a table that match a job and run,
    /// in table order.
    pub open spec fn matching_workers(
        s: Seq<(WorkerId, ProcessWorker)>,
        job_id: Seq<char>,
        run_id: Option<i64>,
    ) -> Seq<WorkerId>
        decreases s.len(),
    {
        if s.len() == 0 {
            Seq::empty()
        } else {
            let rest = Self::matching_workers(s.drop_last(), job_id, run_id);
            if Self::worker_matches(s.last().1, job_id, run_id) {
                rest.push(s.last().0)
            } else {
                rest
            }
        }
    }

    /// The workers of a job (and, when given, one run of it).
    pub fn workers_for_job(&self, job_id: &String, run_id: Option<i64>) -> (r: Vec<WorkerId>)
        ensures
            r@ == Self::matching_workers(self.workers@, job_id@, run_id),
    {
        let mut r: Vec<WorkerId> = Vec::new();
        let mut i: usize = 0;
        let n = self.workers.len();
        while i < n
            invariant
                n == self.workers@.len(),
                i <= n,
                r@ == Self::matching_workers(self.workers@.take(i as int), job_id@, run_id),
            decreases n - i,
        {
            proof {
                assert(self.workers@.take(i as int + 1).drop_last() =~= self.workers@.take(
                    i as int,
                ));
                assert(self.workers@.take(i as int + 1).last() == self.workers@[i as int]);
            }
            let entry = &self.workers[i];
            let matches_run = match run_id {
                Option::None => true,
                Option::Some(rid) => entry.1.run_id == rid,
            };
            if matches_run && entry.1.job_id.eq(job_id) {
                r.push(entry.0);
            }
            i = i + 1;
        }
        proof {
            assert(self.workers@.take(n as int) =~= self.workers@);
        }
        r
    }

    /// The worker entries that do not match a job and run, in table order.
    pub open spec fn other_workers(
        s: Seq<(WorkerId, ProcessWorker)>,
        job_id: Seq<char>,
        run_id: Option<i64>,
    ) -> Seq<(WorkerId, ProcessWorker)>
        decreases s.len(),
    {
        if s.len() == 0 {
            Seq::empty()
        } else {
            let rest = Self::other_workers(s.drop_last(), job_id, run_id);
            if Self::worker_matches(s.last().1, job_id, run_id) {
                rest
            } else {
                rest.push(s.last())
            }
        }
    }

    /// Stops a job (or one run of it) under the process scheduler: takes
    /// every matching worker out of the table and hands back their
    /// identifiers, so the caller can deliver each one's shutdown signal.
    pub fn remove_workers_for_job(&mut self, job_id: &String, run_id: Option<i64>) -> (r: Vec<
        WorkerId,
    >)
        requires
            old(self).wf(),
        ensures
            final(self).wf(),
            final(self).worker_counter == old(self).worker_counter,
            r@ == Self::matching_workers(old(self).workers@, job_id@, run_id),
            final(self).workers@ == Self::other_workers(old(self).workers@, job_id@, run_id),
    {
        let ghost orig = self.workers@;
        let mut pending: Vec<(WorkerId, ProcessWorker)> = Vec::new();
        core::mem::swap(&mut self.workers, &mut pending);
        let mut removed: Vec<WorkerId> = Vec::new();
        let mut k: usize = 0;
        let n = pending.len();
        proof {
            assert(pending@ =~= orig.skip(0));
            assert(self.workers@ =~= Self::other_workers(orig.take(0), job_id@, run_id));
            assert(removed@ =~= Self::matching_workers(orig.take(0), job_id@, run_id));
        }
        while k < n
            invariant
                old(self).wf(),
                n == orig.len(),
                k <= n,
                pending@ == orig.skip(k as int),
                self.worker_counter == old(self).worker_counter,
                self.workers@ == Self::other_workers(orig.take(k as int), job_id@, run_id),
                removed@ == Self::matching_workers(orig.take(k as int), job_id@, run_id),
            decreases n - k,
        {
            proof {
                assert(orig.skip(k as int)[0] == orig[k as int]);
                assert(orig.skip(k as int).remove(0) =~= orig.skip(k as int + 1));
                assert(orig.take(k as int + 1).drop_last() =~= orig.take(k as int));
                assert(orig.take(k as int + 1).last() == orig[k as int]);
            }
            let entry = pending.remove(0);
            let matches_run = match run_id {
                Option::None => true,
                Option::Some(rid) => entry.1.run_id == rid,
            };
            if matches_run && entry.1.job_id.eq(job_id) {
                removed.push(entry.0);
            } else {
                self.workers.push(entry);
            }
            k = k + 1;
        }
        proof {
            assert(orig.take(n as int) =~= orig);
            lemma_other_workers_kept(orig, job_id@, run_id);
            assert forall|a: int|
                0 <= a < self.workers@.len() implies (#[trigger] self.workers@[a].0).0
                < self.worker_counter by {
                assert(worker_elem_of(self.workers@[a], orig));
                let j = choose|j: int| 0 <= j < orig.len() && orig[j] == self.workers@[a];
                assert(orig[j].0.0 < old(self).worker_counter);
            }
        }
        removed
    }

    /// Takes a worker's record out of the table, on process exit or on
    /// stop. Whether it was there is the result.
    pub fn remove_worker(&mut self, worker_id: WorkerId) -> (r: bool)
        requires
            old(self).wf(),
        ensures
            final(self).wf(),
            final(self).worker_counter == old(self).worker_counter,
            r == proc_workers_contain(old(self).workers@, worker_id),
            if r {
                exists|i: int|
                    {
                        &&& 0 <= i < old(self).workers@.len()
                        &&& old(self).workers@[i].0 == worker_id
                        &&& final(self).workers@ == old(self).workers@.remove(i)
                    }
            } else {
                final(self).workers@ == old(self).workers@
            },
    {
        let mut i: usize = 0;
        let n = self.workers.len();
        while i < n
            invariant
                old(self).wf(),
                *self == *old(self),
                n == self.workers@.len(),
                i <= n,
                forall|j: int| 0 <= j < i ==> self.workers@[j].0 != worker_id,
            decreases n - i,
        {
            if self.workers[i].0 == worker_id {
                let ghost prev = self.workers@;
                self.workers.remove(i);
                proof {
                    let i = i as int;
                    assert forall|a: int, b: int|
                        0 <= a < b < self.workers@.len() implies self.workers@[a].0
                        != self.workers@[b].0 by {
                        if b < i {
                        } else if a < i {
                            assert(self.workers@[b].0 == prev[b + 1].0);
                        } else {
                            assert(self.workers@[a].0 == prev[a + 1].0);
                            assert(self.workers@[b].0 == prev[b + 1].0);
                        }
                    }
                    assert forall|a: int|
                        0 <= a < self.workers@.len() implies (#[trigger] self.workers@[a].0).0
                        < self.worker_counter by {
                        if a >= i {
                            assert(self.workers@[a] == prev[a + 1]);
                        }
                    }
                }
                return true;
            }
            i = i + 1;
        }
        false
    }
}

} // verus!
