//! Outcomes of worker executions and the process-wide counters kept from
//! them.

use vstd::prelude::*;

use crate::metrics::sat_add;

verus! {

/// How an execution ended.
#[derive(Clone, Copy, Debug, PartialEq, Eq, Structural)]
pub enum WorkerResultKind {
    Success,
    Panicked,
    Failed,
}

/// The outcome of one worker execution (one job, or one batch of jobs).
#[derive(Debug)]
pub struct WorkerResult {
    pub kind: WorkerResultKind,
    pub worker_name: String,
    pub queue: String,
    pub execution_ms: u64,
    pub job_count: u64,
}

/// Counters over all executions seen by this process.
#[derive(Debug, Default, Clone, Copy)]
pub struct Stats {
    pub processed: u64,
    pub succeeded: u64,
    pub panicked: u64,
    pub failed: u64,
}

/// The counters after one more result: every job of the result is
/// processed; successes count as succeeded, panics as panicked and failed,
/// failures as failed. All additions saturate.
pub open spec fn stats_after(s: Stats, kind: WorkerResultKind, job_count: u64) -> Stats {
    let processed = sat_add(s.processed, job_count);
    match kind {
        WorkerResultKind::Success => Stats {
            processed,
            succeeded: sat_add(s.succeeded, job_count),
            ..s
        },
        WorkerResultKind::Panicked => Stats {
            processed,
            panicked: sat_add(s.panicked, job_count),
            failed: sat_add(s.failed, job_count),
            ..s
        },
        WorkerResultKind::Failed => Stats {
            processed,
            failed: sat_add(s.failed, job_count),
            ..s
        },
    }
}

/// Adding `job_count` to any counter stays within `u64`.
pub open spec fn no_counter_overflow(s: Stats, job_count: u64) -> bool {
    &&& s.processed + job_count <= u64::MAX
    &&& s.succeeded + job_count <= u64::MAX
    &&& s.panicked + job_count <= u64::MAX
    &&& s.failed + job_count <= u64::MAX
}

/// How the counters grow with one result of `job_count` jobs: processed
/// grows by `job_count`, and so does exactly one of succeeded (a success)
/// or failed (a failure or a panic); panicked grows with panics alone.
pub open spec fn counts_grown(before: Stats, after: Stats, kind: WorkerResultKind, job_count: u64) -> bool {
    &&& after.processed - before.processed == job_count
    &&& (after.succeeded - before.succeeded) + (after.failed - before.failed) == job_count
    &&& (kind == WorkerResultKind::Success) ==> after.succeeded - before.succeeded == job_count
    &&& (kind != WorkerResultKind::Success) ==> after.failed - before.failed == job_count
    &&& after.panicked - before.panicked == if kind == WorkerResultKind::Panicked { job_count as int } else { 0 }
}

/// Every job of a result is counted once as processed and once as either
/// succeeded or failed, whatever the kind of the result, while no counter
/// overflows; a panic is also counted as panicked.
pub proof fn lemma_stats_count_each_job(s: Stats, kind: WorkerResultKind, job_count: u64)
    requires
        no_counter_overflow(s, job_count),
    ensures
        counts_grown(s, stats_after(s, kind, job_count), kind, job_count),
{
}

impl Stats {
    /// Counts one result; returns the processed count afterwards and whether
    /// it has reached `exit_when_processed` (when that limit is set), which
    /// is when the process stops taking new work.
    pub fn record(&mut self, kind: WorkerResultKind, job_count: u64, exit_when_processed: Option<u64>)
        -> (r: (u64, bool))
        ensures
            *final(self) == stats_after(*old(self), kind, job_count),
            no_counter_overflow(*old(self), job_count) ==> counts_grown(*old(self), *final(self), kind, job_count),
            r.0 == final(self).processed,
            r.1 == match exit_when_processed {
                Some(limit) => final(self).processed >= limit,
                None => false,
            },
    {
        self.processed = self.processed.saturating_add(job_count);
        match kind {
            WorkerResultKind::Success => {
                self.succeeded = self.succeeded.saturating_add(job_count);
            },
            WorkerResultKind::Panicked => {
                self.panicked = self.panicked.saturating_add(job_count);
                self.failed = self.failed.saturating_add(job_count);
            },
            WorkerResultKind::Failed => {
                self.failed = self.failed.saturating_add(job_count);
            },
        }
        let stop = match exit_when_processed {
            Some(limit) => self.processed >= limit,
            None => false,
        };
        (self.processed, stop)
    }
}

} // verus!
