//! Decisions around running jobs: how a batch is split when some of its
//! jobs are invalid, how a batch collector reacts to what it waits on,
//! what happens to a failed job, and how drained jobs are counted.

use std::collections::HashMap;
use vstd::prelude::*;

use crate::results::WorkerResultKind;
use crate::text::{chars_of, extend_chars, string_of};

verus! {

broadcast use vstd::std_specs::hash::group_hash_axioms, vstd::string::group_string_axioms;

/// What running a batch starts with: nothing to run, a worker whose job
/// count differs from the envelopes received (an error), or a run.
#[derive(Debug, PartialEq, Eq)]
pub enum BatchPrecheck {
    Empty,
    Mismatch,
    Run,
}

/// The check before a batch runs: an empty batch finishes at once, and a
/// batch worker must hold exactly one job per envelope.
pub fn batch_precheck(worker_len: usize, envelope_count: usize) -> (r: BatchPrecheck)
    ensures
        r == if envelope_count == 0 {
            BatchPrecheck::Empty
        } else if worker_len != envelope_count {
            BatchPrecheck::Mismatch
        } else {
            BatchPrecheck::Run
        },
{
    if envelope_count == 0 {
        BatchPrecheck::Empty
    } else if worker_len != envelope_count {
        BatchPrecheck::Mismatch
    } else {
        BatchPrecheck::Run
    }
}

/// A job of a batch that could not be built, by its position in the batch.
#[derive(Debug)]
pub struct InvalidBatchJob {
    pub index: usize,
    pub error: String,
}

/// The error of the first invalid entry for position `index`, if any.
pub open spec fn first_invalid_error(invalid: Seq<InvalidBatchJob>, index: usize) -> Option<Seq<char>>
    decreases invalid.len(),
{
    if invalid.len() == 0 {
        None
    } else {
        match first_invalid_error(invalid.drop_last(), index) {
            Some(e) => Some(e),
            None => if invalid.last().index == index { Some(invalid.last().error@) } else { None },
        }
    }
}

/// The error kept for a position is the one of the earliest entry for that
/// position; a position has an error exactly when some entry names it.
pub proof fn lemma_first_invalid_error(invalid: Seq<InvalidBatchJob>, index: usize)
    ensures
        first_invalid_error(invalid, index) is Some <==> exists|j: int| 0 <= j < invalid.len() && (#[trigger] invalid[j]).index == index,
        first_invalid_error(invalid, index) matches Some(e) ==> exists|j: int|
            0 <= j < invalid.len() && (#[trigger] invalid[j]).index == index && invalid[j].error@ == e
                && forall|k: int| 0 <= k < j ==> (#[trigger] invalid[k]).index != index,
    decreases invalid.len(),
{
    if invalid.len() > 0 {
        let d = invalid.drop_last();
        lemma_first_invalid_error(d, index);
        let last = invalid.len() - 1;
        assert(invalid.last() == invalid[last]);
        match first_invalid_error(d, index) {
            Some(e) => {
                let j = choose|j: int| 0 <= j < d.len() && (#[trigger] d[j]).index == index && d[j].error@ == e
                    && forall|k: int| 0 <= k < j ==> (#[trigger] d[k]).index != index;
                assert(invalid[j] == d[j]);
                assert forall|k: int| 0 <= k < j implies (#[trigger] invalid[k]).index != index by {
                    assert(invalid[k] == d[k]);
                }
            },
            None => {
                assert forall|k: int| 0 <= k < last implies (#[trigger] invalid[k]).index != index by {
                    assert(invalid[k] == d[k]);
                    if invalid[k].index == index {
                        assert(d[k].index == index);
                    }
                }
                if exists|j: int| 0 <= j < invalid.len() && (#[trigger] invalid[j]).index == index {
                    let j = choose|j: int| 0 <= j < invalid.len() && (#[trigger] invalid[j]).index == index;
                    assert(j == last);
                }
            },
        }
    }
}

/// The invalid jobs of a batch of `envelope_count` jobs by position: the
/// first error given for each position inside the batch; positions past
/// the end are ignored.
pub fn invalid_jobs_by_index(invalid_jobs: Vec<InvalidBatchJob>, envelope_count: usize) -> (m: HashMap<usize, String>)
    ensures
        forall|i: usize| #[trigger] m@.contains_key(i) <==> (i < envelope_count && first_invalid_error(invalid_jobs@, i) is Some),
        forall|i: usize| #[trigger] m@.contains_key(i) ==> first_invalid_error(invalid_jobs@, i) == Some(m@[i]@),
        forall|i: usize| #[trigger] m@.contains_key(i) <==> (i < envelope_count && exists|j: int|
            0 <= j < invalid_jobs@.len() && (#[trigger] invalid_jobs@[j]).index == i),
        forall|i: usize| #[trigger] m@.contains_key(i) ==> exists|j: int|
            0 <= j < invalid_jobs@.len() && (#[trigger] invalid_jobs@[j]).index == i && invalid_jobs@[j].error@ == m@[i]@
                && forall|k: int| 0 <= k < j ==> (#[trigger] invalid_jobs@[k]).index != i,
{
    let ghost inv = invalid_jobs@;
    let mut m: HashMap<usize, String> = HashMap::new();
    let mut invalid_jobs = invalid_jobs;
    let mut rest: Vec<InvalidBatchJob> = Vec::new();
    let n = invalid_jobs.len();
    let mut k: usize = 0;
    // Walk the entries in order, keeping the first error per position.
    while k < n
        invariant
            k <= n,
            n == inv.len(),
            invalid_jobs@ == inv,
            forall|i: usize| #[trigger] m@.contains_key(i) <==> (i < envelope_count && first_invalid_error(inv.take(k as int), i) is Some),
            forall|i: usize| #[trigger] m@.contains_key(i) ==> first_invalid_error(inv.take(k as int), i) == Some(m@[i]@),
        decreases n - k,
    {
        let idx = invalid_jobs[k].index;
        assert(inv.take(k + 1).drop_last() =~= inv.take(k as int));
        assert(inv.take(k + 1).last() == inv[k as int]);
        if idx < envelope_count && !m.contains_key(&idx) {
            let err = invalid_jobs[k].error.clone();
            m.insert(idx, err);
        }
        k = k + 1;
    }
    assert(inv.take(n as int) =~= inv);
    proof {
        assert forall|i: usize| #[trigger] m@.contains_key(i) <==> (i < envelope_count && exists|j: int|
            0 <= j < inv.len() && (#[trigger] inv[j]).index == i) by {
            lemma_first_invalid_error(inv, i);
        }
        assert forall|i: usize| #[trigger] m@.contains_key(i) implies exists|j: int|
            0 <= j < inv.len() && (#[trigger] inv[j]).index == i && inv[j].error@ == m@[i]@
                && forall|k: int| 0 <= k < j ==> (#[trigger] inv[k]).index != i by {
            lemma_first_invalid_error(inv, i);
        }
    }
    m
}

/// What happens to one job of a batch before the batch runs.
#[derive(Debug)]
pub enum BatchSlot {
    /// The job runs with the batch.
    Keep,
    /// The job is invalid and killed with this message.
    Kill(String),
}

/// `Invalid job: <worker> - <error>`.
pub open spec fn invalid_job_message(worker: Seq<char>, error: Seq<char>) -> Seq<char> {
    "Invalid job: "@ + worker + " - "@ + error
}

/// The message an invalid job is killed with.
pub fn invalid_job_message_exec(worker: &str, error: &str) -> (r: String)
    ensures
        r@ == invalid_job_message(worker@, error@),
{
    let mut v = chars_of("Invalid job: ");
    extend_chars(&mut v, worker);
    extend_chars(&mut v, " - ");
    extend_chars(&mut v, error);
    string_of(&v)
}

/// For each job of a batch of `count` jobs, in order: kill it with its
/// error when it is invalid, keep it otherwise.
pub fn split_batch(count: usize, worker_name: &str, invalid: &HashMap<usize, String>) -> (r: Vec<BatchSlot>)
    ensures
        r@.len() == count,
        forall|i: int| #![trigger r@[i]] 0 <= i < count ==> match r@[i] {
            BatchSlot::Keep => !invalid@.contains_key(i as usize),
            BatchSlot::Kill(msg) => invalid@.contains_key(i as usize) && msg@ == invalid_job_message(
                worker_name@,
                invalid@[i as usize]@,
            ),
        },
{
    let mut r: Vec<BatchSlot> = Vec::new();
    let mut i: usize = 0;
    while i < count
        invariant
            i <= count,
            r@.len() == i,
            forall|j: int| #![trigger r@[j]] 0 <= j < i ==> match r@[j] {
                BatchSlot::Keep => !invalid@.contains_key(j as usize),
                BatchSlot::Kill(msg) => invalid@.contains_key(j as usize) && msg@ == invalid_job_message(
                    worker_name@,
                    invalid@[j as usize]@,
                ),
            },
        decreases count - i,
    {
        match invalid.get(&i) {
            Some(error) => {
                r.push(BatchSlot::Kill(invalid_job_message_exec(worker_name, error.as_str())));
            },
            None => {
                r.push(BatchSlot::Keep);
            },
        }
        i = i + 1;
    }
    r
}

/// How a worker execution ended, as the executor sees it.
#[derive(Debug, Clone, Copy, PartialEq, Eq, Structural)]
pub enum ExecutionEnd {
    Succeeded,
    /// The worker returned an error.
    Errored,
    /// The worker panicked.
    Panicked,
}

/// The result kind reported for an execution.
pub fn result_kind(end: ExecutionEnd) -> (k: WorkerResultKind)
    ensures
        k == match end {
            ExecutionEnd::Succeeded => WorkerResultKind::Success,
            ExecutionEnd::Errored => WorkerResultKind::Failed,
            ExecutionEnd::Panicked => WorkerResultKind::Panicked,
        },
{
    match end {
        ExecutionEnd::Succeeded => WorkerResultKind::Success,
        ExecutionEnd::Errored => WorkerResultKind::Failed,
        ExecutionEnd::Panicked => WorkerResultKind::Panicked,
    }
}

/// The job count reported for a batch of `len` jobs.
pub fn batch_job_count(len: usize) -> (c: u64)
    ensures
        c == len,
{
    len as u64
}

/// What happens to a job whose execution failed.
#[derive(Debug, Clone, Copy, PartialEq, Eq, Structural)]
pub enum FailureAction {
    /// Retry after `delay_s` seconds.
    Retry { delay_s: u64 },
    /// Move the job to the dead list.
    Kill,
}

/// How often a worker retries a failed job unless it says otherwise.
pub const DEFAULT_MAX_RETRIES: u32 = 2;

/// A failed job is retried while it has been retried fewer times than the
/// limit, and killed once it has used up its retries.
pub fn failure_action(retries: u32, max_retries: u32, retry_delay_s: u64) -> (a: FailureAction)
    ensures
        a == if retries < max_retries {
            FailureAction::Retry { delay_s: retry_delay_s }
        } else {
            FailureAction::Kill
        },
{
    if retries < max_retries {
        FailureAction::Retry { delay_s: retry_delay_s }
    } else {
        FailureAction::Kill
    }
}

/// What happens to each job of a failed batch, given each job's retry count
/// and its policy (max retries, retry delay); jobs and policies are paired
/// by position.
pub open spec fn batch_actions(retries: Seq<u32>, policies: Seq<(u32, u64)>) -> Seq<FailureAction> {
    let n = if retries.len() < policies.len() { retries.len() } else { policies.len() };
    Seq::new(n, |i: int| if retries[i] < policies[i].0 {
        FailureAction::Retry { delay_s: policies[i].1 }
    } else {
        FailureAction::Kill
    })
}

/// The action for each job of a failed batch (see `batch_actions`).
pub fn batch_failure_actions(retries: &Vec<u32>, policies: &Vec<(u32, u64)>) -> (r: Vec<FailureAction>)
    ensures
        r@ == batch_actions(retries@, policies@),
{
    let n = if retries.len() < policies.len() { retries.len() } else { policies.len() };
    let mut r: Vec<FailureAction> = Vec::new();
    let mut i: usize = 0;
    while i < n
        invariant
            i <= n,
            n <= retries@.len(),
            n <= policies@.len(),
            r@ =~= batch_actions(retries@, policies@).take(i as int),
        decreases n - i,
    {
        r.push(failure_action(retries[i], policies[i].0, policies[i].1));
        i = i + 1;
    }
    r
}

/// The delay a failed job waits: the override's answer when it gives one,
/// otherwise the worker's own delay.
pub fn effective_retry_delay(override_delay: Option<u64>, worker_delay: u64) -> (d: u64)
    ensures
        d == match override_delay {
            Some(o) => o,
            None => worker_delay,
        },
{
    match override_delay {
        Some(o) => o,
        None => worker_delay,
    }
}

/// `5^e`.
pub open spec fn pow5(e: nat) -> nat
    decreases e,
{
    if e == 0 { 1 } else { 5 * pow5((e - 1) as nat) }
}

/// The default retry delay in seconds: `5^(retries + 2)`, so 25 s after
/// the first failure, then 125 s, 625 s and so on.
pub fn default_retry_delay(retries: u32) -> (d: u64)
    requires
        retries <= 25,
    ensures
        d == pow5((retries + 2) as nat),
{
    let mut d: u64 = 25;
    let mut k: u32 = 0;
    assert(pow5(2) == 25) by {
        reveal_with_fuel(pow5, 3);
    }
    while k < retries
        invariant
            k <= retries <= 25,
            d == pow5((k + 2) as nat),
        decreases retries - k,
    {
        proof {
            lemma_pow5_bound((k + 3) as nat);
        }
        d = d * 5;
        k = k + 1;
    }
    d
}

proof fn lemma_pow5_bound(e: nat)
    requires
        e <= 27,
    ensures
        pow5(e) <= 7450580596923828125,
    decreases 27 - e,
{
    if e == 27 {
        reveal_with_fuel(pow5, 28);
    } else {
        lemma_pow5_bound(e + 1);
        assert(pow5(e + 1) == 5 * pow5(e));
    }
}

/// How one drained job ended.
#[derive(Debug, Clone, Copy, PartialEq, Eq, Structural)]
pub enum DrainOutcome {
    Success,
    Failed,
    /// The job id was in the queue but the job was not stored.
    Missing,
}

/// Counts of a drain run.
#[derive(Debug, Default, Clone, Copy)]
pub struct DrainStats {
    pub processed: u64,
    pub succeeded: u64,
    pub failed: u64,
    pub missing: u64,
}

impl DrainStats {
    /// Counts one drained job: it is processed, and counted under how it
    /// ended.
    pub fn record(&mut self, outcome: DrainOutcome)
        requires
            old(self).processed < u64::MAX,
            old(self).succeeded < u64::MAX,
            old(self).failed < u64::MAX,
            old(self).missing < u64::MAX,
        ensures
            final(self).processed == old(self).processed + 1,
            final(self).succeeded == old(self).succeeded + if outcome == DrainOutcome::Success { 1int } else { 0int },
            final(self).failed == old(self).failed + if outcome == DrainOutcome::Failed { 1int } else { 0int },
            final(self).missing == old(self).missing + if outcome == DrainOutcome::Missing { 1int } else { 0int },
    {
        match outcome {
            DrainOutcome::Success => self.succeeded = self.succeeded + 1,
            DrainOutcome::Failed => self.failed = self.failed + 1,
            DrainOutcome::Missing => self.missing = self.missing + 1,
        }
        self.processed = self.processed + 1;
    }
}

/// What jobs are batched by: the worker that runs them and their queue.
#[derive(Debug, Clone, PartialEq, Eq, Hash)]
pub struct BatchKey {
    pub worker: String,
    pub queue: String,
}

impl BatchKey {
    /// The batch a job joins: its job name and its queue.
    pub fn from_envelope(job_name: &String, queue: &String) -> (k: BatchKey)
        ensures
            k.worker@ == job_name@,
            k.queue@ == queue@,
    {
        BatchKey { worker: job_name.clone(), queue: queue.clone() }
    }
}

} // verus!
