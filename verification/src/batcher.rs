//! The batch collector of a batch worker as a state machine: it gathers
//! jobs until a batch is full or a timeout passes, and on shutdown drains
//! what is left. The event loop that waits for jobs, timers and the
//! shutdown signal feeds it events and carries out its actions.

use vstd::prelude::*;

verus! {

/// Where the collector stands.
#[derive(Debug, Clone, Copy, PartialEq, Eq, Structural)]
pub enum BatcherPhase {
    /// Nothing pending; waiting for a first job.
    Idle,
    /// Jobs pending; waiting for more until the batch timeout.
    Collecting,
    /// Shutting down: taking the jobs still in the channel.
    Draining,
    /// Finished.
    Done,
}

/// Collector state: the phase and the number of jobs pending.
#[derive(Debug, Clone, Copy)]
pub struct BatcherState {
    pub phase: BatcherPhase,
    pub pending: usize,
    /// Largest batch to run.
    pub batch_size: usize,
    /// Whether the batch timeout is zero (every job runs as soon as it arrives).
    pub zero_timeout: bool,
}

/// What the collector waited for.
#[derive(Debug, Clone, Copy, PartialEq, Eq, Structural)]
pub enum BatcherEvent {
    /// A job arrived.
    Job,
    /// The job channel is closed and empty.
    Closed,
    /// The batch timeout passed.
    Timeout,
    /// Shutdown was requested.
    Cancelled,
}

/// What the event loop does after an event.
#[derive(Debug, Clone, Copy, PartialEq, Eq, Structural)]
pub enum BatcherAction {
    /// Nothing; keep waiting.
    Wait,
    /// Start the batch timer.
    StartTimer,
    /// Run the pending jobs as one batch of this many.
    SpawnBatch(usize),
    /// Close the job channel and keep taking what is left in it.
    CloseChannel,
}

/// A fresh collector.
pub open spec fn batcher_init(batch_size: usize, zero_timeout: bool) -> BatcherState {
    BatcherState { phase: BatcherPhase::Idle, pending: 0, batch_size, zero_timeout }
}

/// The collector's invariant: only an idle or finished collector has no
/// pending jobs, and nothing waits beyond a full batch.
pub open spec fn batcher_wf(s: BatcherState) -> bool {
    &&& (s.phase == BatcherPhase::Idle || s.phase == BatcherPhase::Done) ==> s.pending == 0
    &&& s.phase == BatcherPhase::Collecting ==> 0 < s.pending
    &&& s.pending < (if s.batch_size == 0 { 1 } else { s.batch_size })
}

/// One step of the collector.
pub open spec fn batcher_next(s: BatcherState, e: BatcherEvent) -> (BatcherState, BatcherAction) {
    match s.phase {
        BatcherPhase::Idle => match e {
            BatcherEvent::Job => if 1 >= s.batch_size || s.zero_timeout {
                (s, BatcherAction::SpawnBatch(1))
            } else {
                (BatcherState { phase: BatcherPhase::Collecting, pending: 1, ..s }, BatcherAction::StartTimer)
            },
            BatcherEvent::Closed => (BatcherState { phase: BatcherPhase::Done, ..s }, BatcherAction::Wait),
            BatcherEvent::Cancelled => (BatcherState { phase: BatcherPhase::Draining, ..s }, BatcherAction::CloseChannel),
            BatcherEvent::Timeout => (s, BatcherAction::Wait),
        },
        BatcherPhase::Collecting => match e {
            BatcherEvent::Job => if s.pending + 1 >= s.batch_size {
                (BatcherState { phase: BatcherPhase::Idle, pending: 0, ..s }, BatcherAction::SpawnBatch((s.pending + 1) as usize))
            } else {
                (BatcherState { pending: (s.pending + 1) as usize, ..s }, BatcherAction::Wait)
            },
            BatcherEvent::Closed => (BatcherState { phase: BatcherPhase::Done, pending: 0, ..s }, BatcherAction::SpawnBatch(s.pending)),
            BatcherEvent::Timeout => (BatcherState { phase: BatcherPhase::Idle, pending: 0, ..s }, BatcherAction::SpawnBatch(s.pending)),
            BatcherEvent::Cancelled => (BatcherState { phase: BatcherPhase::Draining, ..s }, BatcherAction::CloseChannel),
        },
        BatcherPhase::Draining => match e {
            BatcherEvent::Job => if s.pending + 1 >= s.batch_size {
                (BatcherState { pending: 0, ..s }, BatcherAction::SpawnBatch((s.pending + 1) as usize))
            } else {
                (BatcherState { pending: (s.pending + 1) as usize, ..s }, BatcherAction::Wait)
            },
            BatcherEvent::Closed => if s.pending > 0 {
                (BatcherState { phase: BatcherPhase::Done, pending: 0, ..s }, BatcherAction::SpawnBatch(s.pending))
            } else {
                (BatcherState { phase: BatcherPhase::Done, ..s }, BatcherAction::Wait)
            },
            _ => (s, BatcherAction::Wait),
        },
        BatcherPhase::Done => (s, BatcherAction::Wait),
    }
}

impl BatcherState {
    pub fn new(batch_size: usize, zero_timeout: bool) -> (s: Self)
        ensures
            s == batcher_init(batch_size, zero_timeout),
            batcher_wf(s),
    {
        BatcherState { phase: BatcherPhase::Idle, pending: 0, batch_size, zero_timeout }
    }

    /// Takes one event (see `batcher_next`).
    pub fn step(&mut self, e: BatcherEvent) -> (a: BatcherAction)
        requires
            batcher_wf(*old(self)),
        ensures
            (*final(self), a) == batcher_next(*old(self), e),
            batcher_wf(*final(self)),
            e == BatcherEvent::Cancelled && old(self).phase != BatcherPhase::Done ==> final(self).phase
                == BatcherPhase::Draining,
            e == BatcherEvent::Cancelled && old(self).phase != BatcherPhase::Done && old(self).phase
                != BatcherPhase::Draining ==> a == BatcherAction::CloseChannel,
            final(self).phase == BatcherPhase::Done && old(self).phase != BatcherPhase::Done ==> e == BatcherEvent::Closed,
            final(self).pending == old(self).pending || a is SpawnBatch || e == BatcherEvent::Job,
    {
        match self.phase {
            BatcherPhase::Idle => match e {
                BatcherEvent::Job => {
                    if 1 >= self.batch_size || self.zero_timeout {
                        BatcherAction::SpawnBatch(1)
                    } else {
                        self.phase = BatcherPhase::Collecting;
                        self.pending = 1;
                        BatcherAction::StartTimer
                    }
                },
                BatcherEvent::Closed => {
                    self.phase = BatcherPhase::Done;
                    BatcherAction::Wait
                },
                BatcherEvent::Cancelled => {
                    self.phase = BatcherPhase::Draining;
                    BatcherAction::CloseChannel
                },
                BatcherEvent::Timeout => BatcherAction::Wait,
            },
            BatcherPhase::Collecting => match e {
                BatcherEvent::Job => {
                    let n = self.pending + 1;
                    if n >= self.batch_size {
                        self.phase = BatcherPhase::Idle;
                        self.pending = 0;
                        BatcherAction::SpawnBatch(n)
                    } else {
                        self.pending = n;
                        BatcherAction::Wait
                    }
                },
                BatcherEvent::Closed => {
                    let n = self.pending;
                    self.phase = BatcherPhase::Done;
                    self.pending = 0;
                    BatcherAction::SpawnBatch(n)
                },
                BatcherEvent::Timeout => {
                    let n = self.pending;
                    self.phase = BatcherPhase::Idle;
                    self.pending = 0;
                    BatcherAction::SpawnBatch(n)
                },
                BatcherEvent::Cancelled => {
                    self.phase = BatcherPhase::Draining;
                    BatcherAction::CloseChannel
                },
            },
            BatcherPhase::Draining => match e {
                BatcherEvent::Job => {
                    let n = self.pending + 1;
                    if n >= self.batch_size {
                        self.pending = 0;
                        BatcherAction::SpawnBatch(n)
                    } else {
                        self.pending = n;
                        BatcherAction::Wait
                    }
                },
                BatcherEvent::Closed => {
                    let n = self.pending;
                    self.phase = BatcherPhase::Done;
                    if n > 0 {
                        self.pending = 0;
                        BatcherAction::SpawnBatch(n)
                    } else {
                        BatcherAction::Wait
                    }
                },
                _ => BatcherAction::Wait,
            },
            BatcherPhase::Done => BatcherAction::Wait,
        }
    }
}

/// Jobs an event brings in.
pub open spec fn jobs_in(e: BatcherEvent) -> nat {
    if e == BatcherEvent::Job { 1 } else { 0 }
}

/// Jobs an action hands to a batch.
pub open spec fn jobs_out(a: BatcherAction) -> nat {
    match a {
        BatcherAction::SpawnBatch(n) => n as nat,
        _ => 0,
    }
}

/// No job is lost or duplicated while the collector runs: what was
/// pending plus what arrives is what is handed to batches plus what stays
/// pending.
pub proof fn lemma_batcher_conserves_jobs(s: BatcherState, e: BatcherEvent)
    requires
        batcher_wf(s),
        s.phase != BatcherPhase::Done,
    ensures
        s.pending + jobs_in(e) == jobs_out(batcher_next(s, e).1) + batcher_next(s, e).0.pending,
{
}

/// Every batch holds at least one job and at most the batch size (one
/// job when the batch size is zero).
pub proof fn lemma_batches_bounded(s: BatcherState, e: BatcherEvent)
    requires
        batcher_wf(s),
    ensures
        match batcher_next(s, e).1 {
            BatcherAction::SpawnBatch(n) => 1 <= n <= (if s.batch_size == 0 { 1 } else { s.batch_size }),
            _ => true,
        },
{
}

/// A finished collector holds no jobs, and stays finished.
pub proof fn lemma_done_holds_nothing(s: BatcherState, e: BatcherEvent)
    requires
        batcher_wf(s),
        batcher_next(s, e).0.phase == BatcherPhase::Done,
    ensures
        batcher_next(s, e).0.pending == 0,
        batcher_next(batcher_next(s, e).0, e).0 == batcher_next(s, e).0,
{
}

/// Once shutdown starts, the collector never takes a timeout or starts a
/// timer again.
pub proof fn lemma_draining_never_waits_on_timer(s: BatcherState, e: BatcherEvent)
    requires
        batcher_wf(s),
        s.phase == BatcherPhase::Draining,
    ensures
        batcher_next(s, e).0.phase == BatcherPhase::Draining || batcher_next(s, e).0.phase == BatcherPhase::Done,
        batcher_next(s, e).1 != BatcherAction::StartTimer,
{
}

/// Shutdown drains: a shutdown request to a running collector closes the
/// job channel (unless it is already draining) and keeps collecting what
/// is left in it; only the end of the channel finishes the collector, so
/// no job still in the channel is left behind.
pub proof fn lemma_shutdown_drains(s: BatcherState, e: BatcherEvent)
    requires
        batcher_wf(s),
        s.phase != BatcherPhase::Done,
    ensures
        e == BatcherEvent::Cancelled ==> batcher_next(s, e).0.phase == BatcherPhase::Draining,
        e == BatcherEvent::Cancelled && s.phase != BatcherPhase::Draining ==> batcher_next(s, e).1
            == BatcherAction::CloseChannel,
        e == BatcherEvent::Cancelled ==> batcher_next(s, e).0.pending == s.pending,
        batcher_next(s, e).0.phase == BatcherPhase::Done ==> e == BatcherEvent::Closed,
{
}

} // verus!
