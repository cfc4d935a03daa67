//! Decisions and key names of the Redis storage layer: what to do with an
//! enqueued job, how transient Redis failures are tolerated, which commands
//! flush buffered counters, and the names of the keys involved.

use vstd::prelude::*;

use crate::metrics::{
    BufferedJobMetrics, JobMetricsBuffer, Metric, MetricIdentity, METRICS_RETENTION_SECS,
    HISTOGRAM_BUCKET_COUNT, field_key_chars, histogram_bitfield_increment_args, increment_args,
    metric_field_chars, buffered_key,
};
use crate::text::{lemma_decimal_ascii_digits, lemma_decimal_value, chars_of, decimal, decimal_chars, extend_chars, string_of, utf8, views_of};

verus! {

broadcast use vstd::string::group_string_axioms;

/// Consecutive Redis failures after which a failure is no longer treated
/// as transient.
pub const MAX_CONSECUTIVE_REDIS_FAILURES: u32 = 30;

/// Seconds after which a stored job is considered expired.
pub const JOB_EXPIRE_TIME: i64 = 604800;

/// Seconds without a heartbeat after which a process is considered dead.
pub const RESURRECT_THRESHOLD_SECS: i64 = 5;

/// What a Redis outcome is passed on as, given the count of consecutive
/// failures after it.
pub open spec fn tracked_outcome<T, E>(result: Result<T, E>, failures: u32) -> Result<Option<T>, E> {
    match result {
        Ok(v) => Ok(Some(v)),
        Err(e) => if failures >= MAX_CONSECUTIVE_REDIS_FAILURES { Err(e) } else { Ok(None) },
    }
}

/// Counts consecutive failed Redis operations, shared by the background
/// loops of a process.
#[derive(Debug)]
pub struct RedisFailureTracker {
    consecutive: u32,
}

impl RedisFailureTracker {
    pub closed spec fn failures(&self) -> u32 {
        self.consecutive
    }

    pub fn new() -> (t: Self)
        ensures
            t.failures() == 0,
    {
        RedisFailureTracker { consecutive: 0 }
    }

    /// The number of consecutive failures counted so far.
    pub fn consecutive_failures(&self) -> (r: u32)
        ensures
            r == self.failures(),
    {
        self.consecutive
    }

    /// Passes on the outcome of a Redis operation: a success resets the
    /// count and gives `Ok(Some(value))`; a failure is counted and gives
    /// `Ok(None)` while it is transient, or the error itself once the
    /// count of consecutive failures reaches the limit.
    pub fn track_redis_result<T, E>(&mut self, result: Result<T, E>) -> (r: Result<Option<T>, E>)
        requires
            old(self).failures() < u32::MAX,
        ensures
            final(self).failures() == (if result is Ok { 0 } else { old(self).failures() + 1 }),
            r == tracked_outcome(result, final(self).failures()),
            result is Ok ==> r is Ok && r->Ok_0 is Some,
            result is Err && final(self).failures() < MAX_CONSECUTIVE_REDIS_FAILURES ==> r == Ok::<Option<T>, E>(None),
            result is Err && final(self).failures() >= MAX_CONSECUTIVE_REDIS_FAILURES ==> r is Err,
    {
        match result {
            Ok(v) => {
                if self.consecutive != 0 {
                    self.consecutive = 0;
                }
                Ok(Some(v))
            },
            Err(e) => {
                self.consecutive = self.consecutive + 1;
                if self.consecutive >= MAX_CONSECUTIVE_REDIS_FAILURES {
                    Err(e)
                } else {
                    Ok(None)
                }
            },
        }
    }
}

/// What to do when a unique job with the same id already exists.
#[derive(Debug, Clone, Copy, PartialEq, Eq, Structural)]
pub enum JobConflictStrategy {
    Skip,
    Replace,
}

/// How a job is written when it is enqueued.
#[derive(Debug, Clone, Copy, PartialEq, Eq, Structural)]
pub enum JobEnqueueAction {
    /// Store the job and add it to its queue (or schedule).
    Default,
    /// Leave the existing job alone.
    Skip,
    /// Overwrite the stored job without queueing it again.
    Replace,
}

/// See `job_enqueue_action`.
pub open spec fn enqueue_action_for(unique: bool, job_exists: bool, on_conflict: Option<JobConflictStrategy>) -> JobEnqueueAction {
    if !unique || !job_exists {
        JobEnqueueAction::Default
    } else {
        match on_conflict {
            Some(JobConflictStrategy::Replace) => JobEnqueueAction::Replace,
            _ => JobEnqueueAction::Skip,
        }
    }
}

/// What an enqueue does with a job: a job is stored and queued normally
/// unless it is unique and a job with its id is already stored, whatever
/// its conflict strategy; a stored namesake is replaced only under the
/// `Replace` strategy and is otherwise left alone (`Skip`, also when no
/// strategy is given).
pub proof fn lemma_enqueue_action(unique: bool, job_exists: bool, on_conflict: Option<JobConflictStrategy>)
    ensures
        !job_exists ==> enqueue_action_for(unique, job_exists, on_conflict) == JobEnqueueAction::Default,
        !unique ==> enqueue_action_for(unique, job_exists, on_conflict) == JobEnqueueAction::Default,
        unique && job_exists ==> enqueue_action_for(unique, job_exists, on_conflict) != JobEnqueueAction::Default,
        unique && job_exists ==> (enqueue_action_for(unique, job_exists, on_conflict) == JobEnqueueAction::Replace
            <==> on_conflict == Some(JobConflictStrategy::Replace)),
{
}

/// Only unique jobs are checked for an existing job with the same id.
pub fn needs_existence_check(unique: bool) -> (r: bool)
    ensures
        r == unique,
{
    unique
}

/// The write for an enqueued job: jobs that are not unique, and unique
/// jobs without a stored namesake, are written normally; otherwise the
/// conflict strategy decides, skipping when none is given.
pub fn job_enqueue_action(unique: bool, job_exists: bool, on_conflict: Option<JobConflictStrategy>) -> (a: JobEnqueueAction)
    ensures
        a == enqueue_action_for(unique, job_exists, on_conflict),
        !job_exists ==> a == JobEnqueueAction::Default,
        !unique ==> a == JobEnqueueAction::Default,
        unique && job_exists ==> a != JobEnqueueAction::Default,
        unique && job_exists ==> (a == JobEnqueueAction::Replace <==> on_conflict == Some(JobConflictStrategy::Replace)),
{
    if !unique {
        return JobEnqueueAction::Default;
    }
    if job_exists {
        match on_conflict {
            Some(JobConflictStrategy::Skip) | None => JobEnqueueAction::Skip,
            Some(JobConflictStrategy::Replace) => JobEnqueueAction::Replace,
        }
    } else {
        JobEnqueueAction::Default
    }
}

/// A job whose scheduled time has come goes straight to its queue.
pub fn enqueue_immediately(scheduled_at_micros: i64, now_micros: i64) -> (r: bool)
    ensures
        r == (scheduled_at_micros <= now_micros),
{
    scheduled_at_micros <= now_micros
}

/// The score under which a failed job waits in the retry set: the time,
/// in microseconds, at which it is retried.
pub fn retry_score(now_micros: u64, delay_s: u64) -> (r: u64)
    requires
        now_micros + delay_s * 1_000_000 <= u64::MAX,
    ensures
        r == now_micros + delay_s * 1_000_000,
{
    now_micros + delay_s * 1_000_000
}

/// Paging of job lists.
#[derive(Debug, Clone, Copy)]
pub struct QueueListOpts {
    pub count: usize,
    pub offset: usize,
}

/// The inclusive index range of a page of a Redis list or sorted set:
/// from `offset` to `offset + count - 1`, stopping at `0` when both are
/// zero.
pub fn list_range(opts: &QueueListOpts) -> (r: (isize, isize))
    requires
        opts.offset + opts.count <= isize::MAX,
    ensures
        r.0 == opts.offset,
        r.1 == if opts.offset + opts.count == 0 { 0 } else { opts.offset + opts.count - 1 },
{
    let start = opts.offset as isize;
    let end = opts.offset + opts.count;
    let stop = if end == 0 { 0 } else { end - 1 };
    (start, stop as isize)
}

/// True when `p` is a prefix of `s`.
pub open spec fn has_prefix(s: Seq<char>, p: Seq<char>) -> bool {
    p.len() <= s.len() && s.take(p.len() as int) == p
}

fn starts_with(s: &str, p: &str) -> (r: bool)
    ensures
        r == has_prefix(s@, p@),
{
    let cs = chars_of(s);
    let cp = chars_of(p);
    if cp.len() > cs.len() {
        return false;
    }
    let mut i: usize = 0;
    while i < cp.len()
        invariant
            cs@ == s@,
            cp@ == p@,
            cp@.len() <= cs@.len(),
            i <= cp@.len(),
            forall|j: int| 0 <= j < i ==> cs@[j] == cp@[j],
        decreases cp@.len() - i,
    {
        if cs[i] != cp[i] {
            assert(cs@.take(cp@.len() as int)[i as int] != cp@[i as int]);
            assert(cs@.take(cp@.len() as int) != cp@);
            return false;
        }
        i = i + 1;
    }
    assert(cs@.take(cp@.len() as int) =~= cp@);
    true
}

/// `<a>:<b>`.
pub open spec fn colon_join(a: Seq<char>, b: Seq<char>) -> Seq<char> {
    a + seq![':'] + b
}

fn colon_join_exec(a: &str, b: &str) -> (r: String)
    ensures
        r@ == colon_join(a@, b@),
{
    let mut v = chars_of(a);
    v.push(':');
    extend_chars(&mut v, b);
    string_of(&v)
}

/// The Redis list key of a queue: a key already under the namespace is
/// used as it is, anything else goes under the queue prefix.
pub open spec fn namespaced_queue(namespace: Seq<char>, queue_prefix: Seq<char>, queue: Seq<char>) -> Seq<char> {
    if has_prefix(queue, namespace) {
        queue
    } else {
        colon_join(queue_prefix, queue)
    }
}

pub fn namespace_queue(namespace: &str, queue_prefix: &str, queue: &str) -> (r: String)
    ensures
        r@ == namespaced_queue(namespace@, queue_prefix@, queue@),
{
    if starts_with(queue, namespace) {
        queue.to_string()
    } else {
        colon_join_exec(queue_prefix, queue)
    }
}

/// The list holding the jobs a process is working on.
pub fn processing_queue(processing_queue_prefix: &str, process_id: &str) -> (r: String)
    ensures
        r@ == colon_join(processing_queue_prefix@, process_id@),
{
    colon_join_exec(processing_queue_prefix, process_id)
}

/// Decimal representation of an integer, with a leading `-` when negative.
pub open spec fn signed_decimal(i: int) -> Seq<char> {
    if i < 0 { seq!['-'] + decimal((-i) as nat) } else { decimal(i as nat) }
}

pub fn signed_decimal_chars(i: i64) -> (v: Vec<char>)
    ensures
        v@ == signed_decimal(i as int),
{
    if i < 0 {
        let mag: u64 = ((-(i + 1)) as u64) + 1;
        let d = decimal_chars(mag);
        let mut v: Vec<char> = Vec::new();
        v.push('-');
        let mut k: usize = 0;
        while k < d.len()
            invariant
                k <= d@.len(),
                v@ == seq!['-'] + d@.take(k as int),
            decreases d@.len() - k,
        {
            v.push(d[k]);
            assert(d@.take(k + 1) =~= d@.take(k as int).push(d@[k as int]));
            k = k + 1;
        }
        assert(d@.take(d@.len() as int) =~= d@);
        v
    } else {
        decimal_chars(i as u64)
    }
}

/// `<prefix>:<kind>:<minute>`: the hash of per-minute counters of a kind
/// (`j` job counters, `q` queue lengths, `qc` queue counters).
pub open spec fn minute_key(prefix: Seq<char>, kind: Seq<char>, minute: i64) -> Seq<char> {
    prefix + seq![':'] + kind + seq![':'] + signed_decimal(minute as int)
}

fn minute_key_exec(prefix: &str, kind: &str, minute: i64) -> (r: String)
    ensures
        r@ == minute_key(prefix@, kind@, minute),
{
    let mut v = chars_of(prefix);
    v.push(':');
    extend_chars(&mut v, kind);
    v.push(':');
    let d = signed_decimal_chars(minute);
    let mut k: usize = 0;
    let ghost base = v@;
    while k < d.len()
        invariant
            k <= d@.len(),
            v@ == base + d@.take(k as int),
        decreases d@.len() - k,
    {
        v.push(d[k]);
        assert(d@.take(k + 1) =~= d@.take(k as int).push(d@[k as int]));
        k = k + 1;
    }
    assert(d@.take(d@.len() as int) =~= d@);
    string_of(&v)
}

/// The hash of job counters of a minute.
pub fn metrics_counter_key(metrics_prefix: &str, minute: i64) -> (r: String)
    ensures
        r@ == minute_key(metrics_prefix@, "j"@, minute),
{
    minute_key_exec(metrics_prefix, "j", minute)
}

/// The hash of queue lengths of a minute.
pub fn metrics_queue_length_key(metrics_prefix: &str, minute: i64) -> (r: String)
    ensures
        r@ == minute_key(metrics_prefix@, "q"@, minute),
{
    minute_key_exec(metrics_prefix, "q", minute)
}

/// The hash of queue counters of a minute.
pub fn metrics_queue_counter_key(metrics_prefix: &str, minute: i64) -> (r: String)
    ensures
        r@ == minute_key(metrics_prefix@, "qc"@, minute),
{
    minute_key_exec(metrics_prefix, "qc", minute)
}

/// `<prefix>:h:<field key>:<minute>`: the execution-time histogram of a
/// worker in a minute.
pub open spec fn histogram_key(prefix: Seq<char>, worker: Seq<char>, minute: i64) -> Seq<char> {
    prefix + seq![':', 'h', ':'] + field_key_chars(worker) + seq![':'] + signed_decimal(minute as int)
}

pub fn metrics_histogram_key(metrics_prefix: &str, identity: &MetricIdentity, minute: i64) -> (r: String)
    requires
        utf8(identity.worker@).len() <= usize::MAX,
    ensures
        r@ == histogram_key(metrics_prefix@, identity.worker@, minute),
{
    let mut v = chars_of(metrics_prefix);
    v.push(':');
    v.push('h');
    v.push(':');
    let key = identity.field_key();
    extend_chars(&mut v, key.as_str());
    v.push(':');
    let d = signed_decimal_chars(minute);
    let mut k: usize = 0;
    let ghost base = v@;
    while k < d.len()
        invariant
            k <= d@.len(),
            v@ == base + d@.take(k as int),
        decreases d@.len() - k,
    {
        v.push(d[k]);
        assert(d@.take(k + 1) =~= d@.take(k as int).push(d@[k as int]));
        k = k + 1;
    }
    assert(d@.take(d@.len() as int) =~= d@);
    assert(v@ =~= histogram_key(metrics_prefix@, identity.worker@, minute));
    string_of(&v)
}

/// `i64::try_from(value)`, or `i64::MAX` when the value does not fit: the
/// increment sent for a buffered counter.
pub open spec fn metric_increment(value: u64) -> i64 {
    if value <= i64::MAX { value as i64 } else { i64::MAX }
}

pub fn redis_metric_increment(value: u64) -> (r: i64)
    ensures
        r == metric_increment(value),
{
    if value <= i64::MAX as u64 { value as i64 } else { i64::MAX }
}

/// A write to the metrics store.
#[derive(Debug)]
pub enum MetricsCommand {
    /// Add `amount` to `field` of hash `key`.
    HashIncrement { key: String, field: String, amount: i64 },
    /// Let `key` expire after `seconds`.
    Expire { key: String, seconds: i64 },
    /// A bitfield command on `key` with `args`.
    Bitfield { key: String, args: Vec<String> },
}

/// The text of a metrics command.
pub enum CommandView {
    HashIncrement(Seq<char>, Seq<char>, i64),
    Expire(Seq<char>, i64),
    Bitfield(Seq<char>, Seq<Seq<char>>),
}

pub open spec fn command_view(c: MetricsCommand) -> CommandView {
    match c {
        MetricsCommand::HashIncrement { key, field, amount } => CommandView::HashIncrement(key@, field@, amount),
        MetricsCommand::Expire { key, seconds } => CommandView::Expire(key@, seconds),
        MetricsCommand::Bitfield { key, args } => CommandView::Bitfield(key@, views_of(args@)),
    }
}

pub open spec fn command_views(cs: Seq<MetricsCommand>) -> Seq<CommandView> {
    cs.map_values(|c: MetricsCommand| command_view(c))
}

/// The value of one counter kind in a buffered group.
pub open spec fn pending_value(p: crate::metrics::PendingJobMetrics, m: Metric) -> u64 {
    match m {
        Metric::ProcessedJobs => p.processed,
        Metric::FailedJobs => p.failed,
        Metric::PanickedJobs => p.panicked,
        Metric::SuccessfulExecutions => p.successful_executions,
        Metric::FailedExecutions => p.failed_executions,
        Metric::PanickedExecutions => p.panicked_executions,
        Metric::ExecutionMs => p.execution_ms,
    }
}

/// The counter kinds in the order they are flushed.
pub open spec fn flush_order() -> Seq<Metric> {
    seq![
        Metric::ProcessedJobs,
        Metric::FailedJobs,
        Metric::PanickedJobs,
        Metric::SuccessfulExecutions,
        Metric::FailedExecutions,
        Metric::PanickedExecutions,
        Metric::ExecutionMs,
    ]
}

/// Increments for the first `k` counter kinds of a buffered group: one per
/// non-zero counter, into its field of the minute's counter hash.
pub open spec fn counter_increments(prefix: Seq<char>, e: BufferedJobMetrics, k: nat) -> Seq<CommandView>
    decreases k,
{
    if k == 0 {
        Seq::empty()
    } else {
        let prev = counter_increments(prefix, e, (k - 1) as nat);
        let m = flush_order()[k - 1];
        let v = pending_value(e.metrics, m);
        if v > 0 {
            prev.push(CommandView::HashIncrement(
                minute_key(prefix, "j"@, e.minute),
                metric_field_chars(e.identity.worker@, m),
                metric_increment(v),
            ))
        } else {
            prev
        }
    }
}

/// The commands that flush one buffered group: its counter increments,
/// an expiry on the counter hash, and, when some histogram bucket is
/// non-zero, the histogram increment and an expiry on the histogram.
pub open spec fn group_commands(prefix: Seq<char>, e: BufferedJobMetrics) -> Seq<CommandView> {
    let counters = counter_increments(prefix, e, 7) + seq![
        CommandView::Expire(minute_key(prefix, "j"@, e.minute), METRICS_RETENTION_SECS),
    ];
    let args = increment_args(e.metrics.histogram@, 14);
    if args.len() > 2 {
        let hk = histogram_key(prefix, e.identity.worker@, e.minute);
        counters + seq![CommandView::Bitfield(hk, args), CommandView::Expire(hk, METRICS_RETENTION_SECS)]
    } else {
        counters
    }
}

/// The commands that flush buffered groups, group by group.
pub open spec fn flush_commands(prefix: Seq<char>, groups: Seq<BufferedJobMetrics>) -> Seq<CommandView>
    decreases groups.len(),
{
    if groups.len() == 0 {
        Seq::empty()
    } else {
        flush_commands(prefix, groups.drop_last()) + group_commands(prefix, groups.last())
    }
}

fn push_counter_increment(
    out: &mut Vec<MetricsCommand>,
    counter_key: &String,
    identity: &MetricIdentity,
    metric: Metric,
    value: u64,
)
    requires
        utf8(identity.worker@).len() <= usize::MAX,
    ensures
        command_views(final(out)@) == if value > 0 {
            command_views(old(out)@).push(CommandView::HashIncrement(
                counter_key@,
                metric_field_chars(identity.worker@, metric),
                metric_increment(value),
            ))
        } else {
            command_views(old(out)@)
        },
{
    if value > 0 {
        let field = identity.metric_field(metric);
        out.push(MetricsCommand::HashIncrement {
            key: counter_key.clone(),
            field,
            amount: redis_metric_increment(value),
        });
        assert(command_views(out@) =~= command_views(old(out)@).push(CommandView::HashIncrement(
            counter_key@,
            metric_field_chars(identity.worker@, metric),
            metric_increment(value),
        )));
    }
}

#[verifier::spinoff_prover]
#[verifier::rlimit(40)]
fn push_group_commands(out: &mut Vec<MetricsCommand>, metrics_prefix: &str, e: &BufferedJobMetrics)
    requires
        utf8(e.identity.worker@).len() <= usize::MAX,
    ensures
        command_views(final(out)@) == command_views(old(out)@) + group_commands(metrics_prefix@, *e),
{
        let ghost before = command_views(out@);
        let counter_key = metrics_counter_key(metrics_prefix, e.minute);
        push_counter_increment(out, &counter_key, &e.identity, Metric::ProcessedJobs, e.metrics.processed);
        push_counter_increment(out, &counter_key, &e.identity, Metric::FailedJobs, e.metrics.failed);
        push_counter_increment(out, &counter_key, &e.identity, Metric::PanickedJobs, e.metrics.panicked);
        push_counter_increment(out, &counter_key, &e.identity, Metric::SuccessfulExecutions, e.metrics.successful_executions);
        push_counter_increment(out, &counter_key, &e.identity, Metric::FailedExecutions, e.metrics.failed_executions);
        push_counter_increment(out, &counter_key, &e.identity, Metric::PanickedExecutions, e.metrics.panicked_executions);
        push_counter_increment(out, &counter_key, &e.identity, Metric::ExecutionMs, e.metrics.execution_ms);
        proof {
            let p = metrics_prefix@;
            reveal_with_fuel(counter_increments, 8);
            assert(command_views(out@) =~= before + counter_increments(p, *e, 7));
        }
        let ghost ck = counter_key@;
        out.push(MetricsCommand::Expire { key: counter_key, seconds: METRICS_RETENTION_SECS });
        let ghost counters = command_views(out@);
        assert(counters =~= before + counter_increments(metrics_prefix@, *e, 7) + seq![
            CommandView::Expire(minute_key(metrics_prefix@, "j"@, e.minute), METRICS_RETENTION_SECS),
        ]);
        let args = histogram_bitfield_increment_args(&e.metrics.histogram);
        let ghost av = views_of(args@);
        assert(av.len() == args@.len());
        if args.len() > 2 {
            let hk = metrics_histogram_key(metrics_prefix, &e.identity, e.minute);
            let hk2 = hk.clone();
            out.push(MetricsCommand::Bitfield { key: hk2, args });
            out.push(MetricsCommand::Expire { key: hk, seconds: METRICS_RETENTION_SECS });
            assert(command_views(out@) =~= counters + seq![
                CommandView::Bitfield(histogram_key(metrics_prefix@, e.identity.worker@, e.minute), av),
                CommandView::Expire(histogram_key(metrics_prefix@, e.identity.worker@, e.minute), METRICS_RETENTION_SECS),
            ]);
        }
    assert(command_views(out@) =~= before + group_commands(metrics_prefix@, *e));
}

/// The commands that write buffered counters to the metrics store (see
/// `flush_commands`).
pub fn job_metrics_commands(metrics_prefix: &str, buffer: &JobMetricsBuffer) -> (r: Vec<MetricsCommand>)
    requires
        buffer.wf(),
        forall|k: (i64, Seq<char>)| #[trigger] buffer.view().contains_key(k) ==> utf8(k.1).len() <= usize::MAX,
    ensures
        exists|groups: Seq<BufferedJobMetrics>| {
            &&& command_views(r@) == flush_commands(metrics_prefix@, groups)
            &&& forall|i: int| #![trigger groups[i]] 0 <= i < groups.len() ==> buffer.view().contains_key(buffered_key(groups[i]))
                && buffer.view()[buffered_key(groups[i])] == groups[i].metrics
            &&& forall|k: (i64, Seq<char>)| #[trigger] buffer.view().contains_key(k) ==> exists|i: int|
                0 <= i < groups.len() && buffered_key(groups[i]) == k
            &&& forall|i: int, j: int| 0 <= i < j < groups.len() ==> buffered_key(groups[i]) != buffered_key(groups[j])
        },
{
    let records = buffer.records();
    let mut out: Vec<MetricsCommand> = Vec::new();
    let mut g: usize = 0;
    while g < records.len()
        invariant
            g <= records@.len(),
            forall|i: int| #![trigger records@[i]] 0 <= i < records@.len() ==> buffer.view().contains_key(buffered_key(records@[i]))
                && buffer.view()[buffered_key(records@[i])] == records@[i].metrics,
            forall|k: (i64, Seq<char>)| #[trigger] buffer.view().contains_key(k) ==> utf8(k.1).len() <= usize::MAX,
            command_views(out@) == flush_commands(metrics_prefix@, records@.take(g as int)),
        decreases records@.len() - g,
    {
        let e = &records[g];
        assert(buffer.view().contains_key(buffered_key(records@[g as int])));
        assert(utf8(e.identity.worker@).len() <= usize::MAX);
        push_group_commands(&mut out, metrics_prefix, e);
        proof {
            assert(records@.take(g + 1).drop_last() =~= records@.take(g as int));
            assert(records@.take(g + 1).last() == *e);
        }
        g = g + 1;
    }
    proof {
        assert(records@.take(records@.len() as int) =~= records@);
    }
    out
}

/// The queue names behind queue keys: the keys under `<queue prefix>:`,
/// with that part taken off, in order; other keys are left out.
pub open spec fn queue_names(keys: Seq<String>, queue_prefix: Seq<char>) -> Seq<Seq<char>>
    decreases keys.len(),
{
    if keys.len() == 0 {
        Seq::empty()
    } else {
        let prev = queue_names(keys.drop_last(), queue_prefix);
        let p = queue_prefix + seq![':'];
        if has_prefix(keys.last()@, p) {
            prev.push(keys.last()@.skip(p.len() as int))
        } else {
            prev
        }
    }
}

/// A name is among the queue names of `keys` exactly when
/// `<queue prefix>:<name>` is one of the keys.
pub proof fn lemma_queue_names_members(keys: Seq<String>, queue_prefix: Seq<char>)
    ensures
        forall|name: Seq<char>| #[trigger] queue_names(keys, queue_prefix).contains(name) <==> exists|j: int|
            0 <= j < keys.len() && keys[j]@ == queue_prefix + seq![':'] + name,
    decreases keys.len(),
{
    let p = queue_prefix + seq![':'];
    if keys.len() > 0 {
        let d = keys.drop_last();
        lemma_queue_names_members(d, queue_prefix);
        let last = keys.last()@;
        assert(keys.last() == keys[keys.len() - 1]);
        let prev = queue_names(d, queue_prefix);
        assert forall|name: Seq<char>| #[trigger] queue_names(keys, queue_prefix).contains(name) <==> exists|j: int|
            0 <= j < keys.len() && keys[j]@ == p + name by {
            if queue_names(keys, queue_prefix).contains(name) {
                if prev.contains(name) {
                    let j = choose|j: int| 0 <= j < d.len() && d[j]@ == p + name;
                    assert(keys[j] == d[j]);
                } else {
                    assert(has_prefix(last, p));
                    assert(queue_names(keys, queue_prefix) == prev.push(last.skip(p.len() as int)));
                    let i = choose|i: int| 0 <= i < queue_names(keys, queue_prefix).len()
                        && queue_names(keys, queue_prefix)[i] == name;
                    if i < prev.len() {
                        assert(prev[i] == name);
                        assert(prev.contains(name));
                    }
                    assert(name == last.skip(p.len() as int));
                    assert(last =~= p + name);
                }
            }
            if exists|j: int| 0 <= j < keys.len() && keys[j]@ == p + name {
                let j = choose|j: int| 0 <= j < keys.len() && keys[j]@ == p + name;
                if j < d.len() {
                    assert(d[j] == keys[j]);
                    assert(prev.contains(name));
                    if has_prefix(last, p) {
                        let ii = choose|ii: int| 0 <= ii < prev.len() && prev[ii] == name;
                        assert(prev.push(last.skip(p.len() as int))[ii] == name);
                    }
                } else {
                    assert(last == p + name);
                    assert(last.take(p.len() as int) =~= p);
                    assert(last.skip(p.len() as int) =~= name);
                    let q = prev.push(name);
                    assert(q[prev.len() as int] == name);
                }
            }
        }
    }
}

/// The queue names behind queue keys (see `queue_names`).
pub fn strip_queue_prefix(keys: &Vec<String>, queue_prefix: &str) -> (r: Vec<String>)
    ensures
        views_of(r@) == queue_names(keys@, queue_prefix@),
        forall|name: Seq<char>| #[trigger] views_of(r@).contains(name) <==> exists|j: int|
            0 <= j < keys@.len() && keys@[j]@ == queue_prefix@ + seq![':'] + name,
{
    let mut pv = chars_of(queue_prefix);
    pv.push(':');
    let prefix = string_of(&pv);
    let ghost p = prefix@;
    assert(p == queue_prefix@ + seq![':']);
    let mut r: Vec<String> = Vec::new();
    let mut k: usize = 0;
    while k < keys.len()
        invariant
            k <= keys@.len(),
            p == prefix@,
            p == pv@,
            p == queue_prefix@ + seq![':'],
            views_of(r@) == queue_names(keys@.take(k as int), queue_prefix@),
        decreases keys@.len() - k,
    {
        proof {
            assert(keys@.take(k + 1).drop_last() =~= keys@.take(k as int));
            assert(keys@.take(k + 1).last() == keys@[k as int]);
        }
        if starts_with(keys[k].as_str(), prefix.as_str()) {
            let cs = chars_of(keys[k].as_str());
            let n = cs.len();
            let m = pv.len();
            assert(m == p.len());
            let name = crate::text::substring(&cs, m, n);
            assert(cs@.subrange(m as int, n as int) =~= cs@.skip(p.len() as int));
            let ghost before = views_of(r@);
            r.push(name);
            assert(views_of(r@) =~= before.push(keys@[k as int]@.skip(p.len() as int)));
        }
        k = k + 1;
    }
    assert(keys@.take(keys@.len() as int) =~= keys@);
    proof {
        lemma_queue_names_members(keys@, queue_prefix@);
    }
    r
}

/// The increments that `cmds` make to the fields of hash `key`, in order.
pub open spec fn hash_increments(cmds: Seq<CommandView>, key: Seq<char>) -> Seq<(Seq<char>, i64)>
    decreases cmds.len(),
{
    if cmds.len() == 0 {
        Seq::empty()
    } else {
        hash_increments(cmds.drop_last(), key) + match cmds.last() {
            CommandView::HashIncrement(k, f, v) => if k == key { seq![(f, v)] } else { Seq::empty() },
            _ => Seq::empty(),
        }
    }
}

/// The texts of the entries of a counter hash.
pub open spec fn entry_texts(v: Seq<(String, i64)>) -> Seq<(Seq<char>, i64)> {
    v.map_values(|e: (String, i64)| (e.0@, e.1))
}

/// A buffered counter as it is read back: capped at `i64::MAX`.
pub open spec fn capped(v: u64) -> u64 {
    if v <= i64::MAX { v } else { i64::MAX as u64 }
}

/// The counters a flushed group is read back as, before the derived
/// counters are filled in.
pub open spec fn read_back_counters(p: crate::metrics::PendingJobMetrics) -> crate::metrics::JobMetricsTotals {
    crate::metrics::JobMetricsTotals {
        processed: capped(p.processed),
        succeeded: 0,
        failed: capped(p.failed),
        panicked: capped(p.panicked),
        successful_executions: capped(p.successful_executions),
        failed_executions: capped(p.failed_executions),
        panicked_executions: capped(p.panicked_executions),
        execution_ms: capped(p.execution_ms),
    }
}

/// Totals `t` after the first `k` counter kinds of a flushed group are
/// read back into them.
pub open spec fn read_back_from(
    t: crate::metrics::JobMetricsTotals,
    p: crate::metrics::PendingJobMetrics,
    k: nat,
) -> crate::metrics::JobMetricsTotals
    decreases k,
{
    if k == 0 {
        t
    } else {
        let m = flush_order()[k - 1];
        crate::metrics::totals_add(
            read_back_from(t, p, (k - 1) as nat),
            m,
            crate::metrics::raw_value(metric_increment(pending_value(p, m))),
        )
    }
}

/// The worker passes the optional worker filter.
pub open spec fn worker_passes(filter: Option<Seq<char>>, worker: Seq<char>) -> bool {
    filter is None || filter == Some(worker)
}

/// Totals `t` after the counters that flushing `groups` writes to the
/// hash of `minute` are read back, group by group, keeping the groups of
/// the filtered worker when a filter is given.
pub open spec fn flushed_totals(
    t: crate::metrics::JobMetricsTotals,
    groups: Seq<BufferedJobMetrics>,
    minute: i64,
    filter: Option<Seq<char>>,
) -> crate::metrics::JobMetricsTotals
    decreases groups.len(),
{
    if groups.len() == 0 {
        t
    } else {
        let t0 = flushed_totals(t, groups.drop_last(), minute, filter);
        let g = groups.last();
        if g.minute == minute && worker_passes(filter, g.identity.worker@) {
            read_back_from(t0, g.metrics, 7)
        } else {
            t0
        }
    }
}

proof fn lemma_hash_increments_append(a: Seq<CommandView>, b: Seq<CommandView>, key: Seq<char>)
    ensures
        hash_increments(a + b, key) == hash_increments(a, key) + hash_increments(b, key),
    decreases b.len(),
{
    if b.len() == 0 {
        assert(a + b =~= a);
        assert(hash_increments(a, key) + hash_increments(b, key) =~= hash_increments(a, key));
    } else {
        lemma_hash_increments_append(a, b.drop_last(), key);
        assert((a + b).drop_last() =~= a + b.drop_last());
        assert((a + b).last() == b.last());
        assert(hash_increments(a, key) + hash_increments(b.drop_last(), key) + match b.last() {
            CommandView::HashIncrement(k, f, v) => if k == key { seq![(f, v)] } else { Seq::<(Seq<char>, i64)>::empty() },
            _ => Seq::<(Seq<char>, i64)>::empty(),
        } =~= hash_increments(a, key) + hash_increments(b, key));
    }
}

proof fn lemma_no_increments(cmds: Seq<CommandView>, key: Seq<char>)
    requires
        forall|i: int| 0 <= i < cmds.len() ==> !(#[trigger] cmds[i] is HashIncrement),
    ensures
        hash_increments(cmds, key) == Seq::<(Seq<char>, i64)>::empty(),
    decreases cmds.len(),
{
    if cmds.len() > 0 {
        assert(!(cmds[cmds.len() - 1] is HashIncrement));
        assert forall|i: int| 0 <= i < cmds.drop_last().len() implies !(#[trigger] cmds.drop_last()[i] is HashIncrement) by {
            assert(cmds.drop_last()[i] == cmds[i]);
        }
        lemma_no_increments(cmds.drop_last(), key);
    }
}

proof fn lemma_decimal_injective(a: nat, b: nat)
    requires
        decimal(a) == decimal(b),
    ensures
        a == b,
{
    lemma_decimal_value(a);
    lemma_decimal_value(b);
}

proof fn lemma_minute_key_injective(prefix: Seq<char>, kind: Seq<char>, a: i64, b: i64)
    requires
        minute_key(prefix, kind, a) == minute_key(prefix, kind, b),
    ensures
        a == b,
{
    let head = prefix + seq![':'] + kind + seq![':'];
    let da = signed_decimal(a as int);
    let db = signed_decimal(b as int);
    assert(minute_key(prefix, kind, a) == head + da);
    assert(minute_key(prefix, kind, b) == head + db);
    assert((head + da).skip(head.len() as int) =~= da);
    assert((head + db).skip(head.len() as int) =~= db);
    assert(da == db);
    if a < 0 && b < 0 {
        assert(da.skip(1) =~= decimal((-a) as nat));
        assert(db.skip(1) =~= decimal((-b) as nat));
        lemma_decimal_injective((-a) as nat, (-b) as nat);
    } else if a < 0 {
        lemma_decimal_ascii_digits(b as nat);
        assert(da[0] == '-');
        assert('0' <= decimal(b as nat)[0] <= '9');
    } else if b < 0 {
        lemma_decimal_ascii_digits(a as nat);
        assert(db[0] == '-');
        assert('0' <= decimal(a as nat)[0] <= '9');
    } else {
        lemma_decimal_injective(a as nat, b as nat);
    }
}

proof fn lemma_fold_totals_texts(
    a: Seq<(String, i64)>,
    b: Seq<(String, i64)>,
    filter: Option<Seq<char>>,
    t: crate::metrics::JobMetricsTotals,
)
    requires
        entry_texts(a) == entry_texts(b),
    ensures
        crate::metrics::fold_totals(a, filter, t) == crate::metrics::fold_totals(b, filter, t),
    decreases a.len(),
{
    assert(entry_texts(a).len() == a.len());
    assert(entry_texts(b).len() == b.len());
    if a.len() > 0 {
        assert(entry_texts(a.drop_last()) =~= entry_texts(a).drop_last());
        assert(entry_texts(b.drop_last()) =~= entry_texts(b).drop_last());
        lemma_fold_totals_texts(a.drop_last(), b.drop_last(), filter, t);
        assert(entry_texts(a)[a.len() - 1] == entry_texts(b)[b.len() - 1]);
        assert(a.last().0@ == b.last().0@ && a.last().1 == b.last().1);
        assert(crate::metrics::entry_counter(a.last(), filter) == crate::metrics::entry_counter(b.last(), filter));
    }
}

proof fn lemma_fold_totals_split(
    h: Seq<(String, i64)>,
    n: int,
    filter: Option<Seq<char>>,
    t: crate::metrics::JobMetricsTotals,
)
    requires
        0 <= n <= h.len(),
    ensures
        crate::metrics::fold_totals(h, filter, t) == crate::metrics::fold_totals(
            h.skip(n),
            filter,
            crate::metrics::fold_totals(h.take(n), filter, t),
        ),
    decreases h.len(),
{
    if n == h.len() {
        assert(h.take(n) =~= h);
        assert(h.skip(n).len() == 0);
    } else {
        lemma_fold_totals_split(h.drop_last(), n, filter, t);
        assert(h.drop_last().take(n) =~= h.take(n));
        assert(h.skip(n).drop_last() =~= h.drop_last().skip(n));
        assert(h.skip(n).last() == h.last());
    }
}

/// Folds the entries read back for the first `k` counter kinds of a group.
proof fn lemma_fold_counter_increments(
    prefix: Seq<char>,
    e: BufferedJobMetrics,
    hash: Seq<(String, i64)>,
    k: nat,
    filter: Option<Seq<char>>,
    t: crate::metrics::JobMetricsTotals,
)
    requires
        k <= 7,
        utf8(e.identity.worker@).len() <= usize::MAX,
        entry_texts(hash) == hash_increments(counter_increments(prefix, e, k), minute_key(prefix, "j"@, e.minute)),
    ensures
        crate::metrics::fold_totals(hash, filter, t) == if worker_passes(filter, e.identity.worker@) {
            read_back_from(t, e.metrics, k)
        } else {
            t
        },
    decreases k,
{
    let key = minute_key(prefix, "j"@, e.minute);
    if k == 0 {
        assert(hash_increments(Seq::<CommandView>::empty(), key) =~= Seq::<(Seq<char>, i64)>::empty());
        assert(entry_texts(hash).len() == hash.len());
        assert(hash.len() == 0);
    } else {
        let m = flush_order()[k - 1];
        let v = pending_value(e.metrics, m);
        let prev = counter_increments(prefix, e, (k - 1) as nat);
        if v > 0 {
            let c = CommandView::HashIncrement(key, metric_field_chars(e.identity.worker@, m), metric_increment(v));
            assert(counter_increments(prefix, e, k) == prev.push(c));
            assert(prev.push(c).drop_last() =~= prev);
            assert(hash_increments(prev.push(c), key) == hash_increments(prev, key) + seq![(metric_field_chars(e.identity.worker@, m), metric_increment(v))]);
            let h0 = hash.drop_last();
            assert(entry_texts(hash).len() == hash.len());
            assert(entry_texts(h0) =~= entry_texts(hash).drop_last());
            assert(entry_texts(hash).last() == (hash.last().0@, hash.last().1));
            let x = (metric_field_chars(e.identity.worker@, m), metric_increment(v));
            assert((hash_increments(prev, key) + seq![x]).drop_last() =~= hash_increments(prev, key));
            lemma_fold_counter_increments(prefix, e, h0, (k - 1) as nat, filter, t);
            crate::metrics::lemma_metric_field_round_trip(e.identity.worker@, m);
            assert(hash.last().0@ == metric_field_chars(e.identity.worker@, m));
            if worker_passes(filter, e.identity.worker@) {
                assert(crate::metrics::entry_counter(hash.last(), filter) == Some((utf8(e.identity.worker@), m)));
            } else {
                let f = filter.unwrap();
                if utf8(f) == utf8(e.identity.worker@) {
                    crate::text::lemma_utf8_injective(f, e.identity.worker@);
                }
                assert(crate::metrics::entry_counter(hash.last(), filter) is None);
            }
        } else {
            assert(counter_increments(prefix, e, k) == prev);
            lemma_fold_counter_increments(prefix, e, hash, (k - 1) as nat, filter, t);
            assert(v == 0);
            assert(crate::metrics::raw_value(metric_increment(0)) == 0);
            let t0 = read_back_from(t, e.metrics, (k - 1) as nat);
            assert(crate::metrics::totals_add(t0, m, 0) == t0);
        }
    }
}

proof fn lemma_counter_increments_elsewhere(prefix: Seq<char>, e: BufferedJobMetrics, k: nat, key: Seq<char>)
    requires
        key != minute_key(prefix, "j"@, e.minute),
    ensures
        hash_increments(counter_increments(prefix, e, k), key) == Seq::<(Seq<char>, i64)>::empty(),
    decreases k,
{
    if k > 0 {
        let prev = counter_increments(prefix, e, (k - 1) as nat);
        lemma_counter_increments_elsewhere(prefix, e, (k - 1) as nat, key);
        let m = flush_order()[k - 1];
        let v = pending_value(e.metrics, m);
        if v > 0 {
            let c = CommandView::HashIncrement(
                minute_key(prefix, "j"@, e.minute),
                metric_field_chars(e.identity.worker@, m),
                metric_increment(v),
            );
            assert(counter_increments(prefix, e, k) == prev.push(c));
            assert(prev.push(c).drop_last() =~= prev);
            assert(hash_increments(prev.push(c), key) =~= Seq::<(Seq<char>, i64)>::empty());
        }
    }
}

/// The increments that flushing one group writes to the hash `key`: its
/// counter increments when `key` is the hash of its minute, none else.
proof fn lemma_group_increments(prefix: Seq<char>, e: BufferedJobMetrics, key: Seq<char>)
    ensures
        hash_increments(group_commands(prefix, e), key) == if key == minute_key(prefix, "j"@, e.minute) {
            hash_increments(counter_increments(prefix, e, 7), key)
        } else {
            Seq::<(Seq<char>, i64)>::empty()
        },
{
    let ck = minute_key(prefix, "j"@, e.minute);
    let counters = counter_increments(prefix, e, 7);
    let ex = seq![CommandView::Expire(ck, METRICS_RETENTION_SECS)];
    let args = increment_args(e.metrics.histogram@, 14);
    let hk = histogram_key(prefix, e.identity.worker@, e.minute);
    let tail = if args.len() > 2 {
        ex + seq![CommandView::Bitfield(hk, args), CommandView::Expire(hk, METRICS_RETENTION_SECS)]
    } else {
        ex
    };
    assert(group_commands(prefix, e) =~= counters + tail);
    lemma_hash_increments_append(counters, tail, key);
    assert forall|i: int| 0 <= i < tail.len() implies !(#[trigger] tail[i] is HashIncrement) by {}
    lemma_no_increments(tail, key);
    assert(hash_increments(counters, key) + hash_increments(tail, key) =~= hash_increments(counters, key));
    if key != ck {
        lemma_counter_increments_elsewhere(prefix, e, 7, key);
    }
}

proof fn lemma_entry_texts_split(h: Seq<(String, i64)>, x: Seq<(Seq<char>, i64)>, y: Seq<(Seq<char>, i64)>)
    requires
        entry_texts(h) == x + y,
    ensures
        entry_texts(h.take(x.len() as int)) == x,
        entry_texts(h.skip(x.len() as int)) == y,
{
    let n = x.len() as int;
    assert(entry_texts(h).len() == h.len());
    assert forall|i: int| 0 <= i < n implies #[trigger] entry_texts(h.take(n))[i] == x[i] by {
        assert(entry_texts(h.take(n))[i] == (h[i].0@, h[i].1));
        assert(entry_texts(h)[i] == (x + y)[i]);
    }
    assert(entry_texts(h.take(n)) =~= x);
    assert forall|i: int| 0 <= i < y.len() implies #[trigger] entry_texts(h.skip(n))[i] == y[i] by {
        assert(entry_texts(h.skip(n))[i] == (h[n + i].0@, h[n + i].1));
        assert(entry_texts(h)[n + i] == (x + y)[n + i]);
    }
    assert(entry_texts(h.skip(n)) =~= y);
}

proof fn lemma_fold_flush(
    prefix: Seq<char>,
    groups: Seq<BufferedJobMetrics>,
    hash: Seq<(String, i64)>,
    minute: i64,
    filter: Option<Seq<char>>,
    t: crate::metrics::JobMetricsTotals,
)
    requires
        forall|i: int| 0 <= i < groups.len() ==> utf8((#[trigger] groups[i]).identity.worker@).len() <= usize::MAX,
        entry_texts(hash) == hash_increments(flush_commands(prefix, groups), minute_key(prefix, "j"@, minute)),
    ensures
        crate::metrics::fold_totals(hash, filter, t) == flushed_totals(t, groups, minute, filter),
    decreases groups.len(),
{
    let key = minute_key(prefix, "j"@, minute);
    assert(entry_texts(hash).len() == hash.len());
    if groups.len() == 0 {
        assert(hash_increments(Seq::<CommandView>::empty(), key) =~= Seq::<(Seq<char>, i64)>::empty());
        assert(hash.len() == 0);
    } else {
        let g = groups.last();
        assert(g == groups[groups.len() - 1]);
        let front = flush_commands(prefix, groups.drop_last());
        let x = hash_increments(front, key);
        let y = hash_increments(group_commands(prefix, g), key);
        lemma_hash_increments_append(front, group_commands(prefix, g), key);
        let n = x.len() as int;
        lemma_entry_texts_split(hash, x, y);
        assert forall|i: int| 0 <= i < groups.drop_last().len() implies utf8((#[trigger] groups.drop_last()[i]).identity.worker@).len()
            <= usize::MAX by {
            assert(groups.drop_last()[i] == groups[i]);
        }
        lemma_fold_flush(prefix, groups.drop_last(), hash.take(n), minute, filter, t);
        lemma_fold_totals_split(hash, n, filter, t);
        let t0 = flushed_totals(t, groups.drop_last(), minute, filter);
        lemma_group_increments(prefix, g, key);
        if g.minute == minute {
            lemma_fold_counter_increments(prefix, g, hash.skip(n), 7, filter, t0);
        } else {
            if key == minute_key(prefix, "j"@, g.minute) {
                lemma_minute_key_injective(prefix, "j"@, minute, g.minute);
            }
            assert(hash.skip(n).len() == 0);
        }
    }
}

/// Flushed metrics are read back: when the counter hash of `minute` holds
/// what it held before (`prior`) followed by the increments that flushing
/// `groups` writes to it, the totals read for that minute are those of
/// `prior` with the buffered counters of every group of that minute added,
/// group by group (only the filtered worker's groups when a filter is
/// given), each counter capped at `i64::MAX`, and the derived counters
/// filled in. Groups of other minutes leave the minute untouched.
pub proof fn lemma_flushed_metrics_read_back(
    prefix: Seq<char>,
    groups: Seq<BufferedJobMetrics>,
    prior: Vec<(String, i64)>,
    hash: Vec<(String, i64)>,
    minute: i64,
    filter: Option<Seq<char>>,
)
    requires
        forall|i: int| 0 <= i < groups.len() ==> utf8((#[trigger] groups[i]).identity.worker@).len() <= usize::MAX,
        entry_texts(hash@) == entry_texts(prior@) + hash_increments(flush_commands(prefix, groups), minute_key(prefix, "j"@, minute)),
    ensures
        crate::metrics::window_totals(seq![minute], seq![hash], filter) == crate::metrics::totals_finalized(
            flushed_totals(crate::metrics::fold_totals(prior@, filter, crate::metrics::totals_zero()), groups, minute, filter),
        ),
{
    let n = prior@.len() as int;
    assert(entry_texts(hash@).len() == hash@.len());
    assert(entry_texts(prior@).len() == prior@.len());
    lemma_entry_texts_split(
        hash@,
        entry_texts(prior@),
        hash_increments(flush_commands(prefix, groups), minute_key(prefix, "j"@, minute)),
    );
    lemma_fold_totals_split(hash@, n, filter, crate::metrics::totals_zero());
    lemma_fold_totals_texts(hash@.take(n), prior@, filter, crate::metrics::totals_zero());
    let start = crate::metrics::fold_totals(prior@, filter, crate::metrics::totals_zero());
    lemma_fold_flush(prefix, groups, hash@.skip(n), minute, filter, start);
    let hashes = seq![hash];
    assert(hashes.take(1) =~= hashes);
    assert(hashes.drop_last() =~= Seq::<Vec<(String, i64)>>::empty());
    assert(crate::metrics::totals_over(Seq::<Vec<(String, i64)>>::empty(), filter) == crate::metrics::totals_zero());
    assert(hashes.last() == hash);
}

proof fn lemma_flushed_totals_single(
    t: crate::metrics::JobMetricsTotals,
    groups: Seq<BufferedJobMetrics>,
    i: int,
    minute: i64,
    worker: Seq<char>,
)
    requires
        0 <= i <= groups.len(),
        forall|j: int| 0 <= j < groups.len() && j != i ==> !((#[trigger] groups[j]).minute == minute
            && groups[j].identity.worker@ == worker),
    ensures
        flushed_totals(t, groups, minute, Some(worker)) == if i < groups.len() && groups[i].minute == minute
            && groups[i].identity.worker@ == worker {
            read_back_from(t, groups[i].metrics, 7)
        } else {
            t
        },
    decreases groups.len(),
{
    if groups.len() > 0 {
        let d = groups.drop_last();
        let last = groups.len() - 1;
        assert(groups.last() == groups[last]);
        if i == last {
            lemma_flushed_totals_single(t, d, d.len() as int, minute, worker);
            assert forall|j: int| 0 <= j < d.len() implies !((#[trigger] d[j]).minute == minute && d[j].identity.worker@ == worker) by {
                assert(d[j] == groups[j]);
            }
        } else {
            assert forall|j: int| 0 <= j < d.len() && j != i implies !((#[trigger] d[j]).minute == minute
                && d[j].identity.worker@ == worker) by {
                assert(d[j] == groups[j]);
            }
            lemma_flushed_totals_single(t, d, if i < last { i } else { d.len() as int }, minute, worker);
            if i < last {
                assert(d[i] == groups[i]);
            }
        }
    }
}

/// Flushed metrics of one worker are read back: when a flush holds at most
/// one group per minute and worker (as a buffer does), and the counter
/// hash of `groups[i]`'s minute held nothing of its worker before, the
/// totals read for that minute and worker are the group's buffered
/// counters, capped at `i64::MAX`, with the derived counters filled in.
pub proof fn lemma_flushed_worker_read_back(
    prefix: Seq<char>,
    groups: Seq<BufferedJobMetrics>,
    i: int,
    prior: Vec<(String, i64)>,
    hash: Vec<(String, i64)>,
)
    requires
        0 <= i < groups.len(),
        forall|a: int, b: int| 0 <= a < b < groups.len() ==> crate::metrics::buffered_key(#[trigger] groups[a])
            != crate::metrics::buffered_key(#[trigger] groups[b]),
        forall|j: int| 0 <= j < groups.len() ==> utf8((#[trigger] groups[j]).identity.worker@).len() <= usize::MAX,
        crate::metrics::fold_totals(prior@, Some(groups[i].identity.worker@), crate::metrics::totals_zero())
            == crate::metrics::totals_zero(),
        entry_texts(hash@) == entry_texts(prior@) + hash_increments(
            flush_commands(prefix, groups),
            minute_key(prefix, "j"@, groups[i].minute),
        ),
    ensures
        crate::metrics::window_totals(seq![groups[i].minute], seq![hash], Some(groups[i].identity.worker@))
            == crate::metrics::totals_finalized(read_back_counters(groups[i].metrics)),
{
    let g = groups[i];
    lemma_flushed_metrics_read_back(prefix, groups, prior, hash, g.minute, Some(g.identity.worker@));
    assert forall|j: int| 0 <= j < groups.len() && j != i implies !((#[trigger] groups[j]).minute == g.minute
        && groups[j].identity.worker@ == g.identity.worker@) by {
        if j < i {
            assert(crate::metrics::buffered_key(groups[j]) != crate::metrics::buffered_key(groups[i]));
        } else {
            assert(crate::metrics::buffered_key(groups[i]) != crate::metrics::buffered_key(groups[j]));
        }
    }
    lemma_flushed_totals_single(crate::metrics::totals_zero(), groups, i, g.minute, g.identity.worker@);
    lemma_read_back_from_zero(g.metrics);
}

proof fn lemma_read_back_from_zero(p: crate::metrics::PendingJobMetrics)
    ensures
        read_back_from(crate::metrics::totals_zero(), p, 7) == read_back_counters(p),
{
    reveal_with_fuel(read_back_from, 8);
}

} // verus!
