use oxanus::metrics::{aggregate_counter_hashes, JobMetricsBuffer, MetricIdentity};
use oxanus::results::{WorkerResult, WorkerResultKind};
use oxanus::storage::{
    enqueue_immediately, job_enqueue_action, job_metrics_commands, list_range, metrics_counter_key,
    metrics_histogram_key, metrics_queue_counter_key, metrics_queue_length_key, namespace_queue,
    needs_existence_check, processing_queue, redis_metric_increment, retry_score, JobConflictStrategy,
    JobEnqueueAction, MetricsCommand, QueueListOpts, RedisFailureTracker, MAX_CONSECUTIVE_REDIS_FAILURES,
};

#[test]
fn unique_jobs_follow_their_conflict_strategy() {
    assert_eq!(job_enqueue_action(false, true, Some(JobConflictStrategy::Replace)), JobEnqueueAction::Default);
    assert_eq!(job_enqueue_action(true, false, Some(JobConflictStrategy::Skip)), JobEnqueueAction::Default);
    assert_eq!(job_enqueue_action(true, true, None), JobEnqueueAction::Skip);
    assert_eq!(job_enqueue_action(true, true, Some(JobConflictStrategy::Skip)), JobEnqueueAction::Skip);
    assert_eq!(job_enqueue_action(true, true, Some(JobConflictStrategy::Replace)), JobEnqueueAction::Replace);
    assert!(needs_existence_check(true));
    assert!(!needs_existence_check(false));
}

#[test]
fn due_jobs_are_enqueued_at_once() {
    assert!(enqueue_immediately(100, 100));
    assert!(enqueue_immediately(99, 100));
    assert!(!enqueue_immediately(101, 100));
    assert_eq!(retry_score(1_000, 3), 3_001_000);
}

#[test]
fn list_ranges_are_inclusive() {
    assert_eq!(list_range(&QueueListOpts { count: 26, offset: 25 }), (25, 50));
    assert_eq!(list_range(&QueueListOpts { count: 0, offset: 0 }), (0, 0));
}

#[test]
fn queues_go_under_the_prefix_unless_already_namespaced() {
    assert_eq!(namespace_queue("oxanus", "oxanus:queue", "default"), "oxanus:queue:default");
    assert_eq!(namespace_queue("oxanus", "oxanus:queue", "oxanus:queue:default"), "oxanus:queue:default");
    assert_eq!(processing_queue("oxanus:processing", "host-12"), "oxanus:processing:host-12");
}

#[test]
fn metric_keys_carry_the_minute() {
    assert_eq!(metrics_counter_key("m", 28_000_000), "m:j:28000000");
    assert_eq!(metrics_queue_length_key("m", -3), "m:q:-3");
    assert_eq!(metrics_queue_counter_key("m", 0), "m:qc:0");
    let identity = MetricIdentity { worker: "W".to_string() };
    assert_eq!(metrics_histogram_key("m", &identity, 7), "m:h:1:W:7");
    assert_eq!(metrics_counter_key("m", i64::MIN), format!("m:j:{}", i64::MIN));
}

#[test]
fn metric_increments_saturate_at_i64_max() {
    assert_eq!(redis_metric_increment(5), 5);
    assert_eq!(redis_metric_increment(u64::MAX), i64::MAX);
    assert_eq!(redis_metric_increment(i64::MAX as u64), i64::MAX);
}

#[test]
fn redis_failures_are_tolerated_up_to_the_limit() {
    let mut tracker = RedisFailureTracker::new();
    let ok: Result<u8, &str> = Ok(1);
    assert_eq!(tracker.track_redis_result(ok), Ok(Some(1)));
    for _ in 0..MAX_CONSECUTIVE_REDIS_FAILURES - 1 {
        assert_eq!(tracker.track_redis_result::<u8, &str>(Err("down")), Ok(None));
    }
    assert_eq!(tracker.track_redis_result::<u8, &str>(Err("down")), Err("down"));
    assert_eq!(tracker.track_redis_result::<u8, &str>(Ok(2)), Ok(Some(2)));
    assert_eq!(tracker.track_redis_result::<u8, &str>(Err("down")), Ok(None));
}

#[test]
fn flushing_metrics_increments_counters_and_histograms() {
    let mut buffer = JobMetricsBuffer::new();
    let result = WorkerResult {
        kind: WorkerResultKind::Success,
        worker_name: "W".to_string(),
        queue: "q".to_string(),
        execution_ms: 30,
        job_count: 2,
    };
    buffer.record_at(10, &result);
    let commands = job_metrics_commands("m", &buffer);
    let mut increments = Vec::new();
    let mut expires = Vec::new();
    let mut bitfields = Vec::new();
    for command in &commands {
        match command {
            MetricsCommand::HashIncrement { key, field, amount } => increments.push((key.clone(), field.clone(), *amount)),
            MetricsCommand::Expire { key, seconds } => expires.push((key.clone(), *seconds)),
            MetricsCommand::Bitfield { key, args } => bitfields.push((key.clone(), args.clone())),
        }
    }
    assert_eq!(
        increments,
        vec![
            ("m:j:10".to_string(), "1:W|p".to_string(), 2),
            ("m:j:10".to_string(), "1:W|xs".to_string(), 1),
            ("m:j:10".to_string(), "1:W|ms".to_string(), 30),
        ]
    );
    assert_eq!(expires, vec![("m:j:10".to_string(), 28_800), ("m:h:1:W:10".to_string(), 28_800)]);
    assert_eq!(bitfields.len(), 1);
    assert_eq!(bitfields[0].0, "m:h:1:W:10");
    assert_eq!(bitfields[0].1, vec!["OVERFLOW", "SAT", "INCRBY", "u16", "#1", "1"]);
}

#[test]
fn flushing_failures_writes_no_histogram() {
    let mut buffer = JobMetricsBuffer::new();
    let result = WorkerResult {
        kind: WorkerResultKind::Failed,
        worker_name: "W".to_string(),
        queue: "q".to_string(),
        execution_ms: 30,
        job_count: 1,
    };
    buffer.record_at(10, &result);
    let commands = job_metrics_commands("m", &buffer);
    assert_eq!(commands.len(), 4);
    assert!(commands.iter().all(|c| !matches!(c, MetricsCommand::Bitfield { .. })));
    assert!(job_metrics_commands("m", &JobMetricsBuffer::new()).is_empty());
}

#[test]
fn flushed_metrics_are_read_back_by_the_aggregation() {
    let mut buffer = JobMetricsBuffer::new();
    let ok = WorkerResult {
        kind: WorkerResultKind::Success,
        worker_name: "W".to_string(),
        queue: "q".to_string(),
        execution_ms: 40,
        job_count: 3,
    };
    let panicked = WorkerResult { kind: WorkerResultKind::Panicked, execution_ms: 0, job_count: 1, ..ok_clone(&ok) };
    buffer.record_at(7, &ok);
    buffer.record_at(7, &panicked);
    let commands = job_metrics_commands("m", &buffer);
    let counter_key = metrics_counter_key("m", 7);
    let hash: Vec<(String, i64)> = commands
        .iter()
        .filter_map(|c| match c {
            MetricsCommand::HashIncrement { key, field, amount } if *key == counter_key => Some((field.clone(), *amount)),
            _ => None,
        })
        .collect();
    let aggregation = aggregate_counter_hashes(&vec![7], &vec![hash], None);
    assert_eq!(aggregation.totals.processed, 4);
    assert_eq!(aggregation.totals.failed, 1);
    assert_eq!(aggregation.totals.panicked, 1);
    assert_eq!(aggregation.totals.succeeded, 3);
    assert_eq!(aggregation.totals.successful_executions, 1);
    assert_eq!(aggregation.totals.failed_executions, 1);
    assert_eq!(aggregation.totals.panicked_executions, 1);
    assert_eq!(aggregation.totals.execution_ms, 40);
    assert_eq!(aggregation.workers.len(), 1);
}

fn ok_clone(r: &WorkerResult) -> WorkerResult {
    WorkerResult {
        kind: r.kind,
        worker_name: r.worker_name.clone(),
        queue: r.queue.clone(),
        execution_ms: r.execution_ms,
        job_count: r.job_count,
    }
}

#[test]
fn flushes_of_several_workers_add_to_what_a_minute_held() {
    let mut buffer = JobMetricsBuffer::new();
    let result = |worker: &str, kind: WorkerResultKind, ms: u64| WorkerResult {
        kind,
        worker_name: worker.to_string(),
        queue: "q".to_string(),
        execution_ms: ms,
        job_count: 1,
    };
    buffer.record_at(7, &result("A", WorkerResultKind::Success, 10));
    buffer.record_at(7, &result("B", WorkerResultKind::Failed, 20));
    buffer.record_at(7, &result("C", WorkerResultKind::Success, 30));
    buffer.record_at(8, &result("A", WorkerResultKind::Success, 99));
    let commands = job_metrics_commands("m", &buffer);
    let counter_key = metrics_counter_key("m", 7);
    let a = MetricIdentity { worker: "A".to_string() };
    let mut hash: Vec<(String, i64)> = vec![(a.metric_field(oxanus::metrics::Metric::ProcessedJobs), 5)];
    hash.extend(commands.iter().filter_map(|c| match c {
        MetricsCommand::HashIncrement { key, field, amount } if *key == counter_key => Some((field.clone(), *amount)),
        _ => None,
    }));
    let all = aggregate_counter_hashes(&vec![7], &vec![hash.clone()], None);
    assert_eq!(all.totals.processed, 8);
    assert_eq!(all.totals.failed, 1);
    assert_eq!(all.totals.successful_executions, 2);
    assert_eq!(all.totals.execution_ms, 40);
    assert_eq!(all.workers.len(), 3);
    let only_b = aggregate_counter_hashes(&vec![7], &vec![hash.clone()], Some(&MetricIdentity { worker: "B".to_string() }));
    assert_eq!(only_b.totals.processed, 1);
    assert_eq!(only_b.totals.failed, 1);
    assert_eq!(only_b.totals.failed_executions, 1);
    assert_eq!(only_b.totals.execution_ms, 0);
    let only_a = aggregate_counter_hashes(&vec![7], &vec![hash], Some(&a));
    assert_eq!(only_a.totals.processed, 6);
    assert_eq!(only_a.totals.execution_ms, 10);
}
