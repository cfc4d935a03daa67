use oxanus::metrics::{
    aggregate_counter_hashes, histogram_bitfield_fetch_args, histogram_bitfield_increment_args,
    histogram_bucket_index, histogram_bucket_label, histogram_buckets_from_counts, job_metrics_detail,
    job_metrics_snapshot, metric_minutes, minute_of, split_metric_field, JobMetricsBuffer, JobMetricsPoint,
    JobMetricsQuery, JobMetricsTotals, Metric, MetricIdentity, PendingJobMetrics, HISTOGRAM_BUCKET_COUNT,
    MAX_METRIC_MINUTES,
};
use oxanus::results::{WorkerResult, WorkerResultKind};

#[test]
fn histogram_bucket_boundaries_use_configured_thresholds() {
    assert_eq!(histogram_bucket_index(0), 0);
    assert_eq!(histogram_bucket_index(24), 0);
    assert_eq!(histogram_bucket_index(25), 1);
    assert_eq!(histogram_bucket_index(49), 1);
    assert_eq!(histogram_bucket_index(50), 2);
    assert_eq!(histogram_bucket_index(299_999), 12);
    assert_eq!(histogram_bucket_index(300_000), 13);
}

#[test]
fn bitfield_increment_args_use_saturated_u16_counters() {
    let mut buckets = [0_u64; HISTOGRAM_BUCKET_COUNT];
    buckets[0] = 2;
    buckets[13] = 70_000;

    let args = histogram_bitfield_increment_args(&buckets);

    assert_eq!(
        args,
        vec!["OVERFLOW", "SAT", "INCRBY", "u16", "#0", "2", "INCRBY", "u16", "#13", "70000",]
    );
}

fn push_field(hash: &mut Vec<(String, i64)>, identity: &MetricIdentity, metric: Metric, value: i64) {
    hash.push((identity.metric_field(metric), value));
}

#[test]
fn query_aggregation_computes_totals_and_clamps_minutes() {
    let identity = MetricIdentity { worker: "WorkerA".to_string() };
    let other = MetricIdentity { worker: "WorkerB".to_string() };
    let minutes = metric_minutes(10_000, JobMetricsQuery::new(999));
    assert_eq!(minutes.len(), MAX_METRIC_MINUTES);

    let mut hashes: Vec<Vec<(String, i64)>> = vec![Vec::new(); minutes.len()];
    let first_hash = hashes.get_mut(0).expect("query should include a first minute bucket");
    push_field(first_hash, &identity, Metric::ProcessedJobs, 3);
    push_field(first_hash, &identity, Metric::FailedJobs, 1);
    push_field(first_hash, &identity, Metric::SuccessfulExecutions, 2);
    push_field(first_hash, &identity, Metric::FailedExecutions, 1);
    push_field(first_hash, &identity, Metric::ExecutionMs, 250);

    let second_hash = hashes.get_mut(1).expect("query should include a second minute bucket");
    push_field(second_hash, &other, Metric::ProcessedJobs, 2);
    push_field(second_hash, &other, Metric::FailedJobs, 1);
    push_field(second_hash, &other, Metric::PanickedJobs, 1);
    push_field(second_hash, &other, Metric::SuccessfulExecutions, 1);
    push_field(second_hash, &other, Metric::FailedExecutions, 1);
    push_field(second_hash, &other, Metric::PanickedExecutions, 1);
    push_field(second_hash, &other, Metric::ExecutionMs, 100);

    let aggregation = aggregate_counter_hashes(&minutes, &hashes, None);
    assert_eq!(aggregation.totals.processed, 5);
    assert_eq!(aggregation.totals.failed, 2);
    assert_eq!(aggregation.totals.panicked, 1);
    assert_eq!(aggregation.totals.succeeded, 3);
    assert_eq!(aggregation.totals.successful_executions, 3);
    assert_eq!(aggregation.totals.failed_executions, 2);
    assert_eq!(aggregation.totals.panicked_executions, 1);
    assert_eq!(aggregation.totals.failed_executions_without_panics(), 1);
    assert_eq!(aggregation.totals.execution_ms, 350);
    assert_eq!(aggregation.workers.len(), 2);
    let first_worker = aggregation.workers.first().expect("first worker summary should exist");
    let first_point = first_worker.series.first().expect("first worker should have a first series point");
    assert_eq!(first_worker.series.len(), MAX_METRIC_MINUTES);
    assert_eq!(first_point.processed, 3);
    assert_eq!(first_point.failed, 1);
    assert_eq!(first_point.succeeded, 2);
    assert_eq!(first_point.successful_executions, 2);
    assert_eq!(first_point.execution_ms, 250);

    let second_worker = aggregation.workers.get(1).expect("second worker summary should exist");
    assert_eq!(second_worker.totals.panicked, 1);
    assert_eq!(second_worker.totals.failed_executions, 1);
    assert_eq!(second_worker.totals.panicked_executions, 1);
    assert_eq!(second_worker.totals.failed_executions_without_panics(), 0);

    let filtered = aggregate_counter_hashes(&minutes, &hashes, Some(&identity));
    assert_eq!(filtered.totals.processed, 3);
    assert_eq!(filtered.totals.failed, 1);
    assert_eq!(filtered.totals.succeeded, 2);
    assert_eq!(filtered.totals.successful_executions, 2);
    assert_eq!(filtered.totals.execution_ms, 250);
    assert_eq!(filtered.workers.len(), 1);
    let filtered_worker = filtered.workers.first().expect("filtered worker summary should exist");
    let empty_point = filtered_worker.series.get(1).expect("filtered worker should have a second series point");
    assert_eq!(empty_point.processed, 0);
}

#[test]
fn metric_identity_round_trips_with_delimiters() {
    let identity = MetricIdentity { worker: "crate::worker|Name".to_string() };

    assert_eq!(MetricIdentity::from_field_key(&identity.field_key()), Some(identity));
}

#[test]
fn metric_identity_reads_legacy_worker_queue_keys_as_worker_only() {
    let legacy_key = "6:Workerdefault";

    assert_eq!(
        MetricIdentity::from_field_key(legacy_key),
        Some(MetricIdentity { worker: "Worker".to_string() })
    );
}

#[test]
fn field_key_prefixes_the_byte_length() {
    let identity = MetricIdentity { worker: "né".to_string() };
    assert_eq!(identity.field_key(), "3:né");
}

#[test]
fn from_field_key_rejects_malformed_keys() {
    assert_eq!(MetricIdentity::from_field_key("Worker"), None);
    assert_eq!(MetricIdentity::from_field_key("x:Worker"), None);
    assert_eq!(MetricIdentity::from_field_key("9:Worker"), None);
    assert_eq!(MetricIdentity::from_field_key("+6:Worker"), Some(MetricIdentity { worker: "Worker".to_string() }));
}

#[test]
fn metric_field_round_trips_through_split() {
    let identity = MetricIdentity { worker: "app::jobs|Send:Mail".to_string() };
    let kinds = [
        Metric::ProcessedJobs,
        Metric::FailedJobs,
        Metric::PanickedJobs,
        Metric::SuccessfulExecutions,
        Metric::FailedExecutions,
        Metric::PanickedExecutions,
        Metric::ExecutionMs,
    ];
    for kind in kinds {
        let field = identity.metric_field(kind);
        let (back, metric) = split_metric_field(&field).expect("field should split");
        assert_eq!(back, identity);
        assert_eq!(metric, kind);
    }
    assert_eq!(identity.metric_field(Metric::ExecutionMs), "19:app::jobs|Send:Mail|ms");
}

#[test]
fn split_metric_field_rejects_unknown_suffixes() {
    assert!(split_metric_field("6:Worker|zz").is_none());
    assert!(split_metric_field("6:Worker").is_none());
    assert!(split_metric_field("6:Work|p").is_none());
}

#[test]
fn metric_codes_are_the_stored_suffixes() {
    assert_eq!(Metric::ProcessedJobs.code(), "p");
    assert_eq!(Metric::FailedJobs.code(), "f");
    assert_eq!(Metric::PanickedJobs.code(), "pn");
    assert_eq!(Metric::SuccessfulExecutions.code(), "xs");
    assert_eq!(Metric::FailedExecutions.code(), "xf");
    assert_eq!(Metric::PanickedExecutions.code(), "xpn");
    assert_eq!(Metric::ExecutionMs.code(), "ms");
    assert_eq!(Metric::from_bytes(b"xpn"), Some(Metric::PanickedExecutions));
    assert_eq!(Metric::from_bytes(b"q"), None);
}

#[test]
fn histogram_labels_and_buckets() {
    assert_eq!(histogram_bucket_label(0), "25ms");
    assert_eq!(histogram_bucket_label(13), "Slow");
    assert_eq!(histogram_bucket_label(12), "5min");
    let mut counts = [0_u64; HISTOGRAM_BUCKET_COUNT];
    counts[3] = 7;
    let buckets = histogram_buckets_from_counts(&counts);
    assert_eq!(buckets.len(), HISTOGRAM_BUCKET_COUNT);
    assert_eq!(buckets[3].count, 7);
    assert_eq!(buckets[3].upper_bound_ms, Some(250));
    assert_eq!(buckets[13].upper_bound_ms, None);
    assert_eq!(buckets[12].upper_bound_ms, Some(300_000));
}

#[test]
fn bitfield_fetch_args_read_every_bucket() {
    let args = histogram_bitfield_fetch_args();
    assert_eq!(args.len(), 3 * HISTOGRAM_BUCKET_COUNT);
    assert_eq!(args[0], "GET");
    assert_eq!(args[1], "u16");
    assert_eq!(args[2], "#0");
    assert_eq!(args[41], "#13");
}

#[test]
fn query_minutes_default_and_clamp() {
    assert_eq!(JobMetricsQuery::new(0).effective_minutes(), 60);
    assert_eq!(JobMetricsQuery::new(15).effective_minutes(), 15);
    assert_eq!(JobMetricsQuery::new(10_000).effective_minutes(), MAX_METRIC_MINUTES);
    assert_eq!(JobMetricsQuery::default().minutes, 60);
    let minutes = metric_minutes(600, JobMetricsQuery::new(3));
    assert_eq!(minutes, vec![8, 9, 10]);
    assert_eq!(minute_of(-1), -1);
    assert_eq!(minute_of(119), 1);
}

#[test]
fn totals_and_points_accumulate_and_finalize() {
    let mut totals = JobMetricsTotals::zero();
    totals.add_metric(Metric::ProcessedJobs, 10);
    totals.add_metric(Metric::FailedJobs, 4);
    totals.add_metric(Metric::FailedExecutions, 3);
    totals.add_metric(Metric::PanickedExecutions, 1);
    totals.add_metric(Metric::ExecutionMs, u64::MAX);
    totals.add_metric(Metric::ExecutionMs, 5);
    totals.finalize();
    assert_eq!(totals.succeeded, 6);
    assert_eq!(totals.execution_ms, u64::MAX);
    assert_eq!(totals.failed_executions_without_panics(), 2);

    let mut point = JobMetricsPoint::zero(120);
    point.add_metric(Metric::FailedJobs, 2);
    point.finalize();
    assert_eq!(point.timestamp, 120);
    assert_eq!(point.succeeded, 0);
    assert_eq!(point.failed, 2);
}

#[test]
fn pending_metrics_count_results() {
    let mut pending = PendingJobMetrics::new();
    pending.add_result(WorkerResultKind::Success, 30, 3);
    pending.add_result(WorkerResultKind::Panicked, 5, 1);
    pending.add_result(WorkerResultKind::Failed, 5, 2);
    assert_eq!(pending.processed, 6);
    assert_eq!(pending.successful_executions, 1);
    assert_eq!(pending.failed, 3);
    assert_eq!(pending.panicked, 1);
    assert_eq!(pending.failed_executions, 2);
    assert_eq!(pending.panicked_executions, 1);
    assert_eq!(pending.execution_ms, 30);
    assert_eq!(pending.histogram[1], 1);
}

#[test]
fn buffer_groups_results_by_minute_and_worker() {
    let mut buffer = JobMetricsBuffer::new();
    assert!(buffer.is_empty());
    let result = WorkerResult {
        kind: WorkerResultKind::Success,
        worker_name: "W".to_string(),
        queue: "q".to_string(),
        execution_ms: 10,
        job_count: 1,
    };
    buffer.record_at(5, &result);
    buffer.record_at(5, &result);
    buffer.record_at(6, &result);
    assert!(!buffer.is_empty());
    assert_eq!(buffer.records().len(), 2);
    let first = &buffer.records()[0];
    assert_eq!(first.minute, 5);
    assert_eq!(first.identity.worker, "W");
    assert_eq!(first.metrics.processed, 2);
    buffer.clear();
    assert!(buffer.is_empty());
}

#[test]
fn identity_from_worker_result_takes_the_worker() {
    let result = WorkerResult {
        kind: WorkerResultKind::Failed,
        worker_name: "mail::Send".to_string(),
        queue: "mail".to_string(),
        execution_ms: 0,
        job_count: 1,
    };
    assert_eq!(MetricIdentity::from_worker_result(&result).worker, "mail::Send");
}

#[test]
fn snapshot_and_detail_cover_the_window() {
    let minutes = vec![10, 11, 12];
    let hashes: Vec<Vec<(String, i64)>> = vec![Vec::new(); 3];
    let snapshot = job_metrics_snapshot(&minutes, aggregate_counter_hashes(&minutes, &hashes, None));
    assert_eq!(snapshot.starts_at, 600);
    assert_eq!(snapshot.ends_at, 720);
    assert_eq!(snapshot.minutes, 3);
    assert_eq!(snapshot.series.len(), 3);
    let identity = MetricIdentity { worker: "W".to_string() };
    let counts = [1_u64; HISTOGRAM_BUCKET_COUNT];
    let detail = job_metrics_detail(
        identity.clone(),
        &minutes,
        aggregate_counter_hashes(&minutes, &hashes, Some(&identity)),
        &counts,
    );
    assert_eq!(detail.identity, identity);
    assert_eq!(detail.histogram.len(), HISTOGRAM_BUCKET_COUNT);
    assert_eq!(detail.histogram[0].label, "25ms");
}

#[test]
fn buffer_records_under_the_minute_of_the_time_given() {
    let mut buffer = JobMetricsBuffer::new();
    let result = WorkerResult {
        kind: WorkerResultKind::Failed,
        worker_name: "W".to_string(),
        queue: "q".to_string(),
        execution_ms: 10,
        job_count: 1,
    };
    buffer.record(&result, 119);
    buffer.record(&result, -1);
    assert_eq!(buffer.records().len(), 2);
    assert_eq!(buffer.records()[0].minute, 1);
    assert_eq!(buffer.records()[1].minute, -1);
    assert_eq!(buffer.records()[0].metrics.failed, 1);
}

#[test]
fn field_keys_read_back_with_text_after_them() {
    let identity = MetricIdentity { worker: "crate::w|Näme:1".to_string() };
    let key = identity.field_key() + "|xpn:extra";
    assert_eq!(MetricIdentity::from_field_key(&key), Some(identity.clone()));
    assert_eq!(MetricIdentity::from_field_key(&(identity.field_key() + "")), Some(identity));
}
