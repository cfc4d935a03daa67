use oxanus::web::{compare_queue_column, queue_column, ColumnOrder, QueueColumn, QueueSortFields};
use oxanus::catalog::{
    build_catalog, on_demand_job_index, sort_queues_by_key, OnDemandRefusal, QueueInfo, QueueThrottleInfo,
};
use oxanus::housekeeping::{resurrect_action, ResurrectAction};
use oxanus::processing::{batch_precheck, BatchPrecheck};
use oxanus::queue_stats::{queue_counters_fit, queue_rate_inputs, QueueCounterTotals};
use oxanus::registry::{InvalidCronSchedule, WorkerRegistry};
use oxanus::worker::WorkerConfigKind;

fn queue(key: &str, dynamic: bool, concurrency: usize) -> QueueInfo {
    QueueInfo { key: key.to_string(), dynamic, concurrency, throttle: None }
}

fn cron(schedule: &str, queue: &str) -> WorkerConfigKind {
    WorkerConfigKind::Cron { schedule: schedule.to_string(), queue_key: queue.to_string(), resurrect: false }
}

#[test]
fn queues_sort_by_key_keeping_ties_in_order() {
    let sorted = sort_queues_by_key(vec![queue("b", false, 1), queue("a", true, 2), queue("b", false, 3)]);
    let seen: Vec<(String, usize)> = sorted.iter().map(|q| (q.key.clone(), q.concurrency)).collect();
    assert_eq!(seen, vec![("a".to_string(), 2), ("b".to_string(), 1), ("b".to_string(), 3)]);
}

#[test]
fn catalog_lists_workers_crons_and_queues_in_order() {
    let mut registry = WorkerRegistry::new();
    registry.register_worker_with("z::Mail".to_string(), WorkerConfigKind::Normal);
    registry.register_worker_with("b::Report".to_string(), cron("0 0 * * * *", "reports"));
    registry.register_worker_with("a::Mail".to_string(), WorkerConfigKind::Normal);
    registry.register_worker_with("a::Tick".to_string(), cron("*/5 * * * * *", "ticks"));
    let mut throttled = queue("q2", false, 4);
    throttled.throttle = Some(QueueThrottleInfo { window_ms: 1000, limit: 3 });
    let catalog = build_catalog(&registry, vec![throttled, queue("q1", true, 1)]);
    let workers: Vec<&str> = catalog.workers.iter().map(|w| w.name.as_str()).collect();
    assert_eq!(workers, vec!["a::Mail", "z::Mail"]);
    let crons: Vec<(&str, &str, &str)> = catalog
        .cron_workers
        .iter()
        .map(|c| (c.name.as_str(), c.schedule.as_str(), c.queue_key.as_str()))
        .collect();
    assert_eq!(crons, vec![("a::Tick", "*/5 * * * * *", "ticks"), ("b::Report", "0 0 * * * *", "reports")]);
    let queues: Vec<&str> = catalog.queues.iter().map(|q| q.key.as_str()).collect();
    assert_eq!(queues, vec!["q1", "q2"]);
    assert_eq!(catalog.queues[1].throttle.map(|t| t.limit), Some(3));
}

#[test]
fn on_demand_requests_need_a_static_queue_and_a_known_job() {
    let queues = vec![queue("static", false, 1), queue("dyn", true, 1)];
    let jobs = vec!["a::Job".to_string(), "b::Job".to_string(), "b::Job".to_string()];
    assert_eq!(on_demand_job_index(&queues, &jobs, "dyn", "a::Job"), Err(OnDemandRefusal::QueueNotStatic));
    assert_eq!(on_demand_job_index(&queues, &jobs, "other", "a::Job"), Err(OnDemandRefusal::QueueNotStatic));
    assert_eq!(on_demand_job_index(&queues, &jobs, "static", "c::Job"), Err(OnDemandRefusal::JobNotOnDemand));
    assert_eq!(on_demand_job_index(&queues, &jobs, "static", "b::Job"), Ok(1));
}

#[test]
fn jobs_of_dead_processes_are_requeued_deleted_or_skipped() {
    assert_eq!(resurrect_action(None), ResurrectAction::Skip);
    assert_eq!(resurrect_action(Some((true, "mail"))), ResurrectAction::Requeue { queue: "mail".to_string() });
    assert_eq!(resurrect_action(Some((false, "mail"))), ResurrectAction::Delete);
}

#[test]
fn batches_are_checked_before_they_run() {
    assert_eq!(batch_precheck(3, 0), BatchPrecheck::Empty);
    assert_eq!(batch_precheck(0, 0), BatchPrecheck::Empty);
    assert_eq!(batch_precheck(2, 3), BatchPrecheck::Mismatch);
    assert_eq!(batch_precheck(3, 3), BatchPrecheck::Run);
}

#[test]
fn counters_fit_per_queue_and_counter() {
    let separate = vec![("a:processed".to_string(), i64::MAX), ("b:processed".to_string(), i64::MAX)];
    assert!(queue_counters_fit(&separate, &vec![], false));
    let other_stats = vec![("a:processed".to_string(), i64::MAX), ("a:failed".to_string(), i64::MAX)];
    assert!(queue_counters_fit(&other_stats, &vec![], false));
    let shared = vec![("a:processed".to_string(), i64::MAX), ("a#x:processed".to_string(), 1)];
    assert!(!queue_counters_fit(&shared, &vec![], false));
    let negative = vec![("a:failed".to_string(), i64::MIN + 1), ("a:failed".to_string(), -1)];
    assert!(!queue_counters_fit(&negative, &vec![], false));
}

#[test]
fn rate_inputs_come_from_the_first_length_hash_and_the_window_counters() {
    let hashes = vec![
        vec![("q".to_string(), 7), ("r".to_string(), -2)],
        vec![("q".to_string(), 9)],
    ];
    let totals = vec![("q".to_string(), QueueCounterTotals { processed: 5, succeeded: 4, failed: 1 })];
    let (start, counters) = queue_rate_inputs("q", &hashes, &totals);
    assert_eq!(start, 7);
    assert_eq!((counters.processed, counters.succeeded, counters.failed), (5, 4, 1));
    let (start, counters) = queue_rate_inputs("r", &hashes, &totals);
    assert_eq!(start, 0);
    assert_eq!(counters.processed, 0);
    assert_eq!(queue_rate_inputs("q", &vec![], &vec![]).0, 0);
}

#[test]
fn bad_cron_schedules_are_refused() {
    let mut registry = WorkerRegistry::new();
    let refused = registry.try_register_worker_with("job".to_string(), cron("not a schedule", "q"));
    assert_eq!(
        refused,
        Err(InvalidCronSchedule { name: "job".to_string(), schedule: "not a schedule".to_string() })
    );
    assert!(!registry.has_registered("job"));
    assert_eq!(registry.try_register_worker_with("job".to_string(), cron("0 0 * * * *", "q")), Ok(()));
    assert!(registry.has_registered_cron("job"));
    assert_eq!(registry.try_register_worker_with("plain".to_string(), WorkerConfigKind::Normal), Ok(()));
    assert!(registry.has_registered("plain"));
}

#[test]
fn queue_columns_compare_whole_numbers_and_keys() {
    let fields = |key: &str, enqueued: usize, failed: i64| QueueSortFields {
        key: key.to_string(),
        enqueued,
        processed: 0,
        succeeded: 0,
        failed,
        panicked: 0,
    };
    assert_eq!(queue_column("enqueued"), Some(QueueColumn::Enqueued));
    assert_eq!(queue_column("rate"), None);
    assert_eq!(queue_column("eta"), None);
    assert_eq!(queue_column("whatever"), Some(QueueColumn::Key));
    let a = fields("a", 5, -1);
    let b = fields("b", 3, 2);
    let map = vec![("b".to_string(), 4)];
    assert_eq!(compare_queue_column(QueueColumn::Enqueued, false, &a, &b, &map), ColumnOrder::Greater);
    assert_eq!(compare_queue_column(QueueColumn::Enqueued, true, &a, &b, &map), ColumnOrder::Less);
    assert_eq!(compare_queue_column(QueueColumn::Failed, false, &a, &b, &map), ColumnOrder::Less);
    assert_eq!(compare_queue_column(QueueColumn::Concurrency, false, &a, &b, &map), ColumnOrder::Less);
    assert_eq!(compare_queue_column(QueueColumn::Key, false, &a, &b, &map), ColumnOrder::Less);
    assert_eq!(compare_queue_column(QueueColumn::Key, true, &a, &a, &map), ColumnOrder::Equal);
}
