use oxanus::processing::{
    batch_job_count, default_retry_delay, effective_retry_delay, failure_action, invalid_job_message_exec,
    invalid_jobs_by_index, result_kind, split_batch, BatchKey, BatchSlot, DrainOutcome, DrainStats, ExecutionEnd,
    FailureAction, InvalidBatchJob,
};
use oxanus::results::WorkerResultKind;

fn invalid(index: usize, error: &str) -> InvalidBatchJob {
    InvalidBatchJob { index, error: error.to_string() }
}

#[test]
fn invalid_batch_jobs_are_indexed_by_position() {
    let map = invalid_jobs_by_index(vec![invalid(2, "bad two"), invalid(0, "bad zero"), invalid(2, "again"), invalid(9, "far")], 3);
    assert_eq!(map.len(), 2);
    assert_eq!(map.get(&0).map(String::as_str), Some("bad zero"));
    assert_eq!(map.get(&2).map(String::as_str), Some("bad two"));
    assert!(map.get(&9).is_none());
}

#[test]
fn unsorted_invalid_indexes_split_the_batch() {
    let map = invalid_jobs_by_index(vec![invalid(2, "e2"), invalid(0, "e0")], 4);
    let slots = split_batch(4, "Worker", &map);
    assert_eq!(slots.len(), 4);
    match &slots[0] {
        BatchSlot::Kill(msg) => assert_eq!(msg, "Invalid job: Worker - e0"),
        BatchSlot::Keep => panic!("first job is invalid"),
    }
    assert!(matches!(slots[1], BatchSlot::Keep));
    assert!(matches!(slots[2], BatchSlot::Kill(_)));
    assert!(matches!(slots[3], BatchSlot::Keep));
    assert_eq!(invalid_job_message_exec("W", "x"), "Invalid job: W - x");
}

#[test]
fn executions_map_to_result_kinds() {
    assert_eq!(result_kind(ExecutionEnd::Succeeded), WorkerResultKind::Success);
    assert_eq!(result_kind(ExecutionEnd::Errored), WorkerResultKind::Failed);
    assert_eq!(result_kind(ExecutionEnd::Panicked), WorkerResultKind::Panicked);
    assert_eq!(batch_job_count(7), 7);
}

#[test]
fn failed_jobs_retry_until_the_limit() {
    assert_eq!(failure_action(0, 2, 25), FailureAction::Retry { delay_s: 25 });
    assert_eq!(failure_action(1, 2, 125), FailureAction::Retry { delay_s: 125 });
    assert_eq!(failure_action(2, 2, 625), FailureAction::Kill);
    assert_eq!(failure_action(0, 0, 25), FailureAction::Kill);
    assert_eq!(effective_retry_delay(Some(3), 25), 3);
    assert_eq!(effective_retry_delay(None, 25), 25);
}

#[test]
fn default_retry_delays_grow_by_five() {
    assert_eq!(default_retry_delay(0), 25);
    assert_eq!(default_retry_delay(1), 125);
    assert_eq!(default_retry_delay(2), 625);
    assert_eq!(default_retry_delay(7), 1_953_125);
    assert_eq!(default_retry_delay(25), 5_u64.pow(27));
}

#[test]
fn drain_stats_count_outcomes() {
    let mut stats = DrainStats::default();
    stats.record(DrainOutcome::Success);
    stats.record(DrainOutcome::Failed);
    stats.record(DrainOutcome::Missing);
    stats.record(DrainOutcome::Success);
    assert_eq!(stats.processed, 4);
    assert_eq!(stats.succeeded, 2);
    assert_eq!(stats.failed, 1);
    assert_eq!(stats.missing, 1);
}

#[test]
fn batch_key_is_worker_and_queue() {
    let key = BatchKey::from_envelope(&"Worker".to_string(), &"default".to_string());
    assert_eq!(key.worker, "Worker");
    assert_eq!(key.queue, "default");
}

#[test]
fn failed_batches_decide_per_job() {
    use_actions();
}

fn use_actions() {
    let actions = oxanus::processing::batch_failure_actions(&vec![0, 2, 1], &vec![(2, 25), (2, 25)]);
    assert_eq!(actions, vec![FailureAction::Retry { delay_s: 25 }, FailureAction::Kill]);
}

#[test]
fn workers_retry_twice_by_default() {
    assert_eq!(oxanus::processing::DEFAULT_MAX_RETRIES, 2);
    assert_eq!(failure_action(1, oxanus::processing::DEFAULT_MAX_RETRIES, 125), FailureAction::Retry { delay_s: 125 });
    assert_eq!(failure_action(2, oxanus::processing::DEFAULT_MAX_RETRIES, 625), FailureAction::Kill);
}
