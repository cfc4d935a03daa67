use oxanus::queue_stats::{
    queue_length_writes, StatsWrite,
    fresh_queue_length_snapshot, queue_base_exec, queue_counts, queue_suffix_exec, result_stats_increments,
    shown_length, stats_key_matches_filter, total_enqueued, QueueResultStats, QUEUE_LENGTH_SNAPSHOT_TTL_SECS,
};

fn entry(field: &str, value: i64) -> (String, i64) {
    (field.to_string(), value)
}

#[test]
fn flushed_result_stats_are_read_back_per_queue() {
    let updates = vec![
        ("static".to_string(), QueueResultStats { processed: 3, succeeded: 1, panicked: 1, failed: 2 }),
        ("dyn#fast".to_string(), QueueResultStats { processed: 2, succeeded: 2, panicked: 0, failed: 0 }),
    ];
    let hash = result_stats_increments(&updates);
    assert_eq!(
        hash,
        vec![
            entry("static:processed", 3),
            entry("static:succeeded", 1),
            entry("static:panicked", 1),
            entry("static:failed", 2),
            entry("dyn#fast:processed", 2),
            entry("dyn#fast:succeeded", 2),
        ]
    );

    let counts = queue_counts(&hash, &vec![], false, 0);
    assert_eq!(counts.len(), 2);
    let dynamic = &counts[0];
    assert_eq!(dynamic.key, "dyn");
    assert_eq!(dynamic.processed, 2);
    assert_eq!(dynamic.succeeded, 2);
    assert_eq!(dynamic.panicked, 0);
    assert_eq!(dynamic.failed, 0);
    assert_eq!(dynamic.queues.len(), 1);
    assert_eq!(dynamic.queues[0].suffix, "fast");
    assert_eq!(dynamic.queues[0].processed, 2);
    assert_eq!(dynamic.queues[0].succeeded, 2);
    let static_counts = &counts[1];
    assert_eq!(static_counts.key, "static");
    assert_eq!(static_counts.processed, 3);
    assert_eq!(static_counts.succeeded, 1);
    assert_eq!(static_counts.panicked, 1);
    assert_eq!(static_counts.failed, 2);
    assert!(static_counts.queues.is_empty());
}

#[test]
fn listed_queues_get_entries_without_counters() {
    let counts = queue_counts(&vec![], &vec!["b".to_string(), "a#x".to_string()], false, 0);
    let keys: Vec<&str> = counts.iter().map(|q| q.key.as_str()).collect();
    assert_eq!(keys, vec!["a", "b"]);
    assert_eq!(counts[0].queues.len(), 1);
    assert_eq!(counts[0].queues[0].suffix, "x");
    assert_eq!(counts[0].processed, 0);
}

#[test]
fn fresh_non_zero_snapshots_create_entries() {
    let now = 1_000;
    let stats = vec![
        entry("static:enqueued", 42),
        entry("static:enqueued_at", now),
        entry("dyn#a:enqueued", 3),
        entry("dyn#a:enqueued_at", now),
        entry("dyn#b:enqueued", 4),
        entry("dyn#b:enqueued_at", now),
        entry("zero:enqueued", 0),
        entry("zero:enqueued_at", now),
        entry("zdyn#empty:enqueued", 0),
        entry("zdyn#empty:enqueued_at", now),
    ];
    let counts = queue_counts(&stats, &vec![], false, now);
    let keys: Vec<&str> = counts.iter().map(|q| q.key.as_str()).collect();
    assert_eq!(keys, vec!["dyn", "static"]);
    let suffixes: Vec<&str> = counts[0].queues.iter().map(|q| q.suffix.as_str()).collect();
    assert_eq!(suffixes, vec!["a", "b"]);

    let empty = vec![];
    assert_eq!(fresh_queue_length_snapshot(&stats, &empty, false, "static", now), Some(42));
    assert_eq!(fresh_queue_length_snapshot(&stats, &empty, false, "dyn#a", now), Some(3));
    assert_eq!(fresh_queue_length_snapshot(&stats, &empty, false, "dyn", now), None);
    let total = total_enqueued(&vec![3, 4]);
    assert_eq!(total, 7);
    assert_eq!(total_enqueued(&vec![]), 0);
}

#[test]
fn stale_snapshots_fall_back_to_live_lengths() {
    let now = 10_000;
    let stale = now - QUEUE_LENGTH_SNAPSHOT_TTL_SECS - 1;
    let stats = vec![entry("q:enqueued", 42), entry("q:enqueued_at", stale)];
    let empty = vec![];
    let snapshot = fresh_queue_length_snapshot(&stats, &empty, false, "q", now);
    assert_eq!(snapshot, None);
    assert_eq!(shown_length(snapshot, 2), 2);
    let edge = vec![entry("q:enqueued", 5), entry("q:enqueued_at", now - QUEUE_LENGTH_SNAPSHOT_TTL_SECS)];
    assert_eq!(fresh_queue_length_snapshot(&edge, &empty, false, "q", now), Some(5));
    assert_eq!(shown_length(Some(5), 2), 5);
    let negative = vec![entry("q:enqueued", -1), entry("q:enqueued_at", now)];
    assert_eq!(fresh_queue_length_snapshot(&negative, &empty, false, "q", now), None);
    assert!(queue_counts(&stale_only(now), &empty, false, now).is_empty());
}

fn stale_only(now: i64) -> Vec<(String, i64)> {
    vec![entry("old:enqueued", 9), entry("old:enqueued_at", now - 500)]
}

#[test]
fn filters_keep_keys_of_the_listed_queues() {
    let queues = vec!["dyn#a".to_string(), "solo".to_string()];
    assert!(stats_key_matches_filter("dyn#b", &queues));
    assert!(stats_key_matches_filter("dyn", &queues));
    assert!(stats_key_matches_filter("solo", &queues));
    assert!(!stats_key_matches_filter("other", &queues));

    let stats = vec![entry("dyn#b:processed", 5), entry("other:processed", 7), entry("solo:failed", 1)];
    let counts = queue_counts(&stats, &queues, true, 0);
    let keys: Vec<&str> = counts.iter().map(|q| q.key.as_str()).collect();
    assert_eq!(keys, vec!["dyn", "solo"]);
    assert_eq!(counts[0].processed, 5);
    assert_eq!(counts[1].failed, 1);
    let unfiltered = queue_counts(&stats, &queues, false, 0);
    assert_eq!(unfiltered.len(), 3);
}

#[test]
fn keys_split_at_the_first_hash() {
    assert_eq!(queue_base_exec("tenant#a#b"), "tenant");
    assert_eq!(queue_suffix_exec("tenant#a#b"), Some("a#b".to_string()));
    assert_eq!(queue_base_exec("plain"), "plain");
    assert_eq!(queue_suffix_exec("plain"), None);
}

#[test]
fn counters_of_namespaced_queues_split_at_the_last_colon() {
    let stats = vec![entry("ns:queue:default:processed", 4), entry("broken", 1)];
    let counts = queue_counts(&stats, &vec![], false, 0);
    assert_eq!(counts.len(), 1);
    assert_eq!(counts[0].key, "ns:queue:default");
    assert_eq!(counts[0].processed, 4);
}

#[test]
fn refreshed_lengths_are_read_back_while_fresh() {
    let now = 5_000;
    let mut hash = vec![entry("a:enqueued", 99), entry("a:enqueued_at", 1)];
    let writes = queue_length_writes("stats", "m", &vec![("a".to_string(), 3), ("b#x".to_string(), 0)], now);
    for write in &writes {
        if let StatsWrite::HashSet { key, field, value } = write {
            if key == "stats" {
                hash.push((field.clone(), *value));
            }
        }
    }
    let empty = vec![];
    assert_eq!(fresh_queue_length_snapshot(&hash, &empty, false, "a", now), Some(3));
    assert_eq!(fresh_queue_length_snapshot(&hash, &empty, false, "b#x", now), Some(0));
    assert_eq!(fresh_queue_length_snapshot(&hash, &empty, false, "a", now + QUEUE_LENGTH_SNAPSHOT_TTL_SECS + 1), None);
}

#[test]
fn dashboard_totals_sum_all_queues() {
    use_totals();
}

fn use_totals() {
    let stats = vec![entry("a:processed", 4), entry("a:failed", 1), entry("b#x:processed", 2), entry("b#x:failed", 2)];
    let counts = queue_counts(&stats, &vec![], false, 0);
    assert_eq!(oxanus::queue_stats::counter_totals(&counts), Some((6, 3)));
    let big = vec![entry("a:processed", i64::MAX), entry("b:processed", 1)];
    let big_counts = queue_counts(&vec![entry("a:processed", i64::MAX)], &vec![], false, 0);
    assert_eq!(oxanus::queue_stats::counter_totals(&big_counts), Some((i64::MAX, 0)));
    assert_eq!(big.len(), 2);
}
