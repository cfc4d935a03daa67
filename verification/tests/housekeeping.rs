use oxanus::catalog::{catalog_worker_names, sort_by_name, untracked_queues};
use oxanus::housekeeping::{
    claimed_job_ids, counter_hashes_from_values, cron_job_id, cron_should_wait, dead_process_ids, job_expired,
    jobs_by_queue, queue_process_exec, CRON_LOOKAHEAD_MICROS,
};
use oxanus::queue_stats::{queue_length_writes, sorted_unique_queues, StatsWrite};
use oxanus::worker::extract_format_placeholders;

fn strings(v: &[&str]) -> Vec<String> {
    v.iter().map(|s| s.to_string()).collect()
}

#[test]
fn dead_processes_are_stale_or_orphaned() {
    let now = 1_000;
    let processes = vec![
        ("alive-1".to_string(), now - 1),
        ("stale-2".to_string(), now - 6),
        ("edge-3".to_string(), now - 5),
        ("stale-2".to_string(), now - 60),
    ];
    let queues = strings(&["ns:processing:alive-1", "ns:processing:ghost-9", "ns:processing:stale-2", "ns:processing:ghost-9"]);
    assert_eq!(dead_process_ids(&processes, &queues, now), strings(&["stale-2", "ghost-9"]));
    assert!(dead_process_ids(&vec![], &vec![], now).is_empty());
    assert_eq!(queue_process_exec("no-colon"), "no-colon");
    assert_eq!(queue_process_exec("a:b:c"), "c");
}

#[test]
fn only_claimed_scheduled_jobs_are_enqueued() {
    let ids = strings(&["j1", "j2", "j3"]);
    assert_eq!(claimed_job_ids(&ids, &vec![1, 0, 1]), strings(&["j1", "j3"]));
    assert_eq!(claimed_job_ids(&ids, &vec![1]), strings(&["j1"]));
    assert!(claimed_job_ids(&ids, &vec![0, 0, 0]).is_empty());
}

#[test]
fn claimed_jobs_are_grouped_by_queue() {
    let jobs = vec![
        ("mail".to_string(), "a".to_string()),
        ("default".to_string(), "b".to_string()),
        ("mail".to_string(), "c".to_string()),
    ];
    let groups = jobs_by_queue(&jobs);
    assert_eq!(groups, vec![("mail".to_string(), strings(&["a", "c"])), ("default".to_string(), strings(&["b"]))]);
    assert!(jobs_by_queue(&vec![]).is_empty());
}

#[test]
fn expired_or_unreadable_jobs_are_cleaned() {
    let now = 10_000_000;
    let week = 7 * 24 * 3600;
    assert!(job_expired(None, now));
    assert!(job_expired(Some(now - week - 1), now));
    assert!(!job_expired(Some(now - week), now));
    assert!(!job_expired(Some(now), now));
}

#[test]
fn cron_runs_have_stable_ids_and_wait_for_their_time() {
    assert_eq!(cron_job_id("app::Report", 1_700_000_000_000_000), "app::Report-1700000000000000");
    assert_eq!(cron_job_id("x", -5), "x--5");
    let now = 1_000_000;
    assert!(!cron_should_wait(now + CRON_LOOKAHEAD_MICROS, None, now));
    assert!(cron_should_wait(now + CRON_LOOKAHEAD_MICROS + 1, None, now));
    assert!(cron_should_wait(now, Some(now + 1), now));
    assert!(!cron_should_wait(now, Some(now), now));
}

#[test]
fn counter_values_are_regrouped_per_minute() {
    let fields = strings(&["f1", "f2"]);
    let values = vec![Some(1), None, Some(3), Some(4), Some(5)];
    let hashes = counter_hashes_from_values(4, &fields, &values);
    assert_eq!(hashes.len(), 4);
    assert_eq!(hashes[0], vec![("f1".to_string(), 1)]);
    assert_eq!(hashes[1], vec![("f1".to_string(), 3), ("f2".to_string(), 4)]);
    assert_eq!(hashes[2], vec![("f1".to_string(), 5)]);
    assert!(hashes[3].is_empty());
}

#[test]
fn queue_length_refresh_writes_snapshots_and_series() {
    assert_eq!(sorted_unique_queues(&strings(&["b", "a", "b"])), strings(&["a", "b"]));
    let writes = queue_length_writes("ns:stats", "ns:metrics", &vec![("a".to_string(), 3)], 125);
    let texts: Vec<String> = writes
        .iter()
        .map(|w| match w {
            StatsWrite::HashSet { key, field, value } => format!("HSET {key} {field} {value}"),
            StatsWrite::Expire { key, seconds } => format!("EXPIRE {key} {seconds}"),
        })
        .collect();
    assert_eq!(
        texts,
        vec![
            "HSET ns:stats a:enqueued 3",
            "HSET ns:stats a:enqueued_at 125",
            "HSET ns:metrics:q:2 a 3",
            "EXPIRE ns:metrics:q:2 28800",
        ]
    );
}

#[test]
fn catalog_lists_names_in_order() {
    let names = strings(&["b::Worker", "a::Cron", "a::Worker"]);
    let crons = strings(&["a::Cron"]);
    assert_eq!(catalog_worker_names(&names, &crons), strings(&["a::Worker", "b::Worker"]));
    let sorted = sort_by_name(vec![("b".to_string(), 1), ("a".to_string(), 2), ("b".to_string(), 3)]);
    assert_eq!(sorted[0], ("a".to_string(), 2));
    assert_eq!(sorted.len(), 3);
    assert_eq!(sorted[1], ("b".to_string(), 1));
    assert_eq!(sorted[2], ("b".to_string(), 3));
    assert_eq!(untracked_queues(&strings(&["t#1", "t#2", "t#3"]), &strings(&["t#2"])), strings(&["t#1", "t#3"]));
}

#[test]
fn format_placeholders_name_fields_once() {
    assert_eq!(extract_format_placeholders("user-{user_id}-{kind}-{user_id}"), strings(&["user_id", "kind"]));
    assert_eq!(extract_format_placeholders("{0}-{}-{a b}-{_x}-{ä1}"), strings(&["_x", "ä1"]));
    assert_eq!(extract_format_placeholders("plain"), Vec::<String>::new());
    assert_eq!(extract_format_placeholders("open {name"), strings(&["name"]));
}

#[test]
fn cron_schedules_give_their_next_runs() {
    assert_eq!(oxanus::housekeeping::cron_next_run_micros("0 0 * * * *", 0), Some(3_600_000_000));
    assert_eq!(oxanus::housekeeping::cron_next_run_micros("0 0 * * * *", 3_600), Some(7_200_000_000));
    assert_eq!(oxanus::housekeeping::cron_next_run_micros("not a schedule", 0), None);
    assert_eq!(oxanus::housekeeping::cron_first_run_micros("* * * * * *", 100), Some(104_000_000));
    assert_eq!(oxanus::housekeeping::cron_following_run_micros("* * * * * *", 104_000_000), Some(105_000_000));
    assert_eq!(oxanus::housekeeping::cron_following_run_micros("*/10 * * * * *", 104_500_000), Some(110_000_000));
    assert_eq!(oxanus::housekeeping::cron_following_run_micros("* * * * * *", -1_500_000), Some(0));
}
