use std::time::Duration;

use oxanus::builder::{StorageBuilder, StorageBuilderTimeouts, DEFAULT_MAX_POOL_SIZE};
use oxanus::results::{Stats, WorkerResultKind};
use oxanus::stats::Process;
use oxanus::storage::JobConflictStrategy;
use oxanus::text::{decimal_chars, parse_usize_bytes, str_eq};
use oxanus::worker::{worker_config_kind, ContextValue, FromContext, Job, WorkerConfigKind};

#[test]
fn process_ids_join_hostname_and_pid() {
    let process = Process { hostname: "web-1".to_string(), pid: 4242, heartbeat_at: 10, started_at: 5 };
    assert_eq!(process.id(), "web-1-4242");
    let zero = Process { hostname: String::new(), pid: 0, heartbeat_at: 0, started_at: 0 };
    assert_eq!(zero.id(), "-0");
}

#[test]
fn process_stats_count_results_and_stop_at_the_limit() {
    let mut stats = Stats::default();
    assert_eq!(stats.record(WorkerResultKind::Success, 1, Some(3)), (1, false));
    assert_eq!(stats.record(WorkerResultKind::Panicked, 1, Some(3)), (2, false));
    assert_eq!(stats.record(WorkerResultKind::Failed, 2, Some(3)), (4, true));
    assert_eq!(stats.succeeded, 1);
    assert_eq!(stats.panicked, 1);
    assert_eq!(stats.failed, 3);
    assert_eq!(stats.record(WorkerResultKind::Success, u64::MAX, None), (u64::MAX, false));
}

#[test]
fn storage_builder_defaults_and_settings() {
    let builder = StorageBuilder::new();
    assert_eq!(builder.namespace_or_default(), "");
    assert_eq!(builder.effective_max_pool_size(), DEFAULT_MAX_POOL_SIZE);
    let defaults = builder.effective_timeouts();
    assert_eq!(defaults.wait, Some(Duration::from_millis(300)));
    assert_eq!(defaults.create, Some(Duration::from_millis(300)));
    assert_eq!(defaults.recycle, Some(Duration::from_millis(300)));

    let configured = StorageBuilder::default()
        .namespace("app".to_string())
        .max_pool_size(8)
        .timeouts(StorageBuilderTimeouts::new(Duration::from_secs(2)));
    assert_eq!(configured.namespace_or_default(), "app");
    assert_eq!(configured.effective_max_pool_size(), 8);
    assert_eq!(configured.effective_timeouts().wait, Some(Duration::from_secs(2)));
    assert_eq!(StorageBuilderTimeouts::default().create, Some(Duration::from_millis(300)));
}

#[test]
fn cron_workers_register_with_their_schedule() {
    match worker_config_kind(Some("0 * * * * *".to_string()), Some("cron".to_string()), false) {
        WorkerConfigKind::Cron { schedule, queue_key, resurrect } => {
            assert_eq!(schedule, "0 * * * * *");
            assert_eq!(queue_key, "cron");
            assert!(!resurrect);
        }
        WorkerConfigKind::Normal => panic!("a schedule makes a cron worker"),
    }
    assert!(matches!(worker_config_kind(None, None, true), WorkerConfigKind::Normal));
    assert!(matches!(worker_config_kind(None, Some("q".to_string()), true), WorkerConfigKind::Normal));
}

struct Ping;

impl Job for Ping {
    fn worker_name() -> &'static str {
        "Ping"
    }
}

struct Unique(String);

impl Job for Unique {
    fn worker_name() -> &'static str {
        "Unique"
    }

    fn unique_id(&self) -> Option<String> {
        Some(self.0.clone())
    }

    fn on_conflict(&self) -> JobConflictStrategy {
        JobConflictStrategy::Replace
    }
}

#[test]
fn jobs_have_defaults_that_can_be_overridden() {
    assert_eq!(Ping::worker_name(), "Ping");
    assert_eq!(Ping.unique_id(), None);
    assert_eq!(Ping.on_conflict(), JobConflictStrategy::Skip);
    assert!(Ping::should_resurrect());
    assert_eq!(Ping.throttle_cost(), None);
    let unique = Unique("u-1".to_string());
    assert_eq!(unique.unique_id(), Some("u-1".to_string()));
    assert_eq!(unique.on_conflict(), JobConflictStrategy::Replace);
}

struct Mailer {
    from: String,
}

impl FromContext<ContextValue<String>> for Mailer {
    fn from_context(ctx: &ContextValue<String>) -> Self {
        Mailer { from: ctx.0.clone() }
    }
}

#[test]
fn workers_are_built_from_context_values() {
    let ctx = ContextValue::new("noreply@example.com".to_string());
    let mailer = Mailer::from_context(&ctx);
    assert_eq!(mailer.from, "noreply@example.com");
}

#[test]
fn text_helpers() {
    assert_eq!(decimal_chars(0), vec!['0']);
    assert_eq!(decimal_chars(1205), vec!['1', '2', '0', '5']);
    assert_eq!(parse_usize_bytes(b"42"), Some(42));
    assert_eq!(parse_usize_bytes(b"+7"), Some(7));
    assert_eq!(parse_usize_bytes(b""), None);
    assert_eq!(parse_usize_bytes(b"+"), None);
    assert_eq!(parse_usize_bytes(b"-1"), None);
    assert_eq!(parse_usize_bytes(b"99999999999999999999999"), None);
    assert!(str_eq("ab", "ab"));
    assert!(!str_eq("ab", "abc"));
}

#[test]
fn the_current_process_reports_its_pid_and_start() {
    let process = Process::current("host".to_string(), 77, 1_000, 1_060);
    assert_eq!(process.hostname, "host");
    assert_eq!(process.pid, 77);
    assert_eq!(process.started_at, 1_000);
    assert_eq!(process.heartbeat_at, 1_060);
    assert_eq!(process.id(), "host-77");
}
