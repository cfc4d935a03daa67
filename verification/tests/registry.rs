use oxanus::catalog::catalog_worker_names;
use oxanus::registry::WorkerRegistry;
use oxanus::worker::WorkerConfigKind;

fn cron(schedule: &str, queue: &str) -> WorkerConfigKind {
    WorkerConfigKind::Cron { schedule: schedule.to_string(), queue_key: queue.to_string(), resurrect: true }
}

#[test]
fn registered_workers_are_known() {
    let mut registry = WorkerRegistry::new();
    assert!(!registry.has_registered("a::Mail"));
    registry.register_worker_with("a::Mail".to_string(), WorkerConfigKind::Normal);
    registry.register_worker_with("b::Report".to_string(), cron("0 0 * * * *", "cron"));
    registry.register_worker_with("a::Mail".to_string(), WorkerConfigKind::Normal);
    assert!(registry.has_registered("a::Mail"));
    assert!(registry.has_registered("b::Report"));
    assert!(!registry.has_registered_cron("a::Mail"));
    assert!(registry.has_registered_cron("b::Report"));
    let mut names = registry.worker_names();
    names.sort();
    assert_eq!(names, vec!["a::Mail".to_string(), "b::Report".to_string()]);
    assert_eq!(registry.cron_names(), vec!["b::Report".to_string()]);
    assert_eq!(
        catalog_worker_names(&registry.worker_names(), &registry.cron_names()),
        vec!["a::Mail".to_string()]
    );
}

#[test]
fn re_registering_a_cron_worker_replaces_its_schedule() {
    let mut registry = WorkerRegistry::new();
    registry.register_worker_with("job".to_string(), cron("1 * * * * *", "q1"));
    registry.register_worker_with("job".to_string(), cron("2 * * * * *", "q2"));
    assert_eq!(registry.cron_names(), vec!["job".to_string()]);
    assert_eq!(registry.worker_names(), vec!["job".to_string()]);
    registry.register_worker_with("job".to_string(), WorkerConfigKind::Normal);
    assert!(registry.has_registered_cron("job"));
}
