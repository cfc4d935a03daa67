use oxanus::metrics::{JobMetricsDetail, JobMetricsHistogramBucket, JobMetricsTotals, MetricIdentity};
use oxanus::stats::Process;
use oxanus::web::{
    build_on_demand_queue_views, default_page, list_opts, BusyTemplate, CronRow, CronWorkerView,
    DashboardTemplate, GlobalJobsTemplate, JobListKind, MetricDetailTemplate, ProcessingJob, QueueDetailTemplate,
    QueuesTemplate, JOBS_PER_PAGE,
};
use oxanus::catalog::QueueInfo;

fn queue_info(key: &str, dynamic: bool) -> QueueInfo {
    QueueInfo { key: key.to_string(), dynamic, concurrency: 1, throttle: None }
}

#[test]
fn on_demand_queue_views_preselect_default_queue() {
    let views = build_on_demand_queue_views(&vec![
        queue_info("alpha", false),
        queue_info("default", false),
        queue_info("main", false),
    ]);

    let selected_keys = views.iter().filter(|queue| queue.selected).map(|queue| queue.key.as_str()).collect::<Vec<_>>();

    assert_eq!(selected_keys, vec!["default"]);
}

#[test]
fn on_demand_queue_views_preselect_main_when_default_is_missing() {
    let views = build_on_demand_queue_views(&vec![
        queue_info("default", true),
        queue_info("main", false),
        queue_info("worker", false),
    ]);

    let selected_keys = views.iter().filter(|queue| queue.selected).map(|queue| queue.key.as_str()).collect::<Vec<_>>();

    assert_eq!(selected_keys, vec!["main"]);
}

#[test]
fn on_demand_queue_views_do_not_preselect_other_queues() {
    let views = build_on_demand_queue_views(&vec![queue_info("alpha", false), queue_info("worker", false)]);

    assert!(views.iter().all(|queue| !queue.selected));
}

#[test]
fn on_demand_queue_views_list_only_static_queues_in_order() {
    let views = build_on_demand_queue_views(&vec![
        queue_info("tenant", true),
        queue_info("main", false),
        queue_info("alpha", false),
    ]);
    let keys = views.iter().map(|queue| queue.key.as_str()).collect::<Vec<_>>();
    assert_eq!(keys, vec!["main", "alpha"]);
}

#[test]
fn job_list_kinds_have_their_texts() {
    assert_eq!(JobListKind::Dead.title(), "Dead Jobs");
    assert_eq!(JobListKind::Retries.title(), "Retries");
    assert_eq!(JobListKind::Scheduled.label(), "scheduled jobs");
    assert_eq!(JobListKind::Retries.empty_label(), "No retrying jobs");
    assert_eq!(JobListKind::Scheduled.border_class(), "border-yellow-900/50");
    assert_eq!(JobListKind::Dead.dot_class(), "bg-red-400");
    assert!(JobListKind::Dead.is_dead());
    assert!(!JobListKind::Scheduled.is_dead());
}

fn processing() -> Vec<ProcessingJob> {
    vec![
        ProcessingJob { process_id: "host-1".to_string(), queue: "default".to_string() },
        ProcessingJob { process_id: "host-2".to_string(), queue: "default".to_string() },
        ProcessingJob { process_id: "host-1".to_string(), queue: "mail".to_string() },
    ]
}

#[test]
fn busy_counts_by_queue_and_process() {
    let dashboard = DashboardTemplate {
        base_path: String::new(),
        active_tab: "dashboard",
        processing: processing(),
        concurrency_map: vec![("default".to_string(), 4)],
    };
    assert_eq!(dashboard.busy_for("default"), 2);
    assert_eq!(dashboard.busy_for("other"), 0);
    let process = Process { hostname: "host".to_string(), pid: 1, heartbeat_at: 0, started_at: 0 };
    assert_eq!(dashboard.busy_for_process(&process), 2);
    assert_eq!(dashboard.concurrency_for("default"), "4");
    assert_eq!(dashboard.concurrency_for("mail"), "\u{2014}");

    let busy = BusyTemplate {
        base_path: String::new(),
        active_tab: "busy",
        processing: processing(),
        concurrency_map: vec![],
    };
    assert_eq!(busy.busy_for("mail"), 1);
    assert_eq!(busy.concurrency_for("mail"), "\u{2014}");
}

#[test]
fn queue_sorting_links_toggle_direction() {
    let template = QueuesTemplate {
        base_path: String::new(),
        active_tab: "queues",
        concurrency_map: vec![("q".to_string(), 2)],
        sort: "processed".to_string(),
        dir: "desc".to_string(),
    };
    assert_eq!(template.next_dir("processed"), "asc");
    assert_eq!(template.next_dir("failed"), "desc");
    assert_eq!(template.sort_arrow("processed"), " \u{25BC}");
    assert_eq!(template.sort_arrow("failed"), "");
    assert_eq!(template.concurrency_for("q"), "2");
}

#[test]
fn pages_start_at_one_and_read_one_extra_job() {
    assert_eq!(default_page(), 1);
    let first = list_opts(1);
    assert_eq!(first.count, JOBS_PER_PAGE + 1);
    assert_eq!(first.offset, 0);
    assert_eq!(list_opts(3).offset, 2 * JOBS_PER_PAGE);
}

#[test]
fn page_ranges_are_clamped_to_the_total() {
    let detail = QueueDetailTemplate {
        base_path: String::new(),
        active_tab: "queues",
        queue_key: "q".to_string(),
        busy: 0,
        jobs: vec!["a".to_string(), "b".to_string()],
        page: 2,
        total: JOBS_PER_PAGE + 1,
        has_next: false,
    };
    assert_eq!(detail.range_start(), JOBS_PER_PAGE + 1);
    assert_eq!(detail.range_end(), JOBS_PER_PAGE + 1);

    let global = GlobalJobsTemplate {
        base_path: String::new(),
        active_tab: "dead",
        kind: JobListKind::Dead,
        jobs: vec!["a".to_string()],
        page: 1,
        total: 10,
        has_next: true,
    };
    assert_eq!(global.range_start(), 1);
    assert_eq!(global.range_end(), 1);
}

#[test]
fn cron_rows_indent_by_depth() {
    let group = CronRow::Group { name: "app".to_string(), depth: 2 };
    assert_eq!(group.indent_px(), 40);
    let worker = CronRow::Worker {
        view: CronWorkerView {
            short_name: "jobs::Cleanup".to_string(),
            schedule: "0 * * * * *".to_string(),
            queue_key: "cron".to_string(),
            next_run_micros: None,
        },
        depth: 0,
    };
    assert_eq!(worker.indent_px(), 0);
}

#[test]
fn metric_labels_keep_the_last_path_segment() {
    let template = oxanus::web::MetricsTemplate {
        base_path: String::new(),
        active_tab: "metrics",
        metrics: oxanus::metrics::job_metrics_snapshot(
            &vec![1],
            oxanus::metrics::aggregate_counter_hashes(&vec![1], &vec![Vec::new()], None),
        ),
    };
    let identity = MetricIdentity { worker: "app::jobs::SendMail".to_string() };
    assert_eq!(template.metric_identity_label(&identity), "SendMail");
    let plain = MetricIdentity { worker: "SendMail".to_string() };
    assert_eq!(template.metric_identity_label(&plain), "SendMail");
    let trailing = MetricIdentity { worker: "a::".to_string() };
    assert_eq!(template.metric_identity_label(&trailing), "");
}

#[test]
fn max_histogram_count_is_the_largest_bucket() {
    let bucket = |count: u64| JobMetricsHistogramBucket { label: "x".to_string(), upper_bound_ms: None, count };
    let template = MetricDetailTemplate {
        base_path: String::new(),
        active_tab: "metrics",
        metrics: JobMetricsDetail {
            identity: MetricIdentity { worker: "W".to_string() },
            starts_at: 0,
            ends_at: 0,
            minutes: 0,
            totals: JobMetricsTotals::zero(),
            series: vec![],
            histogram: vec![bucket(3), bucket(9), bucket(1)],
        },
    };
    assert_eq!(template.max_histogram_count(), 9);
}

#[test]
fn pages_are_clamped_and_sliced() {
    assert_eq!(oxanus::web::current_page(0), 1);
    assert_eq!(oxanus::web::current_page(4), 4);
    let read: Vec<u32> = (0..(JOBS_PER_PAGE as u32 + 1)).collect();
    let (shown, has_next) = oxanus::web::page_slice(read);
    assert_eq!(shown.len(), JOBS_PER_PAGE);
    assert!(has_next);
    let (few, more) = oxanus::web::page_slice(vec![1, 2]);
    assert_eq!(few, vec![1, 2]);
    assert!(!more);
}

#[test]
fn queue_sorting_defaults_to_key_ascending() {
    let (sort, dir, desc) = oxanus::web::queue_sort_params(None, None);
    assert_eq!((sort.as_str(), dir.as_str(), desc), ("key", "asc", false));
    let (sort, dir, desc) = oxanus::web::queue_sort_params(Some("failed".to_string()), Some("desc".to_string()));
    assert_eq!((sort.as_str(), dir.as_str(), desc), ("failed", "desc", true));
}

#[test]
fn queue_pages_find_queues_and_sub_queues() {
    let keys = vec!["mail".to_string(), "tenant".to_string()];
    let suffixes = vec![vec![], vec!["a".to_string(), "b#c".to_string()]];
    assert_eq!(oxanus::web::locate_queue(&keys, &suffixes, "tenant"), Some((1, None)));
    assert_eq!(oxanus::web::locate_queue(&keys, &suffixes, "tenant#b#c"), Some((1, Some(1))));
    assert_eq!(oxanus::web::locate_queue(&keys, &suffixes, "tenant#z"), None);
    assert_eq!(oxanus::web::locate_queue(&keys, &suffixes, "other#a"), None);
    assert_eq!(oxanus::web::locate_queue(&keys, &suffixes, "plain"), None);
}
