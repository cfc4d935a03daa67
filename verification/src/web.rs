//! Presentation logic of the dashboard: selections, labels, counts and
//! page ranges shown next to the stored statistics.

use vstd::prelude::*;

use crate::catalog::QueueInfo;
use crate::metrics::{JobMetricsDetail, MetricIdentity};
use crate::stats::Process;
use crate::storage::QueueListOpts;
use crate::text::{bytes_less, chars_eq, chars_of, decimal, decimal_chars, str_eq, string_of, text_lt, utf8};

verus! {

broadcast use vstd::string::group_string_axioms;

/// Jobs shown per page of a job list.
pub const JOBS_PER_PAGE: usize = 25;

/// The page shown when none is asked for.
pub fn default_page() -> (p: usize)
    ensures
        p == 1,
{
    1
}

/// The slice of a job list read for page `page` (counted from one): one
/// job more than a page, to tell whether a next page exists.
pub fn list_opts(page: usize) -> (o: QueueListOpts)
    requires
        page >= 1,
        (page - 1) * JOBS_PER_PAGE <= usize::MAX,
    ensures
        o.count == JOBS_PER_PAGE + 1,
        o.offset == (page - 1) * JOBS_PER_PAGE,
{
    QueueListOpts { count: JOBS_PER_PAGE + 1, offset: (page - 1) * JOBS_PER_PAGE }
}

/// The page shown for a requested page number: at least the first.
pub fn current_page(requested: usize) -> (p: usize)
    ensures
        p == if requested < 1 { 1 } else { requested },
{
    if requested < 1 { 1 } else { requested }
}

/// The jobs shown from what was read for a page (one more than a page),
/// and whether a next page exists.
pub fn page_slice<T>(jobs: Vec<T>) -> (r: (Vec<T>, bool))
    ensures
        r.1 == (jobs@.len() > JOBS_PER_PAGE),
        r.0@ == if jobs@.len() > JOBS_PER_PAGE { jobs@.take(JOBS_PER_PAGE as int) } else { jobs@ },
{
    let has_next = jobs.len() > JOBS_PER_PAGE;
    let mut shown = jobs;
    shown.truncate(JOBS_PER_PAGE);
    (shown, has_next)
}

/// The sort column and direction of the queues page: by key, ascending,
/// unless asked otherwise; descending only when asked for `desc`.
pub fn queue_sort_params(sort: Option<String>, dir: Option<String>) -> (r: (String, String, bool))
    ensures
        r.0@ == match sort {
            Some(s) => s@,
            None => "key"@,
        },
        r.1@ == match dir {
            Some(d) => d@,
            None => "asc"@,
        },
        r.2 == (r.1@ == "desc"@),
{
    let sort = match sort {
        Some(s) => s,
        None => "key".to_string(),
    };
    let dir = match dir {
        Some(d) => d,
        None => "asc".to_string(),
    };
    let desc = str_eq(dir.as_str(), "desc");
    (sort, dir, desc)
}

/// A static queue offered for on-demand enqueueing.
#[derive(Debug)]
pub struct OnDemandQueueView {
    pub key: String,
    pub selected: bool,
}

/// True when a static queue with this key is registered.
pub open spec fn has_static_queue(queues: Seq<QueueInfo>, key: Seq<char>) -> bool {
    exists|i: int| 0 <= i < queues.len() && !queues[i].dynamic && #[trigger] queues[i].key@ == key
}

/// The queue preselected for on-demand enqueueing: `default` when it is a
/// registered static queue, otherwise `main` when it is, otherwise none.
pub open spec fn preselected_queue(queues: Seq<QueueInfo>) -> Option<Seq<char>> {
    if has_static_queue(queues, "default"@) {
        Some("default"@)
    } else if has_static_queue(queues, "main"@) {
        Some("main"@)
    } else {
        None
    }
}

/// The static queues among `queues`, in order.
pub open spec fn static_queue_keys(queues: Seq<QueueInfo>) -> Seq<Seq<char>>
    decreases queues.len(),
{
    if queues.len() == 0 {
        Seq::empty()
    } else {
        let prev = static_queue_keys(queues.drop_last());
        if queues.last().dynamic {
            prev
        } else {
            prev.push(queues.last().key@)
        }
    }
}

fn has_static_queue_exec(queues: &Vec<QueueInfo>, key: &str) -> (r: bool)
    ensures
        r == has_static_queue(queues@, key@),
{
    let mut i: usize = 0;
    while i < queues.len()
        invariant
            i <= queues@.len(),
            forall|j: int| 0 <= j < i ==> !(!queues@[j].dynamic && queues@[j].key@ == key@),
        decreases queues@.len() - i,
    {
        if !queues[i].dynamic && str_eq(queues[i].key.as_str(), key) {
            return true;
        }
        i = i + 1;
    }
    false
}

/// The static queues, in order, each marked selected when it is the
/// preselected queue.
pub fn build_on_demand_queue_views(queues: &Vec<QueueInfo>) -> (r: Vec<OnDemandQueueView>)
    ensures
        r@.len() == static_queue_keys(queues@).len(),
        forall|i: int| #![trigger r@[i]] 0 <= i < r@.len() ==> {
            &&& r@[i].key@ == static_queue_keys(queues@)[i]
            &&& r@[i].selected == (preselected_queue(queues@) == Some(r@[i].key@))
        },
{
    let has_default = has_static_queue_exec(queues, "default");
    let has_main = has_static_queue_exec(queues, "main");
    let selected: Option<&str> = if has_default {
        Some("default")
    } else if has_main {
        Some("main")
    } else {
        None
    };
    let ghost sel = preselected_queue(queues@);
    assert(match selected {
        Some(s) => sel == Some(s@),
        None => sel is None,
    });
    let mut r: Vec<OnDemandQueueView> = Vec::new();
    let mut i: usize = 0;
    while i < queues.len()
        invariant
            i <= queues@.len(),
            sel == preselected_queue(queues@),
            match selected {
                Some(s) => sel == Some(s@),
                None => sel is None,
            },
            r@.len() == static_queue_keys(queues@.take(i as int)).len(),
            forall|k: int| #![trigger r@[k]] 0 <= k < r@.len() ==> {
                &&& r@[k].key@ == static_queue_keys(queues@.take(i as int))[k]
                &&& r@[k].selected == (sel == Some(r@[k].key@))
            },
        decreases queues@.len() - i,
    {
        assert(queues@.take(i + 1).drop_last() =~= queues@.take(i as int));
        assert(queues@.take(i + 1).last() == queues@[i as int]);
        let q = &queues[i];
        if !q.dynamic {
            let is_selected = match selected {
                Some(s) => str_eq(q.key.as_str(), s),
                None => false,
            };
            r.push(OnDemandQueueView { key: q.key.clone(), selected: is_selected });
        }
        i = i + 1;
    }
    assert(queues@.take(queues@.len() as int) =~= queues@);
    r
}

/// Which job list a page shows.
#[derive(Debug, Clone, Copy, PartialEq, Eq, Structural)]
pub enum JobListKind {
    Dead,
    Retries,
    Scheduled,
}

impl JobListKind {
    pub fn title(&self) -> (s: &'static str)
        ensures
            s@ == match self {
                JobListKind::Dead => "Dead Jobs"@,
                JobListKind::Retries => "Retries"@,
                JobListKind::Scheduled => "Scheduled"@,
            },
    {
        match self {
            JobListKind::Dead => "Dead Jobs",
            JobListKind::Retries => "Retries",
            JobListKind::Scheduled => "Scheduled",
        }
    }

    pub fn label(&self) -> (s: &'static str)
        ensures
            s@ == match self {
                JobListKind::Dead => "dead jobs"@,
                JobListKind::Retries => "retrying jobs"@,
                JobListKind::Scheduled => "scheduled jobs"@,
            },
    {
        match self {
            JobListKind::Dead => "dead jobs",
            JobListKind::Retries => "retrying jobs",
            JobListKind::Scheduled => "scheduled jobs",
        }
    }

    pub fn empty_label(&self) -> (s: &'static str)
        ensures
            s@ == match self {
                JobListKind::Dead => "No dead jobs"@,
                JobListKind::Retries => "No retrying jobs"@,
                JobListKind::Scheduled => "No scheduled jobs"@,
            },
    {
        match self {
            JobListKind::Dead => "No dead jobs",
            JobListKind::Retries => "No retrying jobs",
            JobListKind::Scheduled => "No scheduled jobs",
        }
    }

    pub fn border_class(&self) -> (s: &'static str)
        ensures
            s@ == match self {
                JobListKind::Dead => "border-red-900/50"@,
                JobListKind::Retries => "border-orange-900/50"@,
                JobListKind::Scheduled => "border-yellow-900/50"@,
            },
    {
        match self {
            JobListKind::Dead => "border-red-900/50",
            JobListKind::Retries => "border-orange-900/50",
            JobListKind::Scheduled => "border-yellow-900/50",
        }
    }

    pub fn is_dead(&self) -> (r: bool)
        ensures
            r == (*self == JobListKind::Dead),
    {
        match self {
            JobListKind::Dead => true,
            _ => false,
        }
    }

    pub fn dot_class(&self) -> (s: &'static str)
        ensures
            s@ == match self {
                JobListKind::Dead => "bg-red-400"@,
                JobListKind::Retries => "bg-orange-400"@,
                JobListKind::Scheduled => "bg-yellow-400"@,
            },
    {
        match self {
            JobListKind::Dead => "bg-red-400",
            JobListKind::Retries => "bg-orange-400",
            JobListKind::Scheduled => "bg-yellow-400",
        }
    }
}

/// A job being worked on, as the dashboard counts it.
#[derive(Debug)]
pub struct ProcessingJob {
    /// Identifier of the process working on it.
    pub process_id: String,
    /// Queue the job came from.
    pub queue: String,
}

/// Number of jobs in `jobs` from queue `key`.
pub open spec fn busy_count(jobs: Seq<ProcessingJob>, key: Seq<char>) -> nat
    decreases jobs.len(),
{
    if jobs.len() == 0 {
        0
    } else {
        busy_count(jobs.drop_last(), key) + if jobs.last().queue@ == key { 1nat } else { 0nat }
    }
}

/// Number of jobs in `jobs` worked on by process `id`.
pub open spec fn process_busy_count(jobs: Seq<ProcessingJob>, id: Seq<char>) -> nat
    decreases jobs.len(),
{
    if jobs.len() == 0 {
        0
    } else {
        process_busy_count(jobs.drop_last(), id) + if jobs.last().process_id@ == id { 1nat } else { 0nat }
    }
}

proof fn lemma_busy_count_bound(jobs: Seq<ProcessingJob>, key: Seq<char>, id: Seq<char>)
    ensures
        busy_count(jobs, key) <= jobs.len(),
        process_busy_count(jobs, id) <= jobs.len(),
    decreases jobs.len(),
{
    if jobs.len() > 0 {
        lemma_busy_count_bound(jobs.drop_last(), key, id);
    }
}

fn busy_for(jobs: &Vec<ProcessingJob>, key: &str) -> (r: usize)
    ensures
        r == busy_count(jobs@, key@),
{
    let mut count: usize = 0;
    let mut i: usize = 0;
    while i < jobs.len()
        invariant
            i <= jobs@.len(),
            count == busy_count(jobs@.take(i as int), key@),
        decreases jobs@.len() - i,
    {
        assert(jobs@.take(i + 1).drop_last() =~= jobs@.take(i as int));
        proof {
            lemma_busy_count_bound(jobs@.take(i as int), key@, key@);
        }
        if str_eq(jobs[i].queue.as_str(), key) {
            count = count + 1;
        }
        i = i + 1;
    }
    assert(jobs@.take(jobs@.len() as int) =~= jobs@);
    count
}

fn busy_for_process(jobs: &Vec<ProcessingJob>, process: &Process) -> (r: usize)
    ensures
        r == process_busy_count(jobs@, crate::stats::process_id(process.hostname@, process.pid)),
{
    let id = process.id();
    let mut count: usize = 0;
    let mut i: usize = 0;
    while i < jobs.len()
        invariant
            i <= jobs@.len(),
            id@ == crate::stats::process_id(process.hostname@, process.pid),
            count == process_busy_count(jobs@.take(i as int), id@),
        decreases jobs@.len() - i,
    {
        assert(jobs@.take(i + 1).drop_last() =~= jobs@.take(i as int));
        proof {
            lemma_busy_count_bound(jobs@.take(i as int), id@, id@);
        }
        if str_eq(jobs[i].process_id.as_str(), id.as_str()) {
            count = count + 1;
        }
        i = i + 1;
    }
    assert(jobs@.take(jobs@.len() as int) =~= jobs@);
    count
}

/// The concurrency configured for a queue key: the value of the first
/// entry with that key.
pub open spec fn concurrency_lookup(map: Seq<(String, usize)>, key: Seq<char>) -> Option<usize>
    decreases map.len(),
{
    if map.len() == 0 {
        None
    } else if map[0].0@ == key {
        Some(map[0].1)
    } else {
        concurrency_lookup(map.drop_first(), key)
    }
}

/// What the dashboard shows as a queue's concurrency: the configured
/// number, or an em dash when none is configured.
pub open spec fn concurrency_text(map: Seq<(String, usize)>, key: Seq<char>) -> Seq<char> {
    match concurrency_lookup(map, key) {
        Some(c) => decimal(c as nat),
        None => seq!['\u{2014}'],
    }
}

/// The configured concurrency of queue `key`, if any (see
/// `concurrency_lookup`).
fn concurrency_value(map: &Vec<(String, usize)>, key: &str) -> (r: Option<usize>)
    ensures
        r == concurrency_lookup(map@, key@),
{
    let mut i: usize = 0;
    assert(map@.skip(0) =~= map@);
    while i < map.len()
        invariant
            i <= map@.len(),
            concurrency_lookup(map@, key@) == concurrency_lookup(map@.skip(i as int), key@),
        decreases map@.len() - i,
    {
        assert(map@.skip(i as int).drop_first() =~= map@.skip(i + 1));
        if str_eq(map[i].0.as_str(), key) {
            return Some(map[i].1);
        }
        i = i + 1;
    }
    None
}

/// The columns of the queue list with whole-number values, by which it
/// can be sorted.
#[derive(Debug, Clone, Copy, PartialEq, Eq)]
pub enum QueueColumn {
    Enqueued,
    Processed,
    Succeeded,
    Failed,
    Panicked,
    Concurrency,
    Key,
}

/// How two queues compare on a column.
#[derive(Debug, Clone, Copy, PartialEq, Eq)]
pub enum ColumnOrder {
    Less,
    Equal,
    Greater,
}

/// The values of a queue that the list is sorted by.
#[derive(Debug)]
pub struct QueueSortFields {
    pub key: String,
    pub enqueued: usize,
    pub processed: i64,
    pub succeeded: i64,
    pub failed: i64,
    pub panicked: i64,
}

/// The whole-number column that a sort parameter names: `None` for the
/// columns with fractional values (`rate`, `latency`, `eta`); the key for
/// any name that is not a column.
pub open spec fn column_named(sort: Seq<char>) -> Option<QueueColumn> {
    if sort == "enqueued"@ {
        Some(QueueColumn::Enqueued)
    } else if sort == "processed"@ {
        Some(QueueColumn::Processed)
    } else if sort == "succeeded"@ {
        Some(QueueColumn::Succeeded)
    } else if sort == "failed"@ {
        Some(QueueColumn::Failed)
    } else if sort == "panicked"@ {
        Some(QueueColumn::Panicked)
    } else if sort == "concurrency"@ {
        Some(QueueColumn::Concurrency)
    } else if sort == "rate"@ || sort == "latency"@ || sort == "eta"@ {
        None
    } else {
        Some(QueueColumn::Key)
    }
}

/// The column a sort parameter names (see `column_named`).
pub fn queue_column(sort: &str) -> (r: Option<QueueColumn>)
    ensures
        r == column_named(sort@),
{
    proof {
        reveal_strlit("enqueued");
        reveal_strlit("processed");
        reveal_strlit("succeeded");
        reveal_strlit("failed");
        reveal_strlit("panicked");
        reveal_strlit("concurrency");
        reveal_strlit("rate");
        reveal_strlit("latency");
        reveal_strlit("eta");
    }
    if str_eq(sort, "enqueued") {
        Some(QueueColumn::Enqueued)
    } else if str_eq(sort, "processed") {
        Some(QueueColumn::Processed)
    } else if str_eq(sort, "succeeded") {
        Some(QueueColumn::Succeeded)
    } else if str_eq(sort, "failed") {
        Some(QueueColumn::Failed)
    } else if str_eq(sort, "panicked") {
        Some(QueueColumn::Panicked)
    } else if str_eq(sort, "concurrency") {
        Some(QueueColumn::Concurrency)
    } else if str_eq(sort, "rate") || str_eq(sort, "latency") || str_eq(sort, "eta") {
        None
    } else {
        Some(QueueColumn::Key)
    }
}

/// The order of two numbers.
pub open spec fn int_order(a: int, b: int) -> ColumnOrder {
    if a < b {
        ColumnOrder::Less
    } else if a == b {
        ColumnOrder::Equal
    } else {
        ColumnOrder::Greater
    }
}

/// The opposite order.
pub open spec fn reversed(o: ColumnOrder) -> ColumnOrder {
    match o {
        ColumnOrder::Less => ColumnOrder::Greater,
        ColumnOrder::Equal => ColumnOrder::Equal,
        ColumnOrder::Greater => ColumnOrder::Less,
    }
}

/// How queues `a` and `b` compare on `column`, ascending: numbers by
/// value, a missing concurrency as zero, keys in `String` order.
pub open spec fn column_order(column: QueueColumn, a: QueueSortFields, b: QueueSortFields, map: Seq<(String, usize)>) -> ColumnOrder {
    match column {
        QueueColumn::Enqueued => int_order(a.enqueued as int, b.enqueued as int),
        QueueColumn::Processed => int_order(a.processed as int, b.processed as int),
        QueueColumn::Succeeded => int_order(a.succeeded as int, b.succeeded as int),
        QueueColumn::Failed => int_order(a.failed as int, b.failed as int),
        QueueColumn::Panicked => int_order(a.panicked as int, b.panicked as int),
        QueueColumn::Concurrency => {
            let ca = match concurrency_lookup(map, a.key@) { Some(c) => c as int, None => 0 };
            let cb = match concurrency_lookup(map, b.key@) { Some(c) => c as int, None => 0 };
            int_order(ca, cb)
        },
        QueueColumn::Key => if text_lt(a.key@, b.key@) {
            ColumnOrder::Less
        } else if a.key@ == b.key@ {
            ColumnOrder::Equal
        } else {
            ColumnOrder::Greater
        },
    }
}

fn int_order_exec(a: i128, b: i128) -> (r: ColumnOrder)
    ensures
        r == int_order(a as int, b as int),
{
    if a < b {
        ColumnOrder::Less
    } else if a == b {
        ColumnOrder::Equal
    } else {
        ColumnOrder::Greater
    }
}

/// `r` orders two values `x` and `y` as numbers: ascending, or descending
/// when `desc`.
pub open spec fn orders_by(r: ColumnOrder, desc: bool, x: int, y: int) -> bool {
    &&& (r == ColumnOrder::Equal <==> x == y)
    &&& (r == ColumnOrder::Less <==> if desc { x > y } else { x < y })
    &&& (r == ColumnOrder::Greater <==> if desc { x < y } else { x > y })
}

/// The configured concurrency of a queue, zero when none is configured.
pub open spec fn concurrency_or_zero(map: Seq<(String, usize)>, key: Seq<char>) -> int {
    match concurrency_lookup(map, key) {
        Some(c) => c as int,
        None => 0,
    }
}

/// Each column compares queues by its own value alone: the numbers of a
/// numeric column (a missing concurrency counting as zero), or the keys in
/// `String` order; descending reverses the order.
pub proof fn lemma_column_order_by_value(
    column: QueueColumn,
    desc: bool,
    a: QueueSortFields,
    b: QueueSortFields,
    map: Seq<(String, usize)>,
)
    ensures
        ({
            let r = if desc { reversed(column_order(column, a, b, map)) } else { column_order(column, a, b, map) };
            &&& column == QueueColumn::Enqueued ==> orders_by(r, desc, a.enqueued as int, b.enqueued as int)
            &&& column == QueueColumn::Processed ==> orders_by(r, desc, a.processed as int, b.processed as int)
            &&& column == QueueColumn::Succeeded ==> orders_by(r, desc, a.succeeded as int, b.succeeded as int)
            &&& column == QueueColumn::Failed ==> orders_by(r, desc, a.failed as int, b.failed as int)
            &&& column == QueueColumn::Panicked ==> orders_by(r, desc, a.panicked as int, b.panicked as int)
            &&& column == QueueColumn::Concurrency ==> orders_by(
                r,
                desc,
                concurrency_or_zero(map, a.key@),
                concurrency_or_zero(map, b.key@),
            )
            &&& column == QueueColumn::Key ==> {
                &&& (r == ColumnOrder::Equal <==> a.key@ == b.key@)
                &&& (r == ColumnOrder::Less <==> if desc { text_lt(b.key@, a.key@) } else { text_lt(a.key@, b.key@) })
            }
        }),
{
    if column == QueueColumn::Key {
        if a.key@ != b.key@ {
            crate::text::lemma_text_lt_total(a.key@, b.key@);
        }
        if text_lt(a.key@, b.key@) && text_lt(b.key@, a.key@) {
            crate::text::lemma_bytes_lt_transitive(utf8(a.key@), utf8(b.key@), utf8(a.key@));
            crate::text::lemma_bytes_lt_irreflexive(utf8(a.key@));
        }
        if a.key@ == b.key@ {
            crate::text::lemma_bytes_lt_irreflexive(utf8(a.key@));
        }
    }
}

/// Compares two queues of the list on `column`, reversed when `desc`.
pub fn compare_queue_column(
    column: QueueColumn,
    desc: bool,
    a: &QueueSortFields,
    b: &QueueSortFields,
    concurrency_map: &Vec<(String, usize)>,
) -> (r: ColumnOrder)
    ensures
        r == if desc {
            reversed(column_order(column, *a, *b, concurrency_map@))
        } else {
            column_order(column, *a, *b, concurrency_map@)
        },
        column == QueueColumn::Enqueued ==> orders_by(r, desc, a.enqueued as int, b.enqueued as int),
        column == QueueColumn::Processed ==> orders_by(r, desc, a.processed as int, b.processed as int),
        column == QueueColumn::Succeeded ==> orders_by(r, desc, a.succeeded as int, b.succeeded as int),
        column == QueueColumn::Failed ==> orders_by(r, desc, a.failed as int, b.failed as int),
        column == QueueColumn::Panicked ==> orders_by(r, desc, a.panicked as int, b.panicked as int),
        column == QueueColumn::Concurrency ==> orders_by(
            r,
            desc,
            concurrency_or_zero(concurrency_map@, a.key@),
            concurrency_or_zero(concurrency_map@, b.key@),
        ),
        column == QueueColumn::Key ==> (r == ColumnOrder::Equal <==> a.key@ == b.key@),
        column == QueueColumn::Key ==> (r == ColumnOrder::Less <==> if desc {
            text_lt(b.key@, a.key@)
        } else {
            text_lt(a.key@, b.key@)
        }),
{
    proof {
        lemma_column_order_by_value(column, desc, *a, *b, concurrency_map@);
    }
    let order = match column {
        QueueColumn::Enqueued => int_order_exec(a.enqueued as i128, b.enqueued as i128),
        QueueColumn::Processed => int_order_exec(a.processed as i128, b.processed as i128),
        QueueColumn::Succeeded => int_order_exec(a.succeeded as i128, b.succeeded as i128),
        QueueColumn::Failed => int_order_exec(a.failed as i128, b.failed as i128),
        QueueColumn::Panicked => int_order_exec(a.panicked as i128, b.panicked as i128),
        QueueColumn::Concurrency => {
            let ca: usize = match concurrency_value(concurrency_map, a.key.as_str()) {
                Some(c) => c,
                None => 0,
            };
            let cb: usize = match concurrency_value(concurrency_map, b.key.as_str()) {
                Some(c) => c,
                None => 0,
            };
            int_order_exec(ca as i128, cb as i128)
        },
        QueueColumn::Key => if bytes_less(a.key.as_str().as_bytes(), b.key.as_str().as_bytes()) {
            ColumnOrder::Less
        } else if str_eq(a.key.as_str(), b.key.as_str()) {
            ColumnOrder::Equal
        } else {
            ColumnOrder::Greater
        },
    };
    if desc {
        match order {
            ColumnOrder::Less => ColumnOrder::Greater,
            ColumnOrder::Equal => ColumnOrder::Equal,
            ColumnOrder::Greater => ColumnOrder::Less,
        }
    } else {
        order
    }
}

fn concurrency_for(map: &Vec<(String, usize)>, key: &str) -> (r: String)
    ensures
        r@ == concurrency_text(map@, key@),
{
    let mut i: usize = 0;
    assert(map@.skip(0) =~= map@);
    while i < map.len()
        invariant
            i <= map@.len(),
            concurrency_lookup(map@, key@) == concurrency_lookup(map@.skip(i as int), key@),
        decreases map@.len() - i,
    {
        assert(map@.skip(i as int).drop_first() =~= map@.skip(i + 1));
        if str_eq(map[i].0.as_str(), key) {
            return string_of(&decimal_chars(map[i].1 as u64));
        }
        i = i + 1;
    }
    proof {
        reveal_strlit("\u{2014}");
    }
    "\u{2014}".to_string()
}

/// The dashboard page.
pub struct DashboardTemplate {
    pub base_path: String,
    pub active_tab: &'static str,
    pub processing: Vec<ProcessingJob>,
    pub concurrency_map: Vec<(String, usize)>,
}

impl DashboardTemplate {
    pub fn concurrency_for(&self, key: &str) -> (r: String)
        ensures
            r@ == concurrency_text(self.concurrency_map@, key@),
    {
        concurrency_for(&self.concurrency_map, key)
    }

    pub fn busy_for(&self, key: &str) -> (r: usize)
        ensures
            r == busy_count(self.processing@, key@),
    {
        busy_for(&self.processing, key)
    }

    pub fn busy_for_process(&self, process: &Process) -> (r: usize)
        ensures
            r == process_busy_count(self.processing@, crate::stats::process_id(process.hostname@, process.pid)),
    {
        busy_for_process(&self.processing, process)
    }
}

/// The busy-workers page.
pub struct BusyTemplate {
    pub base_path: String,
    pub active_tab: &'static str,
    pub processing: Vec<ProcessingJob>,
    pub concurrency_map: Vec<(String, usize)>,
}

impl BusyTemplate {
    pub fn concurrency_for(&self, key: &str) -> (r: String)
        ensures
            r@ == concurrency_text(self.concurrency_map@, key@),
    {
        concurrency_for(&self.concurrency_map, key)
    }

    pub fn busy_for(&self, key: &str) -> (r: usize)
        ensures
            r == busy_count(self.processing@, key@),
    {
        busy_for(&self.processing, key)
    }

    pub fn busy_for_process(&self, process: &Process) -> (r: usize)
        ensures
            r == process_busy_count(self.processing@, crate::stats::process_id(process.hostname@, process.pid)),
    {
        busy_for_process(&self.processing, process)
    }
}

/// The queue list page, sorted by column `sort` in direction `dir`.
pub struct QueuesTemplate {
    pub base_path: String,
    pub active_tab: &'static str,
    pub concurrency_map: Vec<(String, usize)>,
    pub sort: String,
    pub dir: String,
}

impl QueuesTemplate {
    /// The direction a click on column `col` sorts by: the opposite of the
    /// current one for the sorted column, descending for any other.
    pub fn next_dir(&self, col: &str) -> (r: &'static str)
        ensures
            r@ == if self.sort@ == col@ {
                if self.dir@ == "desc"@ { "asc"@ } else { "desc"@ }
            } else {
                "desc"@
            },
    {
        if str_eq(self.sort.as_str(), col) {
            if str_eq(self.dir.as_str(), "desc") {
                "asc"
            } else {
                "desc"
            }
        } else {
            "desc"
        }
    }

    /// The arrow shown next to column `col`: up for ascending, down
    /// otherwise, nothing for columns the list is not sorted by.
    pub fn sort_arrow(&self, col: &str) -> (r: &'static str)
        ensures
            r@ == if self.sort@ == col@ {
                if self.dir@ == "asc"@ { " \u{25B2}"@ } else { " \u{25BC}"@ }
            } else {
                ""@
            },
    {
        if str_eq(self.sort.as_str(), col) {
            if str_eq(self.dir.as_str(), "asc") {
                " \u{25B2}"
            } else {
                " \u{25BC}"
            }
        } else {
            ""
        }
    }

    pub fn concurrency_for(&self, key: &str) -> (r: String)
        ensures
            r@ == concurrency_text(self.concurrency_map@, key@),
    {
        concurrency_for(&self.concurrency_map, key)
    }
}

/// True when `::` starts at position `i`.
pub open spec fn path_sep_at(s: Seq<char>, i: int) -> bool {
    0 <= i && i + 1 < s.len() && s[i] == ':' && s[i + 1] == ':'
}

/// The short label of a worker: the text after the last `::` of its name,
/// or the whole name when it has none.
pub open spec fn short_label(s: Seq<char>) -> Seq<char> {
    if exists|i: int| #[trigger] path_sep_at(s, i) && forall|j: int| i < j ==> !path_sep_at(s, j) {
        let i = choose|i: int| #[trigger] path_sep_at(s, i) && forall|j: int| i < j ==> !path_sep_at(s, j);
        s.skip(i + 2)
    } else {
        s
    }
}

fn metric_identity_label(identity: &MetricIdentity) -> (r: String)
    ensures
        r@ == short_label(identity.worker@),
{
    let cs = chars_of(identity.worker.as_str());
    let n = cs.len();
    let mut i: usize = n;
    let ghost s = cs@;
    while i >= 2
        invariant
            i <= n,
            n == s.len(),
            cs@ == s,
            forall|j: int| i - 1 <= j ==> !path_sep_at(s, j),
        ensures
            forall|j: int| i - 1 <= j ==> !path_sep_at(s, j),
            i >= 2 ==> path_sep_at(s, i - 2),
        decreases i,
    {
        if cs[i - 2] == ':' && cs[i - 1] == ':' {
            break;
        }
        i = i - 1;
    }
    if i >= 2 {
        let p = i - 2;
        assert(path_sep_at(s, p as int) && forall|j: int| p < j ==> !path_sep_at(s, j));
        let ghost c = choose|c: int| #[trigger] path_sep_at(s, c) && forall|j: int| c < j ==> !path_sep_at(s, j);
        assert(c == p) by {
            if c < p {
                assert(!path_sep_at(s, p as int));
            } else if c > p {
                assert(!path_sep_at(s, c));
            }
        }
        let mut out: Vec<char> = Vec::new();
        let mut k: usize = i;
        while k < n
            invariant
                i <= k <= n,
                n == s.len(),
                cs@ == s,
                out@ == s.subrange(i as int, k as int),
            decreases n - k,
        {
            out.push(cs[k]);
            assert(s.subrange(i as int, k + 1) =~= s.subrange(i as int, k as int).push(s[k as int]));
            k = k + 1;
        }
        assert(s.subrange(i as int, n as int) =~= s.skip(i as int));
        string_of(&out)
    } else {
        assert(!exists|c: int| #[trigger] path_sep_at(s, c) && forall|j: int| c < j ==> !path_sep_at(s, j)) by {
            if exists|c: int| #[trigger] path_sep_at(s, c) && forall|j: int| c < j ==> !path_sep_at(s, j) {
                let c = choose|c: int| #[trigger] path_sep_at(s, c) && forall|j: int| c < j ==> !path_sep_at(s, j);
                assert(!path_sep_at(s, c));
            }
        }
        string_of(&cs)
    }
}

/// The metrics overview page.
pub struct MetricsTemplate {
    pub base_path: String,
    pub active_tab: &'static str,
    pub metrics: crate::metrics::JobMetricsSnapshot,
}

impl MetricsTemplate {
    pub fn metric_identity_label(&self, identity: &MetricIdentity) -> (r: String)
        ensures
            r@ == short_label(identity.worker@),
    {
        metric_identity_label(identity)
    }
}

/// The page of one worker's metrics.
pub struct MetricDetailTemplate {
    pub base_path: String,
    pub active_tab: &'static str,
    pub metrics: JobMetricsDetail,
}

impl MetricDetailTemplate {
    /// The largest bucket count of the histogram, or zero.
    pub fn max_histogram_count(&self) -> (r: u64)
        ensures
            forall|i: int| 0 <= i < self.metrics.histogram@.len() ==> #[trigger] self.metrics.histogram@[i].count <= r,
            r == 0 || exists|i: int| 0 <= i < self.metrics.histogram@.len() && #[trigger] self.metrics.histogram@[i].count == r,
    {
        let h = &self.metrics.histogram;
        let mut best: u64 = 0;
        let mut i: usize = 0;
        while i < h.len()
            invariant
                i <= h@.len(),
                forall|k: int| 0 <= k < i ==> #[trigger] h@[k].count <= best,
                best == 0 || exists|k: int| 0 <= k < i && #[trigger] h@[k].count == best,
            decreases h@.len() - i,
        {
            if h[i].count > best {
                best = h[i].count;
            }
            i = i + 1;
        }
        best
    }
}

/// What a cron worker row shows.
#[derive(Debug)]
pub struct CronWorkerView {
    pub short_name: String,
    pub schedule: String,
    pub queue_key: String,
    pub next_run_micros: Option<i64>,
}

/// A row of the cron page: a group of workers sharing a path prefix, or a
/// worker, at a nesting depth.
#[derive(Debug)]
pub enum CronRow {
    Group { name: String, depth: usize },
    Worker { view: CronWorkerView, depth: usize },
}

impl CronRow {
    pub open spec fn depth_of(&self) -> usize {
        match self {
            CronRow::Group { depth, .. } => *depth,
            CronRow::Worker { depth, .. } => *depth,
        }
    }

    fn depth(&self) -> (d: usize)
        ensures
            d == self.depth_of(),
    {
        match self {
            CronRow::Group { depth, .. } => *depth,
            CronRow::Worker { depth, .. } => *depth,
        }
    }

    /// Left indentation of the row: twenty pixels per level.
    pub fn indent_px(&self) -> (px: usize)
        requires
            self.depth_of() * 20 <= usize::MAX,
        ensures
            px == self.depth_of() * 20,
    {
        self.depth() * 20
    }
}

/// First entry number shown on a page (counting from one).
pub open spec fn page_range_start(page: usize) -> int {
    (page - 1) * JOBS_PER_PAGE + 1
}

/// Last entry number shown on a page holding `shown` entries out of `total`.
pub open spec fn page_range_end(page: usize, shown: nat, total: usize) -> int {
    let end = (page - 1) * JOBS_PER_PAGE + shown;
    if end < total { end } else { total as int }
}

fn range_start(page: usize) -> (r: usize)
    requires
        1 <= page,
        page_range_start(page) <= usize::MAX,
    ensures
        r == page_range_start(page),
{
    (page - 1) * JOBS_PER_PAGE + 1
}

fn range_end(page: usize, shown: usize, total: usize) -> (r: usize)
    requires
        1 <= page,
        (page - 1) * JOBS_PER_PAGE + shown <= usize::MAX,
    ensures
        r == page_range_end(page, shown as nat, total),
{
    let end = (page - 1) * JOBS_PER_PAGE + shown;
    if end < total { end } else { total }
}

/// One page of a queue's waiting jobs.
pub struct QueueDetailTemplate {
    pub base_path: String,
    pub active_tab: &'static str,
    pub queue_key: String,
    pub busy: usize,
    /// Ids of the jobs shown on this page.
    pub jobs: Vec<String>,
    pub page: usize,
    pub total: usize,
    pub has_next: bool,
}

impl QueueDetailTemplate {
    pub fn range_start(&self) -> (r: usize)
        requires
            1 <= self.page,
            page_range_start(self.page) <= usize::MAX,
        ensures
            r == page_range_start(self.page),
    {
        range_start(self.page)
    }

    pub fn range_end(&self) -> (r: usize)
        requires
            1 <= self.page,
            (self.page - 1) * JOBS_PER_PAGE + self.jobs@.len() <= usize::MAX,
        ensures
            r == page_range_end(self.page, self.jobs@.len(), self.total),
    {
        range_end(self.page, self.jobs.len(), self.total)
    }
}

/// One page of the dead, retrying or scheduled jobs.
pub struct GlobalJobsTemplate {
    pub base_path: String,
    pub active_tab: &'static str,
    pub kind: JobListKind,
    /// Ids of the jobs shown on this page.
    pub jobs: Vec<String>,
    pub page: usize,
    pub total: usize,
    pub has_next: bool,
}

impl GlobalJobsTemplate {
    pub fn range_start(&self) -> (r: usize)
        requires
            1 <= self.page,
            page_range_start(self.page) <= usize::MAX,
        ensures
            r == page_range_start(self.page),
    {
        range_start(self.page)
    }

    pub fn range_end(&self) -> (r: usize)
        requires
            1 <= self.page,
            (self.page - 1) * JOBS_PER_PAGE + self.jobs@.len() <= usize::MAX,
        ensures
            r == page_range_end(self.page, self.jobs@.len(), self.total),
    {
        range_end(self.page, self.jobs.len(), self.total)
    }
}

/// The first position of `key` among `keys`, if any.
pub open spec fn position_of(keys: Seq<String>, key: Seq<char>) -> Option<int> {
    if exists|i: int| 0 <= i < keys.len() && keys[i]@ == key && forall|j: int| 0 <= j < i ==> keys[j]@ != key {
        Some(choose|i: int| 0 <= i < keys.len() && keys[i]@ == key && forall|j: int| 0 <= j < i ==> keys[j]@ != key)
    } else {
        None
    }
}

/// Where the statistics of queue `key` are found: at the first queue with
/// that key; otherwise, for `<prefix>#<suffix>`, at the first sub-queue
/// `suffix` of the first queue `prefix`.
pub open spec fn queue_location(keys: Seq<String>, suffixes: Seq<Vec<String>>, key: Seq<char>) -> Option<(int, Option<int>)> {
    match position_of(keys, key) {
        Some(i) => Some((i, None)),
        None => match crate::text::first_index_of(key, '#') {
            None => None,
            Some(h) => match position_of(keys, key.take(h)) {
                None => None,
                Some(i) => if i < suffixes.len() {
                    match position_of(suffixes[i]@, key.skip(h + 1)) {
                        None => None,
                        Some(j) => Some((i, Some(j))),
                    }
                } else {
                    None
                },
            },
        },
    }
}

fn position_of_exec(keys: &Vec<String>, key: &str) -> (r: Option<usize>)
    ensures
        match r {
            Some(i) => position_of(keys@, key@) == Some(i as int),
            None => position_of(keys@, key@) is None,
        },
{
    let mut i: usize = 0;
    while i < keys.len()
        invariant
            i <= keys@.len(),
            forall|j: int| 0 <= j < i ==> keys@[j]@ != key@,
        decreases keys@.len() - i,
    {
        if str_eq(keys[i].as_str(), key) {
            let ghost c = choose|c: int| 0 <= c < keys@.len() && keys@[c]@ == key@ && forall|j: int| 0 <= j < c ==> keys@[j]@ != key@;
            assert(c == i) by {
                if c < i {
                    assert(keys@[c]@ != key@);
                } else if c > i {
                    assert(keys@[i as int]@ != key@);
                }
            }
            return Some(i);
        }
        i = i + 1;
    }
    assert(!exists|c: int| 0 <= c < keys@.len() && keys@[c]@ == key@ && forall|j: int| 0 <= j < c ==> keys@[j]@ != key@) by {
        if exists|c: int| 0 <= c < keys@.len() && keys@[c]@ == key@ && forall|j: int| 0 <= j < c ==> keys@[j]@ != key@ {
            let c = choose|c: int| 0 <= c < keys@.len() && keys@[c]@ == key@ && forall|j: int| 0 <= j < c ==> keys@[j]@ != key@;
            assert(keys@[c]@ != key@);
        }
    }
    None
}

/// Finds the statistics of a queue page (see `queue_location`), given the
/// queue keys and, for each, the suffixes of its sub-queues.
pub fn locate_queue(keys: &Vec<String>, suffixes: &Vec<Vec<String>>, key: &str) -> (r: Option<(usize, Option<usize>)>)
    ensures
        match r {
            Some((i, sub)) => queue_location(keys@, suffixes@, key@) == Some((i as int, match sub {
                Some(j) => Some(j as int),
                None => None::<int>,
            })),
            None => queue_location(keys@, suffixes@, key@) is None,
        },
{
    match position_of_exec(keys, key) {
        Some(i) => Some((i, None)),
        None => {
            let cs = chars_of(key);
            match crate::text::find_char(&cs, '#') {
                None => None,
                Some(h) => {
                    let n = cs.len();
                    let prefix = crate::text::substring(&cs, 0, h);
                    let suffix = crate::text::substring(&cs, h + 1, n);
                    assert(cs@.subrange(0, h as int) =~= key@.take(h as int));
                    assert(cs@.subrange(h + 1, n as int) =~= key@.skip(h + 1));
                    match position_of_exec(keys, prefix.as_str()) {
                        None => None,
                        Some(i) => {
                            if i < suffixes.len() {
                                match position_of_exec(&suffixes[i], suffix.as_str()) {
                                    None => None,
                                    Some(j) => Some((i, Some(j))),
                                }
                            } else {
                                None
                            }
                        },
                    }
                },
            }
        },
    }
}

} // verus!
