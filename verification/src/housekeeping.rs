//! Decisions of the background upkeep: which processes are dead, which
//! scheduled jobs were claimed and where they go, which stored jobs have
//! expired, when a cron job is due, and how per-minute counters read back
//! in bulk are regrouped.

use std::str::FromStr;
use vstd::prelude::*;

use crate::registry::cron_expression_valid;
use crate::storage::{JOB_EXPIRE_TIME, RESURRECT_THRESHOLD_SECS};
use crate::text::{chars_of, last_index_of, rfind_char, str_eq, substring, views_of};

verus! {

broadcast use vstd::string::group_string_axioms;

/// What becomes of a job found on a dead process's processing queue.
#[derive(Debug, PartialEq, Eq)]
pub enum ResurrectAction {
    /// Push the job back onto this queue.
    Requeue { queue: String },
    /// Delete the stored job: it asked not to be resurrected.
    Delete,
    /// Nothing: the job is no longer stored.
    Skip,
}

/// The action for a job left by a dead process: `job` is `None` when the
/// job is no longer stored, else whether it is to be resurrected and its
/// queue.
pub fn resurrect_action(job: Option<(bool, &str)>) -> (a: ResurrectAction)
    ensures
        match job {
            None => a == ResurrectAction::Skip,
            Some((true, queue)) => a matches ResurrectAction::Requeue { queue: q } && q@ == queue@,
            Some((false, _)) => a == ResurrectAction::Delete,
        },
{
    match job {
        None => ResurrectAction::Skip,
        Some((true, queue)) => ResurrectAction::Requeue { queue: queue.to_string() },
        Some((false, _)) => ResurrectAction::Delete,
    }
}

/// The texts of `s` without repeats, each at its first appearance.
pub open spec fn first_occurrences(s: Seq<Seq<char>>) -> Seq<Seq<char>>
    decreases s.len(),
{
    if s.len() == 0 {
        Seq::empty()
    } else {
        let prev = first_occurrences(s.drop_last());
        if prev.contains(s.last()) {
            prev
        } else {
            prev.push(s.last())
        }
    }
}

/// The process a processing queue belongs to: the text after its last `:`.
pub open spec fn queue_process(q: Seq<char>) -> Seq<char> {
    match last_index_of(q, ':') {
        None => q,
        Some(i) => q.skip(i + 1),
    }
}

/// The processes whose last heartbeat is older than the threshold, in
/// order.
pub open spec fn stale_processes(processes: Seq<(String, i64)>, now: i64) -> Seq<Seq<char>>
    decreases processes.len(),
{
    if processes.len() == 0 {
        Seq::empty()
    } else {
        let prev = stale_processes(processes.drop_last(), now);
        if processes.last().1 < now - RESURRECT_THRESHOLD_SECS {
            prev.push(processes.last().0@)
        } else {
            prev
        }
    }
}

/// A process with a heartbeat entry, stale or not.
pub open spec fn has_heartbeat(processes: Seq<(String, i64)>, id: Seq<char>) -> bool {
    exists|i: int| 0 <= i < processes.len() && #[trigger] processes[i].0@ == id
}

/// The processes of processing queues that have no heartbeat entry, in
/// order.
pub open spec fn orphaned_processes(processes: Seq<(String, i64)>, queues: Seq<String>) -> Seq<Seq<char>>
    decreases queues.len(),
{
    if queues.len() == 0 {
        Seq::empty()
    } else {
        let prev = orphaned_processes(processes, queues.drop_last());
        let p = queue_process(queues.last()@);
        if has_heartbeat(processes, p) {
            prev
        } else {
            prev.push(p)
        }
    }
}

/// Dead processes: those with a stale heartbeat, then those that left a
/// processing queue behind without any heartbeat, each once.
pub open spec fn dead_processes(processes: Seq<(String, i64)>, queues: Seq<String>, now: i64) -> Seq<Seq<char>> {
    first_occurrences(stale_processes(processes, now) + orphaned_processes(processes, queues))
}

fn contains_text(v: &Vec<String>, x: &str) -> (r: bool)
    ensures
        r == views_of(v@).contains(x@),
{
    let mut i: usize = 0;
    while i < v.len()
        invariant
            i <= v@.len(),
            forall|j: int| 0 <= j < i ==> views_of(v@)[j] != x@,
        decreases v@.len() - i,
    {
        if str_eq(v[i].as_str(), x) {
            assert(views_of(v@)[i as int] == x@);
            return true;
        }
        i = i + 1;
    }
    false
}

/// Appends `x` unless it is already there.
fn push_new(out: &mut Vec<String>, x: String)
    ensures
        views_of(final(out)@) == if views_of(old(out)@).contains(x@) {
            views_of(old(out)@)
        } else {
            views_of(old(out)@).push(x@)
        },
{
    if !contains_text(out, x.as_str()) {
        let ghost before = views_of(out@);
        out.push(x);
        assert(views_of(out@) =~= before.push(x@));
    }
}

/// The process of a processing queue (see `queue_process`).
pub fn queue_process_exec(q: &str) -> (r: String)
    ensures
        r@ == queue_process(q@),
{
    let cs = chars_of(q);
    match rfind_char(&cs, ':') {
        None => substring(&cs, 0, cs.len()),
        Some(i) => {
            let n = cs.len();
            assert(cs@.subrange(i + 1, cs@.len() as int) =~= cs@.skip(i + 1));
            substring(&cs, i + 1, n)
        },
    }
}

fn has_heartbeat_exec(processes: &Vec<(String, i64)>, id: &str) -> (r: bool)
    ensures
        r == has_heartbeat(processes@, id@),
{
    let mut i: usize = 0;
    while i < processes.len()
        invariant
            i <= processes@.len(),
            forall|j: int| 0 <= j < i ==> processes@[j].0@ != id@,
        decreases processes@.len() - i,
    {
        if str_eq(processes[i].0.as_str(), id) {
            return true;
        }
        i = i + 1;
    }
    false
}

/// The dead processes (see `dead_processes`), from the heartbeat entries
/// (process id, last heartbeat in seconds) and the processing queues found.
pub fn dead_process_ids(processes: &Vec<(String, i64)>, processing_queues: &Vec<String>, now: i64) -> (r: Vec<String>)
    requires
        now >= i64::MIN + RESURRECT_THRESHOLD_SECS,
    ensures
        views_of(r@) == dead_processes(processes@, processing_queues@, now),
        views_of(r@).no_duplicates(),
        forall|id: Seq<char>| #[trigger] views_of(r@).contains(id) <==> (exists|i: int|
            0 <= i < processes@.len() && (#[trigger] processes@[i]).0@ == id && processes@[i].1 < now
                - RESURRECT_THRESHOLD_SECS) || (!has_heartbeat(processes@, id) && exists|j: int|
            0 <= j < processing_queues@.len() && queue_process((#[trigger] processing_queues@[j])@) == id),
{
    let threshold = now - RESURRECT_THRESHOLD_SECS;
    let ghost stale = stale_processes(processes@, now);
    let ghost orphaned = orphaned_processes(processes@, processing_queues@);
    let mut out: Vec<String> = Vec::new();
    let mut i: usize = 0;
    while i < processes.len()
        invariant
            i <= processes@.len(),
            threshold == now - RESURRECT_THRESHOLD_SECS,
            views_of(out@) == first_occurrences(stale_processes(processes@.take(i as int), now)),
        decreases processes@.len() - i,
    {
        proof {
            assert(processes@.take(i + 1).drop_last() =~= processes@.take(i as int));
            assert(processes@.take(i + 1).last() == processes@[i as int]);
        }
        if processes[i].1 < threshold {
            let id = processes[i].0.clone();
            let ghost pre = stale_processes(processes@.take(i as int), now);
            push_new(&mut out, id);
            assert(pre.push(processes@[i as int].0@).drop_last() =~= pre);
        }
        i = i + 1;
    }
    assert(processes@.take(processes@.len() as int) =~= processes@);
    let mut k: usize = 0;
    while k < processing_queues.len()
        invariant
            k <= processing_queues@.len(),
            stale == stale_processes(processes@, now),
            views_of(out@) == first_occurrences(stale + orphaned_processes(processes@, processing_queues@.take(k as int))),
        decreases processing_queues@.len() - k,
    {
        let ghost prev_orph = orphaned_processes(processes@, processing_queues@.take(k as int));
        proof {
            assert(processing_queues@.take(k + 1).drop_last() =~= processing_queues@.take(k as int));
            assert(processing_queues@.take(k + 1).last() == processing_queues@[k as int]);
        }
        let p = queue_process_exec(processing_queues[k].as_str());
        if !has_heartbeat_exec(processes, p.as_str()) {
            push_new(&mut out, p);
            assert((stale + prev_orph.push(queue_process(processing_queues@[k as int]@))).drop_last() =~= stale + prev_orph);
            assert((stale + prev_orph.push(queue_process(processing_queues@[k as int]@))).last()
                == queue_process(processing_queues@[k as int]@));
        }
        k = k + 1;
    }
    assert(processing_queues@.take(processing_queues@.len() as int) =~= processing_queues@);
    proof {
        lemma_first_occurrences_distinct(stale + orphaned_processes(processes@, processing_queues@));
        assert forall|id: Seq<char>| #[trigger] views_of(out@).contains(id) <==> (exists|i: int|
            0 <= i < processes@.len() && (#[trigger] processes@[i]).0@ == id && processes@[i].1 < now
                - RESURRECT_THRESHOLD_SECS) || (!has_heartbeat(processes@, id) && exists|j: int|
            0 <= j < processing_queues@.len() && queue_process((#[trigger] processing_queues@[j])@) == id) by {
            lemma_dead_process_members(processes@, processing_queues@, now, id);
        }
    }
    out
}

/// The jobs taken off the schedule: those whose removal reported at least
/// one removed entry, in order (pairs are matched by position).
pub open spec fn claimed_prefix(ids: Seq<String>, removed: Seq<u32>, n: int) -> Seq<Seq<char>>
    decreases n,
{
    if n <= 0 {
        Seq::empty()
    } else {
        let prev = claimed_prefix(ids, removed, n - 1);
        if removed[n - 1] > 0 {
            prev.push(ids[n - 1]@)
        } else {
            prev
        }
    }
}

/// Pairs of a scheduled job and the count its removal reported.
pub open spec fn claimed(ids: Seq<String>, removed: Seq<u32>) -> Seq<Seq<char>> {
    claimed_prefix(ids, removed, if ids.len() < removed.len() { ids.len() as int } else { removed.len() as int })
}

proof fn lemma_claimed_prefix_members(ids: Seq<String>, removed: Seq<u32>, n: int, id: Seq<char>)
    requires
        0 <= n <= ids.len(),
        n <= removed.len(),
    ensures
        claimed_prefix(ids, removed, n).contains(id) <==> exists|i: int|
            0 <= i < n && (#[trigger] ids[i])@ == id && removed[i] > 0,
    decreases n,
{
    if n > 0 {
        lemma_claimed_prefix_members(ids, removed, n - 1, id);
        let prev = claimed_prefix(ids, removed, n - 1);
        let cur = claimed_prefix(ids, removed, n);
        if cur.contains(id) {
            let k = choose|k: int| 0 <= k < cur.len() && cur[k] == id;
            if k < prev.len() {
                assert(cur[k] == prev[k]);
            } else {
                assert(ids[n - 1]@ == id);
            }
        }
        if exists|i: int| 0 <= i < n && (#[trigger] ids[i])@ == id && removed[i] > 0 {
            let i = choose|i: int| 0 <= i < n && (#[trigger] ids[i])@ == id && removed[i] > 0;
            if i < n - 1 {
                let k = choose|k: int| 0 <= k < prev.len() && prev[k] == id;
                if removed[n - 1] > 0 {
                    assert(prev.push(ids[n - 1]@)[k] == id);
                }
            } else {
                assert(prev.push(ids[n - 1]@)[prev.len() as int] == id);
            }
        }
    }
}

/// A scheduled job is claimed exactly when its removal from the schedule
/// reported a removed entry (pairs matched by position).
pub proof fn lemma_claimed_members(ids: Seq<String>, removed: Seq<u32>, id: Seq<char>)
    ensures
        claimed(ids, removed).contains(id) <==> exists|i: int|
            0 <= i < ids.len() && i < removed.len() && (#[trigger] ids[i])@ == id && removed[i] > 0,
{
    let n = if ids.len() < removed.len() { ids.len() as int } else { removed.len() as int };
    lemma_claimed_prefix_members(ids, removed, n, id);
}

/// The scheduled jobs this process claimed (see `claimed`).
pub fn claimed_job_ids(job_ids: &Vec<String>, removed: &Vec<u32>) -> (r: Vec<String>)
    ensures
        views_of(r@) == claimed(job_ids@, removed@),
        forall|id: Seq<char>| #[trigger] views_of(r@).contains(id) <==> exists|i: int|
            0 <= i < job_ids@.len() && i < removed@.len() && (#[trigger] job_ids@[i])@ == id && removed@[i] > 0,
{
    let n = if job_ids.len() < removed.len() { job_ids.len() } else { removed.len() };
    let mut r: Vec<String> = Vec::new();
    let mut i: usize = 0;
    while i < n
        invariant
            i <= n,
            n <= job_ids@.len(),
            n <= removed@.len(),
            views_of(r@) == claimed_prefix(job_ids@, removed@, i as int),
        decreases n - i,
    {
        if removed[i] > 0 {
            let ghost before = views_of(r@);
            r.push(job_ids[i].clone());
            assert(views_of(r@) =~= before.push(job_ids@[i as int]@));
        }
        i = i + 1;
    }
    proof {
        assert forall|id: Seq<char>| #[trigger] views_of(r@).contains(id) <==> exists|i: int|
            0 <= i < job_ids@.len() && i < removed@.len() && (#[trigger] job_ids@[i])@ == id && removed@[i] > 0 by {
            lemma_claimed_members(job_ids@, removed@, id);
        }
    }
    r
}

/// The queues of (queue, job id) pairs.
pub open spec fn job_queues(jobs: Seq<(String, String)>) -> Seq<Seq<char>> {
    jobs.map_values(|j: (String, String)| j.0@)
}

/// The ids of the jobs of queue `q`, in order.
pub open spec fn queue_job_ids(jobs: Seq<(String, String)>, q: Seq<char>) -> Seq<Seq<char>>
    decreases jobs.len(),
{
    if jobs.len() == 0 {
        Seq::empty()
    } else {
        let prev = queue_job_ids(jobs.drop_last(), q);
        if jobs.last().0@ == q {
            prev.push(jobs.last().1@)
        } else {
            prev
        }
    }
}

/// Groups (queue, job id) pairs by queue: one group per queue, in order of
/// first appearance, holding that queue's job ids in order.
pub fn jobs_by_queue(jobs: &Vec<(String, String)>) -> (r: Vec<(String, Vec<String>)>)
    ensures
        r@.map_values(|g: (String, Vec<String>)| g.0@) == first_occurrences(job_queues(jobs@)),
        forall|i: int| 0 <= i < r@.len() ==> views_of((#[trigger] r@[i]).1@) == queue_job_ids(jobs@, r@[i].0@),
{
    let mut r: Vec<(String, Vec<String>)> = Vec::new();
    let mut k: usize = 0;
    while k < jobs.len()
        invariant
            k <= jobs@.len(),
            r@.map_values(|g: (String, Vec<String>)| g.0@) == first_occurrences(job_queues(jobs@.take(k as int))),
            forall|i: int| 0 <= i < r@.len() ==> views_of((#[trigger] r@[i]).1@) == queue_job_ids(jobs@.take(k as int), r@[i].0@),
        decreases jobs@.len() - k,
    {
        let ghost pre = jobs@.take(k as int);
        let ghost post = jobs@.take(k + 1);
        let ghost keys = r@.map_values(|g: (String, Vec<String>)| g.0@);
        proof {
            assert(post.drop_last() =~= pre);
            assert(post.last() == jobs@[k as int]);
            assert(job_queues(post).drop_last() =~= job_queues(pre));
            assert(job_queues(post).last() == jobs@[k as int].0@);
        }
        let q = jobs[k].0.as_str();
        let mut g: usize = 0;
        while g < r.len() && !str_eq(r[g].0.as_str(), q)
            invariant
                g <= r@.len(),
                keys == r@.map_values(|g: (String, Vec<String>)| g.0@),
                forall|j: int| 0 <= j < g ==> keys[j] != q@,
            decreases r@.len() - g,
        {
            assert(keys[g as int] == r@[g as int].0@);
            g = g + 1;
        }
        if g < r.len() {
            assert(keys[g as int] == q@);
            let ghost old_r = r@;
            let (name, mut ids) = r.remove(g);
            let ghost old_ids = views_of(ids@);
            ids.push(jobs[k].1.clone());
            assert(views_of(ids@) =~= old_ids.push(jobs@[k as int].1@));
            r.insert(g, (name, ids));
            proof {
                assert(r@ =~= old_r.update(g as int, (old_r[g as int].0, ids)));
                assert(r@.map_values(|g: (String, Vec<String>)| g.0@) =~= keys);
                assert(keys.contains(q@));
                lemma_first_occurrences_distinct(job_queues(pre));
                assert(views_of(old_r[g as int].1@) == queue_job_ids(pre, old_r[g as int].0@));
                assert(old_r[g as int].0@ == q@);
                assert forall|i: int| 0 <= i < r@.len() implies views_of((#[trigger] r@[i]).1@) == queue_job_ids(post, r@[i].0@) by {
                    if i != g {
                        assert(r@[i] == old_r[i]);
                        assert(keys[i] == old_r[i].0@);
                        assert(keys[i] != keys[g as int]);
                    }
                }
            }
        } else {
            let ghost old_r = r@;
            let mut ids: Vec<String> = Vec::new();
            ids.push(jobs[k].1.clone());
            r.push((jobs[k].0.clone(), ids));
            proof {
                assert(!keys.contains(q@)) by {
                    if keys.contains(q@) {
                        let j = choose|j: int| 0 <= j < keys.len() && keys[j] == q@;
                        assert(keys[j] != q@);
                    }
                }
                assert(r@.map_values(|g: (String, Vec<String>)| g.0@) =~= keys.push(q@));
                assert forall|i: int| 0 <= i < r@.len() implies views_of((#[trigger] r@[i]).1@) == queue_job_ids(post, r@[i].0@) by {
                    if i < old_r.len() {
                        assert(r@[i] == old_r[i]);
                        assert(keys[i] == old_r[i].0@);
                    } else {
                        assert(views_of(r@[i].1@) =~= seq![jobs@[k as int].1@]);
                        lemma_no_ids_for_new_queue(pre, q@, keys);
                    }
                }
            }
        }
        k = k + 1;
    }
    assert(jobs@.take(jobs@.len() as int) =~= jobs@);
    r
}

proof fn lemma_first_occurrences_cover(s: Seq<Seq<char>>, x: Seq<char>)
    requires
        s.contains(x),
    ensures
        first_occurrences(s).contains(x),
    decreases s.len(),
{
    let prev = first_occurrences(s.drop_last());
    if s.last() == x {
        if !prev.contains(x) {
            assert(prev.push(x)[prev.len() as int] == x);
        }
    } else {
        let j = choose|j: int| 0 <= j < s.len() && s[j] == x;
        assert(s.drop_last()[j] == x);
        lemma_first_occurrences_cover(s.drop_last(), x);
        if !prev.contains(s.last()) {
            let i = choose|i: int| 0 <= i < prev.len() && prev[i] == x;
            assert(prev.push(s.last())[i] == x);
        }
    }
}

proof fn lemma_first_occurrences_members(s: Seq<Seq<char>>, x: Seq<char>)
    ensures
        first_occurrences(s).contains(x) <==> s.contains(x),
    decreases s.len(),
{
    if s.contains(x) {
        lemma_first_occurrences_cover(s, x);
    }
    if s.len() > 0 && first_occurrences(s).contains(x) {
        let prev = first_occurrences(s.drop_last());
        lemma_first_occurrences_members(s.drop_last(), x);
        if prev.contains(x) {
            let j = choose|j: int| 0 <= j < s.drop_last().len() && s.drop_last()[j] == x;
            assert(s[j] == x);
        } else {
            let i = choose|i: int| 0 <= i < first_occurrences(s).len() && first_occurrences(s)[i] == x;
            if !prev.contains(s.last()) && i < prev.len() {
                assert(prev.push(s.last())[i] == prev[i]);
            }
            assert(s[s.len() - 1] == s.last());
        }
    }
}

proof fn lemma_stale_members(processes: Seq<(String, i64)>, now: i64, id: Seq<char>)
    ensures
        stale_processes(processes, now).contains(id) <==> exists|i: int|
            0 <= i < processes.len() && (#[trigger] processes[i]).0@ == id && processes[i].1 < now - RESURRECT_THRESHOLD_SECS,
    decreases processes.len(),
{
    if processes.len() > 0 {
        let d = processes.drop_last();
        lemma_stale_members(d, now, id);
        let prev = stale_processes(d, now);
        let last = processes.last();
        assert(last == processes[processes.len() - 1]);
        if stale_processes(processes, now).contains(id) {
            let k = choose|k: int| 0 <= k < stale_processes(processes, now).len() && stale_processes(processes, now)[k] == id;
            if k < prev.len() {
                assert(stale_processes(processes, now)[k] == prev[k]);
                let i = choose|i: int| 0 <= i < d.len() && (#[trigger] d[i]).0@ == id && d[i].1 < now - RESURRECT_THRESHOLD_SECS;
                assert(processes[i] == d[i]);
            }
        }
        if exists|i: int| 0 <= i < processes.len() && (#[trigger] processes[i]).0@ == id && processes[i].1 < now
            - RESURRECT_THRESHOLD_SECS {
            let i = choose|i: int| 0 <= i < processes.len() && (#[trigger] processes[i]).0@ == id && processes[i].1 < now
                - RESURRECT_THRESHOLD_SECS;
            if i < d.len() {
                assert(d[i] == processes[i]);
                let k = choose|k: int| 0 <= k < prev.len() && prev[k] == id;
                if last.1 < now - RESURRECT_THRESHOLD_SECS {
                    assert(prev.push(last.0@)[k] == id);
                }
            } else {
                assert(prev.push(last.0@)[prev.len() as int] == id);
            }
        }
    }
}

proof fn lemma_orphaned_members(processes: Seq<(String, i64)>, queues: Seq<String>, id: Seq<char>)
    ensures
        orphaned_processes(processes, queues).contains(id) <==> !has_heartbeat(processes, id) && exists|j: int|
            0 <= j < queues.len() && queue_process((#[trigger] queues[j])@) == id,
    decreases queues.len(),
{
    if queues.len() > 0 {
        let d = queues.drop_last();
        lemma_orphaned_members(processes, d, id);
        let prev = orphaned_processes(processes, d);
        let p = queue_process(queues.last()@);
        assert(queues.last() == queues[queues.len() - 1]);
        let now_seq = orphaned_processes(processes, queues);
        if now_seq.contains(id) {
            let k = choose|k: int| 0 <= k < now_seq.len() && now_seq[k] == id;
            if k < prev.len() {
                assert(now_seq[k] == prev[k]);
                let j = choose|j: int| 0 <= j < d.len() && queue_process((#[trigger] d[j])@) == id;
                assert(queues[j] == d[j]);
            } else {
                assert(id == p);
            }
        }
        if !has_heartbeat(processes, id) && exists|j: int| 0 <= j < queues.len() && queue_process((#[trigger] queues[j])@) == id {
            let j = choose|j: int| 0 <= j < queues.len() && queue_process((#[trigger] queues[j])@) == id;
            if j < d.len() {
                assert(d[j] == queues[j]);
                let k = choose|k: int| 0 <= k < prev.len() && prev[k] == id;
                if !has_heartbeat(processes, p) {
                    assert(prev.push(p)[k] == id);
                }
            } else {
                assert(prev.push(p)[prev.len() as int] == id);
            }
        }
    }
}

/// A process is found dead exactly when its heartbeat is older than the
/// threshold, or when it left a processing queue behind and has no
/// heartbeat at all.
pub proof fn lemma_dead_process_members(processes: Seq<(String, i64)>, queues: Seq<String>, now: i64, id: Seq<char>)
    ensures
        dead_processes(processes, queues, now).contains(id) <==> (exists|i: int|
            0 <= i < processes.len() && (#[trigger] processes[i]).0@ == id && processes[i].1 < now - RESURRECT_THRESHOLD_SECS)
            || (!has_heartbeat(processes, id) && exists|j: int|
            0 <= j < queues.len() && queue_process((#[trigger] queues[j])@) == id),
{
    let a = stale_processes(processes, now);
    let b = orphaned_processes(processes, queues);
    lemma_first_occurrences_members(a + b, id);
    lemma_stale_members(processes, now, id);
    lemma_orphaned_members(processes, queues, id);
    if (a + b).contains(id) {
        let k = choose|k: int| 0 <= k < (a + b).len() && (a + b)[k] == id;
        if k < a.len() {
            assert(a[k] == id);
        } else {
            assert(b[k - a.len()] == id);
        }
    }
    if a.contains(id) {
        let k = choose|k: int| 0 <= k < a.len() && a[k] == id;
        assert((a + b)[k] == id);
    }
    if b.contains(id) {
        let k = choose|k: int| 0 <= k < b.len() && b[k] == id;
        assert((a + b)[a.len() + k] == id);
    }
}

proof fn lemma_first_occurrences_distinct(s: Seq<Seq<char>>)
    ensures
        first_occurrences(s).no_duplicates(),
    decreases s.len(),
{
    if s.len() > 0 {
        lemma_first_occurrences_distinct(s.drop_last());
    }
}

proof fn lemma_no_ids_for_new_queue(jobs: Seq<(String, String)>, q: Seq<char>, keys: Seq<Seq<char>>)
    requires
        keys == first_occurrences(job_queues(jobs)),
        !keys.contains(q),
    ensures
        queue_job_ids(jobs, q) == Seq::<Seq<char>>::empty(),
    decreases jobs.len(),
{
    if jobs.len() > 0 {
        if jobs.last().0@ == q {
            assert(job_queues(jobs)[jobs.len() - 1] == q);
            lemma_first_occurrences_cover(job_queues(jobs), q);
        }
        assert(job_queues(jobs.drop_last()) =~= job_queues(jobs).drop_last());
        let prev_keys = first_occurrences(job_queues(jobs.drop_last()));
        assert(!prev_keys.contains(q)) by {
            if prev_keys.contains(q) {
                let i = choose|i: int| 0 <= i < prev_keys.len() && prev_keys[i] == q;
                if !prev_keys.contains(job_queues(jobs).last()) {
                    assert(prev_keys.push(job_queues(jobs).last())[i] == q);
                }
            }
        }
        lemma_no_ids_for_new_queue(jobs.drop_last(), q, prev_keys);
    }
}

/// A stored job is cleaned up when it cannot be read, or when it was
/// created more than the expiry time before `now`.
pub fn job_expired(created_at_secs: Option<i64>, now: i64) -> (r: bool)
    requires
        now >= i64::MIN + JOB_EXPIRE_TIME,
    ensures
        r == match created_at_secs {
            None => true,
            Some(c) => c < now - JOB_EXPIRE_TIME,
        },
{
    match created_at_secs {
        None => true,
        Some(c) => c < now - JOB_EXPIRE_TIME,
    }
}

/// How far ahead, in microseconds, a cron job may be enqueued.
pub const CRON_LOOKAHEAD_MICROS: i64 = 1_800_000_000;

/// `<job name>-<scheduled time in microseconds>`: the id of one run of a
/// cron job, the same for every process that schedules it.
pub open spec fn cron_run_id(job_name: Seq<char>, scheduled_at: i64) -> Seq<char> {
    job_name + seq!['-'] + crate::storage::signed_decimal(scheduled_at as int)
}

/// The id of one run of a cron job (see `cron_run_id`).
pub fn cron_job_id(job_name: &str, scheduled_at_micros: i64) -> (r: String)
    ensures
        r@ == cron_run_id(job_name@, scheduled_at_micros),
{
    let mut v = chars_of(job_name);
    v.push('-');
    let d = crate::storage::signed_decimal_chars(scheduled_at_micros);
    let ghost base = v@;
    let mut k: usize = 0;
    while k < d.len()
        invariant
            k <= d@.len(),
            v@ == base + d@.take(k as int),
        decreases d@.len() - k,
    {
        v.push(d[k]);
        assert(d@.take(k + 1) =~= d@.take(k as int).push(d@[k as int]));
        k = k + 1;
    }
    assert(d@.take(d@.len() as int) =~= d@);
    crate::text::string_of(&v)
}

/// The last whole second that a UTC date-time can hold: the end of the
/// latest year it represents.
pub const LATEST_TIMESTAMP_SECS: i64 = 8_210_298_412_799;

/// How far after the start of a cron loop its first run may fall at the
/// earliest, in seconds.
pub const CRON_START_DELAY_SECS: i64 = 3;

/// The first run of cron schedule `expression` strictly after the Unix
/// time `after_secs`, in microseconds; `None` when the expression does
/// not parse or the schedule has no later run.
pub uninterp spec fn cron_next_after(expression: Seq<char>, after_secs: i64) -> Option<i64>;

/// `cron::Schedule::from_str`, then `after` at the date-time of
/// `after_secs` (`chrono::DateTime::from_timestamp`), `next` and
/// `timestamp_micros`: the schedule's next run. The run depends on the
/// expression and the time alone. What the source shows and is stated:
/// no run comes of an expression that does not parse, and a run lies at
/// least a second after `after_secs`, since the search starts there. The
/// search adds a second to the start, which overflows (and panics) at the
/// last representable second, so that one is left out.
#[verifier::external_body]
fn next_cron_run(expression: &str, after_secs: i64) -> (r: Option<i64>)
    requires
        after_secs < LATEST_TIMESTAMP_SECS,
    ensures
        r == cron_next_after(expression@, after_secs),
        !cron_expression_valid(expression@) ==> r is None,
        r matches Some(t) ==> t >= (after_secs + 1) * 1_000_000,
{
    let schedule = match cron::Schedule::from_str(expression) {
        Ok(schedule) => schedule,
        Err(_) => return None,
    };
    let after = match chrono::DateTime::from_timestamp(after_secs, 0) {
        Some(after) => after,
        None => return None,
    };
    match schedule.after(&after).next() {
        Some(next) => Some(next.timestamp_micros()),
        None => None,
    }
}

/// The next run of a cron schedule after the Unix time `after_secs` (the
/// next run shown for a cron worker), in microseconds.
pub fn cron_next_run_micros(schedule: &str, after_secs: i64) -> (r: Option<i64>)
    requires
        after_secs < LATEST_TIMESTAMP_SECS,
    ensures
        r == cron_next_after(schedule@, after_secs),
        !cron_expression_valid(schedule@) ==> r is None,
        r matches Some(t) ==> t >= (after_secs + 1) * 1_000_000,
{
    next_cron_run(schedule, after_secs)
}

/// The first run of a cron loop started at the Unix time `now_secs`: the
/// first run of its schedule after a short start delay.
pub fn cron_first_run_micros(schedule: &str, now_secs: i64) -> (r: Option<i64>)
    requires
        now_secs < LATEST_TIMESTAMP_SECS - CRON_START_DELAY_SECS,
    ensures
        r == cron_next_after(schedule@, (now_secs + CRON_START_DELAY_SECS) as i64),
        r matches Some(t) ==> t > now_secs * 1_000_000,
{
    next_cron_run(schedule, now_secs + CRON_START_DELAY_SECS)
}

/// The run of a cron loop that follows the run at `previous_micros`: the
/// first run of its schedule after that run's second.
pub fn cron_following_run_micros(schedule: &str, previous_micros: i64) -> (r: Option<i64>)
    requires
        previous_micros / 1_000_000 < LATEST_TIMESTAMP_SECS,
    ensures
        r == cron_next_after(schedule@, (previous_micros / 1_000_000) as i64),
        r matches Some(t) ==> t > previous_micros,
{
    let secs: i64 = if previous_micros >= 0 {
        (previous_micros as u64 / 1_000_000) as i64
    } else {
        let m: u64 = (-(previous_micros + 1)) as u64;
        -((m / 1_000_000) as i64) - 1
    };
    assert(secs == previous_micros / 1_000_000) by (nonlinear_arith)
        requires
            previous_micros >= 0 ==> secs == previous_micros / 1_000_000,
            previous_micros < 0 ==> secs == -((-(previous_micros + 1)) / 1_000_000) - 1,
    {
    }
    let r = next_cron_run(schedule, secs);
    assert(secs * 1_000_000 <= previous_micros < (secs + 1) * 1_000_000) by (nonlinear_arith)
        requires
            secs == previous_micros / 1_000_000,
    {
    }
    r
}

/// A cron run waits while it lies more than the lookahead in the future,
/// or while the previous run is still in the future.
pub fn cron_should_wait(next_micros: i64, previous_micros: Option<i64>, now_micros: i64) -> (r: bool)
    requires
        now_micros <= i64::MAX - CRON_LOOKAHEAD_MICROS,
    ensures
        r == (next_micros > now_micros + CRON_LOOKAHEAD_MICROS || match previous_micros {
            Some(p) => p > now_micros,
            None => false,
        }),
{
    if next_micros > now_micros + CRON_LOOKAHEAD_MICROS {
        return true;
    }
    match previous_micros {
        Some(p) => p > now_micros,
        None => false,
    }
}

/// The entries read for one minute: each field with the value read for
/// it, when one was, in field order.
pub open spec fn chunk_entries(fields: Seq<String>, values: Seq<Option<i64>>, start: int, j: nat) -> Seq<(Seq<char>, i64)>
    decreases j,
{
    if j == 0 {
        Seq::empty()
    } else {
        let prev = chunk_entries(fields, values, start, (j - 1) as nat);
        let at = start + j - 1;
        if at < values.len() && values[at] is Some {
            prev.push((fields[j - 1]@, values[at]->0))
        } else {
            prev
        }
    }
}

/// The counter hash of minute `i`: the values read in that minute's slice
/// of `values` (one value per field, minute after minute).
pub open spec fn minute_entries(fields: Seq<String>, values: Seq<Option<i64>>, i: int) -> Seq<(Seq<char>, i64)> {
    chunk_entries(fields, values, i * fields.len(), fields.len())
}

/// The texts of (field, value) entries.
pub open spec fn entry_views(v: Seq<(String, i64)>) -> Seq<(Seq<char>, i64)> {
    v.map_values(|e: (String, i64)| (e.0@, e.1))
}

/// Regroups values read field by field, minute after minute, into one
/// counter hash per minute (see `minute_entries`).
pub fn counter_hashes_from_values(minute_count: usize, fields: &Vec<String>, values: &Vec<Option<i64>>)
    -> (r: Vec<Vec<(String, i64)>>)
    requires
        fields@.len() > 0,
    ensures
        r@.len() == minute_count,
        forall|i: int| 0 <= i < minute_count ==> entry_views(#[trigger] r@[i]@) == minute_entries(fields@, values@, i),
{
    let f = fields.len();
    let n = values.len();
    let mut r: Vec<Vec<(String, i64)>> = Vec::new();
    let mut start: usize = 0;
    let mut i: usize = 0;
    while i < minute_count
        invariant
            i <= minute_count,
            f == fields@.len(),
            f > 0,
            n == values@.len(),
            r@.len() == i,
            start <= n,
            start < n ==> start == i * f,
            start == n ==> i * f >= n,
            forall|m: int| 0 <= m < i ==> entry_views(#[trigger] r@[m]@) == minute_entries(fields@, values@, m),
        decreases minute_count - i,
    {
        let mut hash: Vec<(String, i64)> = Vec::new();
        let mut j: usize = 0;
        if start < n {
            while j < f
                invariant
                    j <= f,
                    f == fields@.len(),
                    n == values@.len(),
                    start < n,
                    start == i * f,
                    entry_views(hash@) == chunk_entries(fields@, values@, i * f, j as nat),
                decreases f - j,
            {
                let ghost before = entry_views(hash@);
                if j < n - start {
                    match values[start + j] {
                        Some(v) => {
                            hash.push((fields[j].clone(), v));
                            assert(entry_views(hash@) =~= before.push((fields@[j as int]@, v)));
                        },
                        None => {},
                    }
                }
                j = j + 1;
            }
            if n - start > f {
                start = start + f;
            } else {
                start = n;
            }
            proof {
                assert((i + 1) * f == i * f + f) by (nonlinear_arith);
            }
        } else {
            proof {
                assert(chunk_entries(fields@, values@, i * f, f as nat) =~= Seq::<(Seq<char>, i64)>::empty()) by {
                    lemma_chunk_past_end(fields@, values@, i * f, f as nat);
                }
                assert((i + 1) * f == i * f + f) by (nonlinear_arith);
            }
        }
        let ghost before = r@;
        r.push(hash);
        proof {
            assert forall|m: int| 0 <= m < i + 1 implies entry_views(#[trigger] r@[m]@) == minute_entries(fields@, values@, m) by {
                if m < i {
                    assert(r@[m] == before[m]);
                }
            }
        }
        i = i + 1;
    }
    r
}

proof fn lemma_chunk_past_end(fields: Seq<String>, values: Seq<Option<i64>>, start: int, j: nat)
    requires
        start >= values.len(),
    ensures
        chunk_entries(fields, values, start, j) == Seq::<(Seq<char>, i64)>::empty(),
    decreases j,
{
    if j > 0 {
        lemma_chunk_past_end(fields, values, start, (j - 1) as nat);
    }
}

} // verus!
