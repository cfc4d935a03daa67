//! Per-queue counters from the stats hash: the totals kept under
//! `<queue>:<stat>` fields, grouped by queue and by dynamic sub-queue
//! (`<queue>#<suffix>`), and the queue-length snapshots stored beside them.

use vstd::prelude::*;

use crate::text::{
    chars_of, find_char, first_index_of, last_index_of, rfind_char, str_eq, strictly_sorted, sort_strings, substring,
    views_of,
};

verus! {

broadcast use vstd::string::group_string_axioms;

/// Seconds a stored queue-length snapshot stays fresh.
pub const QUEUE_LENGTH_SNAPSHOT_TTL_SECS: i64 = 120;

/// `<queue>:<stat>` split at its last colon.
pub open spec fn stat_key_parts(key: Seq<char>) -> Option<(Seq<char>, Seq<char>)> {
    match last_index_of(key, ':') {
        None => None,
        Some(i) => Some((key.take(i), key.skip(i + 1))),
    }
}

/// The queue a key belongs to: the text before its first `#`.
pub open spec fn queue_base(k: Seq<char>) -> Seq<char> {
    match first_index_of(k, '#') {
        None => k,
        Some(i) => k.take(i),
    }
}

/// The dynamic sub-queue a key names: the text after its first `#`.
pub open spec fn queue_suffix(k: Seq<char>) -> Option<Seq<char>> {
    match first_index_of(k, '#') {
        None => None,
        Some(i) => Some(k.skip(i + 1)),
    }
}

/// A stats key is kept by a queue filter when it belongs to the same queue
/// as one of the filter's queues, or is one of them.
pub open spec fn matches_filter(queue_key: Seq<char>, queues: Seq<String>) -> bool {
    exists|i: int| 0 <= i < queues.len() && (queue_base(#[trigger] queues[i]@) == queue_base(queue_key) || queues[i]@ == queue_key)
}

/// The counters that are summed per queue.
pub open spec fn is_counter_stat(stat: Seq<char>) -> bool {
    stat == "processed"@ || stat == "succeeded"@ || stat == "panicked"@ || stat == "failed"@
}

/// The stats that are queue-length snapshots rather than counters.
pub open spec fn is_snapshot_stat(stat: Seq<char>) -> bool {
    stat == "enqueued"@ || stat == "enqueued_at"@
}

/// A stats entry that survives splitting and filtering: its queue key and
/// stat name.
pub open spec fn kept_stat(e: (String, i64), queues: Seq<String>, filter: bool) -> Option<(Seq<char>, Seq<char>)> {
    match stat_key_parts(e.0@) {
        None => None,
        Some((q, st)) => if filter && !matches_filter(q, queues) { None } else { Some((q, st)) },
    }
}

/// The counted values in order: a zero `processed` for each listed queue,
/// then every kept counter entry of the stats hash.
pub open spec fn counted_values(stats: Seq<(String, i64)>, queues: Seq<String>, filter: bool) -> Seq<(Seq<char>, Seq<char>, i64)>
    decreases stats.len(),
{
    if stats.len() == 0 {
        queues.map_values(|q: String| (q@, "processed"@, 0i64))
    } else {
        let prev = counted_values(stats.drop_last(), queues, filter);
        match kept_stat(stats.last(), queues, filter) {
            None => prev,
            Some((q, st)) => if is_snapshot_stat(st) { prev } else { prev.push((q, st, stats.last().1)) },
        }
    }
}

/// The last kept value of stat `stat` for queue key `q`, if any.
pub open spec fn snapshot_value(stats: Seq<(String, i64)>, queues: Seq<String>, filter: bool, q: Seq<char>, stat: Seq<char>) -> Option<i64>
    decreases stats.len(),
{
    if stats.len() == 0 {
        None
    } else if kept_stat(stats.last(), queues, filter) == Some((q, stat)) {
        Some(stats.last().1)
    } else {
        snapshot_value(stats.drop_last(), queues, filter, q, stat)
    }
}

/// The queue length of a snapshot that is still fresh at `now`: taken at
/// most the TTL ago, with a length that fits in `usize`.
pub open spec fn fresh_length(enqueued: Option<i64>, refreshed_at: Option<i64>, now: i64) -> Option<usize> {
    match refreshed_at {
        None => None,
        Some(r) => {
            let age = if now - r < i64::MIN { i64::MIN as int } else if now - r > i64::MAX { i64::MAX as int } else { now - r };
            if age > QUEUE_LENGTH_SNAPSHOT_TTL_SECS {
                None
            } else {
                match enqueued {
                    Some(e) => if 0 <= e <= usize::MAX { Some(e as usize) } else { None },
                    None => None,
                }
            }
        },
    }
}

/// The fresh queue length recorded for queue key `q`, if any.
pub open spec fn fresh_snapshot(stats: Seq<(String, i64)>, queues: Seq<String>, filter: bool, q: Seq<char>, now: i64) -> Option<usize> {
    fresh_length(
        snapshot_value(stats, queues, filter, q, "enqueued"@),
        snapshot_value(stats, queues, filter, q, "enqueued_at"@),
        now,
    )
}

/// A queue key with a fresh, non-zero snapshot gets an entry even without
/// counters.
pub open spec fn has_positive_snapshot(stats: Seq<(String, i64)>, queues: Seq<String>, filter: bool, q: Seq<char>, now: i64) -> bool {
    match fresh_snapshot(stats, queues, filter, q, now) {
        Some(n) => n > 0,
        None => false,
    }
}

/// True when queue key `q` gives rise to an entry: it is counted, or it
/// has a fresh non-zero snapshot.
pub open spec fn key_listed(stats: Seq<(String, i64)>, queues: Seq<String>, filter: bool, now: i64, q: Seq<char>) -> bool {
    ||| exists|i: int| 0 <= i < counted_values(stats, queues, filter).len() && #[trigger] counted_values(stats, queues, filter)[i].0 == q
    ||| has_positive_snapshot(stats, queues, filter, q, now)
}

/// Sum of the counted values of stat `stat` for the keys that `keep` keeps.
pub open spec fn stat_sum(counted: Seq<(Seq<char>, Seq<char>, i64)>, keep: spec_fn(Seq<char>) -> bool, stat: Seq<char>) -> int
    decreases counted.len(),
{
    if counted.len() == 0 {
        0
    } else {
        stat_sum(counted.drop_last(), keep, stat) + if keep(counted.last().0) && counted.last().1 == stat {
            counted.last().2 as int
        } else {
            0
        }
    }
}

/// Counters of a dynamic sub-queue.
#[derive(Debug)]
pub struct DynamicQueueCounts {
    pub suffix: String,
    pub processed: i64,
    pub succeeded: i64,
    pub panicked: i64,
    pub failed: i64,
}

/// Counters of a queue, with those of its dynamic sub-queues.
#[derive(Debug)]
pub struct QueueCounts {
    pub key: String,
    pub processed: i64,
    pub succeeded: i64,
    pub panicked: i64,
    pub failed: i64,
    pub queues: Vec<DynamicQueueCounts>,
}

fn stat_key_parts_exec(key: &str) -> (r: Option<(String, String)>)
    ensures
        match r {
            Some((q, st)) => stat_key_parts(key@) == Some((q@, st@)),
            None => stat_key_parts(key@) is None,
        },
{
    let cs = chars_of(key);
    match rfind_char(&cs, ':') {
        None => None,
        Some(i) => {
            let n = cs.len();
            let q = substring(&cs, 0, i);
            let st = substring(&cs, i + 1, n);
            assert(cs@.subrange(0, i as int) =~= cs@.take(i as int));
            assert(cs@.subrange(i + 1, cs@.len() as int) =~= cs@.skip(i + 1));
            Some((q, st))
        },
    }
}

/// The queue a key belongs to (see `queue_base`).
pub fn queue_base_exec(k: &str) -> (r: String)
    ensures
        r@ == queue_base(k@),
{
    let cs = chars_of(k);
    match find_char(&cs, '#') {
        None => substring(&cs, 0, cs.len()),
        Some(i) => {
            assert(cs@.subrange(0, i as int) =~= cs@.take(i as int));
            substring(&cs, 0, i)
        },
    }
}

/// The dynamic sub-queue a key names (see `queue_suffix`).
pub fn queue_suffix_exec(k: &str) -> (r: Option<String>)
    ensures
        match r {
            Some(s) => queue_suffix(k@) == Some(s@),
            None => queue_suffix(k@) is None,
        },
{
    let cs = chars_of(k);
    match find_char(&cs, '#') {
        None => None,
        Some(i) => {
            assert(cs@.subrange(i + 1, cs@.len() as int) =~= cs@.skip(i + 1));
            let n = cs.len();
            Some(substring(&cs, i + 1, n))
        },
    }
}

/// Whether a stats key passes the queue filter (see `matches_filter`).
pub fn stats_key_matches_filter(queue_key: &str, queues: &Vec<String>) -> (r: bool)
    ensures
        r == matches_filter(queue_key@, queues@),
{
    let base = queue_base_exec(queue_key);
    let mut i: usize = 0;
    while i < queues.len()
        invariant
            i <= queues@.len(),
            base@ == queue_base(queue_key@),
            forall|j: int| 0 <= j < i ==> !(queue_base(#[trigger] queues@[j]@) == queue_base(queue_key@) || queues@[j]@ == queue_key@),
        decreases queues@.len() - i,
    {
        let qb = queue_base_exec(queues[i].as_str());
        if str_eq(qb.as_str(), base.as_str()) || str_eq(queues[i].as_str(), queue_key) {
            return true;
        }
        i = i + 1;
    }
    false
}

fn kept_stat_exec(e: &(String, i64), queues: &Vec<String>, filter: bool) -> (r: Option<(String, String)>)
    ensures
        match r {
            Some((q, st)) => kept_stat(*e, queues@, filter) == Some((q@, st@)),
            None => kept_stat(*e, queues@, filter) is None,
        },
{
    match stat_key_parts_exec(e.0.as_str()) {
        None => None,
        Some((q, st)) => {
            if filter && !stats_key_matches_filter(q.as_str(), queues) {
                None
            } else {
                Some((q, st))
            }
        },
    }
}

fn is_snapshot_stat_exec(st: &str) -> (r: bool)
    ensures
        r == is_snapshot_stat(st@),
{
    str_eq(st, "enqueued") || str_eq(st, "enqueued_at")
}

/// The text of counted values.
pub open spec fn counted_view(v: Seq<(String, String, i64)>) -> Seq<(Seq<char>, Seq<char>, i64)> {
    v.map_values(|t: (String, String, i64)| (t.0@, t.1@, t.2))
}

/// The counted values (see `counted_values`).
fn counted_values_exec(stats: &Vec<(String, i64)>, queues: &Vec<String>, filter: bool) -> (r: Vec<(String, String, i64)>)
    ensures
        counted_view(r@) == counted_values(stats@, queues@, filter),
{
    let mut r: Vec<(String, String, i64)> = Vec::new();
    let mut i: usize = 0;
    while i < queues.len()
        invariant
            i <= queues@.len(),
            counted_view(r@) == queues@.take(i as int).map_values(|q: String| (q@, "processed"@, 0i64)),
        decreases queues@.len() - i,
    {
        let ghost before = counted_view(r@);
        r.push((queues[i].clone(), "processed".to_string(), 0i64));
        assert(queues@.take(i + 1) =~= queues@.take(i as int).push(queues@[i as int]));
        assert(counted_view(r@) =~= before.push((queues@[i as int]@, "processed"@, 0i64)));
        assert(counted_view(r@) =~= queues@.take(i + 1).map_values(|q: String| (q@, "processed"@, 0i64)));
        i = i + 1;
    }
    assert(queues@.take(queues@.len() as int) =~= queues@);
    assert(counted_view(r@) == counted_values(stats@.take(0), queues@, filter));
    let mut k: usize = 0;
    while k < stats.len()
        invariant
            k <= stats@.len(),
            counted_view(r@) == counted_values(stats@.take(k as int), queues@, filter),
        decreases stats@.len() - k,
    {
        assert(stats@.take(k + 1).drop_last() =~= stats@.take(k as int));
        assert(stats@.take(k + 1).last() == stats@[k as int]);
        match kept_stat_exec(&stats[k], queues, filter) {
            None => {},
            Some((q, st)) => {
                if !is_snapshot_stat_exec(st.as_str()) {
                    let ghost before = counted_view(r@);
                    r.push((q, st, stats[k].1));
                    assert(counted_view(r@) =~= before.push((q@, st@, stats@[k as int].1)));
                }
            },
        }
        k = k + 1;
    }
    assert(stats@.take(stats@.len() as int) =~= stats@);
    r
}

fn snapshot_value_exec(stats: &Vec<(String, i64)>, queues: &Vec<String>, filter: bool, q: &str, stat: &str) -> (r: Option<i64>)
    ensures
        r == snapshot_value(stats@, queues@, filter, q@, stat@),
{
    let mut k: usize = stats.len();
    assert(stats@.take(k as int) =~= stats@);
    while k > 0
        invariant
            k <= stats@.len(),
            snapshot_value(stats@, queues@, filter, q@, stat@) == snapshot_value(stats@.take(k as int), queues@, filter, q@, stat@),
        decreases k,
    {
        assert(stats@.take(k as int).drop_last() =~= stats@.take(k - 1));
        assert(stats@.take(k as int).last() == stats@[k - 1]);
        match kept_stat_exec(&stats[k - 1], queues, filter) {
            Some((kq, kst)) => {
                if str_eq(kq.as_str(), q) && str_eq(kst.as_str(), stat) {
                    return Some(stats[k - 1].1);
                }
            },
            None => {},
        }
        k = k - 1;
    }
    None
}

/// The fresh queue length recorded for a queue key (see `fresh_snapshot`).
pub fn fresh_queue_length_snapshot(stats: &Vec<(String, i64)>, queues: &Vec<String>, filter: bool, q: &str, now: i64) -> (r: Option<usize>)
    ensures
        r == fresh_snapshot(stats@, queues@, filter, q@, now),
{
    assert(stats@.take(stats@.len() as int) =~= stats@);
    let enqueued = snapshot_value_exec(stats, queues, filter, q, "enqueued");
    let refreshed_at = snapshot_value_exec(stats, queues, filter, q, "enqueued_at");
    match refreshed_at {
        None => None,
        Some(r) => {
            let age: i128 = (now as i128) - (r as i128);
            if age > QUEUE_LENGTH_SNAPSHOT_TTL_SECS as i128 {
                None
            } else {
                match enqueued {
                    Some(e) => if 0 <= e && e as u64 <= usize::MAX as u64 { Some(e as usize) } else { None },
                    None => None,
                }
            }
        },
    }
}

/// Keeps the keys of queue `base`, or of its sub-queue `suffix` when one
/// is given.
pub open spec fn keep_for(base: Seq<char>, suffix: Option<Seq<char>>) -> spec_fn(Seq<char>) -> bool {
    |k: Seq<char>| queue_base(k) == base && (suffix is None || queue_suffix(k) == suffix)
}

/// Sum of the magnitudes of the counted values of stat `stat` for the keys
/// that `keep` keeps.
pub open spec fn abs_stat_sum(counted: Seq<(Seq<char>, Seq<char>, i64)>, keep: spec_fn(Seq<char>) -> bool, stat: Seq<char>) -> int
    decreases counted.len(),
{
    if counted.len() == 0 {
        0
    } else {
        abs_stat_sum(counted.drop_last(), keep, stat) + if keep(counted.last().0) && counted.last().1 == stat {
            if counted.last().2 < 0 { -(counted.last().2 as int) } else { counted.last().2 as int }
        } else {
            0
        }
    }
}

/// Every counter of every queue, summed over the fields that feed it,
/// stays within `i64` whatever order the fields come in.
pub open spec fn counters_fit(stats: Seq<(String, i64)>, queues: Seq<String>, filter: bool) -> bool {
    forall|b: Seq<char>, st: Seq<char>|
        #[trigger] abs_stat_sum(counted_values(stats, queues, filter), keep_for(b, None), st) <= i64::MAX
}

proof fn lemma_abs_stat_prefix(c: Seq<(Seq<char>, Seq<char>, i64)>, keep: spec_fn(Seq<char>) -> bool, stat: Seq<char>, k: int)
    requires
        0 <= k <= c.len(),
    ensures
        0 <= abs_stat_sum(c.take(k), keep, stat) <= abs_stat_sum(c, keep, stat),
    decreases c.len() - k,
{
    if k < c.len() {
        lemma_abs_stat_prefix(c, keep, stat, k + 1);
        assert(c.take(k + 1).drop_last() =~= c.take(k));
    } else {
        assert(c.take(k) =~= c);
    }
    lemma_abs_stat_nonneg(c.take(k), keep, stat);
}

proof fn lemma_abs_stat_nonneg(c: Seq<(Seq<char>, Seq<char>, i64)>, keep: spec_fn(Seq<char>) -> bool, stat: Seq<char>)
    ensures
        abs_stat_sum(c, keep, stat) >= 0,
    decreases c.len(),
{
    if c.len() > 0 {
        lemma_abs_stat_nonneg(c.drop_last(), keep, stat);
    }
}

proof fn lemma_stat_sum_within(c: Seq<(Seq<char>, Seq<char>, i64)>, keep: spec_fn(Seq<char>) -> bool, stat: Seq<char>)
    ensures
        -abs_stat_sum(c, keep, stat) <= stat_sum(c, keep, stat) <= abs_stat_sum(c, keep, stat),
    decreases c.len(),
{
    if c.len() > 0 {
        lemma_stat_sum_within(c.drop_last(), keep, stat);
    }
}

proof fn lemma_abs_stat_suffix(c: Seq<(Seq<char>, Seq<char>, i64)>, base: Seq<char>, sfx: Seq<char>, stat: Seq<char>)
    ensures
        abs_stat_sum(c, keep_for(base, Some(sfx)), stat) <= abs_stat_sum(c, keep_for(base, None), stat),
    decreases c.len(),
{
    if c.len() > 0 {
        lemma_abs_stat_suffix(c.drop_last(), base, sfx, stat);
    }
}

proof fn lemma_abs_stat_witness(c: Seq<(Seq<char>, Seq<char>, i64)>, keep: spec_fn(Seq<char>) -> bool, stat: Seq<char>)
    requires
        abs_stat_sum(c, keep, stat) > 0,
    ensures
        exists|i: int| 0 <= i < c.len() && keep((#[trigger] c[i]).0) && c[i].1 == stat,
    decreases c.len(),
{
    if keep(c.last().0) && c.last().1 == stat {
        assert(keep(c[c.len() - 1].0));
    } else {
        lemma_abs_stat_witness(c.drop_last(), keep, stat);
        let i = choose|i: int| 0 <= i < c.drop_last().len() && keep((#[trigger] c.drop_last()[i]).0) && c.drop_last()[i].1 == stat;
        assert(c[i] == c.drop_last()[i]);
    }
}

fn abs_stat_exec(counted: &Vec<(String, String, i64)>, base: &str, stat: &str) -> (r: bool)
    ensures
        r == (abs_stat_sum(counted_view(counted@), keep_for(base@, None), stat@) <= i64::MAX),
{
    let ghost c = counted_view(counted@);
    let ghost keep = keep_for(base@, None);
    let mut acc: u128 = 0;
    let mut k: usize = 0;
    while k < counted.len()
        invariant
            k <= counted@.len(),
            c == counted_view(counted@),
            keep == keep_for(base@, None),
            acc == abs_stat_sum(c.take(k as int), keep, stat@),
            acc <= i64::MAX,
        decreases counted@.len() - k,
    {
        let e = &counted[k];
        assert(c.take(k + 1).drop_last() =~= c.take(k as int));
        assert(c.take(k + 1).last() == c[k as int]);
        let eb = queue_base_exec(e.0.as_str());
        if str_eq(eb.as_str(), base) && str_eq(e.1.as_str(), stat) {
            let m: u128 = if e.2 < 0 { (0i128 - e.2 as i128) as u128 } else { e.2 as u128 };
            acc = acc + m;
            if acc > i64::MAX as u128 {
                proof {
                    lemma_abs_stat_prefix(c, keep, stat@, k + 1);
                }
                return false;
            }
        }
        k = k + 1;
    }
    assert(c.take(counted@.len() as int) =~= c);
    true
}

/// Whether every counter of every queue fits (see `counters_fit`): the
/// condition under which `queue_counts` can add up the stats hash.
pub fn queue_counters_fit(stats: &Vec<(String, i64)>, queues: &Vec<String>, filter: bool) -> (r: bool)
    ensures
        r == counters_fit(stats@, queues@, filter),
{
    let counted = counted_values_exec(stats, queues, filter);
    let ghost c = counted_values(stats@, queues@, filter);
    let mut k: usize = 0;
    while k < counted.len()
        invariant
            k <= counted@.len(),
            c == counted_view(counted@),
            c == counted_values(stats@, queues@, filter),
            forall|j: int| 0 <= j < k ==> abs_stat_sum(c, keep_for(queue_base(#[trigger] c[j].0), None), c[j].1) <= i64::MAX,
        decreases counted@.len() - k,
    {
        let e = &counted[k];
        assert(c[k as int] == (e.0@, e.1@, e.2));
        let eb = queue_base_exec(e.0.as_str());
        if !abs_stat_exec(&counted, eb.as_str(), e.1.as_str()) {
            return false;
        }
        k = k + 1;
    }
    proof {
        assert forall|b: Seq<char>, st: Seq<char>| #[trigger] abs_stat_sum(c, keep_for(b, None), st) <= i64::MAX by {
            if abs_stat_sum(c, keep_for(b, None), st) > 0 {
                lemma_abs_stat_witness(c, keep_for(b, None), st);
                let i = choose|i: int| 0 <= i < c.len() && keep_for(b, None)((#[trigger] c[i]).0) && c[i].1 == st;
                assert(queue_base(c[i].0) == b);
            }
        }
    }
    true
}

fn sum_stat(counted: &Vec<(String, String, i64)>, base: &str, suffix: Option<&String>, stat: &str) -> (r: i64)
    requires
        abs_stat_sum(
            counted_view(counted@),
            keep_for(base@, match suffix { Some(s) => Some(s@), None => None }),
            stat@,
        ) <= i64::MAX,
    ensures
        r == stat_sum(
            counted_view(counted@),
            keep_for(base@, match suffix { Some(s) => Some(s@), None => None }),
            stat@,
        ),
{
    let ghost c = counted_view(counted@);
    let ghost sfx = match suffix { Some(s) => Some(s@), None => None };
    let ghost keep = keep_for(base@, sfx);
    let mut acc: i64 = 0;
    let mut k: usize = 0;
    while k < counted.len()
        invariant
            k <= counted@.len(),
            c == counted_view(counted@),
            abs_stat_sum(c, keep, stat@) <= i64::MAX,
            keep == keep_for(base@, sfx),
            sfx == match suffix { Some(s) => Some(s@), None => None::<Seq<char>> },
            acc == stat_sum(c.take(k as int), keep, stat@),
        decreases counted@.len() - k,
    {
        let e = &counted[k];
        assert(c.take(k + 1).drop_last() =~= c.take(k as int));
        assert(c.take(k + 1).last() == c[k as int]);
        let eb = queue_base_exec(e.0.as_str());
        let mut kept = str_eq(eb.as_str(), base);
        if kept {
            match suffix {
                None => {},
                Some(s) => {
                    match queue_suffix_exec(e.0.as_str()) {
                        Some(es) => {
                            kept = str_eq(es.as_str(), s.as_str());
                        },
                        None => {
                            kept = false;
                        },
                    }
                },
            }
        }
        if kept && str_eq(e.1.as_str(), stat) {
            proof {
                lemma_stat_sum_within(c.take(k + 1), keep, stat@);
                lemma_abs_stat_prefix(c, keep, stat@, k + 1);
            }
            acc = acc + e.2;
        }
        k = k + 1;
    }
    assert(c.take(counted@.len() as int) =~= c);
    acc
}

/// The strings of `v` without repeats, in order of first appearance.
pub fn dedup_strings(v: &Vec<String>) -> (out: Vec<String>)
    ensures
        views_of(out@).no_duplicates(),
        forall|x: Seq<char>| views_of(out@).contains(x) <==> views_of(v@).contains(x),
{
    let ghost vv = views_of(v@);
    let mut out: Vec<String> = Vec::new();
    let mut k: usize = 0;
    while k < v.len()
        invariant
            k <= v@.len(),
            vv == views_of(v@),
            views_of(out@).no_duplicates(),
            forall|x: Seq<char>| views_of(out@).contains(x) <==> vv.take(k as int).contains(x),
        decreases v@.len() - k,
    {
        let ghost ov = views_of(out@);
        let mut found = false;
        let mut i: usize = 0;
        while i < out.len()
            invariant
                k < v@.len(),
                i <= out@.len(),
                ov == views_of(out@),
                vv == views_of(v@),
                !found ==> forall|j: int| 0 <= j < i ==> ov[j] != vv[k as int],
                found ==> ov.contains(vv[k as int]),
            decreases out@.len() - i,
        {
            if str_eq(out[i].as_str(), v[k].as_str()) {
                found = true;
                assert(ov[i as int] == vv[k as int]);
            }
            i = i + 1;
        }
        let ghost pre = vv.take(k as int);
        let ghost y = vv[k as int];
        assert(vv.take(k + 1) =~= pre.push(y));
        if !found {
            out.push(v[k].clone());
            assert(views_of(out@) =~= ov.push(y));
            assert(!ov.contains(y));
        }
        proof {
            let nv = views_of(out@);
            assert forall|x: Seq<char>| nv.contains(x) <==> pre.push(y).contains(x) by {
                if pre.push(y).contains(x) {
                    let j = choose|j: int| 0 <= j < pre.push(y).len() && pre.push(y)[j] == x;
                    if j < pre.len() {
                        assert(pre[j] == x);
                        assert(ov.contains(x));
                        let i = choose|i: int| 0 <= i < ov.len() && ov[i] == x;
                        assert(nv[i] == x);
                    } else {
                        if found {
                            let i = choose|i: int| 0 <= i < ov.len() && ov[i] == y;
                            assert(nv[i] == x);
                        } else {
                            assert(nv[ov.len() as int] == x);
                        }
                    }
                }
                if nv.contains(x) {
                    let i = choose|i: int| 0 <= i < nv.len() && nv[i] == x;
                    if i < ov.len() {
                        assert(ov[i] == x);
                        assert(ov.contains(x));
                        assert(pre.contains(x));
                        let j = choose|j: int| 0 <= j < pre.len() && pre[j] == x;
                        assert(pre.push(y)[j] == x);
                    } else {
                        assert(pre.push(y)[pre.len() as int] == x);
                    }
                }
            }
        }
        k = k + 1;
    }
    assert(vv.take(v@.len() as int) =~= vv);
    out
}

proof fn lemma_snapshot_value_source(stats: Seq<(String, i64)>, queues: Seq<String>, filter: bool, q: Seq<char>, stat: Seq<char>)
    requires
        snapshot_value(stats, queues, filter, q, stat) is Some,
    ensures
        exists|i: int| 0 <= i < stats.len() && #[trigger] kept_stat(stats[i], queues, filter) == Some((q, stat)),
    decreases stats.len(),
{
    if kept_stat(stats.last(), queues, filter) == Some((q, stat)) {
        assert(kept_stat(stats[stats.len() - 1], queues, filter) == Some((q, stat)));
    } else {
        lemma_snapshot_value_source(stats.drop_last(), queues, filter, q, stat);
        let i = choose|i: int| 0 <= i < stats.drop_last().len() && #[trigger] kept_stat(stats.drop_last()[i], queues, filter) == Some((q, stat));
        assert(stats[i] == stats.drop_last()[i]);
    }
}

/// The queue keys that give rise to entries: every counted key, and every
/// key with a fresh non-zero snapshot.
fn candidate_keys(
    stats: &Vec<(String, i64)>,
    queues: &Vec<String>,
    filter: bool,
    now: i64,
    counted: &Vec<(String, String, i64)>,
) -> (r: Vec<String>)
    requires
        counted_view(counted@) == counted_values(stats@, queues@, filter),
    ensures
        forall|x: Seq<char>| views_of(r@).contains(x) <==> key_listed(stats@, queues@, filter, now, x),
{
    let ghost cv = counted_values(stats@, queues@, filter);
    let mut r: Vec<String> = Vec::new();
    let mut i: usize = 0;
    while i < counted.len()
        invariant
            i <= counted@.len(),
            cv == counted_view(counted@),
            views_of(r@) == Seq::new(i as nat, |j: int| cv[j].0),
        decreases counted@.len() - i,
    {
        let ghost before = views_of(r@);
        r.push(counted[i].0.clone());
        assert(cv[i as int].0 == counted@[i as int].0@);
        assert(views_of(r@) =~= before.push(cv[i as int].0));
        assert(views_of(r@) =~= Seq::new((i + 1) as nat, |j: int| cv[j].0));
        i = i + 1;
    }
    let ghost base = views_of(r@);
    assert forall|x: Seq<char>| base.contains(x) implies key_listed(stats@, queues@, filter, now, x) by {
        let j = choose|j: int| 0 <= j < base.len() && base[j] == x;
        assert(cv[j].0 == x);
    }
    let mut k: usize = 0;
    while k < stats.len()
        invariant
            k <= stats@.len(),
            cv == counted_values(stats@, queues@, filter),
            base == Seq::new(cv.len(), |j: int| cv[j].0),
            forall|x: Seq<char>| views_of(r@).contains(x) ==> key_listed(stats@, queues@, filter, now, x),
            forall|x: Seq<char>| base.contains(x) ==> views_of(r@).contains(x),
            forall|j: int| 0 <= j < k ==> match #[trigger] kept_stat(stats@[j], queues@, filter) {
                Some((q, st)) => is_snapshot_stat(st) && has_positive_snapshot(stats@, queues@, filter, q, now)
                    ==> views_of(r@).contains(q),
                None => true,
            },
        decreases stats@.len() - k,
    {
        let ghost before = views_of(r@);
        match kept_stat_exec(&stats[k], queues, filter) {
            None => {},
            Some((q, st)) => {
                if is_snapshot_stat_exec(st.as_str()) {
                    match fresh_queue_length_snapshot(stats, queues, filter, q.as_str(), now) {
                        Some(n) => {
                            if n > 0 {
                                r.push(q);
                                assert(views_of(r@) =~= before.push(q@));
                                assert(views_of(r@)[before.len() as int] == q@);
                            }
                        },
                        None => {},
                    }
                }
            },
        }
        proof {
            let now_v = views_of(r@);
            assert(now_v == before || (exists|q: Seq<char>| now_v == before.push(q) && key_listed(stats@, queues@, filter, now, q)));
            assert forall|x: Seq<char>| before.contains(x) implies now_v.contains(x) by {
                let j = choose|j: int| 0 <= j < before.len() && before[j] == x;
                assert(now_v[j] == x);
            }
            assert forall|x: Seq<char>| now_v.contains(x) implies key_listed(stats@, queues@, filter, now, x) by {
                let j = choose|j: int| 0 <= j < now_v.len() && now_v[j] == x;
                if j < before.len() {
                    assert(before[j] == x);
                    assert(before.contains(x));
                }
            }
        }
        k = k + 1;
    }
    proof {
        let rv = views_of(r@);
        assert forall|x: Seq<char>| key_listed(stats@, queues@, filter, now, x) implies rv.contains(x) by {
            if exists|i: int| 0 <= i < cv.len() && #[trigger] cv[i].0 == x {
                let i = choose|i: int| 0 <= i < cv.len() && #[trigger] cv[i].0 == x;
                assert(base[i] == x);
                assert(base.contains(x));
            } else {
                assert(has_positive_snapshot(stats@, queues@, filter, x, now));
                lemma_snapshot_value_source(stats@, queues@, filter, x, "enqueued_at"@);
                let i = choose|i: int| 0 <= i < stats@.len() && #[trigger] kept_stat(stats@[i], queues@, filter) == Some((x, "enqueued_at"@));
                assert(kept_stat(stats@[i], queues@, filter) == Some((x, "enqueued_at"@)));
            }
        }
    }
    r
}

/// A queue that gets an entry: the queue of some listed key.
pub open spec fn listed_base(stats: Seq<(String, i64)>, queues: Seq<String>, filter: bool, now: i64, b: Seq<char>) -> bool {
    exists|k: Seq<char>| #[trigger] key_listed(stats, queues, filter, now, k) && queue_base(k) == b
}

/// A dynamic sub-queue of queue `b` that gets an entry: named by some
/// listed key of `b`.
pub open spec fn listed_suffix(
    stats: Seq<(String, i64)>,
    queues: Seq<String>,
    filter: bool,
    now: i64,
    b: Seq<char>,
    s: Seq<char>,
) -> bool {
    exists|k: Seq<char>| #[trigger] key_listed(stats, queues, filter, now, k) && queue_base(k) == b && queue_suffix(k) == Some(s)
}

/// The suffixes of a list of dynamic sub-queue counters.
pub open spec fn suffix_views(v: Seq<DynamicQueueCounts>) -> Seq<Seq<char>> {
    v.map_values(|d: DynamicQueueCounts| d.suffix@)
}

/// The keys of a list of queue counters.
pub open spec fn key_views(v: Seq<QueueCounts>) -> Seq<Seq<char>> {
    v.map_values(|q: QueueCounts| q.key@)
}

/// The counters of sub-queue `d` of queue `base` are the sums of its
/// counted values.
pub open spec fn dynamic_counts_agree(d: DynamicQueueCounts, cv: Seq<(Seq<char>, Seq<char>, i64)>, base: Seq<char>) -> bool {
    let keep = keep_for(base, Some(d.suffix@));
    &&& d.processed == stat_sum(cv, keep, "processed"@)
    &&& d.succeeded == stat_sum(cv, keep, "succeeded"@)
    &&& d.panicked == stat_sum(cv, keep, "panicked"@)
    &&& d.failed == stat_sum(cv, keep, "failed"@)
}

/// The entry of one queue: its counters summed over all its keys, and its
/// listed sub-queues in order, each with its own sums.
pub open spec fn queue_counts_agree(q: QueueCounts, stats: Seq<(String, i64)>, queues: Seq<String>, filter: bool, now: i64) -> bool {
    let cv = counted_values(stats, queues, filter);
    let keep = keep_for(q.key@, None);
    &&& q.processed == stat_sum(cv, keep, "processed"@)
    &&& q.succeeded == stat_sum(cv, keep, "succeeded"@)
    &&& q.panicked == stat_sum(cv, keep, "panicked"@)
    &&& q.failed == stat_sum(cv, keep, "failed"@)
    &&& strictly_sorted(suffix_views(q.queues@))
    &&& forall|s: Seq<char>| suffix_views(q.queues@).contains(s) <==> listed_suffix(stats, queues, filter, now, q.key@, s)
    &&& forall|j: int| 0 <= j < q.queues@.len() ==> dynamic_counts_agree(#[trigger] q.queues@[j], cv, q.key@)
}

/// The queues of the given keys, without repeats.
fn bases_of(keys: &Vec<String>) -> (r: Vec<String>)
    ensures
        views_of(r@).no_duplicates(),
        forall|b: Seq<char>| views_of(r@).contains(b) <==> exists|j: int| 0 <= j < keys@.len() && queue_base(#[trigger] keys@[j]@) == b,
{
    let mut raw: Vec<String> = Vec::new();
    let mut i: usize = 0;
    while i < keys.len()
        invariant
            i <= keys@.len(),
            views_of(raw@) == Seq::new(i as nat, |j: int| queue_base(keys@[j]@)),
        decreases keys@.len() - i,
    {
        let ghost before = views_of(raw@);
        let qb = queue_base_exec(keys[i].as_str());
        raw.push(qb);
        assert(views_of(raw@) =~= before.push(qb@));
        assert(views_of(raw@) =~= Seq::new((i + 1) as nat, |j: int| queue_base(keys@[j]@)));
        i = i + 1;
    }
    let r = crate::queue_stats::dedup_strings(&raw);
    assert forall|b: Seq<char>| views_of(r@).contains(b) <==> exists|j: int| 0 <= j < keys@.len() && queue_base(#[trigger] keys@[j]@) == b by {
        if views_of(raw@).contains(b) {
            let j = choose|j: int| 0 <= j < views_of(raw@).len() && views_of(raw@)[j] == b;
            assert(queue_base(keys@[j]@) == b);
        }
        if exists|j: int| 0 <= j < keys@.len() && queue_base(#[trigger] keys@[j]@) == b {
            let j = choose|j: int| 0 <= j < keys@.len() && queue_base(#[trigger] keys@[j]@) == b;
            assert(views_of(raw@)[j] == b);
        }
    }
    r
}

/// The sub-queues named by the keys of queue `base`, without repeats.
fn suffixes_of(keys: &Vec<String>, base: &str) -> (r: Vec<String>)
    ensures
        views_of(r@).no_duplicates(),
        forall|s: Seq<char>| views_of(r@).contains(s) <==> exists|j: int| 0 <= j < keys@.len()
            && queue_base(#[trigger] keys@[j]@) == base@ && queue_suffix(keys@[j]@) == Some(s),
{
    let mut raw: Vec<String> = Vec::new();
    let mut i: usize = 0;
    while i < keys.len()
        invariant
            i <= keys@.len(),
            forall|s: Seq<char>| views_of(raw@).contains(s) <==> exists|j: int| 0 <= j < i
                && queue_base(#[trigger] keys@[j]@) == base@ && queue_suffix(keys@[j]@) == Some(s),
        decreases keys@.len() - i,
    {
        let ghost before = views_of(raw@);
        let kb = queue_base_exec(keys[i].as_str());
        if str_eq(kb.as_str(), base) {
            match queue_suffix_exec(keys[i].as_str()) {
                Some(sfx) => {
                    raw.push(sfx);
                },
                None => {},
            }
        }
        proof {
            let now_v = views_of(raw@);
            assert forall|s: Seq<char>| now_v.contains(s) <==> exists|j: int| 0 <= j < i + 1
                && queue_base(#[trigger] keys@[j]@) == base@ && queue_suffix(keys@[j]@) == Some(s) by {
                if now_v.contains(s) {
                    let p = choose|p: int| 0 <= p < now_v.len() && now_v[p] == s;
                    if p < before.len() {
                        assert(before[p] == s);
                        assert(before.contains(s));
                    } else {
                        assert(queue_base(keys@[i as int]@) == base@);
                    }
                }
                if exists|j: int| 0 <= j < i + 1 && queue_base(#[trigger] keys@[j]@) == base@ && queue_suffix(keys@[j]@) == Some(s) {
                    let j = choose|j: int| 0 <= j < i + 1 && queue_base(#[trigger] keys@[j]@) == base@ && queue_suffix(keys@[j]@) == Some(s);
                    if j < i {
                        assert(before.contains(s));
                        let p = choose|p: int| 0 <= p < before.len() && before[p] == s;
                        assert(now_v[p] == s);
                    } else {
                        assert(now_v[before.len() as int] == s);
                    }
                }
            }
        }
        i = i + 1;
    }
    crate::queue_stats::dedup_strings(&raw)
}

/// Per-queue counters from the stats hash `stats` (field, value), kept to
/// the queues `queues` when `filter` is set: one entry per queue that has
/// counters, is listed in `queues`, or has a fresh non-zero queue-length
/// snapshot at `now`, in queue order, each with its dynamic sub-queues in
/// suffix order.
pub fn queue_counts(stats: &Vec<(String, i64)>, queues: &Vec<String>, filter: bool, now: i64) -> (r: Vec<QueueCounts>)
    requires
        counters_fit(stats@, queues@, filter),
    ensures
        strictly_sorted(key_views(r@)),
        forall|b: Seq<char>| key_views(r@).contains(b) <==> listed_base(stats@, queues@, filter, now, b),
        forall|i: int| 0 <= i < r@.len() ==> queue_counts_agree(#[trigger] r@[i], stats@, queues@, filter, now),
{
    let counted = counted_values_exec(stats, queues, filter);
    let ghost cv = counted_values(stats@, queues@, filter);
    let keys = candidate_keys(stats, queues, filter, now, &counted);
    let bases = sort_strings(bases_of(&keys));
    let mut r: Vec<QueueCounts> = Vec::new();
    let mut i: usize = 0;
    while i < bases.len()
        invariant
            i <= bases@.len(),
            cv == counted_values(stats@, queues@, filter),
            counted_view(counted@) == cv,
            counters_fit(stats@, queues@, filter),
            forall|x: Seq<char>| views_of(keys@).contains(x) <==> key_listed(stats@, queues@, filter, now, x),
            key_views(r@) == views_of(bases@).take(i as int),
            forall|j: int| 0 <= j < r@.len() ==> queue_counts_agree(#[trigger] r@[j], stats@, queues@, filter, now),
        decreases bases@.len() - i,
    {
        let base = bases[i].as_str();
        let sfx = sort_strings(suffixes_of(&keys, base));
        let mut dyn_counts: Vec<DynamicQueueCounts> = Vec::new();
        let mut k: usize = 0;
        while k < sfx.len()
            invariant
                k <= sfx@.len(),
                counted_view(counted@) == cv,
                cv == counted_values(stats@, queues@, filter),
                counters_fit(stats@, queues@, filter),
                suffix_views(dyn_counts@) == views_of(sfx@).take(k as int),
                forall|j: int| 0 <= j < dyn_counts@.len() ==> dynamic_counts_agree(#[trigger] dyn_counts@[j], cv, base@),
            decreases sfx@.len() - k,
        {
            let s = &sfx[k];
            proof {
                lemma_abs_stat_suffix(cv, base@, s@, "processed"@);
                lemma_abs_stat_suffix(cv, base@, s@, "succeeded"@);
                lemma_abs_stat_suffix(cv, base@, s@, "panicked"@);
                lemma_abs_stat_suffix(cv, base@, s@, "failed"@);
                assert(abs_stat_sum(cv, keep_for(base@, None), "processed"@) <= i64::MAX);
                assert(abs_stat_sum(cv, keep_for(base@, None), "succeeded"@) <= i64::MAX);
                assert(abs_stat_sum(cv, keep_for(base@, None), "panicked"@) <= i64::MAX);
                assert(abs_stat_sum(cv, keep_for(base@, None), "failed"@) <= i64::MAX);
            }
            let d = DynamicQueueCounts {
                suffix: s.clone(),
                processed: sum_stat(&counted, base, Some(s), "processed"),
                succeeded: sum_stat(&counted, base, Some(s), "succeeded"),
                panicked: sum_stat(&counted, base, Some(s), "panicked"),
                failed: sum_stat(&counted, base, Some(s), "failed"),
            };
            let ghost before = dyn_counts@;
            assert(d.suffix@ == views_of(sfx@)[k as int]);
            dyn_counts.push(d);
            assert(suffix_views(dyn_counts@) =~= suffix_views(before).push(d.suffix@));
            assert(views_of(sfx@).take(k + 1) =~= views_of(sfx@).take(k as int).push(views_of(sfx@)[k as int]));
            assert(suffix_views(dyn_counts@) =~= views_of(sfx@).take(k + 1));
            k = k + 1;
        }
        assert(views_of(sfx@).take(sfx@.len() as int) =~= views_of(sfx@));
        assert(abs_stat_sum(cv, keep_for(base@, None), "processed"@) <= i64::MAX);
        assert(abs_stat_sum(cv, keep_for(base@, None), "succeeded"@) <= i64::MAX);
        assert(abs_stat_sum(cv, keep_for(base@, None), "panicked"@) <= i64::MAX);
        assert(abs_stat_sum(cv, keep_for(base@, None), "failed"@) <= i64::MAX);
        let q = QueueCounts {
            key: bases[i].clone(),
            processed: sum_stat(&counted, base, None, "processed"),
            succeeded: sum_stat(&counted, base, None, "succeeded"),
            panicked: sum_stat(&counted, base, None, "panicked"),
            failed: sum_stat(&counted, base, None, "failed"),
            queues: dyn_counts,
        };
        proof {
            assert forall|s: Seq<char>| suffix_views(q.queues@).contains(s) <==> listed_suffix(stats@, queues@, filter, now, q.key@, s) by {
                if suffix_views(q.queues@).contains(s) {
                    let j = choose|j: int| 0 <= j < keys@.len() && queue_base(#[trigger] keys@[j]@) == base@ && queue_suffix(keys@[j]@) == Some(s);
                    assert(views_of(keys@)[j] == keys@[j]@);
                    assert(views_of(keys@).contains(keys@[j]@));
                    assert(key_listed(stats@, queues@, filter, now, keys@[j]@));
                }
                if listed_suffix(stats@, queues@, filter, now, q.key@, s) {
                    let kk = choose|kk: Seq<char>| #[trigger] key_listed(stats@, queues@, filter, now, kk) && queue_base(kk) == base@ && queue_suffix(kk) == Some(s);
                    assert(views_of(keys@).contains(kk));
                    let j = choose|j: int| 0 <= j < views_of(keys@).len() && views_of(keys@)[j] == kk;
                    assert(keys@[j]@ == kk);
                }
            }
        }
        let ghost rb = r@;
        assert(q.key@ == views_of(bases@)[i as int]);
        r.push(q);
        assert(key_views(r@) =~= key_views(rb).push(q.key@));
        assert(views_of(bases@).take(i + 1) =~= views_of(bases@).take(i as int).push(views_of(bases@)[i as int]));
        assert(key_views(r@) =~= views_of(bases@).take(i + 1));
        i = i + 1;
    }
    proof {
        assert(views_of(bases@).take(bases@.len() as int) =~= views_of(bases@));
        assert forall|b: Seq<char>| key_views(r@).contains(b) <==> listed_base(stats@, queues@, filter, now, b) by {
            if key_views(r@).contains(b) {
                let j = choose|j: int| 0 <= j < keys@.len() && queue_base(#[trigger] keys@[j]@) == b;
                assert(views_of(keys@)[j] == keys@[j]@);
                assert(views_of(keys@).contains(keys@[j]@));
                assert(key_listed(stats@, queues@, filter, now, keys@[j]@));
            }
            if listed_base(stats@, queues@, filter, now, b) {
                let kk = choose|kk: Seq<char>| #[trigger] key_listed(stats@, queues@, filter, now, kk) && queue_base(kk) == b;
                assert(views_of(keys@).contains(kk));
                let j = choose|j: int| 0 <= j < views_of(keys@).len() && views_of(keys@)[j] == kk;
                assert(keys@[j]@ == kk);
            }
        }
    }
    r
}

/// Counters of finished jobs of one queue, gathered in memory before they
/// are added to the stats hash.
#[derive(Debug, Clone, Copy, Default)]
pub struct QueueResultStats {
    pub processed: i64,
    pub succeeded: i64,
    pub panicked: i64,
    pub failed: i64,
}

/// `<queue>:<stat>`: the field of a counter in the stats hash.
pub open spec fn stat_field(queue: Seq<char>, stat: Seq<char>) -> Seq<char> {
    queue + seq![':'] + stat
}

/// The increment of one counter, when it is positive.
pub open spec fn counter_increment(queue: Seq<char>, stat: Seq<char>, value: i64) -> Seq<(Seq<char>, i64)> {
    if value > 0 { seq![(stat_field(queue, stat), value)] } else { Seq::empty() }
}

/// The increments of one queue's counters, in the order processed,
/// succeeded, panicked, failed; counters that are not positive are left
/// out.
pub open spec fn queue_increments(queue: Seq<char>, s: QueueResultStats) -> Seq<(Seq<char>, i64)> {
    counter_increment(queue, "processed"@, s.processed) + counter_increment(queue, "succeeded"@, s.succeeded)
        + counter_increment(queue, "panicked"@, s.panicked) + counter_increment(queue, "failed"@, s.failed)
}

/// The increments of all queues, queue by queue.
pub open spec fn result_increments(stats: Seq<(String, QueueResultStats)>) -> Seq<(Seq<char>, i64)>
    decreases stats.len(),
{
    if stats.len() == 0 {
        Seq::empty()
    } else {
        result_increments(stats.drop_last()) + queue_increments(stats.last().0@, stats.last().1)
    }
}

/// The texts of (field, value) pairs.
pub open spec fn field_views(v: Seq<(String, i64)>) -> Seq<(Seq<char>, i64)> {
    v.map_values(|e: (String, i64)| (e.0@, e.1))
}

fn push_increment(out: &mut Vec<(String, i64)>, queue: &str, stat: &str, value: i64)
    ensures
        field_views(final(out)@) == field_views(old(out)@) + counter_increment(queue@, stat@, value),
{
    if value > 0 {
        let mut v = chars_of(queue);
        v.push(':');
        crate::text::extend_chars(&mut v, stat);
        let field = crate::text::string_of(&v);
        assert(field@ == stat_field(queue@, stat@));
        let ghost before = field_views(out@);
        out.push((field, value));
        assert(field_views(out@) =~= before.push((stat_field(queue@, stat@), value)));
        assert(field_views(out@) =~= before + counter_increment(queue@, stat@, value));
    } else {
        assert(field_views(out@) =~= field_views(out@) + counter_increment(queue@, stat@, value));
    }
}

/// The stats-hash increments that flush per-queue result counters (see
/// `result_increments`).
pub fn result_stats_increments(stats: &Vec<(String, QueueResultStats)>) -> (r: Vec<(String, i64)>)
    ensures
        field_views(r@) == result_increments(stats@),
{
    let mut r: Vec<(String, i64)> = Vec::new();
    let mut k: usize = 0;
    while k < stats.len()
        invariant
            k <= stats@.len(),
            field_views(r@) == result_increments(stats@.take(k as int)),
        decreases stats@.len() - k,
    {
        let ghost before = field_views(r@);
        let q = stats[k].0.as_str();
        let s = stats[k].1;
        push_increment(&mut r, q, "processed", s.processed);
        push_increment(&mut r, q, "succeeded", s.succeeded);
        push_increment(&mut r, q, "panicked", s.panicked);
        push_increment(&mut r, q, "failed", s.failed);
        proof {
            assert(stats@.take(k + 1).drop_last() =~= stats@.take(k as int));
            assert(stats@.take(k + 1).last() == stats@[k as int]);
            assert(field_views(r@) =~= before + queue_increments(stats@[k as int].0@, stats@[k as int].1));
        }
        k = k + 1;
    }
    assert(stats@.take(stats@.len() as int) =~= stats@);
    r
}

/// Sum of queue lengths.
pub open spec fn length_sum(v: Seq<usize>) -> int
    decreases v.len(),
{
    if v.len() == 0 { 0 } else { length_sum(v.drop_last()) + v.last() }
}

/// The length of a queue with dynamic sub-queues: the sum of theirs.
pub fn total_enqueued(lengths: &Vec<usize>) -> (r: usize)
    requires
        length_sum(lengths@) <= usize::MAX,
    ensures
        r == length_sum(lengths@),
{
    let mut acc: usize = 0;
    let mut k: usize = 0;
    while k < lengths.len()
        invariant
            k <= lengths@.len(),
            length_sum(lengths@) <= usize::MAX,
            acc == length_sum(lengths@.take(k as int)),
        decreases lengths@.len() - k,
    {
        proof {
            assert(lengths@.take(k + 1).drop_last() =~= lengths@.take(k as int));
            lemma_length_sum_prefix(lengths@, k + 1);
        }
        acc = acc + lengths[k];
        k = k + 1;
    }
    assert(lengths@.take(lengths@.len() as int) =~= lengths@);
    acc
}

proof fn lemma_length_sum_prefix(v: Seq<usize>, k: int)
    requires
        0 <= k <= v.len(),
    ensures
        0 <= length_sum(v.take(k)) <= length_sum(v),
    decreases v.len() - k,
{
    if k < v.len() {
        lemma_length_sum_prefix(v, k + 1);
        assert(v.take(k + 1).drop_last() =~= v.take(k));
    } else {
        assert(v.take(k) =~= v);
    }
    lemma_length_sum_nonneg(v.take(k));
}

proof fn lemma_length_sum_nonneg(v: Seq<usize>)
    ensures
        length_sum(v) >= 0,
    decreases v.len(),
{
    if v.len() > 0 {
        lemma_length_sum_nonneg(v.drop_last());
    }
}

/// The queue length shown for a queue: its fresh snapshot when it has one,
/// otherwise the length read from the queue itself.
pub fn shown_length(snapshot: Option<usize>, live: usize) -> (r: usize)
    ensures
        r == match snapshot {
            Some(n) => n,
            None => live,
        },
{
    match snapshot {
        Some(n) => n,
        None => live,
    }
}

/// Each listed queue once, in `String` order (the queues whose lengths are
/// refreshed, or whose statistics are shown for a set of patterns).
pub fn sorted_unique_queues(queues: &Vec<String>) -> (r: Vec<String>)
    ensures
        strictly_sorted(views_of(r@)),
        forall|x: Seq<char>| views_of(r@).contains(x) <==> views_of(queues@).contains(x),
{
    let unique = dedup_strings(queues);
    sort_strings(unique)
}

/// A write of the queue-length refresh.
#[derive(Debug)]
pub enum StatsWrite {
    /// Set `field` of hash `key` to `value`.
    HashSet { key: String, field: String, value: i64 },
    /// Let `key` expire after `seconds`.
    Expire { key: String, seconds: i64 },
}

/// The text of a write.
pub enum StatsWriteView {
    HashSet(Seq<char>, Seq<char>, i64),
    Expire(Seq<char>, i64),
}

pub open spec fn stats_write_view(w: StatsWrite) -> StatsWriteView {
    match w {
        StatsWrite::HashSet { key, field, value } => StatsWriteView::HashSet(key@, field@, value),
        StatsWrite::Expire { key, seconds } => StatsWriteView::Expire(key@, seconds),
    }
}

pub open spec fn stats_write_views(v: Seq<StatsWrite>) -> Seq<StatsWriteView> {
    v.map_values(|w: StatsWrite| stats_write_view(w))
}

/// The writes for one measured queue: its length and the time of the
/// measurement into the stats hash, and its length into the minute's
/// queue-length hash.
pub open spec fn length_writes(stats_key: Seq<char>, length_key: Seq<char>, queue: Seq<char>, length: i64, refreshed_at: i64) -> Seq<StatsWriteView> {
    seq![
        StatsWriteView::HashSet(stats_key, stat_field(queue, "enqueued"@), length),
        StatsWriteView::HashSet(stats_key, stat_field(queue, "enqueued_at"@), refreshed_at),
        StatsWriteView::HashSet(length_key, queue, length),
    ]
}

/// The writes of a refresh: those of every measured queue, in order, then
/// an expiry on the minute's queue-length hash.
pub open spec fn refresh_writes(
    stats_key: Seq<char>,
    length_key: Seq<char>,
    lengths: Seq<(String, i64)>,
    refreshed_at: i64,
) -> Seq<StatsWriteView>
    decreases lengths.len(),
{
    if lengths.len() == 0 {
        seq![StatsWriteView::Expire(length_key, crate::metrics::METRICS_RETENTION_SECS)]
    } else {
        let prev = refresh_writes(stats_key, length_key, lengths.drop_last(), refreshed_at);
        prev.take(prev.len() - 1) + length_writes(stats_key, length_key, lengths.last().0@, lengths.last().1, refreshed_at)
            + seq![StatsWriteView::Expire(length_key, crate::metrics::METRICS_RETENTION_SECS)]
    }
}

fn field_of(queue: &str, stat: &str) -> (r: String)
    ensures
        r@ == stat_field(queue@, stat@),
{
    let mut v = chars_of(queue);
    v.push(':');
    crate::text::extend_chars(&mut v, stat);
    crate::text::string_of(&v)
}

/// The writes that store measured queue lengths (see `refresh_writes`),
/// under the stats hash `stats_key` and the queue-length hash of the
/// minute of `refreshed_at`.
pub fn queue_length_writes(stats_key: &str, metrics_prefix: &str, lengths: &Vec<(String, i64)>, refreshed_at: i64)
    -> (r: Vec<StatsWrite>)
    ensures
        stats_write_views(r@) == refresh_writes(
            stats_key@,
            crate::storage::minute_key(metrics_prefix@, "q"@, (refreshed_at / 60) as i64),
            lengths@,
            refreshed_at,
        ),
{
    let minute = crate::metrics::minute_of(refreshed_at);
    let length_key = crate::storage::metrics_queue_length_key(metrics_prefix, minute);
    let ghost lk = length_key@;
    let mut r: Vec<StatsWrite> = Vec::new();
    let mut k: usize = 0;
    while k < lengths.len()
        invariant
            k <= lengths@.len(),
            lk == length_key@,
            stats_write_views(r@) + seq![StatsWriteView::Expire(lk, crate::metrics::METRICS_RETENTION_SECS)]
                == refresh_writes(stats_key@, lk, lengths@.take(k as int), refreshed_at),
        decreases lengths@.len() - k,
    {
        let ghost before = stats_write_views(r@);
        let q = lengths[k].0.as_str();
        let c = lengths[k].1;
        r.push(StatsWrite::HashSet { key: stats_key.to_string(), field: field_of(q, "enqueued"), value: c });
        r.push(StatsWrite::HashSet { key: stats_key.to_string(), field: field_of(q, "enqueued_at"), value: refreshed_at });
        r.push(StatsWrite::HashSet { key: length_key.clone(), field: q.to_string(), value: c });
        proof {
            let tk = lengths@.take(k + 1);
            assert(tk.drop_last() =~= lengths@.take(k as int));
            assert(tk.last() == lengths@[k as int]);
            let prev = refresh_writes(stats_key@, lk, lengths@.take(k as int), refreshed_at);
            assert(prev.take(prev.len() - 1) =~= before);
            assert(stats_write_views(r@) =~= before + length_writes(stats_key@, lk, q@, c, refreshed_at));
        }
        k = k + 1;
    }
    assert(lengths@.take(lengths@.len() as int) =~= lengths@);
    let ghost before = stats_write_views(r@);
    r.push(StatsWrite::Expire { key: length_key, seconds: crate::metrics::METRICS_RETENTION_SECS });
    assert(stats_write_views(r@) =~= before + seq![StatsWriteView::Expire(lk, crate::metrics::METRICS_RETENTION_SECS)]);
    r
}

/// A stat name without `:`, so that a field ending in it splits back
/// into its queue and stat.
pub open spec fn colon_free(st: Seq<char>) -> bool {
    forall|j: int| 0 <= j < st.len() ==> st[j] != ':'
}

/// A field `<queue>:<stat>` splits back into its queue and stat when the
/// stat has no `:`.
pub proof fn lemma_stat_field_parts(q: Seq<char>, st: Seq<char>)
    requires
        colon_free(st),
    ensures
        stat_key_parts(stat_field(q, st)) == Some((q, st)),
{
    let f = stat_field(q, st);
    let n = q.len() as int;
    assert(f[n] == ':');
    assert forall|j: int| n < j < f.len() implies f[j] != ':' by {
        assert(f[j] == st[j - n - 1]);
    }
    assert(exists|i: int| 0 <= i < f.len() && f[i] == ':' && forall|j: int| i < j < f.len() ==> f[j] != ':');
    let i = choose|i: int| 0 <= i < f.len() && f[i] == ':' && forall|j: int| i < j < f.len() ==> f[j] != ':';
    if i < n {
        assert(f[n] != ':');
    } else if i > n {
        assert(f[i] == st[i - n - 1]);
    }
    assert(f.take(n) =~= q);
    assert(f.skip(n + 1) =~= st);
}

proof fn lemma_counter_names()
    ensures
        colon_free("processed"@),
        colon_free("succeeded"@),
        colon_free("panicked"@),
        colon_free("failed"@),
        colon_free("enqueued"@),
        colon_free("enqueued_at"@),
        !is_snapshot_stat("processed"@),
        !is_snapshot_stat("succeeded"@),
        !is_snapshot_stat("panicked"@),
        !is_snapshot_stat("failed"@),
        "enqueued"@ != "enqueued_at"@,
        "processed"@ != "succeeded"@,
        "processed"@ != "panicked"@,
        "processed"@ != "failed"@,
        "succeeded"@ != "panicked"@,
        "succeeded"@ != "failed"@,
        "panicked"@ != "failed"@,
{
    reveal_strlit("processed");
    reveal_strlit("succeeded");
    reveal_strlit("panicked");
    reveal_strlit("failed");
    reveal_strlit("enqueued");
    reveal_strlit("enqueued_at");
    assert("enqueued"@.len() != "enqueued_at"@.len());
    assert("processed"@[1] != "panicked"@[1]);
    assert("processed"@[0] != "succeeded"@[0]);
    assert("processed"@[0] != "failed"@[0]);
    assert("succeeded"@[0] != "panicked"@[0]);
    assert("succeeded"@[0] != "failed"@[0]);
    assert("panicked"@[0] != "failed"@[0]);
    assert("processed"@ != "enqueued"@ && "processed"@ != "enqueued_at"@) by {
        assert("processed"@[0] != "enqueued"@[0]);
        assert("processed"@[0] != "enqueued_at"@[0]);
    }
    assert("succeeded"@ != "enqueued"@ && "succeeded"@ != "enqueued_at"@) by {
        assert("succeeded"@[0] != "enqueued"@[0]);
        assert("succeeded"@[0] != "enqueued_at"@[0]);
    }
    assert("panicked"@ != "enqueued"@ && "panicked"@ != "enqueued_at"@) by {
        assert("panicked"@[0] != "enqueued"@[0]);
        assert("panicked"@[0] != "enqueued_at"@[0]);
    }
    assert("failed"@ != "enqueued"@ && "failed"@ != "enqueued_at"@) by {
        assert("failed"@[0] != "enqueued"@[0]);
        assert("failed"@[0] != "enqueued_at"@[0]);
    }
}

/// The value of counter `stat` in a queue's result counters (zero for a
/// name that is not one of them).
pub open spec fn result_value(s: QueueResultStats, stat: Seq<char>) -> i64 {
    if stat == "processed"@ {
        s.processed
    } else if stat == "succeeded"@ {
        s.succeeded
    } else if stat == "panicked"@ {
        s.panicked
    } else if stat == "failed"@ {
        s.failed
    } else {
        0
    }
}

/// Sum of the positive values of counter `stat` over the queues that
/// `keep` keeps.
pub open spec fn flushed_total(stats: Seq<(String, QueueResultStats)>, keep: spec_fn(Seq<char>) -> bool, stat: Seq<char>) -> int
    decreases stats.len(),
{
    if stats.len() == 0 {
        0
    } else {
        let v = result_value(stats.last().1, stat);
        flushed_total(stats.drop_last(), keep, stat) + if keep(stats.last().0@) && v > 0 { v as int } else { 0 }
    }
}

/// Sum of the values of fields `<queue>:<stat>` over the queues that `keep`
/// keeps.
pub open spec fn field_sum(e: Seq<(Seq<char>, i64)>, keep: spec_fn(Seq<char>) -> bool, stat: Seq<char>) -> int
    decreases e.len(),
{
    if e.len() == 0 {
        0
    } else {
        field_sum(e.drop_last(), keep, stat) + match stat_key_parts(e.last().0) {
            Some((q, st)) => if keep(q) && st == stat && !is_snapshot_stat(st) { e.last().1 as int } else { 0 },
            None => 0,
        }
    }
}

proof fn lemma_seeds_sum(queues: Seq<String>, keep: spec_fn(Seq<char>) -> bool, stat: Seq<char>)
    ensures
        stat_sum(queues.map_values(|q: String| (q@, "processed"@, 0i64)), keep, stat) == 0,
    decreases queues.len(),
{
    if queues.len() > 0 {
        lemma_seeds_sum(queues.drop_last(), keep, stat);
        assert(queues.map_values(|q: String| (q@, "processed"@, 0i64)).drop_last() =~= queues.drop_last().map_values(
            |q: String| (q@, "processed"@, 0i64),
        ));
    }
}

proof fn lemma_counted_sum(h: Seq<(String, i64)>, queues: Seq<String>, keep: spec_fn(Seq<char>) -> bool, stat: Seq<char>)
    ensures
        stat_sum(counted_values(h, queues, false), keep, stat) == field_sum(field_views(h), keep, stat),
    decreases h.len(),
{
    if h.len() == 0 {
        lemma_seeds_sum(queues, keep, stat);
    } else {
        lemma_counted_sum(h.drop_last(), queues, keep, stat);
        assert(field_views(h).drop_last() =~= field_views(h.drop_last()));
        assert(field_views(h).last() == (h.last().0@, h.last().1));
        let prev = counted_values(h.drop_last(), queues, false);
        match kept_stat(h.last(), queues, false) {
            None => {},
            Some((q, st)) => {
                if !is_snapshot_stat(st) {
                    assert(prev.push((q, st, h.last().1)).drop_last() =~= prev);
                }
            },
        }
    }
}

proof fn lemma_field_sum_append(a: Seq<(Seq<char>, i64)>, b: Seq<(Seq<char>, i64)>, keep: spec_fn(Seq<char>) -> bool, stat: Seq<char>)
    ensures
        field_sum(a + b, keep, stat) == field_sum(a, keep, stat) + field_sum(b, keep, stat),
    decreases b.len(),
{
    if b.len() > 0 {
        lemma_field_sum_append(a, b.drop_last(), keep, stat);
        assert((a + b).drop_last() =~= a + b.drop_last());
    }
}

proof fn lemma_increment_sum(q: Seq<char>, st: Seq<char>, v: i64, keep: spec_fn(Seq<char>) -> bool, stat: Seq<char>)
    requires
        colon_free(st),
        !is_snapshot_stat(st),
    ensures
        field_sum(counter_increment(q, st, v), keep, stat) == if keep(q) && st == stat && v > 0 { v as int } else { 0 },
{
    assert(field_sum(Seq::<(Seq<char>, i64)>::empty(), keep, stat) == 0);
    if v > 0 {
        lemma_stat_field_parts(q, st);
        assert(counter_increment(q, st, v).drop_last() =~= Seq::<(Seq<char>, i64)>::empty());
        assert(counter_increment(q, st, v).last() == (stat_field(q, st), v));
    } else {
        assert(counter_increment(q, st, v) =~= Seq::<(Seq<char>, i64)>::empty());
    }
}

proof fn lemma_result_increments_sum(stats: Seq<(String, QueueResultStats)>, keep: spec_fn(Seq<char>) -> bool, stat: Seq<char>)
    requires
        is_counter_stat(stat),
    ensures
        field_sum(result_increments(stats), keep, stat) == flushed_total(stats, keep, stat),
    decreases stats.len(),
{
    if stats.len() > 0 {
        lemma_counter_names();
        let q = stats.last().0@;
        let s = stats.last().1;
        lemma_result_increments_sum(stats.drop_last(), keep, stat);
        let a = counter_increment(q, "processed"@, s.processed);
        let b = counter_increment(q, "succeeded"@, s.succeeded);
        let c = counter_increment(q, "panicked"@, s.panicked);
        let d = counter_increment(q, "failed"@, s.failed);
        lemma_field_sum_append(result_increments(stats.drop_last()), a + b + c + d, keep, stat);
        lemma_field_sum_append(a + b + c, d, keep, stat);
        lemma_field_sum_append(a + b, c, keep, stat);
        lemma_field_sum_append(a, b, keep, stat);
        lemma_increment_sum(q, "processed"@, s.processed, keep, stat);
        lemma_increment_sum(q, "succeeded"@, s.succeeded, keep, stat);
        lemma_increment_sum(q, "panicked"@, s.panicked, keep, stat);
        lemma_increment_sum(q, "failed"@, s.failed, keep, stat);
    }
}

/// Flushed result counters are read back: once a stats hash holds what it
/// held before (`prior`) followed by the increments that flush the
/// per-queue counters `stats`, the counter `stat` that the per-queue counts
/// give for queue `base` (or for its sub-queue `suffix`) is the one `prior`
/// gave plus the sum of the positive values of that counter over the
/// flushed queues of `base` (or of that sub-queue).
pub proof fn lemma_flushed_counts_read_back(
    stats: Seq<(String, QueueResultStats)>,
    prior: Seq<(String, i64)>,
    hash: Seq<(String, i64)>,
    queues: Seq<String>,
    base: Seq<char>,
    suffix: Option<Seq<char>>,
    stat: Seq<char>,
)
    requires
        field_views(hash) == field_views(prior) + result_increments(stats),
        is_counter_stat(stat),
    ensures
        stat_sum(counted_values(hash, queues, false), keep_for(base, suffix), stat) == stat_sum(
            counted_values(prior, queues, false),
            keep_for(base, suffix),
            stat,
        ) + flushed_total(stats, keep_for(base, suffix), stat),
{
    lemma_counted_sum(hash, queues, keep_for(base, suffix), stat);
    lemma_counted_sum(prior, queues, keep_for(base, suffix), stat);
    lemma_field_sum_append(field_views(prior), result_increments(stats), keep_for(base, suffix), stat);
    lemma_result_increments_sum(stats, keep_for(base, suffix), stat);
}

/// The fields that hash `key` is set to by `writes`, in order.
pub open spec fn hash_sets(writes: Seq<StatsWriteView>, key: Seq<char>) -> Seq<(Seq<char>, i64)>
    decreases writes.len(),
{
    if writes.len() == 0 {
        Seq::empty()
    } else {
        hash_sets(writes.drop_last(), key) + match writes.last() {
            StatsWriteView::HashSet(k, f, v) => if k == key { seq![(f, v)] } else { Seq::empty() },
            StatsWriteView::Expire(_, _) => Seq::empty(),
        }
    }
}

/// What a refresh of `lengths` at `refreshed_at` sets in the stats hash:
/// for each queue its length, then the time of the measurement.
pub open spec fn snapshot_entries(lengths: Seq<(String, i64)>, refreshed_at: i64) -> Seq<(Seq<char>, i64)>
    decreases lengths.len(),
{
    if lengths.len() == 0 {
        Seq::empty()
    } else {
        let q = lengths.last().0@;
        snapshot_entries(lengths.drop_last(), refreshed_at) + seq![
            (stat_field(q, "enqueued"@), lengths.last().1),
            (stat_field(q, "enqueued_at"@), refreshed_at),
        ]
    }
}

proof fn lemma_hash_sets_append(a: Seq<StatsWriteView>, b: Seq<StatsWriteView>, key: Seq<char>)
    ensures
        hash_sets(a + b, key) == hash_sets(a, key) + hash_sets(b, key),
    decreases b.len(),
{
    if b.len() == 0 {
        assert(a + b =~= a);
        assert(hash_sets(a, key) + hash_sets(b, key) =~= hash_sets(a, key));
    } else {
        lemma_hash_sets_append(a, b.drop_last(), key);
        assert((a + b).drop_last() =~= a + b.drop_last());
        assert((a + b).last() == b.last());
        assert(hash_sets(a, key) + hash_sets(b.drop_last(), key) + match b.last() {
            StatsWriteView::HashSet(k, f, v) => if k == key { seq![(f, v)] } else { Seq::<(Seq<char>, i64)>::empty() },
            StatsWriteView::Expire(_, _) => Seq::<(Seq<char>, i64)>::empty(),
        } =~= hash_sets(a, key) + hash_sets(b, key));
    }
}

proof fn lemma_refresh_sets(stats_key: Seq<char>, length_key: Seq<char>, lengths: Seq<(String, i64)>, refreshed_at: i64)
    requires
        stats_key != length_key,
    ensures
        hash_sets(refresh_writes(stats_key, length_key, lengths, refreshed_at), stats_key) == snapshot_entries(lengths, refreshed_at),
        refresh_writes(stats_key, length_key, lengths, refreshed_at).len() >= 1,
        refresh_writes(stats_key, length_key, lengths, refreshed_at).last() == StatsWriteView::Expire(
            length_key,
            crate::metrics::METRICS_RETENTION_SECS,
        ),
    decreases lengths.len(),
{
    let ex = seq![StatsWriteView::Expire(length_key, crate::metrics::METRICS_RETENTION_SECS)];
    assert(hash_sets(ex, stats_key) =~= Seq::<(Seq<char>, i64)>::empty()) by {
        reveal_with_fuel(hash_sets, 2);
        assert(ex.drop_last() =~= Seq::<StatsWriteView>::empty());
    }
    if lengths.len() == 0 {
    } else {
        let prev = refresh_writes(stats_key, length_key, lengths.drop_last(), refreshed_at);
        lemma_refresh_sets(stats_key, length_key, lengths.drop_last(), refreshed_at);
        let body = prev.take(prev.len() - 1);
        assert(prev =~= body + ex);
        lemma_hash_sets_append(body, ex, stats_key);
        let q = lengths.last().0@;
        let lw = length_writes(stats_key, length_key, q, lengths.last().1, refreshed_at);
        lemma_hash_sets_append(body, lw, stats_key);
        lemma_hash_sets_append(body + lw, ex, stats_key);
        assert(hash_sets(lw, stats_key) =~= seq![
            (stat_field(q, "enqueued"@), lengths.last().1),
            (stat_field(q, "enqueued_at"@), refreshed_at),
        ]) by {
            reveal_with_fuel(hash_sets, 4);
            assert(lw.drop_last().drop_last().drop_last() =~= Seq::<StatsWriteView>::empty());
            assert(lw.drop_last().drop_last() =~= seq![lw[0]]);
            assert(lw.drop_last() =~= seq![lw[0], lw[1]]);
        }
    }
}

proof fn lemma_snapshot_read_back(
    h: Seq<(String, i64)>,
    after: Seq<(String, i64)>,
    lengths: Seq<(String, i64)>,
    refreshed_at: i64,
    i: int,
    queues: Seq<String>,
)
    requires
        field_views(after) == field_views(h) + snapshot_entries(lengths, refreshed_at),
        0 <= i < lengths.len(),
        forall|j: int| 0 <= j < lengths.len() && j != i ==> lengths[j].0@ != lengths[i].0@,
    ensures
        snapshot_value(after, queues, false, lengths[i].0@, "enqueued"@) == Some(lengths[i].1),
        snapshot_value(after, queues, false, lengths[i].0@, "enqueued_at"@) == Some(refreshed_at),
    decreases lengths.len(),
{
    lemma_counter_names();
    let n = lengths.len();
    let q = lengths[i].0@;
    let last = lengths.last();
    let m = after.len();
    assert(field_views(after).len() == after.len());
    assert(m == h.len() + snapshot_entries(lengths, refreshed_at).len());
    lemma_snapshot_entries_len(lengths, refreshed_at);
    assert(field_views(after)[m - 1] == (stat_field(last.0@, "enqueued_at"@), refreshed_at));
    assert(field_views(after)[m - 2] == (stat_field(last.0@, "enqueued"@), last.1));
    assert(after[m - 1].0@ == stat_field(last.0@, "enqueued_at"@));
    assert(after[m - 2].0@ == stat_field(last.0@, "enqueued"@));
    lemma_stat_field_parts(last.0@, "enqueued_at"@);
    lemma_stat_field_parts(last.0@, "enqueued"@);
    let a1 = after.drop_last();
    assert(a1.last() == after[m - 2]);
    let a2 = a1.drop_last();
    if i == n - 1 {
        assert(lengths[i] == last);
        assert(kept_stat(after.last(), queues, false) == Some((q, "enqueued_at"@)));
        assert(kept_stat(a1.last(), queues, false) == Some((q, "enqueued"@)));
        assert(snapshot_value(a1, queues, false, q, "enqueued"@) == Some(a1.last().1));
        assert(snapshot_value(after, queues, false, q, "enqueued"@) == snapshot_value(a1, queues, false, q, "enqueued"@));
    } else {
        let ql = last.0@;
        assert(ql != q);
        assert(kept_stat(after.last(), queues, false) == Some((ql, "enqueued_at"@)));
        assert(kept_stat(a1.last(), queues, false) == Some((ql, "enqueued"@)));
        assert(field_views(a2) =~= field_views(h) + snapshot_entries(lengths.drop_last(), refreshed_at)) by {
            assert(field_views(a2) =~= field_views(after).take(m - 2));
        }
        assert forall|j: int| 0 <= j < lengths.drop_last().len() && j != i
            implies lengths.drop_last()[j].0@ != lengths.drop_last()[i].0@ by {
            assert(lengths.drop_last()[j] == lengths[j]);
        }
        assert(lengths.drop_last()[i] == lengths[i]);
        lemma_snapshot_read_back(h, a2, lengths.drop_last(), refreshed_at, i, queues);
        assert(snapshot_value(a1, queues, false, q, "enqueued"@) == snapshot_value(a2, queues, false, q, "enqueued"@));
        assert(snapshot_value(a1, queues, false, q, "enqueued_at"@) == snapshot_value(a2, queues, false, q, "enqueued_at"@));
        assert(snapshot_value(after, queues, false, q, "enqueued"@) == snapshot_value(a1, queues, false, q, "enqueued"@));
        assert(snapshot_value(after, queues, false, q, "enqueued_at"@) == snapshot_value(a1, queues, false, q, "enqueued_at"@));
    }
}

proof fn lemma_snapshot_entries_len(lengths: Seq<(String, i64)>, refreshed_at: i64)
    ensures
        snapshot_entries(lengths, refreshed_at).len() == 2 * lengths.len(),
        lengths.len() > 0 ==> snapshot_entries(lengths, refreshed_at).last() == (
            stat_field(lengths.last().0@, "enqueued_at"@),
            refreshed_at,
        ),
        lengths.len() > 0 ==> snapshot_entries(lengths, refreshed_at)[2 * lengths.len() - 2] == (
            stat_field(lengths.last().0@, "enqueued"@),
            lengths.last().1,
        ),
        lengths.len() > 0 ==> snapshot_entries(lengths, refreshed_at).take(2 * lengths.len() - 2)
            == snapshot_entries(lengths.drop_last(), refreshed_at),
    decreases lengths.len(),
{
    if lengths.len() > 0 {
        lemma_snapshot_entries_len(lengths.drop_last(), refreshed_at);
        let prev = snapshot_entries(lengths.drop_last(), refreshed_at);
        let q = lengths.last().0@;
        let tail = seq![(stat_field(q, "enqueued"@), lengths.last().1), (stat_field(q, "enqueued_at"@), refreshed_at)];
        assert((prev + tail).take(2 * lengths.len() - 2) =~= prev);
    }
}

/// A refresh is read back: once the stats hash `hash` has taken, after
/// whatever it held (`before`), the writes of a refresh of `lengths` at
/// `refreshed_at` (the stats hash being another key than the minute's
/// queue-length hash), the fresh length read at `now` for a queue measured
/// once in that refresh is the length written, while the measurement is
/// fresh.
pub proof fn lemma_refreshed_lengths_read_back(
    before: Seq<(String, i64)>,
    hash: Seq<(String, i64)>,
    stats_key: Seq<char>,
    length_key: Seq<char>,
    lengths: Seq<(String, i64)>,
    refreshed_at: i64,
    i: int,
    queues: Seq<String>,
    now: i64,
)
    requires
        stats_key != length_key,
        field_views(hash) == field_views(before) + hash_sets(refresh_writes(stats_key, length_key, lengths, refreshed_at), stats_key),
        0 <= i < lengths.len(),
        forall|j: int| 0 <= j < lengths.len() && j != i ==> lengths[j].0@ != lengths[i].0@,
    ensures
        fresh_snapshot(hash, queues, false, lengths[i].0@, now) == fresh_length(Some(lengths[i].1), Some(refreshed_at), now),
{
    lemma_refresh_sets(stats_key, length_key, lengths, refreshed_at);
    lemma_snapshot_read_back(before, hash, lengths, refreshed_at, i, queues);
}

/// Sum of the processed counters of the given queues.
pub open spec fn processed_sum(v: Seq<QueueCounts>) -> int
    decreases v.len(),
{
    if v.len() == 0 { 0 } else { processed_sum(v.drop_last()) + v.last().processed }
}

/// Sum of the failed counters of the given queues.
pub open spec fn failed_sum(v: Seq<QueueCounts>) -> int
    decreases v.len(),
{
    if v.len() == 0 { 0 } else { failed_sum(v.drop_last()) + v.last().failed }
}

/// The processed and failed totals over all queues, as the dashboard
/// shows them; `None` when a running total leaves the range of `i64`.
pub fn counter_totals(counts: &Vec<QueueCounts>) -> (r: Option<(i64, i64)>)
    ensures
        match r {
            Some((p, f)) => p == processed_sum(counts@) && f == failed_sum(counts@),
            None => exists|k: int| 0 <= k <= counts@.len() && !(i64::MIN <= #[trigger] processed_sum(counts@.take(k)) <= i64::MAX
                && i64::MIN <= failed_sum(counts@.take(k)) <= i64::MAX),
        },
{
    let mut p: i64 = 0;
    let mut f: i64 = 0;
    let mut k: usize = 0;
    while k < counts.len()
        invariant
            k <= counts@.len(),
            p == processed_sum(counts@.take(k as int)),
            f == failed_sum(counts@.take(k as int)),
        decreases counts@.len() - k,
    {
        proof {
            assert(counts@.take(k + 1).drop_last() =~= counts@.take(k as int));
            assert(counts@.take(k + 1).last() == counts@[k as int]);
        }
        match p.checked_add(counts[k].processed) {
            Some(np) => match f.checked_add(counts[k].failed) {
                Some(nf) => {
                    p = np;
                    f = nf;
                },
                None => {
                    assert(!(i64::MIN <= failed_sum(counts@.take(k + 1)) <= i64::MAX));
                    assert(processed_sum(counts@.take(k + 1)) == np);
                    return None;
                },
            },
            None => {
                assert(!(i64::MIN <= processed_sum(counts@.take(k + 1)) <= i64::MAX));
                return None;
            },
        }
        k = k + 1;
    }
    assert(counts@.take(counts@.len() as int) =~= counts@);
    Some((p, f))
}

/// A queue's counters over the rate window.
#[derive(Debug, Clone, Copy, Default)]
pub struct QueueCounterTotals {
    pub processed: u64,
    pub succeeded: u64,
    pub failed: u64,
}

/// The value of the first entry of `hash` whose field is `field`.
pub open spec fn hash_value<V>(hash: Seq<(String, V)>, field: Seq<char>) -> Option<V>
    decreases hash.len(),
{
    if hash.len() == 0 {
        None
    } else if hash[0].0@ == field {
        Some(hash[0].1)
    } else {
        hash_value(hash.drop_first(), field)
    }
}

/// The length of `queue` at the start of the rate window: its value in the
/// first queue-length hash, when that is a length (zero otherwise).
pub open spec fn window_start_length(length_hashes: Seq<Vec<(String, i64)>>, queue: Seq<char>) -> usize {
    if length_hashes.len() == 0 {
        0
    } else {
        match hash_value(length_hashes[0]@, queue) {
            Some(v) => if 0 <= v && v <= usize::MAX { v as usize } else { 0 },
            None => 0,
        }
    }
}

/// The counters of `queue` over the rate window (zero when it has none).
pub open spec fn window_counters(totals: Seq<(String, QueueCounterTotals)>, queue: Seq<char>) -> QueueCounterTotals {
    match hash_value(totals, queue) {
        Some(t) => t,
        None => QueueCounterTotals { processed: 0, succeeded: 0, failed: 0 },
    }
}

fn hash_value_exec<V: Copy>(hash: &Vec<(String, V)>, field: &str) -> (r: Option<V>)
    ensures
        r == hash_value(hash@, field@),
{
    let mut k: usize = 0;
    assert(hash@.skip(0) =~= hash@);
    while k < hash.len()
        invariant
            k <= hash@.len(),
            hash_value(hash@, field@) == hash_value(hash@.skip(k as int), field@),
        decreases hash@.len() - k,
    {
        let ghost rest = hash@.skip(k as int);
        assert(rest[0] == hash@[k as int]);
        assert(rest.drop_first() =~= hash@.skip(k + 1));
        if str_eq(hash[k].0.as_str(), field) {
            return Some(hash[k].1);
        }
        k = k + 1;
    }
    assert(hash@.skip(k as int).len() == 0);
    None
}

/// What the rate of a queue is computed from: its length at the start of
/// the rate window (from the first of `length_hashes`) and its counters
/// over the window (from `counter_totals`).
pub fn queue_rate_inputs(
    queue: &str,
    length_hashes: &Vec<Vec<(String, i64)>>,
    counter_totals: &Vec<(String, QueueCounterTotals)>,
) -> (r: (usize, QueueCounterTotals))
    ensures
        r.0 == window_start_length(length_hashes@, queue@),
        r.1 == window_counters(counter_totals@, queue@),
{
    let start: usize = if length_hashes.len() == 0 {
        0
    } else {
        match hash_value_exec(&length_hashes[0], queue) {
            Some(v) => if 0 <= v && v as u64 <= usize::MAX as u64 { v as usize } else { 0 },
            None => 0,
        }
    };
    let counters = match hash_value_exec(counter_totals, queue) {
        Some(t) => t,
        None => QueueCounterTotals { processed: 0, succeeded: 0, failed: 0 },
    };
    (start, counters)
}

} // verus!
