//! The catalog of what a configuration registered (workers, cron workers
//! and queues, each listed in name order) and the queues found that are
//! not watched yet.

use vstd::prelude::*;

use crate::registry::WorkerRegistry;
use crate::web::has_static_queue;
use crate::text::{bytes_less, lemma_bytes_lt_irreflexive, lemma_bytes_lt_transitive, sort_strings, str_eq, strictly_sorted,
    text_lt, utf8, views_of};

verus! {

/// An ordinary worker of the catalog.
#[derive(Debug)]
pub struct WorkerInfo {
    pub name: String,
}

/// A cron worker of the catalog: its name, schedule and queue.
#[derive(Debug)]
pub struct CronWorkerInfo {
    pub name: String,
    pub schedule: String,
    pub queue_key: String,
}

/// How a queue is throttled: at most `limit` jobs per `window_ms`.
#[derive(Debug, Clone, Copy)]
pub struct QueueThrottleInfo {
    pub window_ms: u64,
    pub limit: u64,
}

/// A queue of the catalog: its key (the prefix, for a dynamic queue),
/// whether it is dynamic, its concurrency and its throttle.
#[derive(Debug)]
pub struct QueueInfo {
    pub key: String,
    pub dynamic: bool,
    pub concurrency: usize,
    pub throttle: Option<QueueThrottleInfo>,
}

/// What a configuration registered: ordinary workers, cron workers and
/// queues, each list in name (key) order.
#[derive(Debug)]
pub struct Catalog {
    pub workers: Vec<WorkerInfo>,
    pub cron_workers: Vec<CronWorkerInfo>,
    pub queues: Vec<QueueInfo>,
}

/// Items ordered by name: no item comes after one whose name is larger.
pub open spec fn name_ordered<T>(v: Seq<(String, T)>) -> bool {
    forall|i: int, j: int| 0 <= i < j < v.len() ==> !text_lt(#[trigger] v[j].0@, #[trigger] v[i].0@)
}

/// The items of `v` named `x`, in order.
pub open spec fn named<T>(v: Seq<(String, T)>, x: Seq<char>) -> Seq<(String, T)>
    decreases v.len(),
{
    if v.len() == 0 {
        Seq::empty()
    } else {
        let prev = named(v.drop_last(), x);
        if v.last().0@ == x {
            prev.push(v.last())
        } else {
            prev
        }
    }
}

proof fn lemma_named_concat<T>(a: Seq<(String, T)>, b: Seq<(String, T)>, x: Seq<char>)
    ensures
        named(a + b, x) == named(a, x) + named(b, x),
    decreases b.len(),
{
    if b.len() == 0 {
        assert(a + b =~= a);
        assert(named(a, x) + named(b, x) =~= named(a, x));
    } else {
        assert((a + b).drop_last() =~= a + b.drop_last());
        lemma_named_concat(a, b.drop_last(), x);
        if b.last().0@ == x {
            assert(named(a + b, x) =~= named(a, x) + named(b, x));
        } else {
            assert(named(a + b, x) =~= named(a, x) + named(b, x));
        }
    }
}

proof fn lemma_named_none<T>(v: Seq<(String, T)>, x: Seq<char>)
    requires
        forall|j: int| 0 <= j < v.len() ==> (#[trigger] v[j]).0@ != x,
    ensures
        named(v, x) == Seq::<(String, T)>::empty(),
    decreases v.len(),
{
    if v.len() > 0 {
        assert(v.last() == v[v.len() - 1]);
        assert forall|j: int| 0 <= j < v.drop_last().len() implies (#[trigger] v.drop_last()[j]).0@ != x by {
            assert(v.drop_last()[j] == v[j]);
        }
        lemma_named_none(v.drop_last(), x);
    }
}

proof fn lemma_named_one<T>(e: (String, T), x: Seq<char>)
    ensures
        named(seq![e], x) == if e.0@ == x { seq![e] } else { Seq::<(String, T)>::empty() },
{
    assert(seq![e].drop_last() =~= Seq::<(String, T)>::empty());
    assert(named(seq![e].drop_last(), x) == Seq::<(String, T)>::empty());
    assert(seq![e].last() == e);
    assert(Seq::<(String, T)>::empty().push(e) =~= seq![e]);
}

/// Orders named items by name, in `String` order, keeping every item;
/// items of one name keep the order they came in.
pub fn sort_by_name<T>(items: Vec<(String, T)>) -> (out: Vec<(String, T)>)
    ensures
        out@.to_multiset() == items@.to_multiset(),
        name_ordered(out@),
        forall|x: Seq<char>| #[trigger] named(out@, x) == named(items@, x),
{
    broadcast use vstd::seq_lib::group_to_multiset_ensures;

    let ghost orig = items@;
    let mut remaining = items;
    let mut out: Vec<(String, T)> = Vec::new();
    assert(out@.to_multiset().add(remaining@.to_multiset()) =~= orig.to_multiset());
    assert forall|x: Seq<char>| #[trigger] named(out@, x) + named(remaining@, x) == named(orig, x) by {
        assert(named(out@, x) + named(remaining@, x) =~= named(orig, x));
    }
    while remaining.len() > 0
        invariant
            out@.to_multiset().add(remaining@.to_multiset()) == orig.to_multiset(),
            forall|x: Seq<char>| #[trigger] named(out@, x) + named(remaining@, x) == named(orig, x),
            name_ordered(out@),
            forall|i: int, j: int| 0 <= i < out@.len() && 0 <= j < remaining@.len()
                ==> !text_lt(#[trigger] remaining@[j].0@, #[trigger] out@[i].0@),
        decreases remaining@.len(),
    {
        let mut best: usize = 0;
        let mut k: usize = 1;
        while k < remaining.len()
            invariant
                1 <= k <= remaining@.len(),
                best < remaining@.len(),
                forall|j: int| 0 <= j < k ==> !text_lt(#[trigger] remaining@[j].0@, remaining@[best as int].0@),
                forall|j: int| 0 <= j < best ==> (#[trigger] remaining@[j]).0@ != remaining@[best as int].0@,
            decreases remaining@.len() - k,
        {
            if bytes_less(remaining[k].0.as_str().as_bytes(), remaining[best].0.as_str().as_bytes()) {
                proof {
                    assert forall|j: int| 0 <= j < k implies !text_lt(#[trigger] remaining@[j].0@, remaining@[k as int].0@) by {
                        if text_lt(remaining@[j].0@, remaining@[k as int].0@) {
                            lemma_bytes_lt_transitive(
                                utf8(remaining@[j].0@),
                                utf8(remaining@[k as int].0@),
                                utf8(remaining@[best as int].0@),
                            );
                        }
                    }
                    lemma_bytes_lt_irreflexive(utf8(remaining@[k as int].0@));
                    assert forall|j: int| 0 <= j < k implies (#[trigger] remaining@[j]).0@ != remaining@[k as int].0@ by {
                        assert(!text_lt(remaining@[j].0@, remaining@[best as int].0@));
                    }
                }
                best = k;
            }
            k = k + 1;
        }
        let ghost rem_before = remaining@;
        let ghost out_before = out@;
        let x = remaining.remove(best);
        out.push(x);
        proof {
            let b = best as int;
            let nb = out_before.len() as int;
            assert(remaining@ =~= rem_before.remove(b));
            assert(out@ =~= out_before.push(rem_before[b]));
            assert(out@.to_multiset().add(remaining@.to_multiset()) =~= orig.to_multiset()) by {
                vstd::seq_lib::to_multiset_remove(rem_before, b);
                assert(rem_before.contains(rem_before[b]));
                vstd::seq_lib::to_multiset_contains(rem_before, rem_before[b]);
                vstd::seq_lib::to_multiset_build(out_before, rem_before[b]);
            }
            assert forall|x: Seq<char>| #[trigger] named(out@, x) + named(remaining@, x) == named(orig, x) by {
                let e = rem_before[b];
                let front = rem_before.take(b);
                let back = rem_before.skip(b + 1);
                assert(rem_before =~= front + seq![e] + back);
                assert(remaining@ =~= front + back);
                assert(out@ =~= out_before + seq![e]);
                lemma_named_concat(front + seq![e], back, x);
                lemma_named_concat(front, seq![e], x);
                lemma_named_concat(front, back, x);
                lemma_named_concat(out_before, seq![e], x);
                lemma_named_one(e, x);
                if e.0@ == x {
                    assert forall|j: int| 0 <= j < front.len() implies (#[trigger] front[j]).0@ != x by {
                        assert(front[j] == rem_before[j]);
                    }
                    lemma_named_none(front, x);
                    assert(named(out@, x) + named(remaining@, x) =~= named(out_before, x) + named(rem_before, x));
                } else {
                    assert(named(out@, x) + named(remaining@, x) =~= named(out_before, x) + named(rem_before, x));
                }
            }
            assert forall|i: int, j: int| 0 <= i < j < out@.len() implies !text_lt(#[trigger] out@[j].0@, #[trigger] out@[i].0@) by {
                if j == nb {
                    assert(out@[i] == out_before[i]);
                    assert(out@[j] == rem_before[b]);
                } else {
                    assert(out@[i] == out_before[i]);
                    assert(out@[j] == out_before[j]);
                }
            }
            assert forall|i: int, j: int| 0 <= i < out@.len() && 0 <= j < remaining@.len()
                implies !text_lt(#[trigger] remaining@[j].0@, #[trigger] out@[i].0@) by {
                let jj = if j < b { j } else { j + 1 };
                assert(remaining@[j] == rem_before[jj]);
                if i < nb {
                    assert(out@[i] == out_before[i]);
                } else {
                    assert(out@[i] == rem_before[b]);
                }
            }
        }
    }
    assert(remaining@ =~= Seq::<(String, T)>::empty());
    assert(out@.to_multiset().add(remaining@.to_multiset()) =~= out@.to_multiset());
    assert forall|x: Seq<char>| #[trigger] named(out@, x) == named(items@, x) by {
        assert(named(remaining@, x) =~= Seq::<(String, T)>::empty());
        assert(named(out@, x) + named(remaining@, x) =~= named(out@, x));
    }
    out
}

/// The queues of `v` whose key is `x`, in order.
pub open spec fn keyed_queues(v: Seq<QueueInfo>, x: Seq<char>) -> Seq<QueueInfo>
    decreases v.len(),
{
    if v.len() == 0 {
        Seq::empty()
    } else {
        let prev = keyed_queues(v.drop_last(), x);
        if v.last().key@ == x {
            prev.push(v.last())
        } else {
            prev
        }
    }
}

/// Queues ordered by key: none comes after one whose key is larger.
pub open spec fn key_ordered(v: Seq<QueueInfo>) -> bool {
    forall|i: int, j: int| 0 <= i < j < v.len() ==> !text_lt(#[trigger] v[j].key@, #[trigger] v[i].key@)
}

/// The second parts of a list of named items.
pub open spec fn seconds<T>(v: Seq<(String, T)>) -> Seq<T> {
    v.map_values(|p: (String, T)| p.1)
}

/// Each item is named by its queue's key.
pub open spec fn named_by_key(v: Seq<(String, QueueInfo)>) -> bool {
    forall|i: int| 0 <= i < v.len() ==> (#[trigger] v[i]).0@ == v[i].1.key@
}

proof fn lemma_keyed_seconds(v: Seq<(String, QueueInfo)>, x: Seq<char>)
    requires
        named_by_key(v),
    ensures
        keyed_queues(seconds(v), x) == seconds(named(v, x)),
    decreases v.len(),
{
    if v.len() == 0 {
        assert(seconds(v) =~= Seq::<QueueInfo>::empty());
        assert(seconds(named(v, x)) =~= Seq::<QueueInfo>::empty());
    } else {
        assert(seconds(v).drop_last() =~= seconds(v.drop_last()));
        assert(v.last() == v[v.len() - 1]);
        assert(named_by_key(v.drop_last())) by {
            assert forall|i: int| 0 <= i < v.drop_last().len() implies (#[trigger] v.drop_last()[i]).0@ == v.drop_last()[i].1.key@ by {
                assert(v.drop_last()[i] == v[i]);
            }
        }
        lemma_keyed_seconds(v.drop_last(), x);
        assert(seconds(v).last() == v.last().1);
        if v.last().0@ == x {
            assert(seconds(named(v.drop_last(), x).push(v.last())) =~= seconds(named(v.drop_last(), x)).push(v.last().1));
        }
    }
}

/// Orders queues by key, in `String` order; queues of one key keep the
/// order they came in.
pub fn sort_queues_by_key(queues: Vec<QueueInfo>) -> (out: Vec<QueueInfo>)
    ensures
        key_ordered(out@),
        forall|x: Seq<char>| #[trigger] keyed_queues(out@, x) == keyed_queues(queues@, x),
{
    broadcast use vstd::seq_lib::group_to_multiset_ensures;

    let ghost orig = queues@;
    let mut rest = queues;
    let mut pairs: Vec<(String, QueueInfo)> = Vec::new();
    let mut k: usize = 0;
    let total = rest.len();
    while rest.len() > 0
        invariant
            orig.len() == total,
            k + rest@.len() == orig.len(),
            rest@ == orig.skip(k as int),
            seconds(pairs@) == orig.take(k as int),
            named_by_key(pairs@),
        decreases rest@.len(),
    {
        let ghost before = pairs@;
        assert(rest@[0] == orig[k as int]);
        let q = rest.remove(0);
        let key = q.key.clone();
        pairs.push((key, q));
        proof {
            assert(rest@ =~= orig.skip(k + 1));
            assert(seconds(pairs@) =~= seconds(before).push(q));
            assert(orig.take(k + 1) =~= orig.take(k as int).push(orig[k as int]));
            assert forall|i: int| 0 <= i < pairs@.len() implies (#[trigger] pairs@[i]).0@ == pairs@[i].1.key@ by {
                if i < before.len() {
                    assert(pairs@[i] == before[i]);
                }
            }
        }
        k = k + 1;
    }
    assert(orig.take(k as int) =~= orig);
    let ghost pv = pairs@;
    let sorted = sort_by_name(pairs);
    let ghost sv = sorted@;
    proof {
        assert forall|i: int| 0 <= i < sv.len() implies (#[trigger] sv[i]).0@ == sv[i].1.key@ by {
            assert(sv.contains(sv[i]));
            assert(sv.to_multiset().count(sv[i]) > 0);
            assert(pv.contains(sv[i]));
            let j = choose|j: int| 0 <= j < pv.len() && pv[j] == sv[i];
            assert(pv[j].0@ == pv[j].1.key@);
        }
    }
    let mut left = sorted;
    let mut out: Vec<QueueInfo> = Vec::new();
    let mut m: usize = 0;
    let sorted_total = left.len();
    while left.len() > 0
        invariant
            sv.len() == sorted_total,
            m + left@.len() == sv.len(),
            left@ == sv.skip(m as int),
            out@ == seconds(sv).take(m as int),
        decreases left@.len(),
    {
        let ghost before = out@;
        assert(left@[0] == sv[m as int]);
        let (_key, q) = left.remove(0);
        out.push(q);
        proof {
            assert(left@ =~= sv.skip(m + 1));
            assert(seconds(sv).take(m + 1) =~= seconds(sv).take(m as int).push(sv[m as int].1));
        }
        m = m + 1;
    }
    proof {
        assert(out@ =~= seconds(sv));
        assert forall|x: Seq<char>| #[trigger] keyed_queues(out@, x) == keyed_queues(orig, x) by {
            lemma_keyed_seconds(sv, x);
            lemma_keyed_seconds(pv, x);
        }
        assert forall|i: int, j: int| 0 <= i < j < out@.len() implies !text_lt(#[trigger] out@[j].key@, #[trigger] out@[i].key@) by {
            assert(out@[i] == sv[i].1);
            assert(out@[j] == sv[j].1);
        }
    }
    out
}

/// The names of `w` that are not among `c`, in order.
pub open spec fn names_without(w: Seq<Seq<char>>, c: Seq<Seq<char>>) -> Seq<Seq<char>>
    decreases w.len(),
{
    if w.len() == 0 {
        Seq::empty()
    } else {
        let prev = names_without(w.drop_last(), c);
        if c.contains(w.last()) {
            prev
        } else {
            prev.push(w.last())
        }
    }
}

proof fn lemma_names_without(w: Seq<Seq<char>>, c: Seq<Seq<char>>)
    requires
        w.no_duplicates(),
    ensures
        names_without(w, c).no_duplicates(),
        forall|x: Seq<char>| names_without(w, c).contains(x) <==> (w.contains(x) && !c.contains(x)),
    decreases w.len(),
{
    if w.len() > 0 {
        let d = w.drop_last();
        assert forall|i: int, j: int| 0 <= i < j < d.len() implies d[i] != d[j] by {
            assert(d[i] == w[i] && d[j] == w[j]);
        }
        lemma_names_without(d, c);
        let prev = names_without(d, c);
        assert(!d.contains(w.last())) by {
            if d.contains(w.last()) {
                let j = choose|j: int| 0 <= j < d.len() && d[j] == w.last();
                assert(w[j] == w[w.len() - 1]);
            }
        }
        assert forall|x: Seq<char>| w.contains(x) <==> (d.contains(x) || x == w.last()) by {
            if w.contains(x) {
                let j = choose|j: int| 0 <= j < w.len() && w[j] == x;
                if j < w.len() - 1 {
                    assert(d[j] == x);
                }
            }
            if d.contains(x) {
                let j = choose|j: int| 0 <= j < d.len() && d[j] == x;
                assert(w[j] == x);
            }
            if x == w.last() {
                assert(w[w.len() - 1] == x);
            }
        }
        if !c.contains(w.last()) {
            let n = prev.push(w.last());
            assert forall|x: Seq<char>| n.contains(x) <==> (prev.contains(x) || x == w.last()) by {
                if n.contains(x) {
                    let j = choose|j: int| 0 <= j < n.len() && n[j] == x;
                    if j < prev.len() {
                        assert(prev[j] == x);
                    }
                }
                if prev.contains(x) {
                    let j = choose|j: int| 0 <= j < prev.len() && prev[j] == x;
                    assert(n[j] == x);
                }
                if x == w.last() {
                    assert(n[prev.len() as int] == x);
                }
            }
        }
    }
}

/// The names of `names` that are not among `excluded` (see
/// `names_without`).
fn names_not_in(names: &Vec<String>, excluded: &Vec<String>) -> (r: Vec<String>)
    ensures
        views_of(r@) == names_without(views_of(names@), views_of(excluded@)),
{
    let ghost wv = views_of(names@);
    let ghost cv = views_of(excluded@);
    let mut kept: Vec<String> = Vec::new();
    let mut i: usize = 0;
    while i < names.len()
        invariant
            i <= names@.len(),
            wv == views_of(names@),
            cv == views_of(excluded@),
            views_of(kept@) == names_without(wv.take(i as int), cv),
        decreases names@.len() - i,
    {
        let mut found = false;
        let mut k: usize = 0;
        while k < excluded.len()
            invariant
                k <= excluded@.len(),
                i < names@.len(),
                cv == views_of(excluded@),
                wv == views_of(names@),
                found <==> exists|j: int| 0 <= j < k && cv[j] == wv[i as int],
            decreases excluded@.len() - k,
        {
            if str_eq(excluded[k].as_str(), names[i].as_str()) {
                assert(cv[k as int] == wv[i as int]);
                found = true;
            }
            k = k + 1;
        }
        let ghost before = views_of(kept@);
        proof {
            assert(wv.take(i + 1).drop_last() =~= wv.take(i as int));
            assert(wv.take(i + 1).last() == wv[i as int]);
            assert(found <==> cv.contains(wv[i as int]));
        }
        if !found {
            kept.push(names[i].clone());
            assert(views_of(kept@) =~= before.push(wv[i as int]));
        }
        i = i + 1;
    }
    assert(wv.take(wv.len() as int) =~= wv);
    kept
}

/// The ordinary workers: the registered names that are not cron workers,
/// in `String` order.
pub fn catalog_worker_names(worker_names: &Vec<String>, cron_names: &Vec<String>) -> (r: Vec<String>)
    requires
        views_of(worker_names@).no_duplicates(),
    ensures
        strictly_sorted(views_of(r@)),
        forall|x: Seq<char>| views_of(r@).contains(x) <==> (views_of(worker_names@).contains(x) && !views_of(cron_names@).contains(x)),
{
    let kept = names_not_in(worker_names, cron_names);
    proof {
        lemma_names_without(views_of(worker_names@), views_of(cron_names@));
    }
    sort_strings(kept)
}

/// The queues found that are not watched yet, in the order found; they
/// get a dispatcher each.
pub fn untracked_queues(found: &Vec<String>, watched: &Vec<String>) -> (r: Vec<String>)
    ensures
        views_of(r@) == names_without(views_of(found@), views_of(watched@)),
{
    names_not_in(found, watched)
}

/// The names of a list of ordinary workers.
pub open spec fn worker_info_names(v: Seq<WorkerInfo>) -> Seq<Seq<char>> {
    v.map_values(|w: WorkerInfo| w.name@)
}

/// The names of a list of cron workers.
pub open spec fn cron_info_names(v: Seq<CronWorkerInfo>) -> Seq<Seq<char>> {
    v.map_values(|c: CronWorkerInfo| c.name@)
}

/// The catalog of a registry and its queues: the ordinary workers (those
/// without a schedule) in name order; the cron workers in name order, each
/// with its schedule and queue; and the queues in key order, queues of one
/// key in the order given.
pub fn build_catalog(registry: &WorkerRegistry, queues: Vec<QueueInfo>) -> (c: Catalog)
    requires
        registry.wf(),
    ensures
        strictly_sorted(worker_info_names(c.workers@)),
        forall|x: Seq<char>| #[trigger] worker_info_names(c.workers@).contains(x)
            <==> (registry.workers().contains(x) && !registry.cron_jobs().contains_key(x)),
        strictly_sorted(cron_info_names(c.cron_workers@)),
        forall|x: Seq<char>| #[trigger] cron_info_names(c.cron_workers@).contains(x) <==> registry.cron_jobs().contains_key(x),
        forall|i: int| 0 <= i < c.cron_workers@.len() ==> registry.cron_jobs()[(#[trigger] c.cron_workers@[i]).name@].0
            == c.cron_workers@[i].schedule@ && registry.cron_jobs()[c.cron_workers@[i].name@].1 == c.cron_workers@[i].queue_key@,
        key_ordered(c.queues@),
        forall|x: Seq<char>| #[trigger] keyed_queues(c.queues@, x) == keyed_queues(queues@, x),
{
    let all = registry.worker_names();
    let crons = registry.cron_names();
    proof {
        assert forall|x: Seq<char>| views_of(all@).contains(x) <==> registry.workers().contains(x) by {}
    }
    let names = catalog_worker_names(&all, &crons);
    let mut workers: Vec<WorkerInfo> = Vec::new();
    let mut i: usize = 0;
    while i < names.len()
        invariant
            i <= names@.len(),
            worker_info_names(workers@) == views_of(names@).take(i as int),
        decreases names@.len() - i,
    {
        let ghost before = workers@;
        let w = WorkerInfo { name: names[i].clone() };
        workers.push(w);
        assert(worker_info_names(workers@) =~= worker_info_names(before).push(names@[i as int]@));
        assert(views_of(names@).take(i + 1) =~= views_of(names@).take(i as int).push(views_of(names@)[i as int]));
        i = i + 1;
    }
    assert(views_of(names@).take(names@.len() as int) =~= views_of(names@));
    let infos = registry.cron_infos();
    let sorted_crons = sort_strings(crons);
    let mut cron_workers: Vec<CronWorkerInfo> = Vec::new();
    let mut k: usize = 0;
    while k < sorted_crons.len()
        invariant
            k <= sorted_crons@.len(),
            registry.wf(),
            forall|x: Seq<char>| views_of(sorted_crons@).contains(x) <==> registry.cron_jobs().contains_key(x),
            forall|a: int| 0 <= a < infos@.len() ==> #[trigger] registry.cron_jobs().contains_key(infos@[a].name@)
                && registry.cron_jobs()[infos@[a].name@].0 == infos@[a].schedule@
                && registry.cron_jobs()[infos@[a].name@].1 == infos@[a].queue_key@,
            forall|x: Seq<char>| #[trigger] registry.cron_jobs().contains_key(x) ==> exists|a: int| 0 <= a < infos@.len()
                && infos@[a].name@ == x,
            cron_info_names(cron_workers@) == views_of(sorted_crons@).take(k as int),
            forall|a: int| 0 <= a < cron_workers@.len() ==> registry.cron_jobs()[(#[trigger] cron_workers@[a]).name@].0
                == cron_workers@[a].schedule@ && registry.cron_jobs()[cron_workers@[a].name@].1 == cron_workers@[a].queue_key@,
        decreases sorted_crons@.len() - k,
    {
        let name = &sorted_crons[k];
        proof {
            assert(views_of(sorted_crons@)[k as int] == name@);
            assert(views_of(sorted_crons@).contains(name@));
        }
        let mut j: usize = 0;
        while j < infos.len() && !str_eq(infos[j].name.as_str(), name.as_str())
            invariant
                j <= infos@.len(),
                forall|a: int| 0 <= a < j ==> infos@[a].name@ != name@,
            decreases infos@.len() - j,
        {
            j = j + 1;
        }
        proof {
            if j == infos@.len() {
                assert(registry.cron_jobs().contains_key(name@));
                let a = choose|a: int| 0 <= a < infos@.len() && infos@[a].name@ == name@;
                assert(infos@[a].name@ != name@);
            }
        }
        let info = CronWorkerInfo {
            name: infos[j].name.clone(),
            schedule: infos[j].schedule.clone(),
            queue_key: infos[j].queue_key.clone(),
        };
        let ghost before = cron_workers@;
        cron_workers.push(info);
        proof {
            assert(registry.cron_jobs().contains_key(infos@[j as int].name@));
            assert(cron_info_names(cron_workers@) =~= cron_info_names(before).push(name@));
            assert(views_of(sorted_crons@).take(k + 1) =~= views_of(sorted_crons@).take(k as int).push(views_of(sorted_crons@)[k as int]));
            assert forall|a: int| 0 <= a < cron_workers@.len() implies registry.cron_jobs()[(#[trigger] cron_workers@[a]).name@].0
                == cron_workers@[a].schedule@ && registry.cron_jobs()[cron_workers@[a].name@].1 == cron_workers@[a].queue_key@ by {
                if a < before.len() {
                    assert(cron_workers@[a] == before[a]);
                }
            }
        }
        k = k + 1;
    }
    assert(views_of(sorted_crons@).take(sorted_crons@.len() as int) =~= views_of(sorted_crons@));
    assert(cron_info_names(cron_workers@) == views_of(sorted_crons@));
    let queues = sort_queues_by_key(queues);
    Catalog { workers, cron_workers, queues }
}

/// Why an on-demand enqueue request is refused.
#[derive(Debug, PartialEq, Eq)]
pub enum OnDemandRefusal {
    /// The queue is not a registered static queue.
    QueueNotStatic,
    /// No job of that name may be enqueued on demand.
    JobNotOnDemand,
}

/// Checks an on-demand enqueue request for job `name` on `queue`: the
/// queue must be a registered static queue, and the job one of
/// `job_names` (the jobs that may be enqueued on demand). Gives the
/// position of the first job of that name.
pub fn on_demand_job_index(queues: &Vec<QueueInfo>, job_names: &Vec<String>, queue: &str, name: &str)
    -> (r: Result<usize, OnDemandRefusal>)
    ensures
        !has_static_queue(queues@, queue@) ==> r == Err::<usize, OnDemandRefusal>(OnDemandRefusal::QueueNotStatic),
        has_static_queue(queues@, queue@) && !views_of(job_names@).contains(name@)
            ==> r == Err::<usize, OnDemandRefusal>(OnDemandRefusal::JobNotOnDemand),
        has_static_queue(queues@, queue@) && views_of(job_names@).contains(name@) ==> (r matches Ok(i)
            && i < job_names@.len() && job_names@[i as int]@ == name@
            && forall|j: int| 0 <= j < i ==> job_names@[j]@ != name@),
{
    let mut i: usize = 0;
    let mut found = false;
    while i < queues.len()
        invariant
            i <= queues@.len(),
            found ==> has_static_queue(queues@, queue@),
            !found ==> forall|j: int| 0 <= j < i ==> (#[trigger] queues@[j]).dynamic || queues@[j].key@ != queue@,
        decreases queues@.len() - i,
    {
        if !queues[i].dynamic && str_eq(queues[i].key.as_str(), queue) {
            found = true;
            assert(!queues@[i as int].dynamic && queues@[i as int].key@ == queue@);
        }
        i = i + 1;
    }
    if !found {
        return Err(OnDemandRefusal::QueueNotStatic);
    }
    let mut k: usize = 0;
    while k < job_names.len()
        invariant
            k <= job_names@.len(),
            has_static_queue(queues@, queue@),
            forall|j: int| 0 <= j < k ==> job_names@[j]@ != name@,
        decreases job_names@.len() - k,
    {
        if str_eq(job_names[k].as_str(), name) {
            assert(views_of(job_names@)[k as int] == name@);
            assert(views_of(job_names@).contains(name@));
            return Ok(k);
        }
        k = k + 1;
    }
    proof {
        if views_of(job_names@).contains(name@) {
            let j = choose|j: int| 0 <= j < views_of(job_names@).len() && views_of(job_names@)[j] == name@;
            assert(job_names@[j]@ == name@);
        }
    }
    Err(OnDemandRefusal::JobNotOnDemand)
}

} // verus!
