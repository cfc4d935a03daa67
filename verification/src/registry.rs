//! The registry of workers: which job names have a worker, and which of
//! them run on a cron schedule.

use std::str::FromStr;
use vstd::prelude::*;

use crate::text::{str_eq, views_of};
use crate::catalog::CronWorkerInfo;
use crate::worker::WorkerConfigKind;

verus! {

broadcast use vstd::string::group_string_axioms;

/// How a cron worker runs: its schedule, its static queue and whether its
/// lost jobs are resurrected.
#[derive(Debug)]
pub struct CronJob {
    pub schedule: String,
    pub queue_key: String,
    pub resurrect: bool,
}

/// The text of a cron registration.
pub open spec fn cron_view(c: CronJob) -> (Seq<char>, Seq<char>, bool) {
    (c.schedule@, c.queue_key@, c.resurrect)
}

/// Whether `expression` parses as a cron schedule (six or seven fields,
/// or one of the crate's named schedules).
pub uninterp spec fn cron_expression_valid(expression: Seq<char>) -> bool;

/// `cron::Schedule::from_str`: whether the expression parses as a cron
/// schedule. Parsing depends on the text alone and reports a bad
/// expression as an error, never by panicking; the grammar itself is the
/// crate's and is not restated here.
#[verifier::external_body]
fn is_valid_cron_schedule(expression: &str) -> (r: bool)
    ensures
        r == cron_expression_valid(expression@),
{
    cron::Schedule::from_str(expression).is_ok()
}

/// A cron schedule that does not parse.
#[derive(Debug, PartialEq, Eq)]
pub struct InvalidCronSchedule {
    /// The worker it was given for.
    pub name: String,
    /// The schedule as given.
    pub schedule: String,
}

/// Registered workers by name, and the cron schedules among them.
#[derive(Debug)]
pub struct WorkerRegistry {
    jobs: Vec<String>,
    schedules: Vec<(String, CronJob)>,
}

impl WorkerRegistry {
    /// No name is registered twice, as a worker or as a schedule.
    pub closed spec fn wf(&self) -> bool {
        &&& views_of(self.jobs@).no_duplicates()
        &&& forall|i: int, j: int| 0 <= i < j < self.schedules@.len() ==> self.schedules@[i].0@ != self.schedules@[j].0@
    }

    /// The names of the registered workers.
    pub closed spec fn workers(&self) -> Set<Seq<char>> {
        views_of(self.jobs@).to_set()
    }

    /// The cron registrations by worker name.
    pub closed spec fn cron_jobs(&self) -> Map<Seq<char>, (Seq<char>, Seq<char>, bool)> {
        Map::new(
            |n: Seq<char>| exists|i: int| 0 <= i < self.schedules@.len() && self.schedules@[i].0@ == n,
            |n: Seq<char>| cron_view(self.schedules@[choose|i: int| 0 <= i < self.schedules@.len() && self.schedules@[i].0@ == n].1),
        )
    }

    /// An empty registry.
    pub fn new() -> (r: Self)
        ensures
            r.wf(),
            r.workers() == Set::<Seq<char>>::empty(),
            r.cron_jobs() == Map::<Seq<char>, (Seq<char>, Seq<char>, bool)>::empty(),
    {
        let r = WorkerRegistry { jobs: Vec::new(), schedules: Vec::new() };
        assert(views_of(r.jobs@).to_set() =~= Set::<Seq<char>>::empty());
        assert(r.cron_jobs() =~= Map::<Seq<char>, (Seq<char>, Seq<char>, bool)>::empty());
        r
    }

    fn job_index(&self, name: &str) -> (r: Option<usize>)
        ensures
            match r {
                Some(i) => i < self.jobs@.len() && self.jobs@[i as int]@ == name@,
                None => forall|i: int| 0 <= i < self.jobs@.len() ==> self.jobs@[i]@ != name@,
            },
    {
        let mut i: usize = 0;
        while i < self.jobs.len()
            invariant
                i <= self.jobs@.len(),
                forall|j: int| 0 <= j < i ==> self.jobs@[j]@ != name@,
            decreases self.jobs@.len() - i,
        {
            if str_eq(self.jobs[i].as_str(), name) {
                return Some(i);
            }
            i = i + 1;
        }
        None
    }

    fn schedule_index(&self, name: &str) -> (r: Option<usize>)
        ensures
            match r {
                Some(i) => i < self.schedules@.len() && self.schedules@[i as int].0@ == name@,
                None => forall|i: int| 0 <= i < self.schedules@.len() ==> self.schedules@[i].0@ != name@,
            },
    {
        let mut i: usize = 0;
        while i < self.schedules.len()
            invariant
                i <= self.schedules@.len(),
                forall|j: int| 0 <= j < i ==> self.schedules@[j].0@ != name@,
            decreases self.schedules@.len() - i,
        {
            if str_eq(self.schedules[i].0.as_str(), name) {
                return Some(i);
            }
            i = i + 1;
        }
        None
    }

    /// Registers a worker under `name`; a cron worker also gets its
    /// schedule, replacing one registered before under that name. A cron
    /// schedule must parse (see `try_register_worker_with` for a checked
    /// registration).
    pub fn register_worker_with(&mut self, name: String, kind: WorkerConfigKind)
        requires
            old(self).wf(),
            kind matches WorkerConfigKind::Cron { schedule, .. } ==> cron_expression_valid(schedule@),
        ensures
            final(self).wf(),
            final(self).workers() == old(self).workers().insert(name@),
            final(self).cron_jobs() == match kind {
                WorkerConfigKind::Normal => old(self).cron_jobs(),
                WorkerConfigKind::Cron { schedule, queue_key, resurrect } => old(self).cron_jobs().insert(
                    name@,
                    (schedule@, queue_key@, resurrect),
                ),
            },
    {
        let ghost old_jobs = views_of(self.jobs@);
        let ghost old_crons = self.cron_jobs();
        if self.job_index(name.as_str()).is_none() {
            let ghost before = views_of(self.jobs@);
            self.jobs.push(name.clone());
            proof {
                assert(views_of(self.jobs@) =~= before.push(name@));
                assert forall|i: int, j: int| 0 <= i < j < views_of(self.jobs@).len()
                    implies views_of(self.jobs@)[i] != views_of(self.jobs@)[j] by {
                    if j == before.len() {
                        assert(views_of(self.jobs@)[i] == self.jobs@[i]@);
                    } else {
                        assert(before[i] != before[j]);
                    }
                }
                assert(views_of(self.jobs@).to_set() =~= old_jobs.to_set().insert(name@)) by {
                    assert forall|x: Seq<char>| views_of(self.jobs@).to_set().contains(x) <==> old_jobs.to_set().insert(name@).contains(x) by {
                        if views_of(self.jobs@).contains(x) {
                            let k = choose|k: int| 0 <= k < views_of(self.jobs@).len() && views_of(self.jobs@)[k] == x;
                            if k < before.len() {
                                assert(before[k] == x);
                                assert(old_jobs.contains(x));
                            }
                        }
                        if old_jobs.contains(x) {
                            let k = choose|k: int| 0 <= k < old_jobs.len() && old_jobs[k] == x;
                            assert(views_of(self.jobs@)[k] == x);
                        }
                        if x == name@ {
                            assert(views_of(self.jobs@)[before.len() as int] == x);
                        }
                    }
                }
            }
        } else {
            proof {
                let k = choose|k: int| 0 <= k < self.jobs@.len() && self.jobs@[k]@ == name@;
                assert(views_of(self.jobs@)[k] == name@);
                assert(views_of(self.jobs@).to_set() =~= old_jobs.to_set().insert(name@));
            }
        }
        match kind {
            WorkerConfigKind::Normal => {},
            WorkerConfigKind::Cron { schedule, queue_key, resurrect } => {
                let ghost entry = (schedule@, queue_key@, resurrect);
                let job = CronJob { schedule, queue_key, resurrect };
                let ghost old_s = self.schedules@;
                match self.schedule_index(name.as_str()) {
                    Some(i) => {
                        let (n, _) = self.schedules.remove(i);
                        self.schedules.insert(i, (n, job));
                        proof {
                            assert forall|a: int, b: int| 0 <= a < b < self.schedules@.len()
                                implies self.schedules@[a].0@ != self.schedules@[b].0@ by {
                                assert(self.schedules@[a].0 == old_s[a].0);
                                assert(self.schedules@[b].0 == old_s[b].0);
                            }
                            assert(self.cron_jobs() =~= old_crons.insert(name@, entry)) by {
                                assert forall|x: Seq<char>| #[trigger] self.cron_jobs().contains_key(x)
                                    <==> old_crons.insert(name@, entry).contains_key(x) by {
                                    if self.cron_jobs().contains_key(x) {
                                        let k = choose|k: int| 0 <= k < self.schedules@.len() && self.schedules@[k].0@ == x;
                                        assert(old_s[k].0@ == x);
                                    }
                                    if old_crons.contains_key(x) {
                                        let k = choose|k: int| 0 <= k < old_s.len() && old_s[k].0@ == x;
                                        assert(self.schedules@[k].0@ == x);
                                    }
                                    if x == name@ {
                                        assert(self.schedules@[i as int].0@ == x);
                                    }
                                }
                                assert forall|x: Seq<char>| #[trigger] self.cron_jobs().contains_key(x)
                                    implies self.cron_jobs()[x] == old_crons.insert(name@, entry)[x] by {
                                    let k = choose|k: int| 0 <= k < self.schedules@.len() && self.schedules@[k].0@ == x;
                                    if k != i {
                                        assert(self.schedules@[i as int].0@ != x || k == i);
                                        assert(old_s[k] == self.schedules@[k]);
                                        let k2 = choose|k2: int| 0 <= k2 < old_s.len() && old_s[k2].0@ == x;
                                        if k2 != k {
                                            assert(old_s[k2].0@ == old_s[k].0@);
                                        }
                                        if x == name@ {
                                            assert(self.schedules@[i as int].0@ == name@);
                                        }
                                    } else {
                                        assert(x == name@);
                                    }
                                }
                            }
                        }
                    },
                    None => {
                        self.schedules.push((name, job));
                        proof {
                            assert forall|a: int, b: int| 0 <= a < b < self.schedules@.len()
                                implies self.schedules@[a].0@ != self.schedules@[b].0@ by {
                                if b < old_s.len() {
                                    assert(self.schedules@[a] == old_s[a]);
                                    assert(self.schedules@[b] == old_s[b]);
                                } else {
                                    assert(self.schedules@[a] == old_s[a]);
                                }
                            }
                            let n = old_s.len() as int;
                            assert(self.cron_jobs() =~= old_crons.insert(name@, entry)) by {
                                assert forall|x: Seq<char>| #[trigger] self.cron_jobs().contains_key(x)
                                    <==> old_crons.insert(name@, entry).contains_key(x) by {
                                    if self.cron_jobs().contains_key(x) {
                                        let k = choose|k: int| 0 <= k < self.schedules@.len() && self.schedules@[k].0@ == x;
                                        if k < n {
                                            assert(old_s[k].0@ == x);
                                        }
                                    }
                                    if old_crons.contains_key(x) {
                                        let k = choose|k: int| 0 <= k < old_s.len() && old_s[k].0@ == x;
                                        assert(self.schedules@[k].0@ == x);
                                    }
                                    if x == name@ {
                                        assert(self.schedules@[n].0@ == x);
                                    }
                                }
                                assert forall|x: Seq<char>| #[trigger] self.cron_jobs().contains_key(x)
                                    implies self.cron_jobs()[x] == old_crons.insert(name@, entry)[x] by {
                                    let k = choose|k: int| 0 <= k < self.schedules@.len() && self.schedules@[k].0@ == x;
                                    if k < n {
                                        assert(old_s[k] == self.schedules@[k]);
                                        let k2 = choose|k2: int| 0 <= k2 < old_s.len() && old_s[k2].0@ == x;
                                        if k2 != k {
                                            assert(old_s[k2].0@ == old_s[k].0@);
                                        }
                                    } else {
                                        assert(x == name@);
                                    }
                                }
                            }
                        }
                    },
                }
            },
        }
    }

    /// Registers a worker as `register_worker_with` does, after checking
    /// that a cron schedule parses; a schedule that does not is refused
    /// and nothing changes.
    pub fn try_register_worker_with(&mut self, name: String, kind: WorkerConfigKind) -> (r: Result<(), InvalidCronSchedule>)
        requires
            old(self).wf(),
        ensures
            final(self).wf(),
            match kind {
                WorkerConfigKind::Cron { schedule, .. } => !cron_expression_valid(schedule@),
                WorkerConfigKind::Normal => false,
            } ==> (r matches Err(e) && e.name@ == name@ && *final(self) == *old(self) && match kind {
                WorkerConfigKind::Cron { schedule, .. } => e.schedule@ == schedule@,
                WorkerConfigKind::Normal => true,
            }),
            match kind {
                WorkerConfigKind::Cron { schedule, .. } => cron_expression_valid(schedule@),
                WorkerConfigKind::Normal => true,
            } ==> (r is Ok && final(self).workers() == old(self).workers().insert(name@) && final(self).cron_jobs()
                == match kind {
                WorkerConfigKind::Normal => old(self).cron_jobs(),
                WorkerConfigKind::Cron { schedule, queue_key, resurrect } => old(self).cron_jobs().insert(
                    name@,
                    (schedule@, queue_key@, resurrect),
                ),
            }),
    {
        let refused = match &kind {
            WorkerConfigKind::Cron { schedule, .. } => !is_valid_cron_schedule(schedule.as_str()),
            WorkerConfigKind::Normal => false,
        };
        if refused {
            let schedule = match kind {
                WorkerConfigKind::Cron { schedule, .. } => schedule,
                WorkerConfigKind::Normal => String::new(),
            };
            return Err(InvalidCronSchedule { name, schedule });
        }
        self.register_worker_with(name, kind);
        Ok(())
    }

    /// Whether a worker is registered under `name`.
    pub fn has_registered(&self, name: &str) -> (r: bool)
        ensures
            r == self.workers().contains(name@),
    {
        let r = self.job_index(name).is_some();
        proof {
            if r {
                let k = choose|k: int| 0 <= k < self.jobs@.len() && self.jobs@[k]@ == name@;
                assert(views_of(self.jobs@)[k] == name@);
            } else {
                if views_of(self.jobs@).contains(name@) {
                    let k = choose|k: int| 0 <= k < views_of(self.jobs@).len() && views_of(self.jobs@)[k] == name@;
                    assert(self.jobs@[k]@ == name@);
                }
            }
        }
        r
    }

    /// Whether a cron worker is registered under `name`.
    pub fn has_registered_cron(&self, name: &str) -> (r: bool)
        ensures
            r == self.cron_jobs().contains_key(name@),
    {
        let r = self.schedule_index(name).is_some();
        proof {
            if r {
                let k = choose|k: int| 0 <= k < self.schedules@.len() && self.schedules@[k].0@ == name@;
                assert(self.schedules@[k].0@ == name@);
            }
        }
        r
    }

    /// The registered worker names, each once.
    pub fn worker_names(&self) -> (r: Vec<String>)
        requires
            self.wf(),
        ensures
            views_of(r@).no_duplicates(),
            views_of(r@).to_set() == self.workers(),
    {
        let mut r: Vec<String> = Vec::new();
        let mut i: usize = 0;
        while i < self.jobs.len()
            invariant
                i <= self.jobs@.len(),
                views_of(r@) == views_of(self.jobs@).take(i as int),
            decreases self.jobs@.len() - i,
        {
            let ghost before = views_of(r@);
            let name = self.jobs[i].clone();
            r.push(name);
            assert(views_of(r@) =~= before.push(self.jobs@[i as int]@));
            assert(views_of(self.jobs@).take(i + 1) =~= views_of(self.jobs@).take(i as int).push(views_of(self.jobs@)[i as int]));
            assert(views_of(r@) =~= views_of(self.jobs@).take(i + 1));
            i = i + 1;
        }
        assert(views_of(self.jobs@).take(self.jobs@.len() as int) =~= views_of(self.jobs@));
        r
    }

    /// The names of the cron workers, each once.
    pub fn cron_names(&self) -> (r: Vec<String>)
        requires
            self.wf(),
        ensures
            views_of(r@).no_duplicates(),
            forall|x: Seq<char>| views_of(r@).contains(x) <==> self.cron_jobs().contains_key(x),
    {
        let mut r: Vec<String> = Vec::new();
        let mut i: usize = 0;
        while i < self.schedules.len()
            invariant
                i <= self.schedules@.len(),
                self.wf(),
                views_of(r@) == Seq::new(i as nat, |k: int| self.schedules@[k].0@),
            decreases self.schedules@.len() - i,
        {
            let ghost before = views_of(r@);
            let name = self.schedules[i].0.clone();
            r.push(name);
            assert(views_of(r@) =~= before.push(self.schedules@[i as int].0@));
            assert(views_of(r@) =~= Seq::new((i + 1) as nat, |k: int| self.schedules@[k].0@));
            i = i + 1;
        }
        proof {
            assert forall|x: Seq<char>| views_of(r@).contains(x) <==> self.cron_jobs().contains_key(x) by {
                if views_of(r@).contains(x) {
                    let k = choose|k: int| 0 <= k < views_of(r@).len() && views_of(r@)[k] == x;
                    assert(self.schedules@[k].0@ == x);
                }
                if self.cron_jobs().contains_key(x) {
                    let k = choose|k: int| 0 <= k < self.schedules@.len() && self.schedules@[k].0@ == x;
                    assert(views_of(r@)[k] == x);
                }
            }
        }
        r
    }

    /// The cron workers with their schedules and queues, in registration
    /// order, each name once.
    pub fn cron_infos(&self) -> (r: Vec<CronWorkerInfo>)
        requires
            self.wf(),
        ensures
            forall|i: int, j: int| 0 <= i < j < r@.len() ==> r@[i].name@ != r@[j].name@,
            forall|i: int| 0 <= i < r@.len() ==> #[trigger] self.cron_jobs().contains_key(r@[i].name@)
                && self.cron_jobs()[r@[i].name@].0 == r@[i].schedule@
                && self.cron_jobs()[r@[i].name@].1 == r@[i].queue_key@,
            forall|x: Seq<char>| #[trigger] self.cron_jobs().contains_key(x) ==> exists|i: int| 0 <= i < r@.len() && r@[i].name@ == x,
    {
        let mut r: Vec<CronWorkerInfo> = Vec::new();
        let mut i: usize = 0;
        while i < self.schedules.len()
            invariant
                i <= self.schedules@.len(),
                self.wf(),
                r@.len() == i,
                forall|k: int| 0 <= k < i ==> (#[trigger] r@[k]).name@ == self.schedules@[k].0@
                    && r@[k].schedule@ == self.schedules@[k].1.schedule@
                    && r@[k].queue_key@ == self.schedules@[k].1.queue_key@,
            decreases self.schedules@.len() - i,
        {
            let e = &self.schedules[i];
            let info = CronWorkerInfo { name: e.0.clone(), schedule: e.1.schedule.clone(), queue_key: e.1.queue_key.clone() };
            let ghost before = r@;
            r.push(info);
            assert forall|k: int| 0 <= k < i + 1 implies (#[trigger] r@[k]).name@ == self.schedules@[k].0@
                && r@[k].schedule@ == self.schedules@[k].1.schedule@
                && r@[k].queue_key@ == self.schedules@[k].1.queue_key@ by {
                if k < i {
                    assert(r@[k] == before[k]);
                }
            }
            i = i + 1;
        }
        proof {
            assert forall|k: int| 0 <= k < r@.len() implies #[trigger] self.cron_jobs().contains_key(r@[k].name@)
                && self.cron_jobs()[r@[k].name@].0 == r@[k].schedule@
                && self.cron_jobs()[r@[k].name@].1 == r@[k].queue_key@ by {
                let n = r@[k].name@;
                assert(self.schedules@[k].0@ == n);
                let c = choose|c: int| 0 <= c < self.schedules@.len() && self.schedules@[c].0@ == n;
                if c != k {
                    if c < k {
                        assert(self.schedules@[c].0@ != self.schedules@[k].0@);
                    } else {
                        assert(self.schedules@[k].0@ != self.schedules@[c].0@);
                    }
                }
            }
            assert forall|x: Seq<char>| #[trigger] self.cron_jobs().contains_key(x) implies exists|k: int| 0 <= k < r@.len() && r@[k].name@ == x by {
                let c = choose|c: int| 0 <= c < self.schedules@.len() && self.schedules@[c].0@ == x;
                assert(r@[c].name@ == x);
            }
            assert forall|a: int, b: int| 0 <= a < b < r@.len() implies r@[a].name@ != r@[b].name@ by {
                assert(r@[a].name@ == self.schedules@[a].0@);
                assert(r@[b].name@ == self.schedules@[b].0@);
            }
        }
        r
    }
}

} // verus!
