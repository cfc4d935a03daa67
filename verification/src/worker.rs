//! What a job type and a worker declare about themselves: the job trait
//! with its defaults, construction from a shared context, and the kind of
//! registration a worker asks for.

use vstd::prelude::*;

use crate::housekeeping::first_occurrences;
use crate::storage::JobConflictStrategy;
use crate::text::{chars_of, first_index_of, string_of, views_of};

verus! {

/// A job that can be enqueued. Implementors name the worker that runs it
/// and may override uniqueness, conflict handling, resurrection and
/// throttling.
pub trait Job: Send + Sync {
    /// The name of the worker that processes this job.
    fn worker_name() -> &'static str
        where Self: Sized
    ;

    /// The key under which at most one such job is kept; none by default.
    fn unique_id(&self) -> (r: Option<String>)
        default_ensures
            r is None,
    {
        None
    }

    /// What to do when a job with the same unique key exists; skip by
    /// default.
    fn on_conflict(&self) -> (r: JobConflictStrategy)
        default_ensures
            r == JobConflictStrategy::Skip,
    {
        JobConflictStrategy::Skip
    }

    /// Whether a job lost by a dead process is put back; yes by default.
    fn should_resurrect() -> (r: bool)
        where Self: Sized
        default_ensures
            r,
    {
        true
    }

    /// The throttle budget this job consumes; none by default.
    fn throttle_cost(&self) -> (r: Option<u64>)
        default_ensures
            r is None,
    {
        None
    }
}

/// Builds a value, such as a worker, from a shared context.
pub trait FromContext<T> {
    fn from_context(ctx: &T) -> Self
        where Self: Sized
    ;
}

/// A value handed to workers through the shared context.
#[derive(Debug, Clone)]
pub struct ContextValue<T: Clone + Send + Sync>(pub T);

impl<T: Clone + Send + Sync> ContextValue<T> {
    pub fn new(v: T) -> (r: Self)
        ensures
            r.0 == v,
    {
        ContextValue(v)
    }
}

/// How a worker is registered: as an ordinary worker, or as a cron
/// worker with its schedule, static queue and resurrection setting.
#[derive(Debug, Clone)]
pub enum WorkerConfigKind {
    Normal,
    Cron { schedule: String, queue_key: String, resurrect: bool },
}

/// The registration a worker asks for: cron when it declares a schedule
/// (it must then name a static queue), ordinary otherwise.
pub fn worker_config_kind(cron_schedule: Option<String>, static_queue_key: Option<String>, resurrect: bool) -> (k: WorkerConfigKind)
    requires
        cron_schedule is Some ==> static_queue_key is Some,
    ensures
        match cron_schedule {
            None => k is Normal,
            Some(s) => k == WorkerConfigKind::Cron { schedule: s, queue_key: static_queue_key->0, resurrect },
        },
{
    match cron_schedule {
        None => WorkerConfigKind::Normal,
        Some(schedule) => match static_queue_key {
            Some(queue_key) => WorkerConfigKind::Cron { schedule, queue_key, resurrect },
            None => WorkerConfigKind::Normal,
        },
    }
}

/// `char::is_alphanumeric`: whether a character is alphabetic or numeric
/// in Unicode.
pub uninterp spec fn alphanumeric(c: char) -> bool;

/// Calls `char::is_alphanumeric`; its result is the Unicode property named
/// by `alphanumeric`, which is not spelled out here.
#[verifier::external_body]
fn is_alphanumeric(c: char) -> (r: bool)
    ensures
        r == alphanumeric(c),
{
    c.is_alphanumeric()
}

/// The texts between `{` and the next `}` of a format string, in order
/// (an unclosed `{` takes the rest of the string).
pub open spec fn brace_contents(s: Seq<char>) -> Seq<Seq<char>>
    decreases s.len(),
{
    if s.len() == 0 {
        Seq::empty()
    } else if s[0] == '{' {
        let rest = s.skip(1);
        match first_index_of(rest, '}') {
            None => seq![rest],
            Some(j) => seq![rest.take(j)] + brace_contents(rest.skip(j + 1)),
        }
    } else {
        brace_contents(s.skip(1))
    }
}

/// A placeholder that names a field: not empty, made of alphanumeric
/// characters and `_`, and not starting with an ASCII digit.
pub open spec fn field_name(n: Seq<char>) -> bool {
    &&& n.len() > 0
    &&& forall|i: int| 0 <= i < n.len() ==> alphanumeric(#[trigger] n[i]) || n[i] == '_'
    &&& !('0' <= n[0] && n[0] <= '9')
}

/// The contents that name fields, in order.
pub open spec fn field_names(v: Seq<Seq<char>>) -> Seq<Seq<char>>
    decreases v.len(),
{
    if v.len() == 0 {
        Seq::empty()
    } else if field_name(v.last()) {
        field_names(v.drop_last()).push(v.last())
    } else {
        field_names(v.drop_last())
    }
}

/// The fields a format string refers to: its placeholders that name
/// fields, each once, in order of first appearance.
pub open spec fn format_placeholders(s: Seq<char>) -> Seq<Seq<char>> {
    first_occurrences(field_names(brace_contents(s)))
}

fn is_field_name(n: &Vec<char>) -> (r: bool)
    ensures
        r == field_name(n@),
{
    if n.len() == 0 {
        return false;
    }
    let mut i: usize = 0;
    while i < n.len()
        invariant
            i <= n@.len(),
            forall|k: int| 0 <= k < i ==> alphanumeric(#[trigger] n@[k]) || n@[k] == '_',
        decreases n@.len() - i,
    {
        let c = n[i];
        if !(is_alphanumeric(c) || c == '_') {
            return false;
        }
        i = i + 1;
    }
    !(n[0] >= '0' && n[0] <= '9')
}

/// The fields a format string refers to (see `format_placeholders`).
pub fn extract_format_placeholders(fmt: &str) -> (r: Vec<String>)
    ensures
        views_of(r@) == format_placeholders(fmt@),
{
    let cs = chars_of(fmt);
    let ghost s = cs@;
    let ghost all = brace_contents(s);
    let mut names: Vec<Vec<char>> = Vec::new();
    let mut i: usize = 0;
    assert(s.skip(0) =~= s);
    while i < cs.len()
        invariant
            s == cs@,
            i <= s.len(),
            names@.map_values(|n: Vec<char>| n@) + brace_contents(s.skip(i as int)) == all,
        decreases s.len() - i,
    {
        let ghost t = s.skip(i as int);
        let ghost done = names@.map_values(|n: Vec<char>| n@);
        if cs[i] == '{' {
            let mut name: Vec<char> = Vec::new();
            let mut j: usize = i + 1;
            while j < cs.len() && cs[j] != '}'
                invariant
                    s == cs@,
                    i < j <= s.len(),
                    name@ == s.subrange(i + 1, j as int),
                    forall|k: int| i + 1 <= k < j ==> s[k] != '}',
                decreases s.len() - j,
            {
                name.push(cs[j]);
                assert(s.subrange(i + 1, j + 1) =~= s.subrange(i + 1, j as int).push(s[j as int]));
                j = j + 1;
            }
            proof {
                let rest = t.skip(1);
                assert(rest =~= s.skip(i + 1));
                if j < s.len() {
                    let k = j - (i + 1);
                    assert(rest[k] == '}');
                    assert forall|m: int| 0 <= m < k implies rest[m] != '}' by {
                        assert(rest[m] == s[i + 1 + m]);
                    }
                    let c = choose|c: int| 0 <= c < rest.len() && rest[c] == '}' && forall|m: int| 0 <= m < c ==> rest[m] != '}';
                    if c < k {
                        assert(rest[c] == s[i + 1 + c]);
                    } else if c > k {
                        assert(rest[k] != '}');
                    }
                    assert(first_index_of(rest, '}') == Some(k));
                    assert(rest.take(k) =~= name@);
                    assert(rest.skip(k + 1) =~= s.skip(j + 1));
                    assert(brace_contents(t) == seq![name@] + brace_contents(s.skip(j + 1)));
                } else {
                    assert(!exists|c: int| 0 <= c < rest.len() && rest[c] == '}' && forall|m: int| 0 <= m < c ==> rest[m] != '}') by {
                        if exists|c: int| 0 <= c < rest.len() && rest[c] == '}' && forall|m: int| 0 <= m < c ==> rest[m] != '}' {
                            let c = choose|c: int| 0 <= c < rest.len() && rest[c] == '}' && forall|m: int| 0 <= m < c ==> rest[m] != '}';
                            assert(rest[c] == s[i + 1 + c]);
                        }
                    }
                    assert(rest =~= name@);
                    assert(brace_contents(t) == seq![name@]);
                    assert(s.skip(s.len() as int) =~= Seq::<char>::empty());
                }
            }
            let ghost nv = name@;
            names.push(name);
            proof {
                assert(names@.map_values(|n: Vec<char>| n@) =~= done.push(nv));
            }
            if j < cs.len() {
                i = j + 1;
            } else {
                i = j;
            }
        } else {
            proof {
                assert(t.skip(1) =~= s.skip(i + 1));
            }
            i = i + 1;
        }
    }
    proof {
        assert(s.skip(i as int) =~= Seq::<char>::empty());
        assert(names@.map_values(|n: Vec<char>| n@) =~= all);
    }
    let ghost nv = names@.map_values(|n: Vec<char>| n@);
    let mut out: Vec<String> = Vec::new();
    let mut k: usize = 0;
    while k < names.len()
        invariant
            k <= names@.len(),
            nv == names@.map_values(|n: Vec<char>| n@),
            nv == all,
            views_of(out@) == first_occurrences(field_names(nv.take(k as int))),
        decreases names@.len() - k,
    {
        proof {
            assert(nv.take(k + 1).drop_last() =~= nv.take(k as int));
            assert(nv.take(k + 1).last() == names@[k as int]@);
        }
        if is_field_name(&names[k]) {
            let candidate = string_of(&names[k]);
            let mut seen = false;
            let mut m: usize = 0;
            while m < out.len()
                invariant
                    m <= out@.len(),
                    !seen ==> forall|p: int| 0 <= p < m ==> views_of(out@)[p] != candidate@,
                    seen ==> views_of(out@).contains(candidate@),
                decreases out@.len() - m,
            {
                if crate::text::str_eq(out[m].as_str(), candidate.as_str()) {
                    assert(views_of(out@)[m as int] == candidate@);
                    seen = true;
                }
                m = m + 1;
            }
            let ghost before = views_of(out@);
            assert(!seen ==> !before.contains(candidate@)) by {
                if !seen && before.contains(candidate@) {
                    let p = choose|p: int| 0 <= p < before.len() && before[p] == candidate@;
                    assert(before[p] != candidate@);
                }
            }
            if !seen {
                out.push(candidate);
                assert(views_of(out@) =~= before.push(names@[k as int]@));
            }
        }
        proof {
            let pre = nv.take(k as int);
            let post = nv.take(k + 1);
            let y = nv[k as int];
            if field_name(y) {
                assert(field_names(post) == field_names(pre).push(y));
                assert(field_names(post).drop_last() =~= field_names(pre));
                assert(field_names(post).last() == y);
            } else {
                assert(field_names(post) == field_names(pre));
            }
        }
        k = k + 1;
    }
    assert(nv.take(nv.len() as int) =~= nv);
    out
}

} // verus!
