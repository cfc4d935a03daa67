//! Settings gathered before a storage pool is built.

use std::time::Duration;
use vstd::prelude::*;

verus! {

/// Pool timeouts: waiting for, creating and recycling a connection.
#[derive(Debug, Clone, Copy)]
pub struct StorageBuilderTimeouts {
    pub wait: Option<Duration>,
    pub create: Option<Duration>,
    pub recycle: Option<Duration>,
}

/// `Duration::from_millis(ms)`: the duration of `ms` milliseconds.
pub uninterp spec fn millis(ms: u64) -> Duration;

/// Calls `Duration::from_millis`; its result is named `millis`, which is
/// not spelled out here.
#[verifier::external_body]
fn duration_from_millis(ms: u64) -> (d: Duration)
    ensures
        d == millis(ms),
{
    Duration::from_millis(ms)
}

impl StorageBuilderTimeouts {
    /// The same timeout for all three.
    pub fn new(timeout: Duration) -> (t: Self)
        ensures
            t.wait == Some(timeout),
            t.create == Some(timeout),
            t.recycle == Some(timeout),
    {
        StorageBuilderTimeouts { wait: Some(timeout), create: Some(timeout), recycle: Some(timeout) }
    }
}

impl Default for StorageBuilderTimeouts {
    /// 300 ms for all three.
    fn default() -> (t: Self)
        ensures
            t.wait == Some(millis(300)),
            t.create == Some(millis(300)),
            t.recycle == Some(millis(300)),
    {
        let d = duration_from_millis(300);
        StorageBuilderTimeouts { wait: Some(d), create: Some(d), recycle: Some(d) }
    }
}

/// Pool size used when none is given.
pub const DEFAULT_MAX_POOL_SIZE: usize = 50;

/// Settings for building a storage: key namespace, pool size, timeouts.
#[derive(Debug)]
pub struct StorageBuilder {
    namespace: Option<String>,
    max_pool_size: Option<usize>,
    timeouts: Option<StorageBuilderTimeouts>,
}

impl StorageBuilder {
    pub closed spec fn namespace_spec(&self) -> Option<Seq<char>> {
        match self.namespace {
            Some(n) => Some(n@),
            None => None,
        }
    }

    pub closed spec fn max_pool_size_spec(&self) -> Option<usize> {
        self.max_pool_size
    }

    pub closed spec fn timeouts_spec(&self) -> Option<StorageBuilderTimeouts> {
        self.timeouts
    }

    /// Nothing set.
    pub fn new() -> (b: Self)
        ensures
            b.namespace_spec() is None,
            b.max_pool_size_spec() is None,
            b.timeouts_spec() is None,
    {
        StorageBuilder { namespace: None, max_pool_size: None, timeouts: None }
    }

    /// Sets the key namespace.
    pub fn namespace(self, namespace: String) -> (b: Self)
        ensures
            b.namespace_spec() == Some(namespace@),
            b.max_pool_size_spec() == self.max_pool_size_spec(),
            b.timeouts_spec() == self.timeouts_spec(),
    {
        StorageBuilder { namespace: Some(namespace), ..self }
    }

    /// Sets the largest number of pooled connections.
    pub fn max_pool_size(self, max_pool_size: usize) -> (b: Self)
        ensures
            b.max_pool_size_spec() == Some(max_pool_size),
            b.namespace_spec() == self.namespace_spec(),
            b.timeouts_spec() == self.timeouts_spec(),
    {
        StorageBuilder { max_pool_size: Some(max_pool_size), ..self }
    }

    /// Sets the pool timeouts.
    pub fn timeouts(self, timeouts: StorageBuilderTimeouts) -> (b: Self)
        ensures
            b.timeouts_spec() == Some(timeouts),
            b.namespace_spec() == self.namespace_spec(),
            b.max_pool_size_spec() == self.max_pool_size_spec(),
    {
        StorageBuilder { timeouts: Some(timeouts), ..self }
    }

    /// The namespace keys go under; the empty namespace when none is set.
    pub fn namespace_or_default(&self) -> (r: String)
        ensures
            r@ == match self.namespace_spec() {
                Some(n) => n,
                None => Seq::<char>::empty(),
            },
    {
        match &self.namespace {
            Some(n) => n.clone(),
            None => String::new(),
        }
    }

    /// The pool size to build with: the one set, or 50.
    pub fn effective_max_pool_size(&self) -> (r: usize)
        ensures
            r == match self.max_pool_size_spec() {
                Some(s) => s,
                None => DEFAULT_MAX_POOL_SIZE,
            },
    {
        match self.max_pool_size {
            Some(s) => s,
            None => DEFAULT_MAX_POOL_SIZE,
        }
    }

    /// The timeouts to build with: the ones set, or the defaults.
    pub fn effective_timeouts(&self) -> (r: StorageBuilderTimeouts)
        ensures
            self.timeouts_spec() is Some ==> r == self.timeouts_spec()->Some_0,
            self.timeouts_spec() is None ==> r.wait == Some(millis(300)) && r.create == Some(millis(300))
                && r.recycle == Some(millis(300)),
    {
        match self.timeouts {
            Some(t) => t,
            None => StorageBuilderTimeouts::default(),
        }
    }
}

impl Default for StorageBuilder {
    fn default() -> (b: Self)
        ensures
            b.namespace_spec() is None,
            b.max_pool_size_spec() is None,
            b.timeouts_spec() is None,
    {
        StorageBuilder::new()
    }
}

} // verus!
