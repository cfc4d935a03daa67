//! Worker processes and the identifiers they are known by.

use vstd::prelude::*;

use crate::text::{chars_of, decimal, decimal_chars, string_of};

verus! {

/// A worker process as it reports itself in its heartbeats.
#[derive(Debug)]
pub struct Process {
    /// The hostname where the process is running.
    pub hostname: String,
    /// The process ID.
    pub pid: u32,
    /// Last heartbeat timestamp (Unix timestamp).
    pub heartbeat_at: i64,
    /// Process start timestamp (Unix timestamp).
    pub started_at: i64,
}

/// `<hostname>-<pid>`: the identifier a process is known by.
pub open spec fn process_id(hostname: Seq<char>, pid: u32) -> Seq<char> {
    hostname + seq!['-'] + decimal(pid as nat)
}

impl Process {
    /// Returns a unique identifier for the process.
    pub fn id(&self) -> (r: String)
        ensures
            r@ == process_id(self.hostname@, self.pid),
    {
        let mut v = chars_of(self.hostname.as_str());
        v.push('-');
        let d = decimal_chars(self.pid as u64);
        let mut i: usize = 0;
        while i < d.len()
            invariant
                i <= d@.len(),
                v@ == self.hostname@ + seq!['-'] + d@.take(i as int),
            decreases d@.len() - i,
        {
            v.push(d[i]);
            assert(d@.take(i + 1) =~= d@.take(i as int).push(d@[i as int]));
            i = i + 1;
        }
        assert(d@.take(d@.len() as int) =~= d@);
        string_of(&v)
    }
}

impl Process {
    /// A process as it reports itself in a heartbeat taken at
    /// `heartbeat_at`.
    pub fn current(hostname: String, pid: u32, started_at: i64, heartbeat_at: i64) -> (p: Process)
        ensures
            p.hostname == hostname,
            p.pid == pid,
            p.started_at == started_at,
            p.heartbeat_at == heartbeat_at,
    {
        Process { hostname, pid, heartbeat_at, started_at }
    }
}

} // verus!
