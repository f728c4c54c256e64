//! What the server says about itself.
use vstd::prelude::*;

pub mod dht_health;
pub mod logging;

verus! {

/// What a process uses.
#[derive(Debug, Clone, Copy, PartialEq, Eq, Structural)]
pub struct ProcessMemorySnapshot {
    pub pid: u32,
    pub rss_bytes: u64,
    pub virtual_memory_bytes: u64,
    pub thread_count: u64,
}

impl ProcessMemorySnapshot {
    /// What a process uses, from its resident set and its virtual size where
    /// they could be read; a process that could not be read uses nothing.
    pub fn of(pid: u32, memory: Option<(u64, u64)>, thread_count: u64) -> (s: Self)
        ensures
            s.pid == pid,
            s.thread_count == thread_count,
            (s.rss_bytes, s.virtual_memory_bytes) == match memory {
                Some(m) => m,
                None => (0u64, 0u64),
            },
    {
        let (rss_bytes, virtual_memory_bytes): (u64, u64) = match memory {
            Some(m) => m,
            None => (0, 0),
        };
        ProcessMemorySnapshot { pid, rss_bytes, virtual_memory_bytes, thread_count }
    }
}

} // verus!
