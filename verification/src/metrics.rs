//! Counters of what the server does.

use vstd::prelude::*;

verus! {

/// The counters as they stand.
#[derive(Debug, Clone, Copy, PartialEq, Eq, Structural)]
pub struct Counters {
    pub fast_path_count: u64,
    pub ivf_count: u64,
    pub fast_probe_count: u64,
    pub full_probe_count: u64,
    pub fast_probe_total_us: u64,
    pub full_probe_total_us: u64,
    pub request_total: u64,
}

/// The counters as they stood at some time.
#[derive(Debug, Clone, Copy, PartialEq, Eq, Structural)]
pub struct Snapshot {
    pub fast_path_count: u64,
    pub ivf_count: u64,
    pub fast_probe_count: u64,
    pub full_probe_count: u64,
    pub fast_probe_total_us: u64,
    pub full_probe_total_us: u64,
    pub request_total: u64,
}

/// Takes down every counter.
pub fn snapshot(counters: &Counters) -> (r: Snapshot)
    ensures
        r.fast_path_count == counters.fast_path_count,
        r.ivf_count == counters.ivf_count,
        r.fast_probe_count == counters.fast_probe_count,
        r.full_probe_count == counters.full_probe_count,
        r.fast_probe_total_us == counters.fast_probe_total_us,
        r.full_probe_total_us == counters.full_probe_total_us,
        r.request_total == counters.request_total,
{
    Snapshot {
        fast_path_count: counters.fast_path_count,
        ivf_count: counters.ivf_count,
        fast_probe_count: counters.fast_probe_count,
        full_probe_count: counters.full_probe_count,
        fast_probe_total_us: counters.fast_probe_total_us,
        full_probe_total_us: counters.full_probe_total_us,
        request_total: counters.request_total,
    }
}

} // verus!
