//! Settings that can be changed while a download runs.

use vstd::prelude::*;

verus! {

/// The number of workers where the machine does not tell how many it can run.
pub const FALLBACK_WORKERS: u64 = 4;

/// The default time between two progress reports, in nanoseconds: 0.5 s.
pub const DEFAULT_UPDATE_INTERVAL: u64 = 500_000_000;

/// Settings of a running download.
#[derive(Debug, Clone, Copy, PartialEq, Eq, Structural)]
pub struct RuntimeConfig {
    /// The number of connections.
    pub workers: u64,
    /// The time between two progress reports, in nanoseconds.
    pub update_interval: u64,
    /// The speed limit in bytes per second.
    pub speed_limit: Option<u64>,
    /// The burst in bytes.
    pub burst: Option<u64>,
}

/// At least one worker.
pub open spec fn at_least_one(workers: u64) -> u64 {
    if workers >= 1 {
        workers
    } else {
        1
    }
}

/// The number of workers for what the machine says it can run at once.
pub open spec fn workers_for(parallelism: Option<u64>) -> u64 {
    match parallelism {
        Some(n) => at_least_one(n),
        None => FALLBACK_WORKERS,
    }
}

/// The number of workers for what the machine says it can run at once.
pub fn default_workers(parallelism: Option<u64>) -> (r: u64)
    ensures
        r == workers_for(parallelism),
        r >= 1,
{
    match parallelism {
        Some(n) => if n >= 1 {
            n
        } else {
            1
        },
        None => FALLBACK_WORKERS,
    }
}

impl RuntimeConfig {
    /// The defaults: as many workers as the machine can run, no limits.
    pub fn with_parallelism(parallelism: Option<u64>) -> (r: Self)
        ensures
            r == (RuntimeConfig {
                workers: workers_for(parallelism),
                update_interval: DEFAULT_UPDATE_INTERVAL,
                speed_limit: None,
                burst: None,
            }),
    {
        RuntimeConfig {
            workers: default_workers(parallelism),
            update_interval: DEFAULT_UPDATE_INTERVAL,
            speed_limit: None,
            burst: None,
        }
    }

    /// Sets the number of workers, at least 1.
    pub fn with_workers(self, workers: u64) -> (r: Self)
        ensures
            r == (RuntimeConfig { workers: at_least_one(workers), ..self }),
    {
        RuntimeConfig {
            workers: if workers >= 1 {
                workers
            } else {
                1
            },
            update_interval: self.update_interval,
            speed_limit: self.speed_limit,
            burst: self.burst,
        }
    }

    /// Sets the update interval; 0 is ignored.
    pub fn with_update_interval(self, interval: u64) -> (r: Self)
        ensures
            r == (RuntimeConfig {
                update_interval: if interval > 0 {
                    interval
                } else {
                    self.update_interval
                },
                ..self
            }),
    {
        RuntimeConfig {
            workers: self.workers,
            update_interval: if interval > 0 {
                interval
            } else {
                self.update_interval
            },
            speed_limit: self.speed_limit,
            burst: self.burst,
        }
    }
}

/// Puts new settings in place and gives the old ones back.
pub fn apply_config(shared: &mut RuntimeConfig, new: RuntimeConfig) -> (r: RuntimeConfig)
    ensures
        r == *old(shared),
        *final(shared) == new,
{
    let before: RuntimeConfig = *shared;
    *shared = new;
    before
}

/// There is always a worker: as many as are asked for, one if none is, and four where the machine does
/// not say how many it can run.
pub proof fn law_there_is_always_a_worker(workers: u64)
    ensures
        at_least_one(workers) >= 1,
        workers > 0 ==> at_least_one(workers) == workers && workers_for(Some(workers)) == workers,
        workers_for(Some(0)) == 1,
        workers_for(None) == 4,
{
}

} // verus!
