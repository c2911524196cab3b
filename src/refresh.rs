use vstd::prelude::*;

use crate::clock::now_ms;

verus! {

/// Default refresh interval: six hours, in milliseconds.
pub const DEFAULT_REFRESH_INTERVAL_MS: u64 = 21600000;

/// What one refresh did.
#[derive(Debug, Clone, Copy, PartialEq, Eq, Structural)]
pub struct RefreshStats {
    /// Number of rules reloaded from warm storage.
    pub rules_refreshed: usize,
    /// How long the refresh took, in milliseconds.
    pub duration_ms: u64,
    /// When the refresh ended, in milliseconds since the Unix epoch.
    pub timestamp: u64,
}

impl RefreshStats {
    pub open spec fn spec_new(rules: usize, start: u64, end: u64) -> RefreshStats {
        RefreshStats {
            rules_refreshed: rules,
            duration_ms: if end >= start {
                (end - start) as u64
            } else {
                0
            },
            timestamp: end,
        }
    }

    /// Statistics of a refresh of `rules` rules from `start` to `end`; a clock
    /// that went backwards gives a duration of 0.
    pub fn new(rules: usize, start: u64, end: u64) -> (r: RefreshStats)
        ensures
            r == RefreshStats::spec_new(rules, start, end),
    {
        RefreshStats {
            rules_refreshed: rules,
            duration_ms: if end >= start {
                end - start
            } else {
                0
            },
            timestamp: end,
        }
    }
}

/// How the periodic refresh runs.
#[derive(Debug, Clone, Copy, PartialEq, Eq, Structural)]
pub struct SchedulerConfig {
    /// Time between two refreshes, in milliseconds.
    pub refresh_interval_ms: u64,
    /// Whether the periodic refresh runs at all.
    pub enabled: bool,
}

impl Default for SchedulerConfig {
    /// Every six hours, enabled.
    fn default() -> (r: SchedulerConfig)
        ensures
            r.refresh_interval_ms == DEFAULT_REFRESH_INTERVAL_MS,
            r.enabled,
    {
        SchedulerConfig { refresh_interval_ms: DEFAULT_REFRESH_INTERVAL_MS, enabled: true }
    }
}

impl SchedulerConfig {
    /// The interval in whole seconds.
    pub fn refresh_interval_secs(&self) -> (r: u64)
        ensures
            r == self.refresh_interval_ms / 1000,
    {
        self.refresh_interval_ms / 1000
    }
}

/// The decisions of the periodic refresh: whether it runs, and when it last
/// succeeded. The waiting and the refresh itself are done by its caller.
#[derive(Debug)]
pub struct RefreshScheduler {
    config: SchedulerConfig,
    last_refresh_at: u64,
}

impl RefreshScheduler {
    pub closed spec fn spec_config(&self) -> SchedulerConfig {
        self.config
    }

    pub closed spec fn spec_last_refresh(&self) -> u64 {
        self.last_refresh_at
    }

    /// A scheduler whose last refresh counts as `now`.
    pub fn new_at(config: SchedulerConfig, now: u64) -> (r: RefreshScheduler)
        ensures
            r.spec_config() == config,
            r.spec_last_refresh() == now,
    {
        RefreshScheduler { config, last_refresh_at: now }
    }

    /// A scheduler whose last refresh counts as now.
    pub fn new(config: SchedulerConfig) -> (r: RefreshScheduler)
        ensures
            r.spec_config() == config,
    {
        let now = now_ms();
        Self::new_at(config, now)
    }

    pub fn config(&self) -> (r: SchedulerConfig)
        ensures
            r == self.spec_config(),
    {
        self.config
    }

    /// When the last refresh succeeded, or when the scheduler was made.
    pub fn last_refresh(&self) -> (r: u64)
        ensures
            r == self.spec_last_refresh(),
    {
        self.last_refresh_at
    }

    /// Whether the refresh loop runs; a disabled scheduler stops at once.
    pub fn start(&self) -> (r: bool)
        ensures
            r == self.spec_config().enabled,
    {
        self.config.enabled
    }

    /// Records the outcome of one refresh that ended at `now`: only a
    /// success moves the last refresh time.
    pub fn record_refresh(&mut self, succeeded: bool, now: u64)
        ensures
            final(self).spec_config() == old(self).spec_config(),
            final(self).spec_last_refresh() == if succeeded {
                now
            } else {
                old(self).spec_last_refresh()
            },
    {
        if succeeded {
            self.last_refresh_at = now;
        }
    }
}

} // verus!
