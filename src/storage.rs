use vstd::prelude::*;

use crate::clock::now_ms;
use crate::rule_vector::{RuleVector, RuleVectorView};

verus! {

/// A rule's anchors as held in the hot cache, with their access times.
#[derive(Debug)]
pub struct CachedRuleVector {
    /// Pre-encoded anchors of the rule.
    pub anchors: RuleVector,
    /// When the entry was loaded, in milliseconds since the Unix epoch.
    pub loaded_at: u64,
    /// When the rule was last evaluated, in milliseconds since the Unix epoch.
    pub last_evaluated_at: u64,
}

/// The content of a `CachedRuleVector`.
pub struct CachedRuleVectorView {
    pub anchors: RuleVectorView,
    pub loaded_at: u64,
    pub last_evaluated_at: u64,
}

impl View for CachedRuleVector {
    type V = CachedRuleVectorView;

    open spec fn view(&self) -> CachedRuleVectorView {
        CachedRuleVectorView {
            anchors: self.anchors@,
            loaded_at: self.loaded_at,
            last_evaluated_at: self.last_evaluated_at,
        }
    }
}

impl CachedRuleVector {
    /// Wraps anchors loaded now.
    pub fn new(anchors: RuleVector) -> (r: CachedRuleVector)
        ensures
            r.anchors@ == anchors@,
            r.loaded_at == r.last_evaluated_at,
    {
        let now = now_ms();
        Self::new_at(anchors, now)
    }

    /// Wraps anchors loaded at time `now`.
    pub fn new_at(anchors: RuleVector, now: u64) -> (r: CachedRuleVector)
        ensures
            r@ == (CachedRuleVectorView {
                anchors: anchors@,
                loaded_at: now,
                last_evaluated_at: now,
            }),
    {
        CachedRuleVector { anchors, loaded_at: now, last_evaluated_at: now }
    }

    /// Records an evaluation now.
    pub fn mark_evaluated(&mut self)
        ensures
            final(self).anchors@ == old(self).anchors@,
            final(self).loaded_at == old(self).loaded_at,
    {
        let now = now_ms();
        self.mark_evaluated_at(now);
    }

    /// Records an evaluation at time `now`.
    pub fn mark_evaluated_at(&mut self, now: u64)
        ensures
            final(self)@ == (CachedRuleVectorView { last_evaluated_at: now, ..old(self)@ }),
    {
        self.last_evaluated_at = now;
    }
}

/// How many rules each storage tier holds, and how lookups fared.
#[derive(Debug, Clone, Copy, PartialEq, Eq, Structural)]
pub struct StorageStats {
    /// Number of rules in the hot cache.
    pub hot_rules: usize,
    /// Number of rules in warm storage.
    pub warm_rules: usize,
    /// Number of rules in cold storage.
    pub cold_rules: usize,
    /// Lookups answered by the hot tier.
    pub hot_hits: u64,
    /// Lookups answered by the warm tier.
    pub warm_hits: u64,
    /// Lookups answered by the cold tier.
    pub cold_hits: u64,
    /// Evictions from the hot cache.
    pub evictions: u64,
}

impl StorageStats {
    /// Statistics with every count zero.
    pub fn zero() -> (r: StorageStats)
        ensures
            r == (StorageStats {
                hot_rules: 0,
                warm_rules: 0,
                cold_rules: 0,
                hot_hits: 0,
                warm_hits: 0,
                cold_hits: 0,
                evictions: 0,
            }),
    {
        StorageStats {
            hot_rules: 0,
            warm_rules: 0,
            cold_rules: 0,
            hot_hits: 0,
            warm_hits: 0,
            cold_hits: 0,
            evictions: 0,
        }
    }
}

impl Default for StorageStats {
    fn default() -> (r: StorageStats)
        ensures
            r == StorageStats::zero_spec(),
    {
        StorageStats::zero()
    }
}

impl StorageStats {
    /// Statistics with every count zero.
    pub open spec fn zero_spec() -> StorageStats {
        StorageStats {
            hot_rules: 0,
            warm_rules: 0,
            cold_rules: 0,
            hot_hits: 0,
            warm_hits: 0,
            cold_hits: 0,
            evictions: 0,
        }
    }
}

/// The three storage tiers, fastest first.
#[derive(Debug, Clone, Copy, PartialEq, Eq, Structural)]
pub enum StorageTier {
    /// In-memory cache.
    Hot,
    /// Memory-mapped snapshot file.
    Warm,
    /// Embedded key/value database.
    Cold,
}

} // verus!
