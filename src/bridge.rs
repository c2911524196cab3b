use vstd::prelude::*;

use crate::clock::now_ms;
use crate::error::BridgeError;
use crate::hot_cache::{lemma_insert_only_touches, saturating_sum, HotCache};
use crate::storage::CachedRuleVectorView;
use crate::refresh::RefreshStats;
use crate::rule_vector::{RuleVector, RuleVectorView};
use crate::storage::StorageStats;
use crate::table::{globals_of, holds_rule, rule_ids, scoped_to, RuleFamilyTable};
use crate::types::{LayerId, RuleDescriptor, RuleFamilyId, FAMILY_COUNT};
use crate::warm_storage::{
    image_refusal,
    lemma_lookup_found,
    lemma_lookup_member,
    lemma_lookup_unique,
    lookup,
    pairs_view,
    WarmStorage,
};
use crate::warm_file::warm_image;
use crate::warm_file::image_contents;

verus! {

/// Where the warm and cold stores live.
#[derive(Debug, Clone, PartialEq, Eq)]
pub struct StorageConfig {
    /// Path of the warm snapshot file.
    pub warm_storage_path: String,
    /// Path of the cold key/value database.
    pub cold_storage_path: String,
}

impl Default for StorageConfig {
    /// `./var/data/warm_storage.bin` and `./var/data/cold_storage.db`.
    fn default() -> (r: StorageConfig)
        ensures
            r.warm_storage_path@ == "./var/data/warm_storage.bin"@,
            r.cold_storage_path@ == "./var/data/cold_storage.db"@,
    {
        StorageConfig {
            warm_storage_path: String::from_str("./var/data/warm_storage.bin"),
            cold_storage_path: String::from_str("./var/data/cold_storage.db"),
        }
    }
}

/// Bridge-wide counts.
#[derive(Debug, Clone, Copy, PartialEq, Eq, Structural)]
pub struct BridgeStats {
    pub version: u64,
    pub total_tables: usize,
    pub tables_with_rules: usize,
    pub total_rules: usize,
    pub total_global_rules: usize,
    pub total_scoped_rules: usize,
    pub created_at: u64,
}

/// Counts of one table.
#[derive(Debug, Clone, Copy, PartialEq, Eq, Structural)]
pub struct TableStats {
    pub family_id: RuleFamilyId,
    pub layer_id: LayerId,
    pub version: u64,
    pub rule_count: usize,
    pub global_count: usize,
    pub scoped_count: usize,
}

/// Whether some table among `ts` holds a rule with id `id`.
pub open spec fn held_anywhere(ts: Seq<Seq<RuleDescriptor>>, id: Seq<char>) -> bool {
    exists|f: int| 0 <= f < ts.len() && holds_rule(#[trigger] ts[f], id)
}

/// `ts` with `d` appended to the table of its family.
pub open spec fn with_rule(ts: Seq<Seq<RuleDescriptor>>, d: RuleDescriptor) -> Seq<
    Seq<RuleDescriptor>,
> {
    ts.update(d.family_id.spec_index() as int, ts[d.family_id.spec_index() as int].push(d))
}

/// Adding `batch` one rule after another across the tables, stopping at the
/// first id already held anywhere: the tables then, and the refusal if any.
pub open spec fn bridge_batch(ts: Seq<Seq<RuleDescriptor>>, batch: Seq<RuleDescriptor>) -> (
    Seq<Seq<RuleDescriptor>>,
    Option<BridgeError>,
)
    decreases batch.len(),
{
    if batch.len() == 0 {
        (ts, None)
    } else if held_anywhere(ts, batch[0].rule_id@) {
        (ts, Some(BridgeError::Conflict))
    } else {
        bridge_batch(with_rule(ts, batch[0]), batch.drop_first())
    }
}

/// Rule ids are unique across all tables.
pub open spec fn ids_unique_across(ts: Seq<Seq<RuleDescriptor>>) -> bool {
    forall|f: int, g: int, i: int, j: int|
        0 <= f < ts.len() && 0 <= g < ts.len() && 0 <= i < ts[f].len() && 0 <= j < ts[g].len()
            && (f != g || i != j) ==> (#[trigger] ts[f][i]).rule_id@ != (#[trigger] ts[g][j]).rule_id@
}

/// `n`, or `usize::MAX` where it does not fit.
pub open spec fn capped(n: nat) -> usize {
    if n > usize::MAX {
        usize::MAX
    } else {
        n as usize
    }
}

fn capped_add(a: usize, b: usize) -> (r: usize)
    ensures
        forall|n: nat| a == capped(n) ==> r == #[trigger] capped((n + b) as nat),
{
    if a > usize::MAX - b {
        usize::MAX
    } else {
        a + b
    }
}

/// Rules in the first `k` tables.
pub open spec fn total_rules(ts: Seq<Seq<RuleDescriptor>>, k: nat) -> nat
    decreases k,
{
    if k == 0 {
        0
    } else {
        total_rules(ts, (k - 1) as nat) + ts[k - 1].len()
    }
}

/// Global rules in the first `k` tables.
pub open spec fn total_globals(ts: Seq<Seq<RuleDescriptor>>, k: nat) -> nat
    decreases k,
{
    if k == 0 {
        0
    } else {
        total_globals(ts, (k - 1) as nat) + globals_of(ts[k - 1]).len()
    }
}

/// How many of the first `k` tables hold a rule.
pub open spec fn nonempty_tables(ts: Seq<Seq<RuleDescriptor>>, k: nat) -> nat
    decreases k,
{
    if k == 0 {
        0
    } else {
        nonempty_tables(ts, (k - 1) as nat) + if ts[k - 1].len() > 0 {
            1nat
        } else {
            0nat
        }
    }
}


/// Every block in the hot cache has the fixed shape.
pub open spec fn hot_well_formed(h: HotCache) -> bool {
    forall|k: Seq<char>| #[trigger] h@.contains_key(k) ==> h@[k].anchors.well_formed()
}

/// Every hot entry is a warm entry.
pub open spec fn hot_within_warm(h: HotCache, w: WarmStorage) -> bool {
    forall|k: Seq<char>| #[trigger] h@.contains_key(k) ==> w@.contains((k, h@[k].anchors))
}

/// When warm ids are distinct and fit the hot capacity, every warm entry is
/// hot.
pub open spec fn warm_all_hot(h: HotCache, w: WarmStorage) -> bool {
    w@.map_values(|p: (Seq<char>, RuleVectorView)| p.0).no_duplicates() && w@.len()
        <= h.spec_capacity() ==> forall|j: int|
        0 <= j < w@.len() ==> h@.contains_key((#[trigger] w@[j]).0) && h@[w@[j].0].anchors
            == w@[j].1
}

proof fn lemma_hot_within_warm_well_formed(h: HotCache, w: WarmStorage)
    requires
        w.wf(),
        hot_within_warm(h, w),
    ensures
        hot_well_formed(h),
{
    w.lemma_image_contents();
    assert forall|k: Seq<char>| #[trigger] h@.contains_key(k) implies h@[k].anchors.well_formed() by {
        let j = choose|j: int| 0 <= j < w@.len() && w@[j] == (k, h@[k].anchors);
        assert(w@[j].1.well_formed());
    }
}

proof fn lemma_insert_keeps_well_formed(
    old: HotCache,
    new: HotCache,
    id: Seq<char>,
    anchors: RuleVectorView,
    r: Result<(), BridgeError>,
)
    requires
        hot_well_formed(old),
        anchors.well_formed(),
        exists|now: u64|
            #[trigger] HotCache::insert_outcome(
                old,
                new,
                id,
                CachedRuleVectorView { anchors: anchors, loaded_at: now, last_evaluated_at: now },
                r,
            ),
    ensures
        hot_well_formed(new),
{
    let now = choose|now: u64|
        #[trigger] HotCache::insert_outcome(
            old,
            new,
            id,
            CachedRuleVectorView { anchors: anchors, loaded_at: now, last_evaluated_at: now },
            r,
        );
    lemma_insert_only_touches(
        old,
        new,
        id,
        CachedRuleVectorView { anchors: anchors, loaded_at: now, last_evaluated_at: now },
        r,
    );
}

/// Adding `d` keeps every id held and holds `d`'s id.
pub proof fn lemma_with_rule_holds(ts: Seq<Seq<RuleDescriptor>>, d: RuleDescriptor, id: Seq<char>)
    requires
        ts.len() == FAMILY_COUNT,
    ensures
        held_anywhere(with_rule(ts, d), d.rule_id@),
        held_anywhere(ts, id) ==> held_anywhere(with_rule(ts, d), id),
        with_rule(ts, d).len() == FAMILY_COUNT,
{
    let f = d.family_id.spec_index() as int;
    let nts = with_rule(ts, d);
    assert(rule_ids(nts[f])[ts[f].len() as int] == d.rule_id@);
    assert(holds_rule(nts[f], d.rule_id@));
    if held_anywhere(ts, id) {
        let g = choose|g: int| 0 <= g < ts.len() && holds_rule(#[trigger] ts[g], id);
        let i = choose|i: int| 0 <= i < rule_ids(ts[g]).len() && rule_ids(ts[g])[i] == id;
        assert(nts[g][i] == ts[g][i]);
        assert(rule_ids(nts[g])[i] == id);
        assert(holds_rule(nts[g], id));
    }
}

/// The fourteen family tables, the version counters and the tiered anchor
/// store.
pub struct Bridge {
    tables: Vec<RuleFamilyTable>,
    active_version: u64,
    staged_version: Option<u64>,
    created_at: u64,
    hot_cache: HotCache,
    warm_storage: WarmStorage,
    storage_config: StorageConfig,
}

impl Bridge {
    /// The rules of each family, in family index order.
    pub closed spec fn spec_tables(&self) -> Seq<Seq<RuleDescriptor>> {
        Seq::new(self.tables@.len(), |i: int| self.tables@[i]@)
    }

    /// The version of each table, in family index order.
    pub closed spec fn spec_table_versions(&self) -> Seq<u64> {
        Seq::new(self.tables@.len(), |i: int| self.tables@[i].spec_version())
    }

    pub closed spec fn spec_version(&self) -> u64 {
        self.active_version
    }

    pub closed spec fn spec_staged(&self) -> Option<u64> {
        self.staged_version
    }

    pub closed spec fn spec_created_at(&self) -> u64 {
        self.created_at
    }

    pub closed spec fn spec_hot(&self) -> HotCache {
        self.hot_cache
    }

    pub closed spec fn spec_warm(&self) -> WarmStorage {
        self.warm_storage
    }

    /// Well-formed: fourteen tables with ids unique across all of them,
    /// well-formed hot cache and warm storage, every cached block of the
    /// fixed shape.
    pub open spec fn wf(&self) -> bool {
        &&& self.spec_tables().len() == FAMILY_COUNT
        &&& ids_unique_across(self.spec_tables())
        &&& self.spec_hot().wf()
        &&& self.spec_hot().spec_capacity() > 0
        &&& self.spec_warm().wf()
        &&& hot_well_formed(self.spec_hot())
        &&& self.inv()
    }

    /// Each table is well-formed and sits at its family's index.
    pub closed spec fn inv(&self) -> bool {
        &&& self.tables@.len() == FAMILY_COUNT
        &&& forall|i: int|
            0 <= i < FAMILY_COUNT ==> (#[trigger] self.tables@[i]).wf() && self.tables@[i].spec_family().spec_index()
                == i
        &&& ids_unique_across(self.spec_tables())
        &&& self.hot_cache.wf()
        &&& self.hot_cache.spec_capacity() > 0
        &&& self.warm_storage.wf()
    }

    /// A bridge with empty tables over the warm file `warm_file` (`None`
    /// where there is none yet), created at time `created_at`. The warm
    /// entries are loaded into the hot cache.
    pub fn new_at(storage_config: StorageConfig, warm_file: Option<Vec<u8>>, created_at: u64) -> (r:
        Result<Bridge, BridgeError>)
        ensures
            match warm_file {
                Some(b) => match image_refusal(b@) {
                    Some(e) => r == Err::<Bridge, BridgeError>(e),
                    None => r is Ok,
                },
                None => r is Ok,
            },
            r matches Ok(br) ==> {
                &&& br.wf()
                &&& br.spec_version() == 0
                &&& br.spec_staged() is None
                &&& br.spec_created_at() == created_at
                &&& forall|f: int| 0 <= f < FAMILY_COUNT ==> (#[trigger] br.spec_tables()[f]).len() == 0
                &&& (warm_file matches Some(b) ==> Some(br.spec_warm()@) == image_contents(b@))
                &&& warm_file is None ==> br.spec_warm()@.len() == 0
                &&& hot_within_warm(br.spec_hot(), br.spec_warm())
                &&& warm_all_hot(br.spec_hot(), br.spec_warm())
            },
    {
        let warm_storage = match WarmStorage::open(warm_file) {
            Ok(w) => w,
            Err(e) => return Err(e),
        };
        let families = RuleFamilyId::all();
        let mut tables: Vec<RuleFamilyTable> = Vec::new();
        let mut i: usize = 0;
        while i < families.len()
            invariant
                i <= families@.len() == FAMILY_COUNT,
                tables@.len() == i,
                forall|f: int| 0 <= f < FAMILY_COUNT ==> (#[trigger] families@[f]).spec_index() == f,
                forall|j: int|
                    0 <= j < i ==> (#[trigger] tables@[j]).wf() && tables@[j].spec_family().spec_index()
                        == j && tables@[j]@.len() == 0,
            decreases families@.len() - i,
        {
            tables.push(RuleFamilyTable::new(families[i]));
            i = i + 1;
        }
        let mut hot_cache = HotCache::new();
        let anchors = warm_storage.load_anchors().unwrap();
        hot_cache.refill_at(&anchors, created_at);
        proof {
            assert forall|k: Seq<char>| #[trigger]
                hot_cache@.contains_key(k) implies warm_storage@.contains(
                (k, hot_cache@[k].anchors),
            ) by {
                let j = choose|j: int|
                    0 <= j < anchors@.len() && (#[trigger] pairs_view(anchors@)[j]) == (
                        k,
                        hot_cache@[k].anchors,
                    );
                assert(warm_storage@[j] == pairs_view(anchors@)[j]);
            }
            lemma_hot_within_warm_well_formed(hot_cache, warm_storage);
        }
        let br = Bridge {
            tables,
            active_version: 0,
            staged_version: None,
            created_at,
            hot_cache,
            warm_storage,
            storage_config,
        };
        assert(forall|f: int| 0 <= f < FAMILY_COUNT ==> (#[trigger] br.spec_tables()[f]).len() == 0);
        Ok(br)
    }

    /// `new_at`, created now.
    pub fn new(storage_config: StorageConfig, warm_file: Option<Vec<u8>>) -> (r: Result<
        Bridge,
        BridgeError,
    >)
        ensures
            match warm_file {
                Some(b) => match image_refusal(b@) {
                    Some(e) => r == Err::<Bridge, BridgeError>(e),
                    None => r is Ok,
                },
                None => r is Ok,
            },
            r matches Ok(br) ==> {
                &&& br.wf()
                &&& br.spec_version() == 0
                &&& br.spec_staged() is None
                &&& forall|f: int| 0 <= f < FAMILY_COUNT ==> (#[trigger] br.spec_tables()[f]).len() == 0
                &&& (warm_file matches Some(b) ==> Some(br.spec_warm()@) == image_contents(b@))
                &&& warm_file is None ==> br.spec_warm()@.len() == 0
                &&& hot_within_warm(br.spec_hot(), br.spec_warm())
                &&& warm_all_hot(br.spec_hot(), br.spec_warm())
            },
    {
        let now = now_ms();
        Self::new_at(storage_config, warm_file, now)
    }

    /// The active version.
    pub fn version(&self) -> (r: u64)
        ensures
            r == self.spec_version(),
    {
        self.active_version
    }

    pub fn staged_version(&self) -> (r: Option<u64>)
        ensures
            r == self.spec_staged(),
    {
        self.staged_version
    }

    pub fn created_at(&self) -> (r: u64)
        ensures
            r == self.spec_created_at(),
    {
        self.created_at
    }

    pub closed spec fn spec_storage_config(&self) -> StorageConfig {
        self.storage_config
    }

    /// The storage paths the bridge was made with.
    pub fn storage_config(&self) -> (r: &StorageConfig)
        ensures
            *r == self.spec_storage_config(),
    {
        &self.storage_config
    }

    /// Number of family tables: always fourteen.
    pub fn table_count(&self) -> (r: usize)
        requires
            self.wf(),
        ensures
            r == FAMILY_COUNT,
    {
        self.tables.len()
    }

    /// Every family, in index order.
    pub fn family_ids(&self) -> (r: Vec<RuleFamilyId>)
        ensures
            r@.len() == FAMILY_COUNT,
            forall|i: int| 0 <= i < FAMILY_COUNT ==> (#[trigger] r@[i]).spec_index() == i,
    {
        RuleFamilyId::all()
    }

    /// The table of `family_id`.
    pub fn get_table(&self, family_id: &RuleFamilyId) -> (r: &RuleFamilyTable)
        requires
            self.wf(),
        ensures
            r.wf(),
            r.spec_family() == *family_id,
            r@ == self.spec_tables()[family_id.spec_index() as int],
    {
        let i = family_id.index();
        proof {
            crate::types::lemma_family_index_injective(
                self.tables@[i as int].spec_family(),
                *family_id,
            );
        }
        &self.tables[i]
    }

    /// The two families of layer `layer_id`, in index order.
    pub fn get_tables_by_layer(&self, layer_id: &LayerId) -> (r: Vec<RuleFamilyId>)
        ensures
            r@.len() == 2,
            r@[0].spec_layer() == *layer_id,
            r@[1].spec_layer() == *layer_id,
            r@[0].spec_index() < r@[1].spec_index(),
            forall|f: RuleFamilyId| f.spec_layer() == *layer_id ==> f == r@[0] || f == r@[1],
    {
        let r = match layer_id {
            LayerId::System => vec![RuleFamilyId::SystemPolicy, RuleFamilyId::SystemIdentity],
            LayerId::Input => vec![RuleFamilyId::InputSchema, RuleFamilyId::InputSanitize],
            LayerId::Planner => vec![RuleFamilyId::PlannerIntent, RuleFamilyId::PlannerScope],
            LayerId::ModelIo => vec![RuleFamilyId::ModelPrompt, RuleFamilyId::ModelOutput],
            LayerId::ToolGateway => vec![RuleFamilyId::ToolWhitelist, RuleFamilyId::ToolParameter],
            LayerId::Retrieval => vec![
                RuleFamilyId::RetrievalSource,
                RuleFamilyId::RetrievalDocument,
            ],
            LayerId::Egress => vec![RuleFamilyId::EgressDestination, RuleFamilyId::EgressData],
        };
        r
    }

    fn bump_version(&mut self)
        ensures
            final(self).active_version == saturating_sum(old(self).active_version, 1),
            final(self).tables == old(self).tables,
            final(self).staged_version == old(self).staged_version,
            final(self).created_at == old(self).created_at,
            final(self).hot_cache == old(self).hot_cache,
            final(self).warm_storage == old(self).warm_storage,
    {
        self.active_version = if self.active_version < u64::MAX {
            self.active_version + 1
        } else {
            self.active_version
        };
    }

    /// Whether any table holds `rule_id`.
    fn holds_anywhere(&self, rule_id: &str) -> (r: bool)
        requires
            self.wf(),
        ensures
            r == held_anywhere(self.spec_tables(), rule_id@),
    {
        let mut i: usize = 0;
        while i < self.tables.len()
            invariant
                self.wf(),
                i <= FAMILY_COUNT,
                forall|f: int| 0 <= f < i ==> !holds_rule(#[trigger] self.spec_tables()[f], rule_id@),
            decreases FAMILY_COUNT - i,
        {
            if self.tables[i].find_rule(rule_id).is_some() {
                assert(holds_rule(self.spec_tables()[i as int], rule_id@));
                return true;
            }
            i = i + 1;
        }
        false
    }

    /// What `add_rule(rule)` does to a bridge, given its result `r`.
    pub open spec fn add_rule_outcome(
        old: Bridge,
        new: Bridge,
        rule: RuleDescriptor,
        r: Result<(), BridgeError>,
    ) -> bool {
        &&& new.wf()
        &&& if held_anywhere(old.spec_tables(), rule.rule_id@) {
            &&& r == Err::<(), BridgeError>(BridgeError::Conflict)
            &&& new.spec_tables() == old.spec_tables()
            &&& new.spec_version() == old.spec_version()
        } else {
            &&& r is Ok
            &&& new.spec_tables() == with_rule(old.spec_tables(), rule)
            &&& held_anywhere(new.spec_tables(), rule.rule_id@)
            &&& new.spec_version() == saturating_sum(old.spec_version(), 1)
        }
        &&& new.spec_staged() == old.spec_staged()
        &&& new.spec_hot() == old.spec_hot()
        &&& new.spec_warm() == old.spec_warm()
    }

    /// Adds `rule` to its family's table and bumps the version; fails with
    /// `Conflict`, changing nothing, if any table already holds its id.
    pub fn add_rule(&mut self, rule: RuleDescriptor) -> (r: Result<(), BridgeError>)
        requires
            old(self).wf(),
        ensures
            Bridge::add_rule_outcome(*old(self), *final(self), rule, r),
    {
        if self.holds_anywhere(rule.rule_id.as_str()) {
            return Err(BridgeError::Conflict);
        }
        let ghost rr = rule;
        self.insert_new(rule);
        proof {
            lemma_with_rule_holds(old(self).spec_tables(), rr, rr.rule_id@);
        }
        self.bump_version();
        Ok(())
    }

    /// Appends a rule whose id no table holds to its family's table.
    fn insert_new(&mut self, rule: RuleDescriptor)
        requires
            old(self).wf(),
            !held_anywhere(old(self).spec_tables(), rule.rule_id@),
        ensures
            final(self).wf(),
            final(self).spec_tables() == with_rule(old(self).spec_tables(), rule),
            final(self).active_version == old(self).active_version,
            final(self).staged_version == old(self).staged_version,
            final(self).created_at == old(self).created_at,
            final(self).hot_cache == old(self).hot_cache,
            final(self).warm_storage == old(self).warm_storage,
    {
        let ghost ts = self.spec_tables();
        let f = rule.family_id.index();
        proof {
            crate::types::lemma_family_index_injective(
                self.tables@[f as int].spec_family(),
                rule.family_id,
            );
            assert(!holds_rule(ts[f as int], rule.rule_id@));
        }
        let ghost rr = rule;
        let res = self.tables[f].add_rule(rule);
        proof {
            let nts = self.spec_tables();
            assert(nts =~= with_rule(ts, rr));
            assert forall|i: int|
                0 <= i < FAMILY_COUNT implies (#[trigger] self.tables@[i]).wf()
                && self.tables@[i].spec_family().spec_index() == i by {}
            assert forall|a: int, b: int, i: int, j: int|
                0 <= a < nts.len() && 0 <= b < nts.len() && 0 <= i < nts[a].len() && 0 <= j
                    < nts[b].len() && (a != b || i != j) implies (#[trigger] nts[a][i]).rule_id@
                != (#[trigger] nts[b][j]).rule_id@ by {
                let last_a = a == f && i == ts[a].len();
                let last_b = b == f && j == ts[b].len();
                if last_a && !last_b {
                    assert(nts[b][j] == ts[b][j]);
                    assert(rule_ids(ts[b])[j] == ts[b][j].rule_id@);
                    assert(holds_rule(ts[b], nts[b][j].rule_id@));
                } else if last_b && !last_a {
                    assert(nts[a][i] == ts[a][i]);
                    assert(rule_ids(ts[a])[i] == ts[a][i].rule_id@);
                    assert(holds_rule(ts[a], nts[a][i].rule_id@));
                } else if !last_a && !last_b {
                    assert(nts[a][i] == ts[a][i]);
                    assert(nts[b][j] == ts[b][j]);
                }
            }
        }
    }

    /// What an install of `rule` with `anchors` does before the warm file is
    /// rewritten: nothing when the block is misshapen or the id is held,
    /// else the rule joins its table and the block the hot cache (one
    /// `insert`, with any eviction that brings).
    pub open spec fn install_staged(
        old: Bridge,
        new: Bridge,
        rule: RuleDescriptor,
        anchors: RuleVectorView,
    ) -> bool {
        &&& new.wf()
        &&& new.spec_version() == old.spec_version()
        &&& new.spec_staged() == old.spec_staged()
        &&& new.spec_warm() == old.spec_warm()
        &&& if !anchors.well_formed() || held_anywhere(old.spec_tables(), rule.rule_id@) {
            &&& new.spec_tables() == old.spec_tables()
            &&& new.spec_hot() == old.spec_hot()
        } else {
            &&& new.spec_tables() == with_rule(old.spec_tables(), rule)
            &&& exists|now: u64|
                #[trigger] HotCache::insert_outcome(
                    old.spec_hot(),
                    new.spec_hot(),
                    rule.rule_id@,
                    CachedRuleVectorView { anchors, loaded_at: now, last_evaluated_at: now },
                    Ok(()),
                )
            &&& new.spec_hot()@.contains_key(rule.rule_id@)
            &&& new.spec_hot()@[rule.rule_id@].anchors == anchors
        }
    }

    /// First half of an install: checks `anchors` and the id, adds the rule
    /// to its table and the block to the hot cache, and returns the warm
    /// storage holding the new hot-cache snapshot. The bridge's warm storage
    /// and version stay as they were until `finish_install`, which the
    /// caller runs once the returned image is durably written.
    ///
    /// Fails with `Serialization` on a misshapen block and with `Conflict`
    /// when any table holds the id, changing nothing; and with
    /// `Serialization` when the snapshot does not fit a `u64` offset, after
    /// the table and hot cache took the rule.
    pub fn begin_install(&mut self, rule: RuleDescriptor, anchors: RuleVector) -> (r: Result<
        WarmStorage,
        BridgeError,
    >)
        requires
            old(self).wf(),
        ensures
            Bridge::install_staged(*old(self), *final(self), rule, anchors@),
            !anchors@.well_formed() ==> r == Err::<WarmStorage, BridgeError>(
                BridgeError::Serialization,
            ),
            anchors@.well_formed() && held_anywhere(old(self).spec_tables(), rule.rule_id@) ==> r
                == Err::<WarmStorage, BridgeError>(BridgeError::Conflict),
            anchors@.well_formed() && !held_anywhere(old(self).spec_tables(), rule.rule_id@) ==> {
                &&& r is Ok <==> warm_image(final(self).spec_hot().spec_entries()).len() <= u64::MAX
                &&& r is Err ==> r == Err::<WarmStorage, BridgeError>(BridgeError::Serialization)
            },
            r matches Ok(w) ==> {
                &&& w.wf()
                &&& w@ == final(self).spec_hot().spec_entries()
                &&& w.spec_image() == warm_image(final(self).spec_hot().spec_entries())
            },
    {
        if !anchors.is_well_formed() {
            return Err(BridgeError::Serialization);
        }
        if self.holds_anywhere(rule.rule_id.as_str()) {
            return Err(BridgeError::Conflict);
        }
        let id = rule.rule_id.clone();
        let ghost a = anchors@;
        let ghost old_hot = self.hot_cache;
        self.insert_new(rule);
        let r = self.hot_cache.insert(id, anchors);
        proof {
            lemma_insert_keeps_well_formed(old_hot, self.hot_cache, rule.rule_id@, a, r);
            assert(old_hot.spec_capacity() > 0);
            assert(r is Ok);
            let now = choose|now: u64|
                #[trigger] HotCache::insert_outcome(
                    old_hot,
                    self.hot_cache,
                    rule.rule_id@,
                    CachedRuleVectorView { anchors: a, loaded_at: now, last_evaluated_at: now },
                    r,
                );
            crate::hot_cache::lemma_outcome_of_ok(
                old_hot,
                self.hot_cache,
                rule.rule_id@,
                CachedRuleVectorView { anchors: a, loaded_at: now, last_evaluated_at: now },
                r,
            );
        }
        let snapshot = self.hot_cache.snapshot();
        proof {
            self.hot_cache.lemma_entries();
            assert forall|i: int| 0 <= i < pairs_view(snapshot@).len() implies (
            #[trigger] pairs_view(snapshot@)[i]).1.well_formed() by {
                assert(self.hot_cache@.contains_key(self.hot_cache.spec_entries()[i].0));
            }
        }
        let mut w = WarmStorage::open(None).unwrap();
        match w.write_anchors(snapshot) {
            Ok(()) => Ok(w),
            Err(e) => Err(e),
        }
    }

    /// Second half of an install: makes `warm` (from `begin_install`, now
    /// written out) the bridge's warm storage and bumps the version.
    pub fn finish_install(&mut self, warm: WarmStorage)
        requires
            old(self).wf(),
            warm.wf(),
        ensures
            final(self).wf(),
            final(self).spec_warm() == warm,
            final(self).spec_version() == saturating_sum(old(self).spec_version(), 1),
            final(self).spec_tables() == old(self).spec_tables(),
            final(self).spec_hot() == old(self).spec_hot(),
            final(self).spec_staged() == old(self).spec_staged(),
    {
        self.warm_storage = warm;
        self.bump_version();
    }

    /// Adds `rule`, caches `anchors` for it, rewrites the in-memory warm
    /// snapshot from the hot cache and bumps the version: `begin_install`
    /// then `finish_install`, with nothing written in between.
    pub fn add_rule_with_anchors(&mut self, rule: RuleDescriptor, anchors: RuleVector) -> (r:
        Result<(), BridgeError>)
        requires
            old(self).wf(),
        ensures
            final(self).wf(),
            final(self).spec_tables() == if !anchors@.well_formed() || held_anywhere(
                old(self).spec_tables(),
                rule.rule_id@,
            ) {
                old(self).spec_tables()
            } else {
                with_rule(old(self).spec_tables(), rule)
            },
            final(self).spec_staged() == old(self).spec_staged(),
            !anchors@.well_formed() ==> r == Err::<(), BridgeError>(BridgeError::Serialization)
                && final(self).spec_hot() == old(self).spec_hot() && final(self).spec_warm() == old(
                self,
            ).spec_warm() && final(self).spec_version() == old(self).spec_version(),
            anchors@.well_formed() && held_anywhere(old(self).spec_tables(), rule.rule_id@) ==> r
                == Err::<(), BridgeError>(BridgeError::Conflict) && final(self).spec_hot() == old(
                self,
            ).spec_hot() && final(self).spec_warm() == old(self).spec_warm()
                && final(self).spec_version() == old(self).spec_version(),
            anchors@.well_formed() && !held_anywhere(old(self).spec_tables(), rule.rule_id@) ==> {
                &&& exists|now: u64|
                    #[trigger] HotCache::insert_outcome(
                        old(self).spec_hot(),
                        final(self).spec_hot(),
                        rule.rule_id@,
                        CachedRuleVectorView {
                            anchors: anchors@,
                            loaded_at: now,
                            last_evaluated_at: now,
                        },
                        Ok(()),
                    )
                &&& final(self).spec_hot()@.contains_key(rule.rule_id@)
                &&& final(self).spec_hot()@[rule.rule_id@].anchors == anchors@
                &&& r is Ok <==> warm_image(final(self).spec_hot().spec_entries()).len()
                    <= u64::MAX
                &&& r is Ok ==> {
                    &&& final(self).spec_version() == saturating_sum(old(self).spec_version(), 1)
                    &&& final(self).spec_warm()@ == final(self).spec_hot().spec_entries()
                    &&& final(self).spec_warm()@.map_values(|p: (Seq<char>, RuleVectorView)| p.0).no_duplicates()
                    &&& lookup(final(self).spec_warm()@, rule.rule_id@) == Some(anchors@)
                }
                &&& r is Err ==> r == Err::<(), BridgeError>(BridgeError::Serialization)
                    && final(self).spec_version() == old(self).spec_version()
                    && final(self).spec_warm() == old(self).spec_warm()
            },
    {
        match self.begin_install(rule, anchors) {
            Ok(w) => {
                proof {
                    self.hot_cache.lemma_entries();
                    let e = self.hot_cache.spec_entries();
                    let j = choose|j: int|
                        0 <= j < e.len() && e[j] == (rule.rule_id@, self.hot_cache@[rule.rule_id@].anchors);
                    lemma_lookup_unique(e, j);
                }
                self.finish_install(w);
                Ok(())
            },
            Err(e) => Err(e),
        }
    }

    /// The anchors of `rule_id`: from the hot cache, else from warm storage,
    /// in which case they are promoted into the hot cache.
    pub fn get_rule_anchors(&mut self, rule_id: &str) -> (r: Option<RuleVector>)
        requires
            old(self).wf(),
        ensures
            final(self).wf(),
            old(self).spec_hot()@.contains_key(rule_id@) ==> (r matches Some(v) && v@ == old(
                self,
            ).spec_hot()@[rule_id@].anchors) && final(self).spec_hot() == old(self).spec_hot(),
            !old(self).spec_hot()@.contains_key(rule_id@) ==> match lookup(
                old(self).spec_warm()@,
                rule_id@,
            ) {
                Some(w) => (r matches Some(v) && v@ == w && final(self).spec_hot()@.contains_key(
                    rule_id@,
                ) && final(self).spec_hot()@[rule_id@].anchors == w),
                None => r is None && final(self).spec_hot() == old(self).spec_hot(),
            },
            hot_within_warm(old(self).spec_hot(), old(self).spec_warm()) && old(
                self,
            ).spec_warm()@.map_values(|p: (Seq<char>, RuleVectorView)| p.0).no_duplicates() ==> match lookup(
                old(self).spec_warm()@,
                rule_id@,
            ) {
                Some(w) => r matches Some(v) && v@ == w,
                None => r is None,
            },
            final(self).spec_tables() == old(self).spec_tables(),
            final(self).spec_version() == old(self).spec_version(),
            final(self).spec_staged() == old(self).spec_staged(),
            final(self).spec_warm() == old(self).spec_warm(),
    {
        match self.hot_cache.get(rule_id) {
            Some(v) => {
                proof {
                    if hot_within_warm(self.hot_cache, self.warm_storage)
                        && self.warm_storage@.map_values(
                        |p: (Seq<char>, RuleVectorView)| p.0,
                    ).no_duplicates() {
                        lemma_lookup_member(self.warm_storage@, rule_id@, v@);
                    }
                }
                return Some(v);
            },
            None => {},
        }
        match self.warm_storage.get(rule_id) {
            Ok(Some(v)) => {
                let copy = v.duplicate();
                let id = crate::text::to_owned_string(rule_id);
                let ghost old_hot = self.hot_cache;
                proof {
                    lemma_lookup_found(self.warm_storage@, rule_id@);
                    self.warm_storage.lemma_image_contents();
                    let j = choose|j: int|
                        0 <= j < self.warm_storage@.len() && self.warm_storage@[j] == (
                            rule_id@,
                            v@,
                        );
                    assert(self.warm_storage@[j].1.well_formed());
                }
                let r = self.hot_cache.insert(id, copy);
                proof {
                    lemma_insert_keeps_well_formed(old_hot, self.hot_cache, rule_id@, v@, r);
                }
                Some(v)
            },
            _ => None,
        }
    }

    /// Puts a block found outside the bridge (in cold storage) into the hot
    /// cache, if it has the fixed shape; says whether it did.
    pub fn promote(&mut self, rule_id: String, anchors: RuleVector) -> (r: bool)
        requires
            old(self).wf(),
        ensures
            final(self).wf(),
            r == anchors@.well_formed(),
            r ==> final(self).spec_hot()@.contains_key(rule_id@) && final(self).spec_hot()@[rule_id@].anchors
                == anchors@,
            !r ==> final(self).spec_hot() == old(self).spec_hot(),
            final(self).spec_tables() == old(self).spec_tables(),
            final(self).spec_version() == old(self).spec_version(),
            final(self).spec_staged() == old(self).spec_staged(),
            final(self).spec_warm() == old(self).spec_warm(),
    {
        if !anchors.is_well_formed() {
            return false;
        }
        let ghost old_hot = self.hot_cache;
        let ghost a = anchors@;
        let ghost id = rule_id@;
        let r = self.hot_cache.insert(rule_id, anchors);
        proof {
            lemma_insert_keeps_well_formed(old_hot, self.hot_cache, id, a, r);
        }
        true
    }

    /// Adds `rules` one after another, stopping at the first whose id is
    /// already held, which fails the call with `Conflict`; the rules before it
    /// stay added. The version moves by one when all were added.
    pub fn add_rules_batch(&mut self, rules: Vec<RuleDescriptor>) -> (r: Result<(), BridgeError>)
        requires
            old(self).wf(),
        ensures
            final(self).wf(),
            final(self).spec_tables() == bridge_batch(old(self).spec_tables(), rules@).0,
            r is Ok ==> forall|i: int|
                0 <= i < rules@.len() ==> held_anywhere(
                    final(self).spec_tables(),
                    (#[trigger] rules@[i]).rule_id@,
                ),
            match bridge_batch(old(self).spec_tables(), rules@).1 {
                Some(e) => r == Err::<(), BridgeError>(e) && final(self).spec_version() == old(
                    self,
                ).spec_version(),
                None => r is Ok && final(self).spec_version() == if rules@.len() == 0 {
                    old(self).spec_version()
                } else {
                    saturating_sum(old(self).spec_version(), 1)
                },
            },
            final(self).spec_staged() == old(self).spec_staged(),
            final(self).spec_hot() == old(self).spec_hot(),
            final(self).spec_warm() == old(self).spec_warm(),
    {
        if rules.len() == 0 {
            return Ok(());
        }
        let ghost total = bridge_batch(old(self).spec_tables(), rules@);
        let mut i: usize = 0;
        assert(rules@.skip(0) =~= rules@);
        while i < rules.len()
            invariant
                self.wf(),
                i <= rules@.len(),
                total == bridge_batch(self.spec_tables(), rules@.skip(i as int)),
                total == bridge_batch(old(self).spec_tables(), rules@),
                forall|j: int|
                    0 <= j < i ==> held_anywhere(self.spec_tables(), (#[trigger] rules@[j]).rule_id@),
                self.active_version == old(self).active_version,
                self.staged_version == old(self).staged_version,
                self.hot_cache == old(self).hot_cache,
                self.warm_storage == old(self).warm_storage,
            decreases rules@.len() - i,
        {
            let ghost rest = rules@.skip(i as int);
            assert(rest[0] == rules@[i as int]);
            assert(rest.drop_first() =~= rules@.skip(i + 1));
            let d = rules[i].duplicate();
            if self.holds_anywhere(d.rule_id.as_str()) {
                assert(bridge_batch(self.spec_tables(), rest) == (
                    self.spec_tables(),
                    Some(BridgeError::Conflict),
                ));
                assert(total.0 == self.spec_tables());
                assert(total.1 == Some(BridgeError::Conflict));
                assert(self.active_version == old(self).active_version);
                return Err(BridgeError::Conflict);
            }
            assert(bridge_batch(self.spec_tables(), rest) == bridge_batch(
                with_rule(self.spec_tables(), d),
                rest.drop_first(),
            ));
            let ghost before = self.spec_tables();
            let ghost dd = d;
            self.insert_new(d);
            proof {
                assert forall|j: int| 0 <= j < i + 1 implies held_anywhere(
                    self.spec_tables(),
                    (#[trigger] rules@[j]).rule_id@,
                ) by {
                    lemma_with_rule_holds(before, dd, rules@[j].rule_id@);
                }
            }
            i = i + 1;
        }
        assert(rules@.skip(i as int) =~= Seq::<RuleDescriptor>::empty());
        self.bump_version();
        Ok(())
    }

    /// Drops `rule_id` from the table of `family_id`; says whether it was
    /// there. The version moves only when a rule was dropped.
    pub fn remove_rule(&mut self, family_id: &RuleFamilyId, rule_id: &str) -> (r: Result<
        bool,
        BridgeError,
    >)
        requires
            old(self).wf(),
        ensures
            final(self).wf(),
            r == Ok::<bool, BridgeError>(
                holds_rule(old(self).spec_tables()[family_id.spec_index() as int], rule_id@),
            ),
            r == Ok::<bool, BridgeError>(true) ==> final(self).spec_version() == saturating_sum(
                old(self).spec_version(),
                1,
            ) && !held_anywhere(final(self).spec_tables(), rule_id@),
            r == Ok::<bool, BridgeError>(false) ==> final(self).spec_version() == old(
                self,
            ).spec_version() && final(self).spec_tables() == old(self).spec_tables(),
            final(self).spec_staged() == old(self).spec_staged(),
            final(self).spec_hot() == old(self).spec_hot(),
            final(self).spec_warm() == old(self).spec_warm(),
    {
        let f = family_id.index();
        let ghost ts = self.spec_tables();
        proof {
            crate::types::lemma_family_index_injective(
                self.tables@[f as int].spec_family(),
                *family_id,
            );
        }
        let removed = self.tables[f].remove_rule(rule_id);
        proof {
            let nts = self.spec_tables();
            assert forall|i: int|
                0 <= i < FAMILY_COUNT implies (#[trigger] self.tables@[i]).wf()
                && self.tables@[i].spec_family().spec_index() == i by {}
            if removed {
                let k = choose|k: int|
                    0 <= k < ts[f as int].len() && ts[f as int][k].rule_id@ == rule_id@ && nts[f as int]
                        == #[trigger] ts[f as int].remove(k);
                assert forall|a: int, i: int| 0 <= a < nts.len() && 0 <= i < nts[a].len() implies (
                #[trigger] nts[a][i]) == ts[a][if a == f && i >= k {
                    i + 1
                } else {
                    i
                }] by {}
                assert forall|a: int, b: int, i: int, j: int|
                    0 <= a < nts.len() && 0 <= b < nts.len() && 0 <= i < nts[a].len() && 0 <= j
                        < nts[b].len() && (a != b || i != j) implies (#[trigger] nts[a][i]).rule_id@
                    != (#[trigger] nts[b][j]).rule_id@ by {
                    let ii = if a == f && i >= k {
                        i + 1
                    } else {
                        i
                    };
                    let jj = if b == f && j >= k {
                        j + 1
                    } else {
                        j
                    };
                    assert(nts[a][i] == ts[a][ii]);
                    assert(nts[b][j] == ts[b][jj]);
                }
                assert forall|a: int| 0 <= a < nts.len() implies !holds_rule(
                    #[trigger] nts[a],
                    rule_id@,
                ) by {
                    if holds_rule(nts[a], rule_id@) {
                        let i = choose|i: int|
                            0 <= i < rule_ids(nts[a]).len() && rule_ids(nts[a])[i] == rule_id@;
                        let ii = if a == f && i >= k {
                            i + 1
                        } else {
                            i
                        };
                        assert(nts[a][i] == ts[a][ii]);
                        assert(ts[a][ii].rule_id@ == ts[f as int][k].rule_id@);
                    }
                }
            } else {
                assert(nts =~= ts);
            }
        }
        if removed {
            self.bump_version();
        }
        Ok(removed)
    }

    /// Empties the table of `family_id` and bumps the version.
    pub fn clear_table(&mut self, family_id: &RuleFamilyId) -> (r: Result<(), BridgeError>)
        requires
            old(self).wf(),
        ensures
            final(self).wf(),
            r is Ok,
            final(self).spec_tables() == old(self).spec_tables().update(
                family_id.spec_index() as int,
                Seq::empty(),
            ),
            final(self).spec_version() == saturating_sum(old(self).spec_version(), 1),
            final(self).spec_staged() == old(self).spec_staged(),
            final(self).spec_hot() == old(self).spec_hot(),
            final(self).spec_warm() == old(self).spec_warm(),
    {
        let f = family_id.index();
        self.clear_at(f);
        self.bump_version();
        Ok(())
    }

    fn clear_at(&mut self, f: usize)
        requires
            old(self).wf(),
            f < FAMILY_COUNT,
        ensures
            final(self).wf(),
            final(self).spec_tables() == old(self).spec_tables().update(f as int, Seq::empty()),
            final(self).active_version == old(self).active_version,
            final(self).staged_version == old(self).staged_version,
            final(self).created_at == old(self).created_at,
            final(self).hot_cache == old(self).hot_cache,
            final(self).warm_storage == old(self).warm_storage,
    {
        let ghost ts = self.spec_tables();
        self.tables[f].clear();
        proof {
            let nts = self.spec_tables();
            assert(nts =~= ts.update(f as int, Seq::empty()));
            assert forall|i: int|
                0 <= i < FAMILY_COUNT implies (#[trigger] self.tables@[i]).wf()
                && self.tables@[i].spec_family().spec_index() == i by {}
            assert forall|a: int, b: int, i: int, j: int|
                0 <= a < nts.len() && 0 <= b < nts.len() && 0 <= i < nts[a].len() && 0 <= j
                    < nts[b].len() && (a != b || i != j) implies (#[trigger] nts[a][i]).rule_id@
                != (#[trigger] nts[b][j]).rule_id@ by {
                assert(nts[a][i] == ts[a][i]);
                assert(nts[b][j] == ts[b][j]);
            }
        }
    }

    /// Empties every table and bumps the version once.
    pub fn clear_all(&mut self)
        requires
            old(self).wf(),
        ensures
            final(self).wf(),
            forall|f: int|
                0 <= f < FAMILY_COUNT ==> (#[trigger] final(self).spec_tables()[f]).len() == 0,
            final(self).spec_version() == saturating_sum(old(self).spec_version(), 1),
            final(self).spec_staged() == old(self).spec_staged(),
            final(self).spec_hot() == old(self).spec_hot(),
            final(self).spec_warm() == old(self).spec_warm(),
    {
        let mut f: usize = 0;
        while f < FAMILY_COUNT
            invariant
                self.wf(),
                f <= FAMILY_COUNT,
                forall|g: int| 0 <= g < f ==> (#[trigger] self.spec_tables()[g]).len() == 0,
                self.active_version == old(self).active_version,
                self.staged_version == old(self).staged_version,
                self.hot_cache == old(self).hot_cache,
                self.warm_storage == old(self).warm_storage,
            decreases FAMILY_COUNT - f,
        {
            self.clear_at(f);
            f = f + 1;
        }
        self.bump_version();
    }

    /// The rules of `family_id` scoped to `agent_id`, in insertion order.
    pub fn query_by_agent(&self, family_id: &RuleFamilyId, agent_id: &str) -> (r: Result<
        Vec<RuleDescriptor>,
        BridgeError,
    >)
        requires
            self.wf(),
        ensures
            r matches Ok(v) && v@ == scoped_to(
                self.spec_tables()[family_id.spec_index() as int],
                agent_id@,
            ),
    {
        Ok(self.get_table(family_id).query_by_secondary(agent_id))
    }

    /// The global rules of `family_id`, in insertion order.
    pub fn query_global(&self, family_id: &RuleFamilyId) -> (r: Result<
        Vec<RuleDescriptor>,
        BridgeError,
    >)
        requires
            self.wf(),
        ensures
            r matches Ok(v) && v@ == globals_of(self.spec_tables()[family_id.spec_index() as int]),
    {
        Ok(self.get_table(family_id).query_globals())
    }

    /// The rule `rule_id`, from whichever table holds it.
    pub fn find_rule(&self, rule_id: &str) -> (r: Option<RuleDescriptor>)
        requires
            self.wf(),
        ensures
            r is Some <==> held_anywhere(self.spec_tables(), rule_id@),
            r matches Some(d) ==> d.rule_id@ == rule_id@ && self.spec_tables()[d.family_id.spec_index() as int].contains(d),
    {
        let mut i: usize = 0;
        while i < self.tables.len()
            invariant
                self.wf(),
                i <= FAMILY_COUNT,
                forall|f: int| 0 <= f < i ==> !holds_rule(#[trigger] self.spec_tables()[f], rule_id@),
            decreases FAMILY_COUNT - i,
        {
            match self.tables[i].find_rule(rule_id) {
                Some(d) => {
                    proof {
                        let k = choose|k: int| 0 <= k < self.tables@[i as int]@.len() && self.tables@[i as int]@[k] == d;
                        assert(d.family_id == self.tables@[i as int].spec_family());
                        assert(holds_rule(self.spec_tables()[i as int], rule_id@));
                    }
                    return Some(d);
                },
                None => {},
            }
            i = i + 1;
        }
        None
    }

    /// Sets the version to promote later.
    pub fn set_staged_version(&mut self, version: u64)
        ensures
            final(self).spec_staged() == Some(version),
            final(self).spec_version() == old(self).spec_version(),
            final(self).spec_tables() == old(self).spec_tables(),
            final(self).wf() == old(self).wf(),
    {
        self.staged_version = Some(version);
    }

    /// Forgets the staged version.
    pub fn clear_staged_version(&mut self)
        ensures
            final(self).spec_staged() is None,
            final(self).spec_version() == old(self).spec_version(),
            final(self).spec_tables() == old(self).spec_tables(),
            final(self).wf() == old(self).wf(),
    {
        self.staged_version = None;
    }

    /// Makes the staged version active and clears the stage; fails with
    /// `NoStagedVersion` where none is staged.
    pub fn promote_staged(&mut self) -> (r: Result<(), BridgeError>)
        ensures
            match old(self).spec_staged() {
                Some(v) => r is Ok && final(self).spec_version() == v && final(self).spec_staged() is None,
                None => r == Err::<(), BridgeError>(BridgeError::NoStagedVersion) && final(self).spec_version()
                    == old(self).spec_version() && final(self).spec_staged() is None,
            },
            final(self).spec_tables() == old(self).spec_tables(),
            final(self).wf() == old(self).wf(),
    {
        match self.staged_version {
            Some(v) => {
                self.active_version = v;
                self.staged_version = None;
                Ok(())
            },
            None => Err(BridgeError::NoStagedVersion),
        }
    }

    /// Replaces the hot cache's contents with what warm storage holds; the
    /// refresh started at `start` and ended at `end`.
    pub fn refresh_from_warm_at(&mut self, start: u64, end: u64) -> (r: Result<
        RefreshStats,
        BridgeError,
    >)
        requires
            old(self).wf(),
        ensures
            final(self).wf(),
            r matches Ok(st) && st == RefreshStats::spec_new(old(self).spec_warm()@.len() as usize, start, end),
            old(self).spec_warm()@.len() <= usize::MAX,
            hot_within_warm(final(self).spec_hot(), final(self).spec_warm()),
            warm_all_hot(final(self).spec_hot(), final(self).spec_warm()),
            final(self).spec_tables() == old(self).spec_tables(),
            final(self).spec_version() == old(self).spec_version(),
            final(self).spec_warm() == old(self).spec_warm(),
    {
        let anchors = match self.warm_storage.load_anchors() {
            Ok(a) => a,
            Err(e) => return Err(e),
        };
        let n = anchors.len();
        self.hot_cache.refill_at(&anchors, start);
        proof {
            assert forall|k: Seq<char>| #[trigger]
                self.hot_cache@.contains_key(k) implies old(self).warm_storage@.contains(
                (k, self.hot_cache@[k].anchors),
            ) by {
                let j = choose|j: int|
                    0 <= j < anchors@.len() && (#[trigger] pairs_view(anchors@)[j]) == (
                        k,
                        self.hot_cache@[k].anchors,
                    );
                assert(old(self).warm_storage@[j] == pairs_view(anchors@)[j]);
            }
            lemma_hot_within_warm_well_formed(self.hot_cache, self.warm_storage);
        }
        Ok(RefreshStats::new(n, start, end))
    }

    /// Replaces the hot cache's contents with what warm storage holds, timed
    /// by the clock.
    pub fn refresh_from_warm(&mut self) -> (r: Result<RefreshStats, BridgeError>)
        requires
            old(self).wf(),
        ensures
            final(self).wf(),
            r matches Ok(st) && st.rules_refreshed == old(self).spec_warm()@.len(),
            hot_within_warm(final(self).spec_hot(), final(self).spec_warm()),
            warm_all_hot(final(self).spec_hot(), final(self).spec_warm()),
            final(self).spec_tables() == old(self).spec_tables(),
            final(self).spec_version() == old(self).spec_version(),
            final(self).spec_warm() == old(self).spec_warm(),
    {
        let start = now_ms();
        let end = now_ms();
        self.refresh_from_warm_at(start, end)
    }

    /// Bridge-wide counts; the rule sums stop at `usize::MAX`.
    pub fn stats(&self) -> (r: BridgeStats)
        requires
            self.wf(),
        ensures
            r.version == self.spec_version(),
            r.total_tables == FAMILY_COUNT,
            r.created_at == self.spec_created_at(),
            r.total_rules == capped(total_rules(self.spec_tables(), FAMILY_COUNT as nat)),
            r.total_global_rules == capped(total_globals(self.spec_tables(), FAMILY_COUNT as nat)),
            r.total_scoped_rules == capped(
                (total_rules(self.spec_tables(), FAMILY_COUNT as nat) - total_globals(
                    self.spec_tables(),
                    FAMILY_COUNT as nat,
                )) as nat,
            ),
            r.tables_with_rules == nonempty_tables(self.spec_tables(), FAMILY_COUNT as nat),
    {
        let ghost ts = self.spec_tables();
        let mut rules: usize = 0;
        let mut globals: usize = 0;
        let mut scoped: usize = 0;
        let mut nonempty: usize = 0;
        let mut i: usize = 0;
        while i < self.tables.len()
            invariant
                self.wf(),
                ts == self.spec_tables(),
                i <= FAMILY_COUNT,
                rules == capped(total_rules(ts, i as nat)),
                globals == capped(total_globals(ts, i as nat)),
                scoped == capped((total_rules(ts, i as nat) - total_globals(ts, i as nat)) as nat),
                total_globals(ts, i as nat) <= total_rules(ts, i as nat),
                nonempty == nonempty_tables(ts, i as nat),
                nonempty <= i,
            decreases FAMILY_COUNT - i,
        {
            let meta = self.tables[i].metadata();
            proof {
                ts[i as int].lemma_filter_len(|x: RuleDescriptor| crate::table::is_global(x));
            }
            let ghost n0 = (total_rules(ts, i as nat) - total_globals(ts, i as nat)) as nat;
            rules = capped_add(rules, meta.rule_count);
            globals = capped_add(globals, meta.global_count);
            scoped = capped_add(scoped, meta.scoped_count);
            assert(scoped == capped((n0 + meta.scoped_count) as nat));
            assert((total_rules(ts, (i + 1) as nat) - total_globals(ts, (i + 1) as nat)) as nat == (
            n0 + meta.scoped_count) as nat);
            if meta.rule_count > 0 {
                nonempty = nonempty + 1;
            }
            i = i + 1;
        }
        BridgeStats {
            version: self.active_version,
            total_tables: self.tables.len(),
            tables_with_rules: nonempty,
            total_rules: rules,
            total_global_rules: globals,
            total_scoped_rules: scoped,
            created_at: self.created_at,
        }
    }

    /// Tier counts: hot and warm entries and hot evictions.
    pub fn storage_stats(&self) -> (r: StorageStats)
        requires
            self.wf(),
        ensures
            r.hot_rules == self.spec_hot()@.len(),
            r.warm_rules == self.spec_warm()@.len(),
            r.cold_rules == 0,
            r.hot_hits == 0,
            r.warm_hits == 0,
            r.cold_hits == 0,
            r.evictions == self.spec_hot().spec_total_evictions(),
    {
        let hot = self.hot_cache.stats();
        StorageStats {
            hot_rules: hot.entries,
            warm_rules: self.warm_storage.len(),
            cold_rules: 0,
            hot_hits: 0,
            warm_hits: 0,
            cold_hits: 0,
            evictions: hot.total_evictions,
        }
    }

    /// Counts of every table, ordered by layer (family index order).
    pub fn table_stats(&self) -> (r: Vec<TableStats>)
        requires
            self.wf(),
        ensures
            r@.len() == FAMILY_COUNT,
            forall|i: int|
                0 <= i < FAMILY_COUNT ==> (#[trigger] r@[i]).family_id.spec_index() == i
                    && r@[i].layer_id == r@[i].family_id.spec_layer() && r@[i].rule_count
                    == self.spec_tables()[i].len() && r@[i].global_count == globals_of(
                    self.spec_tables()[i],
                ).len() && r@[i].scoped_count == self.spec_tables()[i].len() - globals_of(
                    self.spec_tables()[i],
                ).len() && r@[i].version == self.spec_table_versions()[i],
    {
        let mut out: Vec<TableStats> = Vec::new();
        let mut i: usize = 0;
        while i < self.tables.len()
            invariant
                self.wf(),
                i <= FAMILY_COUNT,
                out@.len() == i,
                forall|j: int|
                    0 <= j < i ==> (#[trigger] out@[j]).family_id.spec_index() == j
                        && out@[j].layer_id == out@[j].family_id.spec_layer() && out@[j].rule_count
                        == self.spec_tables()[j].len() && out@[j].global_count == globals_of(
                        self.spec_tables()[j],
                    ).len() && out@[j].scoped_count == self.spec_tables()[j].len() - globals_of(
                        self.spec_tables()[j],
                    ).len() && out@[j].version == self.spec_table_versions()[j],
            decreases FAMILY_COUNT - i,
        {
            let t = &self.tables[i];
            let meta = t.metadata();
            out.push(
                TableStats {
                    family_id: t.family_id(),
                    layer_id: t.layer_id(),
                    version: meta.version,
                    rule_count: meta.rule_count,
                    global_count: meta.global_count,
                    scoped_count: meta.scoped_count,
                },
            );
            i = i + 1;
        }
        out
    }

    /// The bytes of the warm file as the bridge last wrote or read it.
    pub fn warm_image(&self) -> (r: &Vec<u8>)
        ensures
            r@ == self.spec_warm().spec_image(),
    {
        self.warm_storage.image()
    }

    /// Empties the hot cache; the tables, the version and warm storage stay.
    pub fn clear_hot_cache(&mut self)
        requires
            old(self).wf(),
        ensures
            final(self).wf(),
            final(self).spec_hot()@.len() == 0,
            final(self).spec_tables() == old(self).spec_tables(),
            final(self).spec_version() == old(self).spec_version(),
            final(self).spec_warm() == old(self).spec_warm(),
    {
        self.hot_cache.clear();
    }
}

/// An id names at most one descriptor in the whole bridge: a descriptor found
/// for it through `find_rule` and one found through the table of a family
/// are the same descriptor, in the same table.
pub proof fn lemma_lookups_agree(b: &Bridge, f: int, g: int, d: RuleDescriptor, e: RuleDescriptor)
    requires
        b.wf(),
        0 <= f < FAMILY_COUNT,
        0 <= g < FAMILY_COUNT,
        b.spec_tables()[f].contains(d),
        b.spec_tables()[g].contains(e),
        d.rule_id@ == e.rule_id@,
    ensures
        d == e,
        f == g,
{
    let ts = b.spec_tables();
    let i = choose|i: int| 0 <= i < ts[f].len() && ts[f][i] == d;
    let j = choose|j: int| 0 <= j < ts[g].len() && ts[g][j] == e;
    assert(ids_unique_across(ts));
    if f != g || i != j {
        assert(ts[f][i].rule_id@ != ts[g][j].rule_id@);
    }
}

/// How many of `results` are `Ok`.
pub open spec fn successes(results: Seq<Result<(), BridgeError>>) -> nat
    decreases results.len(),
{
    if results.len() == 0 {
        0
    } else {
        successes(results.drop_last()) + if results.last() is Ok {
            1nat
        } else {
            0nat
        }
    }
}

/// Over any run of installs `states[0] -> states[1] -> ...`, each step one
/// `add_rule` call, the version grows by exactly the number of installs that
/// succeeded (while it stays below `u64::MAX`).
pub proof fn lemma_version_counts_installs(
    states: Seq<Bridge>,
    rules: Seq<RuleDescriptor>,
    results: Seq<Result<(), BridgeError>>,
)
    requires
        states.len() == rules.len() + 1,
        results.len() == rules.len(),
        forall|i: int|
            0 <= i < rules.len() ==> Bridge::add_rule_outcome(
                #[trigger] states[i],
                states[i + 1],
                rules[i],
                results[i],
            ),
        states[0].spec_version() + rules.len() <= u64::MAX,
    ensures
        states.last().spec_version() == states[0].spec_version() + successes(results),
    decreases rules.len(),
{
    if rules.len() > 0 {
        let n = rules.len() - 1;
        lemma_version_counts_installs(states.drop_last(), rules.drop_last(), results.drop_last());
        assert(states.drop_last().last() == states[n]);
        assert(Bridge::add_rule_outcome(states[n], states[n + 1], rules[n], results[n]));
        lemma_successes_bound(results.drop_last());
    }
}

proof fn lemma_successes_bound(results: Seq<Result<(), BridgeError>>)
    ensures
        successes(results) <= results.len(),
    decreases results.len(),
{
    if results.len() > 0 {
        lemma_successes_bound(results.drop_last());
    }
}

} // verus!
