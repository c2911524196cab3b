use vstd::prelude::*;

use crate::clock::now_ms;
use crate::error::BridgeError;
use crate::rule_vector::{RuleVector, RuleVectorView};
use crate::warm_storage::pairs_view;
use crate::storage::{CachedRuleVector, CachedRuleVectorView};
use crate::text::{bytes_lt, lemma_bytes_lt_transitive, str_eq, str_lt, utf8_of};

verus! {

/// Capacity of a hot cache made by `HotCache::new`.
pub const DEFAULT_HOT_CAPACITY: usize = 10000;

/// One entry of the cache: a rule id and what is cached for it.
struct CacheSlot {
    rule_id: String,
    entry: CachedRuleVector,
}

/// Whether entry `a` of rule `ida` goes before entry `b` of rule `idb` when
/// the cache evicts: least recently evaluated first, then least recently
/// loaded, then by rule id in byte order.
pub open spec fn evicted_before(
    a: CachedRuleVectorView,
    ida: Seq<char>,
    b: CachedRuleVectorView,
    idb: Seq<char>,
) -> bool {
    ||| a.last_evaluated_at < b.last_evaluated_at
    ||| (a.last_evaluated_at == b.last_evaluated_at && a.loaded_at < b.loaded_at)
    ||| (a.last_evaluated_at == b.last_evaluated_at && a.loaded_at == b.loaded_at && bytes_lt(
        utf8_of(ida),
        utf8_of(idb),
    ))
}

/// The eviction order is transitive.
pub proof fn lemma_evicted_before_transitive(
    a: CachedRuleVectorView,
    ida: Seq<char>,
    b: CachedRuleVectorView,
    idb: Seq<char>,
    c: CachedRuleVectorView,
    idc: Seq<char>,
)
    requires
        evicted_before(a, ida, b, idb),
        evicted_before(b, idb, c, idc),
    ensures
        evicted_before(a, ida, c, idc),
{
    if a.last_evaluated_at == c.last_evaluated_at && a.loaded_at == c.loaded_at {
        lemma_bytes_lt_transitive(utf8_of(ida), utf8_of(idb), utf8_of(idc));
    }
}

/// How many entries one eviction drops from a full cache of capacity `c`:
/// a tenth of it, rounded up.
pub open spec fn eviction_batch(c: nat) -> nat {
    (c + 9) / 10
}

/// `a + b`, or `u64::MAX` where that does not fit.
pub open spec fn saturating_sum(a: u64, b: nat) -> u64 {
    if a + b > u64::MAX {
        u64::MAX
    } else {
        (a + b) as u64
    }
}

fn saturating_add(a: u64, b: u64) -> (r: u64)
    ensures
        r == saturating_sum(a, b as nat),
{
    if a > u64::MAX - b {
        u64::MAX
    } else {
        a + b
    }
}

spec fn slot_ids(s: Seq<CacheSlot>) -> Seq<Seq<char>> {
    s.map_values(|x: CacheSlot| x.rule_id@)
}

spec fn slots_view(s: Seq<CacheSlot>) -> Map<Seq<char>, CachedRuleVectorView> {
    Map::new(
        |k: Seq<char>| slot_ids(s).contains(k),
        |k: Seq<char>| s[slot_ids(s).index_of(k)].entry@,
    )
}

proof fn lemma_slots_view_at(s: Seq<CacheSlot>, i: int)
    requires
        slot_ids(s).no_duplicates(),
        0 <= i < s.len(),
    ensures
        slots_view(s).contains_key(s[i].rule_id@),
        slots_view(s)[s[i].rule_id@] == s[i].entry@,
{
    let ids = slot_ids(s);
    assert(ids[i] == s[i].rule_id@);
    assert(ids.contains(s[i].rule_id@));
    let j = ids.index_of(s[i].rule_id@);
    assert(ids[j] == ids[i]);
}

proof fn lemma_slots_view_len(s: Seq<CacheSlot>)
    requires
        slot_ids(s).no_duplicates(),
    ensures
        slots_view(s).len() == s.len(),
        slots_view(s).dom().finite(),
{
    let ids = slot_ids(s);
    assert(slots_view(s).dom() =~= ids.to_set());
    ids.unique_seq_to_set();
}

proof fn lemma_slots_view_push(s: Seq<CacheSlot>, e: CacheSlot)
    requires
        slot_ids(s).no_duplicates(),
        !slot_ids(s).contains(e.rule_id@),
    ensures
        slot_ids(s.push(e)).no_duplicates(),
        slots_view(s.push(e)) == slots_view(s).insert(e.rule_id@, e.entry@),
{
    let t = s.push(e);
    assert(slot_ids(t) =~= slot_ids(s).push(e.rule_id@));
    assert forall|i: int, j: int|
        0 <= i < slot_ids(t).len() && 0 <= j < slot_ids(t).len() && i != j implies slot_ids(
        t,
    )[i] != slot_ids(t)[j] by {
        if i < s.len() && j < s.len() {
        } else if i < s.len() {
            assert(slot_ids(s)[i] == slot_ids(t)[i]);
        } else {
            assert(slot_ids(s)[j] == slot_ids(t)[j]);
        }
    }
    let m = slots_view(s).insert(e.rule_id@, e.entry@);
    assert forall|k: Seq<char>| #[trigger] slots_view(t).contains_key(k) <==> m.contains_key(k) by {
        if slot_ids(t).contains(k) {
            let i = choose|i: int| 0 <= i < slot_ids(t).len() && slot_ids(t)[i] == k;
            if i < s.len() {
                assert(slot_ids(s)[i] == k);
            }
        }
        if slot_ids(s).contains(k) {
            let i = choose|i: int| 0 <= i < slot_ids(s).len() && slot_ids(s)[i] == k;
            assert(slot_ids(t)[i] == k);
        }
        if k == e.rule_id@ {
            assert(slot_ids(t)[s.len() as int] == k);
        }
    }
    assert forall|k: Seq<char>| #[trigger] slots_view(t).contains_key(k) implies slots_view(t)[k]
        == m[k] by {
        let i = choose|i: int| 0 <= i < slot_ids(t).len() && slot_ids(t)[i] == k;
        lemma_slots_view_at(t, i);
        if i < s.len() {
            lemma_slots_view_at(s, i);
        }
    }
    assert(slots_view(t) =~= m);
}

proof fn lemma_slots_view_remove(s: Seq<CacheSlot>, r: int)
    requires
        slot_ids(s).no_duplicates(),
        0 <= r < s.len(),
    ensures
        slot_ids(s.remove(r)).no_duplicates(),
        slots_view(s.remove(r)) == slots_view(s).remove(s[r].rule_id@),
{
    let t = s.remove(r);
    assert forall|i: int| 0 <= i < t.len() implies #[trigger] slot_ids(t)[i] == slot_ids(s)[if i
        < r {
        i
    } else {
        i + 1
    }] by {}
    assert forall|i: int, j: int|
        0 <= i < slot_ids(t).len() && 0 <= j < slot_ids(t).len() && i != j implies slot_ids(
        t,
    )[i] != slot_ids(t)[j] by {
        assert(slot_ids(t)[i] == slot_ids(s)[if i < r {
            i
        } else {
            i + 1
        }]);
        assert(slot_ids(t)[j] == slot_ids(s)[if j < r {
            j
        } else {
            j + 1
        }]);
    }
    let m = slots_view(s).remove(s[r].rule_id@);
    lemma_slots_view_at(s, r);
    assert forall|k: Seq<char>| #[trigger] slots_view(t).contains_key(k) <==> m.contains_key(k) by {
        if slot_ids(t).contains(k) {
            let i = choose|i: int| 0 <= i < slot_ids(t).len() && slot_ids(t)[i] == k;
            let o = if i < r {
                i
            } else {
                i + 1
            };
            assert(slot_ids(s)[o] == k);
            assert(slot_ids(s).contains(k));
            assert(o != r);
            assert(slot_ids(s)[r] != k);
        }
        if m.contains_key(k) {
            let o = choose|o: int| 0 <= o < slot_ids(s).len() && slot_ids(s)[o] == k;
            assert(o != r);
            let i = if o < r {
                o
            } else {
                o - 1
            };
            assert(slot_ids(t)[i] == k);
        }
    }
    assert forall|k: Seq<char>| #[trigger] slots_view(t).contains_key(k) implies slots_view(t)[k]
        == m[k] by {
        let i = choose|i: int| 0 <= i < slot_ids(t).len() && slot_ids(t)[i] == k;
        let o = if i < r {
            i
        } else {
            i + 1
        };
        lemma_slots_view_at(t, i);
        lemma_slots_view_at(s, o);
    }
    assert(slots_view(t) =~= m);
}

proof fn lemma_slots_view_update(s: Seq<CacheSlot>, i: int, e: CacheSlot)
    requires
        slot_ids(s).no_duplicates(),
        0 <= i < s.len(),
        e.rule_id@ == s[i].rule_id@,
    ensures
        slot_ids(s.update(i, e)).no_duplicates(),
        slots_view(s.update(i, e)) == slots_view(s).insert(e.rule_id@, e.entry@),
{
    let t = s.update(i, e);
    assert(slot_ids(t) =~= slot_ids(s));
    let m = slots_view(s).insert(e.rule_id@, e.entry@);
    lemma_slots_view_at(s, i);
    assert forall|k: Seq<char>| #[trigger] slots_view(t).contains_key(k) implies slots_view(t)[k]
        == m[k] by {
        let j = choose|j: int| 0 <= j < slot_ids(t).len() && slot_ids(t)[j] == k;
        lemma_slots_view_at(t, j);
        if j != i {
            lemma_slots_view_at(s, j);
            assert(slot_ids(s)[j] != slot_ids(s)[i]);
            assert(t[j] == s[j]);
        } else {
            assert(t[i] == e);
        }
    }
    assert(slots_view(t) =~= m);
}

/// Bounded in-memory map from rule id to cached anchors, with batch LRU
/// eviction when full.
pub struct HotCache {
    slots: Vec<CacheSlot>,
    capacity: usize,
    total_evictions: u64,
    total_evicted: u64,
}

/// Counters of a hot cache.
#[derive(Debug, Clone, Copy, PartialEq, Eq, Structural)]
pub struct HotCacheStats {
    /// Entries held now.
    pub entries: usize,
    /// Most entries the cache holds.
    pub capacity: usize,
    /// Number of eviction events so far.
    pub total_evictions: u64,
    /// Number of entries dropped by evictions so far.
    pub total_evicted: u64,
}

impl View for HotCache {
    type V = Map<Seq<char>, CachedRuleVectorView>;

    closed spec fn view(&self) -> Map<Seq<char>, CachedRuleVectorView> {
        slots_view(self.slots@)
    }
}

impl HotCache {
    /// Rule ids are unique and the entries fit the capacity.
    pub closed spec fn wf(&self) -> bool {
        &&& slot_ids(self.slots@).no_duplicates()
        &&& self.slots@.len() <= self.capacity
    }

    pub closed spec fn spec_capacity(&self) -> usize {
        self.capacity
    }

    pub closed spec fn spec_total_evictions(&self) -> u64 {
        self.total_evictions
    }

    pub closed spec fn spec_total_evicted(&self) -> u64 {
        self.total_evicted
    }

    /// A well-formed cache holds finitely many entries, never more than its
    /// capacity.
    pub proof fn lemma_within_capacity(&self)
        requires
            self.wf(),
        ensures
            self@.dom().finite(),
            self@.len() <= self.spec_capacity(),
    {
        lemma_slots_view_len(self.slots@);
    }

    /// What one insertion of `id` with `entry` does, given its result `r`.
    pub open spec fn insert_outcome(
        old: HotCache,
        new: HotCache,
        id: Seq<char>,
        entry: CachedRuleVectorView,
        r: Result<(), BridgeError>,
    ) -> bool {
        &&& new.spec_capacity() == old.spec_capacity()
        &&& if old@.contains_key(id) {
            &&& r is Ok
            &&& new@ == old@.insert(id, entry)
            &&& new.spec_total_evictions() == old.spec_total_evictions()
            &&& new.spec_total_evicted() == old.spec_total_evicted()
        } else if old.spec_capacity() == 0 {
            &&& r == Err::<(), BridgeError>(BridgeError::Capacity)
            &&& new@ == old@
            &&& new.spec_total_evictions() == old.spec_total_evictions()
            &&& new.spec_total_evicted() == old.spec_total_evicted()
        } else if old@.len() < old.spec_capacity() {
            &&& r is Ok
            &&& new@ == old@.insert(id, entry)
            &&& new.spec_total_evictions() == old.spec_total_evictions()
            &&& new.spec_total_evicted() == old.spec_total_evicted()
        } else {
            &&& r is Ok
            &&& new@.contains_key(id)
            &&& new@[id] == entry
            &&& new@.len() == old@.len() - eviction_batch(old.spec_capacity() as nat) + 1
            &&& forall|k: Seq<char>| #[trigger]
                new@.contains_key(k) && k != id ==> old@.contains_key(k) && new@[k] == old@[k]
            &&& forall|x: Seq<char>, y: Seq<char>|
                old@.contains_key(x) && !new@.contains_key(x) && #[trigger] new@.contains_key(y)
                    && y != id ==> !evicted_before(old@[y], y, #[trigger] old@[x], x)
            &&& new.spec_total_evictions() == saturating_sum(old.spec_total_evictions(), 1)
            &&& new.spec_total_evicted() == saturating_sum(
                old.spec_total_evicted(),
                eviction_batch(old.spec_capacity() as nat),
            )
        }
    }

    /// An empty cache of the default capacity.
    pub fn new() -> (r: HotCache)
        ensures
            r.wf(),
            r@ == Map::<Seq<char>, CachedRuleVectorView>::empty(),
            r.spec_capacity() == DEFAULT_HOT_CAPACITY,
            r.spec_total_evictions() == 0,
            r.spec_total_evicted() == 0,
    {
        Self::with_capacity(DEFAULT_HOT_CAPACITY)
    }

    /// An empty cache that holds at most `capacity` entries.
    pub fn with_capacity(capacity: usize) -> (r: HotCache)
        ensures
            r.wf(),
            r@ == Map::<Seq<char>, CachedRuleVectorView>::empty(),
            r.spec_capacity() == capacity,
            r.spec_total_evictions() == 0,
            r.spec_total_evicted() == 0,
    {
        let r = HotCache { slots: Vec::new(), capacity, total_evictions: 0, total_evicted: 0 };
        assert(slots_view(r.slots@) =~= Map::<Seq<char>, CachedRuleVectorView>::empty());
        r
    }

    fn find(&self, rule_id: &str) -> (r: Option<usize>)
        requires
            self.wf(),
        ensures
            r matches Some(i) ==> i < self.slots@.len() && self.slots@[i as int].rule_id@
                == rule_id@,
            r is None ==> !self@.contains_key(rule_id@),
    {
        let mut i: usize = 0;
        while i < self.slots.len()
            invariant
                i <= self.slots@.len(),
                forall|j: int| 0 <= j < i ==> self.slots@[j].rule_id@ != rule_id@,
            decreases self.slots@.len() - i,
        {
            if str_eq(self.slots[i].rule_id.as_str(), rule_id) {
                return Some(i);
            }
            i = i + 1;
        }
        proof {
            if slot_ids(self.slots@).contains(rule_id@) {
                let j = choose|j: int|
                    0 <= j < slot_ids(self.slots@).len() && slot_ids(self.slots@)[j] == rule_id@;
                assert(self.slots@[j].rule_id@ == rule_id@);
            }
        }
        None
    }

    /// Whether the cache holds `rule_id`.
    pub fn contains(&self, rule_id: &str) -> (r: bool)
        requires
            self.wf(),
        ensures
            r == self@.contains_key(rule_id@),
    {
        match self.find(rule_id) {
            Some(i) => {
                proof {
                    lemma_slots_view_at(self.slots@, i as int);
                }
                true
            },
            None => false,
        }
    }

    /// A copy of the anchors cached for `rule_id`; access times stay as they are.
    pub fn get(&self, rule_id: &str) -> (r: Option<RuleVector>)
        requires
            self.wf(),
        ensures
            r is Some <==> self@.contains_key(rule_id@),
            r matches Some(v) ==> v@ == self@[rule_id@].anchors,
    {
        match self.find(rule_id) {
            Some(i) => {
                proof {
                    lemma_slots_view_at(self.slots@, i as int);
                }
                Some(self.slots[i].entry.anchors.duplicate())
            },
            None => None,
        }
    }

    /// Like `get`, and records an evaluation of `rule_id` at time `now`.
    pub fn get_and_mark_at(&mut self, rule_id: &str, now: u64) -> (r: Option<RuleVector>)
        requires
            old(self).wf(),
        ensures
            final(self).wf(),
            r is Some <==> old(self)@.contains_key(rule_id@),
            r matches Some(v) ==> v@ == old(self)@[rule_id@].anchors,
            final(self)@ == if old(self)@.contains_key(rule_id@) {
                old(self)@.insert(
                    rule_id@,
                    CachedRuleVectorView { last_evaluated_at: now, ..old(self)@[rule_id@] },
                )
            } else {
                old(self)@
            },
            final(self).spec_capacity() == old(self).spec_capacity(),
            final(self).spec_total_evictions() == old(self).spec_total_evictions(),
            final(self).spec_total_evicted() == old(self).spec_total_evicted(),
    {
        match self.find(rule_id) {
            Some(i) => {
                let ghost s = self.slots@;
                proof {
                    lemma_slots_view_at(s, i as int);
                }
                let v = self.slots[i].entry.anchors.duplicate();
                self.slots[i].entry.mark_evaluated_at(now);
                proof {
                    assert(self.slots@ == s.update(i as int, self.slots@[i as int]));
                    lemma_slots_view_update(s, i as int, self.slots@[i as int]);
                }
                Some(v)
            },
            None => None,
        }
    }

    /// Like `get`, and records an evaluation of `rule_id` now.
    pub fn get_and_mark(&mut self, rule_id: &str) -> (r: Option<RuleVector>)
        requires
            old(self).wf(),
        ensures
            final(self).wf(),
            r is Some <==> old(self)@.contains_key(rule_id@),
            r matches Some(v) ==> v@ == old(self)@[rule_id@].anchors,
            final(self)@.dom() == old(self)@.dom(),
            forall|k: Seq<char>| #[trigger]
                final(self)@.contains_key(k) ==> final(self)@[k].anchors == old(self)@[k].anchors
                    && final(self)@[k].loaded_at == old(self)@[k].loaded_at,
            final(self).spec_capacity() == old(self).spec_capacity(),
            final(self).spec_total_evictions() == old(self).spec_total_evictions(),
            final(self).spec_total_evicted() == old(self).spec_total_evicted(),
    {
        let now = now_ms();
        let r = self.get_and_mark_at(rule_id, now);
        assert(self@.dom() =~= old(self)@.dom());
        r
    }

    /// Drops `rule_id`; says whether it was there.
    pub fn remove(&mut self, rule_id: &str) -> (r: bool)
        requires
            old(self).wf(),
        ensures
            final(self).wf(),
            r == old(self)@.contains_key(rule_id@),
            final(self)@ == old(self)@.remove(rule_id@),
            final(self).spec_capacity() == old(self).spec_capacity(),
            final(self).spec_total_evictions() == old(self).spec_total_evictions(),
            final(self).spec_total_evicted() == old(self).spec_total_evicted(),
    {
        match self.find(rule_id) {
            Some(i) => {
                proof {
                    lemma_slots_view_remove(self.slots@, i as int);
                    lemma_slots_view_at(self.slots@, i as int);
                }
                let _ = self.slots.remove(i);
                true
            },
            None => {
                assert(old(self)@.remove(rule_id@) =~= old(self)@);
                false
            },
        }
    }

    /// Drops every entry; the counters stay.
    pub fn clear(&mut self)
        requires
            old(self).wf(),
        ensures
            final(self).wf(),
            final(self)@ == Map::<Seq<char>, CachedRuleVectorView>::empty(),
            final(self).spec_capacity() == old(self).spec_capacity(),
            final(self).spec_total_evictions() == old(self).spec_total_evictions(),
            final(self).spec_total_evicted() == old(self).spec_total_evicted(),
    {
        self.slots.clear();
        assert(slots_view(self.slots@) =~= Map::<Seq<char>, CachedRuleVectorView>::empty());
    }

    /// Empties the cache, then inserts `entries` in order, all loaded at
    /// time `now`.
    ///
    /// Every entry kept comes from `entries`; when they have distinct ids and
    /// fit the capacity, all of them are kept.
    pub fn refill_at(&mut self, entries: &Vec<(String, RuleVector)>, now: u64)
        requires
            old(self).wf(),
        ensures
            final(self).wf(),
            final(self).spec_capacity() == old(self).spec_capacity(),
            forall|k: Seq<char>| #[trigger]
                final(self)@.contains_key(k) ==> exists|j: int|
                    0 <= j < entries@.len() && (#[trigger] pairs_view(entries@)[j]) == (
                        k,
                        final(self)@[k].anchors,
                    ),
            pairs_view(entries@).map_values(|p: (Seq<char>, RuleVectorView)| p.0).no_duplicates()
                && entries@.len() <= old(self).spec_capacity() ==> {
                &&& final(self)@.len() == entries@.len()
                &&& forall|j: int|
                    0 <= j < entries@.len() ==> final(self)@.contains_key(
                        (#[trigger] pairs_view(entries@)[j]).0,
                    ) && final(self)@[pairs_view(entries@)[j].0].anchors == pairs_view(
                        entries@,
                    )[j].1
            },
            old(self).spec_capacity() > 0 && entries@.len() > 0 ==> final(self)@.contains_key(
                pairs_view(entries@).last().0,
            ) && final(self)@[pairs_view(entries@).last().0].anchors == pairs_view(
                entries@,
            ).last().1,
            old(self).spec_capacity() > 0 && pairs_view(entries@).map_values(
                |p: (Seq<char>, RuleVectorView)| p.0,
            ).no_duplicates() ==> final(self)@.len() >= if entries@.len() <= old(
                self,
            ).spec_capacity() + 1 - eviction_batch(old(self).spec_capacity() as nat) {
                entries@.len() as int
            } else {
                old(self).spec_capacity() + 1 - eviction_batch(old(self).spec_capacity() as nat)
            },
    {
        let ghost pv = pairs_view(entries@);
        let ghost ids = pv.map_values(|p: (Seq<char>, RuleVectorView)| p.0);
        let ghost fits = ids.no_duplicates() && entries@.len() <= self.capacity;
        self.clear();
        let mut i: usize = 0;
        while i < entries.len()
            invariant
                self.wf(),
                i <= entries@.len(),
                pv == pairs_view(entries@),
                ids == pv.map_values(|p: (Seq<char>, RuleVectorView)| p.0),
                self.capacity == old(self).capacity,
                fits == (ids.no_duplicates() && entries@.len() <= self.capacity),
                self@.dom().finite(),
                forall|k: Seq<char>| #[trigger]
                    self@.contains_key(k) ==> exists|j: int|
                        0 <= j < i && (#[trigger] pv[j]) == (k, self@[k].anchors),
                fits ==> self@.len() == i,
                self.capacity > 0 && i > 0 ==> self@.contains_key(pv[i - 1].0) && self@[pv[i
                    - 1].0].anchors == pv[i - 1].1,
                self.capacity > 0 && ids.no_duplicates() ==> self@.len() >= if i <= self.capacity
                    + 1 - eviction_batch(self.capacity as nat) {
                    i as int
                } else {
                    self.capacity + 1 - eviction_batch(self.capacity as nat)
                },
                fits ==> forall|j: int|
                    0 <= j < i ==> self@.contains_key((#[trigger] pv[j]).0) && self@[pv[j].0].anchors
                        == pv[j].1,
            decreases entries@.len() - i,
        {
            let id = entries[i].0.clone();
            let v = entries[i].1.duplicate();
            let ghost before = *self;
            assert(pv[i as int] == (id@, v@));
            proof {
                before.lemma_within_capacity();
            }
            let _ = self.insert_at(id, v, now);
            proof {
                self.lemma_within_capacity();
                assert forall|k: Seq<char>| #[trigger]
                    self@.contains_key(k) implies exists|j: int|
                    0 <= j < i + 1 && (#[trigger] pv[j]) == (k, self@[k].anchors) by {
                    if k == pv[i as int].0 {
                        assert(pv[i as int] == (k, self@[k].anchors));
                    } else {
                        assert(before@.contains_key(k));
                        let j = choose|j: int| 0 <= j < i && (#[trigger] pv[j]) == (k, before@[k].anchors);
                        assert(pv[j] == (k, self@[k].anchors));
                    }
                }
                if ids.no_duplicates() {
                    assert(!before@.contains_key(pv[i as int].0)) by {
                        if before@.contains_key(pv[i as int].0) {
                            let j = choose|j: int|
                                0 <= j < i && (#[trigger] pv[j]) == (pv[i as int].0, before@[pv[i as int].0].anchors);
                            assert(ids[j] == ids[i as int]);
                        }
                    }
                    assert(self.capacity as nat <= 9 || eviction_batch(self.capacity as nat) >= 1);
                }
                if fits {
                    assert(!before@.contains_key(pv[i as int].0)) by {
                        if before@.contains_key(pv[i as int].0) {
                            let j = choose|j: int|
                                0 <= j < i && (#[trigger] pv[j]) == (pv[i as int].0, before@[pv[i as int].0].anchors);
                            assert(ids[j] == ids[i as int]);
                        }
                    }
                    assert(self@ == before@.insert(pv[i as int].0, self@[pv[i as int].0]));
                    assert forall|j: int| 0 <= j < i + 1 implies self@.contains_key(
                        (#[trigger] pv[j]).0,
                    ) && self@[pv[j].0].anchors == pv[j].1 by {
                        if j < i {
                            assert(ids[j] != ids[i as int]);
                        }
                    }
                }
            }
            i = i + 1;
        }
    }

    /// Every entry's rule id and anchors, in the cache's internal order.
    pub closed spec fn spec_entries(&self) -> Seq<(Seq<char>, RuleVectorView)> {
        self.slots@.map_values(|x: CacheSlot| (x.rule_id@, x.entry.anchors@))
    }

    /// `spec_entries` lists each cached id once, with its anchors, and
    /// nothing else.
    pub proof fn lemma_entries(&self)
        requires
            self.wf(),
        ensures
            self.spec_entries().len() == self@.len(),
            self.spec_entries().map_values(|p: (Seq<char>, RuleVectorView)| p.0).no_duplicates(),
            forall|i: int|
                0 <= i < self.spec_entries().len() ==> self@.contains_key(
                    (#[trigger] self.spec_entries()[i]).0,
                ) && self@[self.spec_entries()[i].0].anchors == self.spec_entries()[i].1,
            forall|k: Seq<char>| #[trigger]
                self@.contains_key(k) ==> self.spec_entries().contains((k, self@[k].anchors)),
    {
        let e = self.spec_entries();
        lemma_slots_view_len(self.slots@);
        assert(e.map_values(|p: (Seq<char>, RuleVectorView)| p.0) =~= slot_ids(self.slots@));
        assert forall|i: int| 0 <= i < e.len() implies self@.contains_key((#[trigger] e[i]).0)
            && self@[e[i].0].anchors == e[i].1 by {
            lemma_slots_view_at(self.slots@, i);
        }
        assert forall|k: Seq<char>| #[trigger] self@.contains_key(k) implies e.contains(
            (k, self@[k].anchors),
        ) by {
            let j = choose|j: int|
                0 <= j < slot_ids(self.slots@).len() && slot_ids(self.slots@)[j] == k;
            lemma_slots_view_at(self.slots@, j);
            assert(e[j] == (k, self@[k].anchors));
        }
    }

    /// Every entry's rule id and anchors, in the cache's internal order.
    pub fn snapshot(&self) -> (r: Vec<(String, RuleVector)>)
        requires
            self.wf(),
        ensures
            pairs_view(r@) == self.spec_entries(),
            r@.len() == self@.len(),
            forall|k: Seq<char>| #[trigger]
                self@.contains_key(k) ==> pairs_view(r@).contains((k, self@[k].anchors)),
            forall|i: int|
                0 <= i < r@.len() ==> self@.contains_key((#[trigger] r@[i]).0@) && self@[r@[i].0@].anchors
                    == r@[i].1@,
    {
        let mut out: Vec<(String, RuleVector)> = Vec::new();
        let mut i: usize = 0;
        while i < self.slots.len()
            invariant
                self.wf(),
                i <= self.slots@.len(),
                out@.len() == i,
                forall|j: int|
                    0 <= j < i ==> (#[trigger] out@[j]).0@ == self.slots@[j].rule_id@ && out@[j].1@
                        == self.slots@[j].entry.anchors@,
            decreases self.slots@.len() - i,
        {
            let id = self.slots[i].rule_id.clone();
            let v = self.slots[i].entry.anchors.duplicate();
            out.push((id, v));
            i = i + 1;
        }
        proof {
            lemma_slots_view_len(self.slots@);
            assert forall|k: Seq<char>| #[trigger]
                self@.contains_key(k) implies pairs_view(out@).contains((k, self@[k].anchors)) by {
                let j = choose|j: int|
                    0 <= j < slot_ids(self.slots@).len() && slot_ids(self.slots@)[j] == k;
                lemma_slots_view_at(self.slots@, j);
                assert(pairs_view(out@)[j] == (k, self@[k].anchors));
            }
            assert forall|j: int| 0 <= j < out@.len() implies self@.contains_key(
                (#[trigger] out@[j]).0@,
            ) && self@[out@[j].0@].anchors == out@[j].1@ by {
                lemma_slots_view_at(self.slots@, j);
            }
            assert(pairs_view(out@) =~= self.spec_entries());
        }
        out
    }

    /// The cache's counters.
    pub fn stats(&self) -> (r: HotCacheStats)
        requires
            self.wf(),
        ensures
            r.entries == self@.len(),
            r.capacity == self.spec_capacity(),
            r.total_evictions == self.spec_total_evictions(),
            r.total_evicted == self.spec_total_evicted(),
    {
        proof {
            lemma_slots_view_len(self.slots@);
        }
        HotCacheStats {
            entries: self.slots.len(),
            capacity: self.capacity,
            total_evictions: self.total_evictions,
            total_evicted: self.total_evicted,
        }
    }

    /// Index of the entry that goes first under the eviction order.
    fn oldest_index(&self) -> (r: usize)
        requires
            self.slots@.len() > 0,
        ensures
            r < self.slots@.len(),
            forall|j: int|
                0 <= j < self.slots@.len() ==> !evicted_before(
                    #[trigger] self.slots@[j].entry@,
                    self.slots@[j].rule_id@,
                    self.slots@[r as int].entry@,
                    self.slots@[r as int].rule_id@,
                ),
    {
        let mut best: usize = 0;
        let mut i: usize = 1;
        proof {
            if evicted_before(
                self.slots@[0].entry@,
                self.slots@[0].rule_id@,
                self.slots@[0].entry@,
                self.slots@[0].rule_id@,
            ) {
                crate::text::lemma_bytes_lt_irreflexive(utf8_of(self.slots@[0].rule_id@));
            }
        }
        while i < self.slots.len()
            invariant
                best < i <= self.slots@.len(),
                forall|j: int|
                    0 <= j < i ==> !evicted_before(
                        #[trigger] self.slots@[j].entry@,
                        self.slots@[j].rule_id@,
                        self.slots@[best as int].entry@,
                        self.slots@[best as int].rule_id@,
                    ),
            decreases self.slots@.len() - i,
        {
            let a = &self.slots[i];
            let b = &self.slots[best];
            let before = a.entry.last_evaluated_at < b.entry.last_evaluated_at || (
            a.entry.last_evaluated_at == b.entry.last_evaluated_at && (a.entry.loaded_at
                < b.entry.loaded_at || (a.entry.loaded_at == b.entry.loaded_at && str_lt(
                a.rule_id.as_str(),
                b.rule_id.as_str(),
            ))));
            if before {
                proof {
                    assert forall|j: int| 0 <= j <= i implies !evicted_before(
                        #[trigger] self.slots@[j].entry@,
                        self.slots@[j].rule_id@,
                        self.slots@[i as int].entry@,
                        self.slots@[i as int].rule_id@,
                    ) by {
                        if j == i {
                            crate::text::lemma_bytes_lt_irreflexive(
                                utf8_of(self.slots@[j].rule_id@),
                            );
                        } else if evicted_before(
                            self.slots@[j].entry@,
                            self.slots@[j].rule_id@,
                            self.slots@[i as int].entry@,
                            self.slots@[i as int].rule_id@,
                        ) {
                            lemma_evicted_before_transitive(
                                self.slots@[j].entry@,
                                self.slots@[j].rule_id@,
                                self.slots@[i as int].entry@,
                                self.slots@[i as int].rule_id@,
                                self.slots@[best as int].entry@,
                                self.slots@[best as int].rule_id@,
                            );
                        }
                    }
                }
                best = i;
            }
            i = i + 1;
        }
        best
    }

    /// Drops the `k` entries that go first under the eviction order.
    fn evict_oldest(&mut self, k: usize)
        requires
            old(self).wf(),
            k <= old(self).slots@.len(),
        ensures
            final(self).wf(),
            final(self).slots@.len() == old(self).slots@.len() - k,
            final(self).capacity == old(self).capacity,
            final(self).total_evictions == old(self).total_evictions,
            final(self).total_evicted == old(self).total_evicted,
            forall|x: Seq<char>| #[trigger]
                final(self)@.contains_key(x) ==> old(self)@.contains_key(x) && final(self)@[x]
                    == old(self)@[x],
            forall|x: Seq<char>, y: Seq<char>|
                old(self)@.contains_key(x) && !final(self)@.contains_key(x) && #[trigger] final(self)@.contains_key(y) ==> !evicted_before(
                    old(self)@[y],
                    y,
                    #[trigger] old(self)@[x],
                    x,
                ),
    {
        let ghost start = self@;
        let mut n: usize = 0;
        while n < k
            invariant
                self.wf(),
                n <= k,
                self.slots@.len() == old(self).slots@.len() - n,
                start == old(self)@,
                self.capacity == old(self).capacity,
                self.total_evictions == old(self).total_evictions,
                self.total_evicted == old(self).total_evicted,
                k <= old(self).slots@.len(),
                forall|x: Seq<char>| #[trigger]
                    self@.contains_key(x) ==> start.contains_key(x) && self@[x] == start[x],
                forall|x: Seq<char>, y: Seq<char>|
                    start.contains_key(x) && !self@.contains_key(x) && #[trigger] self@.contains_key(
                        y,
                    ) ==> !evicted_before(start[y], y, #[trigger] start[x], x),
            decreases k - n,
        {
            let m = self.oldest_index();
            let ghost s = self.slots@;
            let ghost before = self@;
            let ghost gone = s[m as int].rule_id@;
            proof {
                lemma_slots_view_remove(s, m as int);
                lemma_slots_view_at(s, m as int);
            }
            let _ = self.slots.remove(m);
            proof {
                assert(self@ == before.remove(gone));
                assert forall|x: Seq<char>, y: Seq<char>|
                    start.contains_key(x) && !self@.contains_key(x) && #[trigger] self@.contains_key(
                        y,
                    ) implies !evicted_before(start[y], y, #[trigger] start[x], x) by {
                    if x == gone {
                        assert(before.contains_key(y));
                        let j = choose|j: int|
                            0 <= j < slot_ids(s).len() && slot_ids(s)[j] == y;
                        lemma_slots_view_at(s, j);
                        assert(!evicted_before(s[j].entry@, s[j].rule_id@, s[m as int].entry@, gone));
                    } else {
                        assert(before.contains_key(y));
                    }
                }
            }
            n = n + 1;
        }
    }

    /// Stores `anchors` for `rule_id`, loaded and evaluated at time `now`.
    ///
    /// An entry already there is replaced in place. Otherwise, in a full
    /// cache, a tenth of the capacity (rounded up) is evicted first, least
    /// recently evaluated first; a cache of capacity zero refuses the entry.
    pub fn insert_at(&mut self, rule_id: String, anchors: RuleVector, now: u64) -> (r: Result<
        (),
        BridgeError,
    >)
        requires
            old(self).wf(),
        ensures
            final(self).wf(),
            HotCache::insert_outcome(
                *old(self),
                *final(self),
                rule_id@,
                CachedRuleVectorView { anchors: anchors@, loaded_at: now, last_evaluated_at: now },
                r,
            ),
    {
        let ghost id = rule_id@;
        let entry = CachedRuleVector::new_at(anchors, now);
        proof {
            lemma_slots_view_len(self.slots@);
        }
        match self.find(rule_id.as_str()) {
            Some(i) => {
                let ghost s = self.slots@;
                let slot = CacheSlot { rule_id, entry };
                proof {
                    lemma_slots_view_at(s, i as int);
                    lemma_slots_view_update(s, i as int, slot);
                }
                self.slots.set(i, slot);
                assert(self.slots@ == s.update(i as int, slot));
                return Ok(());
            },
            None => {},
        }
        if self.capacity == 0 {
            return Err(BridgeError::Capacity);
        }
        let ghost old_view = self@;
        assert(!old_view.contains_key(id));
        let slot = CacheSlot { rule_id, entry };
        if self.slots.len() >= self.capacity {
            let batch = self.capacity / 10 + if self.capacity % 10 == 0 {
                0
            } else {
                1
            };
            assert(batch == eviction_batch(self.capacity as nat));
            self.evict_oldest(batch);
            proof {
                lemma_slots_view_len(self.slots@);
            }
            assert(!self@.contains_key(id));
            self.total_evictions = saturating_add(self.total_evictions, 1);
            self.total_evicted = saturating_add(self.total_evicted, batch as u64);
            let ghost mid = self@;
            assert(!mid.contains_key(id));
            self.push_absent(slot);
            proof {
                assert forall|k: Seq<char>| #[trigger]
                    self@.contains_key(k) && k != id implies old_view.contains_key(k)
                    && self@[k] == old_view[k] by {
                    assert(mid.contains_key(k));
                }
                assert forall|x: Seq<char>, y: Seq<char>|
                    old_view.contains_key(x) && !self@.contains_key(x) && #[trigger] self@.contains_key(
                        y,
                    ) && y != id implies !evicted_before(
                        old_view[y],
                        y,
                        #[trigger] old_view[x],
                        x,
                    ) by {
                    assert(mid.contains_key(y));
                    assert(!mid.contains_key(x));
                }
            }
        } else {
            self.push_absent(slot);
        }
        Ok(())
    }

    fn push_absent(&mut self, slot: CacheSlot)
        requires
            old(self).wf(),
            !old(self)@.contains_key(slot.rule_id@),
            old(self).slots@.len() < old(self).capacity,
        ensures
            final(self).wf(),
            final(self)@ == old(self)@.insert(slot.rule_id@, slot.entry@),
            final(self)@.len() == old(self)@.len() + 1,
            final(self).capacity == old(self).capacity,
            final(self).total_evictions == old(self).total_evictions,
            final(self).total_evicted == old(self).total_evicted,
    {
        let ghost s = self.slots@;
        proof {
            lemma_slots_view_len(s);
            assert(!slot_ids(s).contains(slot.rule_id@));
            lemma_slots_view_push(s, slot);
            lemma_slots_view_len(s.push(slot));
        }
        self.slots.push(slot);
    }

    /// Stores `anchors` for `rule_id`, loaded now; see `insert_at`.
    pub fn insert(&mut self, rule_id: String, anchors: RuleVector) -> (r: Result<(), BridgeError>)
        requires
            old(self).wf(),
        ensures
            final(self).wf(),
            exists|now: u64|
                #[trigger] HotCache::insert_outcome(
                    *old(self),
                    *final(self),
                    rule_id@,
                    CachedRuleVectorView {
                        anchors: anchors@,
                        loaded_at: now,
                        last_evaluated_at: now,
                    },
                    r,
                ),
            r is Ok <==> (old(self)@.contains_key(rule_id@) || old(self).spec_capacity() > 0),
            r is Ok ==> final(self)@.contains_key(rule_id@) && final(self)@[rule_id@].anchors
                == anchors@,
    {
        let now = now_ms();
        let ghost a = anchors@;
        let r = self.insert_at(rule_id, anchors, now);
        assert(HotCache::insert_outcome(
            *old(self),
            *self,
            rule_id@,
            CachedRuleVectorView { anchors: a, loaded_at: now, last_evaluated_at: now },
            r,
        ));
        r
    }
}

/// After an insertion of a new id into a full cache, which is an eviction
/// event, the cache is within its capacity and the eviction counter moved by
/// exactly one.
pub proof fn lemma_eviction_event(
    old: HotCache,
    new: HotCache,
    id: Seq<char>,
    entry: CachedRuleVectorView,
    r: Result<(), BridgeError>,
)
    requires
        old.wf(),
        new.wf(),
        HotCache::insert_outcome(old, new, id, entry, r),
        !old@.contains_key(id),
        old.spec_capacity() > 0,
        old@.len() >= old.spec_capacity(),
        old.spec_total_evictions() < u64::MAX,
    ensures
        new@.len() <= new.spec_capacity(),
        new.spec_total_evictions() == old.spec_total_evictions() + 1,
{
    new.lemma_within_capacity();
}

/// An insertion changes the cache only at the inserted id: every entry after
/// it is the new one or was there before, unchanged.
pub proof fn lemma_insert_only_touches(
    old: HotCache,
    new: HotCache,
    id: Seq<char>,
    entry: CachedRuleVectorView,
    r: Result<(), BridgeError>,
)
    requires
        HotCache::insert_outcome(old, new, id, entry, r),
    ensures
        forall|k: Seq<char>| #[trigger]
            new@.contains_key(k) ==> (k == id && new@[k] == entry) || (old@.contains_key(k)
                && new@[k] == old@[k]),
        r is Ok ==> new@.contains_key(id) && new@[id] == entry,
{
}

/// An insertion's outcome depends on its result only through whether it
/// succeeded.
pub proof fn lemma_outcome_of_ok(
    old: HotCache,
    new: HotCache,
    id: Seq<char>,
    entry: CachedRuleVectorView,
    r: Result<(), BridgeError>,
)
    requires
        HotCache::insert_outcome(old, new, id, entry, r),
        r is Ok,
    ensures
        HotCache::insert_outcome(old, new, id, entry, Ok(())),
{
}

} // verus!
