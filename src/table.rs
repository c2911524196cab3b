use vstd::prelude::*;

use crate::error::BridgeError;
use crate::hot_cache::saturating_sum;
use crate::text::str_eq;
use crate::types::{LayerId, RuleDescriptor, RuleFamilyId};

verus! {

broadcast use vstd::seq_lib::group_seq_properties;

/// The ids of `rules`, in order.
pub open spec fn rule_ids(rules: Seq<RuleDescriptor>) -> Seq<Seq<char>> {
    rules.map_values(|d: RuleDescriptor| d.rule_id@)
}

/// Whether a rule with id `id` is among `rules`.
pub open spec fn holds_rule(rules: Seq<RuleDescriptor>, id: Seq<char>) -> bool {
    rule_ids(rules).contains(id)
}

/// Whether a rule has no agent scope.
pub open spec fn is_global(d: RuleDescriptor) -> bool {
    d.agent_id is None
}

/// Whether a rule is scoped to `agent`.
pub open spec fn is_scoped_to(d: RuleDescriptor, agent: Seq<char>) -> bool {
    d.agent_id matches Some(a) && a@ == agent
}

/// The global rules among `rules`, in order.
pub open spec fn globals_of(rules: Seq<RuleDescriptor>) -> Seq<RuleDescriptor> {
    rules.filter(|d: RuleDescriptor| is_global(d))
}

/// The rules among `rules` scoped to `agent`, in order.
pub open spec fn scoped_to(rules: Seq<RuleDescriptor>, agent: Seq<char>) -> Seq<RuleDescriptor> {
    rules.filter(|d: RuleDescriptor| is_scoped_to(d, agent))
}

/// Why adding `d` to a table of `family` holding `rules` fails, if it does.
pub open spec fn add_refusal(
    rules: Seq<RuleDescriptor>,
    family: RuleFamilyId,
    d: RuleDescriptor,
) -> Option<BridgeError> {
    if d.family_id != family {
        Some(BridgeError::FamilyMismatch)
    } else if holds_rule(rules, d.rule_id@) {
        Some(BridgeError::Conflict)
    } else {
        None
    }
}

/// Adding `batch` one rule after another, stopping at the first refusal:
/// the rules then held, how many were added, and the refusal if any.
pub open spec fn batch_result(
    rules: Seq<RuleDescriptor>,
    family: RuleFamilyId,
    batch: Seq<RuleDescriptor>,
) -> (Seq<RuleDescriptor>, nat, Option<BridgeError>)
    decreases batch.len(),
{
    if batch.len() == 0 {
        (rules, 0, None)
    } else {
        match add_refusal(rules, family, batch[0]) {
            Some(e) => (rules, 0, Some(e)),
            None => {
                let rest = batch_result(rules.push(batch[0]), family, batch.drop_first());
                (rest.0, rest.1 + 1, rest.2)
            },
        }
    }
}

/// Counts that describe a table.
#[derive(Debug, Clone, Copy, PartialEq, Eq, Structural)]
pub struct TableMetadata {
    pub rule_count: usize,
    pub global_count: usize,
    pub scoped_count: usize,
    pub version: u64,
}

/// The rules of one family, in insertion order, with a version that every
/// change bumps.
pub struct RuleFamilyTable {
    family: RuleFamilyId,
    layer: LayerId,
    rules: Vec<RuleDescriptor>,
    version: u64,
}

impl View for RuleFamilyTable {
    type V = Seq<RuleDescriptor>;

    closed spec fn view(&self) -> Seq<RuleDescriptor> {
        self.rules@
    }
}

impl RuleFamilyTable {
    /// Every rule is of the table's family and rule ids are unique.
    pub closed spec fn wf(&self) -> bool {
        &&& forall|i: int| 0 <= i < self.rules@.len() ==> (#[trigger] self.rules@[i]).family_id
            == self.family
        &&& rule_ids(self.rules@).no_duplicates()
        &&& self.layer == self.family.spec_layer()
    }

    pub closed spec fn spec_family(&self) -> RuleFamilyId {
        self.family
    }

    pub closed spec fn spec_version(&self) -> u64 {
        self.version
    }

    /// An empty table for `family`, at version 0.
    pub fn new(family: RuleFamilyId) -> (r: RuleFamilyTable)
        ensures
            r.wf(),
            r@ == Seq::<RuleDescriptor>::empty(),
            r.spec_family() == family,
            r.spec_version() == 0,
    {
        RuleFamilyTable { family, layer: family.layer(), rules: Vec::new(), version: 0 }
    }

    pub fn family_id(&self) -> (r: RuleFamilyId)
        ensures
            r == self.spec_family(),
    {
        self.family
    }

    pub fn layer_id(&self) -> (r: LayerId)
        requires
            self.wf(),
        ensures
            r == self.spec_family().spec_layer(),
    {
        self.layer
    }

    pub fn version(&self) -> (r: u64)
        ensures
            r == self.spec_version(),
    {
        self.version
    }

    /// Number of rules held.
    pub fn len(&self) -> (r: usize)
        ensures
            r == self@.len(),
    {
        self.rules.len()
    }

    fn position(&self, rule_id: &str) -> (r: Option<usize>)
        ensures
            r matches Some(i) ==> i < self@.len() && self@[i as int].rule_id@ == rule_id@,
            r is None ==> !holds_rule(self@, rule_id@),
    {
        let mut i: usize = 0;
        while i < self.rules.len()
            invariant
                i <= self.rules@.len(),
                forall|j: int| 0 <= j < i ==> self.rules@[j].rule_id@ != rule_id@,
            decreases self.rules@.len() - i,
        {
            if str_eq(self.rules[i].rule_id.as_str(), rule_id) {
                return Some(i);
            }
            i = i + 1;
        }
        proof {
            if holds_rule(self@, rule_id@) {
                let j = choose|j: int|
                    0 <= j < rule_ids(self@).len() && rule_ids(self@)[j] == rule_id@;
                assert(self.rules@[j].rule_id@ == rule_id@);
            }
        }
        None
    }

    /// Adds `rule`; fails with `FamilyMismatch` if it is of another family and
    /// with `Conflict` if its id is already held, changing nothing.
    pub fn add_rule(&mut self, rule: RuleDescriptor) -> (r: Result<(), BridgeError>)
        requires
            old(self).wf(),
        ensures
            final(self).wf(),
            final(self).spec_family() == old(self).spec_family(),
            match add_refusal(old(self)@, old(self).spec_family(), rule) {
                Some(e) => {
                    &&& r == Err::<(), BridgeError>(e)
                    &&& final(self)@ == old(self)@
                    &&& final(self).spec_version() == old(self).spec_version()
                },
                None => {
                    &&& r is Ok
                    &&& final(self)@ == old(self)@.push(rule)
                    &&& final(self).spec_version() == saturating_sum(old(self).spec_version(), 1)
                },
            },
    {
        if rule.family_id != self.family {
            return Err(BridgeError::FamilyMismatch);
        }
        match self.position(rule.rule_id.as_str()) {
            Some(i) => {
                assert(rule_ids(self@)[i as int] == rule.rule_id@);
                return Err(BridgeError::Conflict);
            },
            None => {},
        }
        let ghost s = self.rules@;
        self.rules.push(rule);
        proof {
            assert(rule_ids(self.rules@) =~= rule_ids(s).push(rule.rule_id@));
            assert forall|i: int, j: int|
                0 <= i < rule_ids(self.rules@).len() && 0 <= j < rule_ids(self.rules@).len() && i
                    != j implies rule_ids(self.rules@)[i] != rule_ids(self.rules@)[j] by {
                if i < s.len() && j < s.len() {
                    assert(rule_ids(s)[i] != rule_ids(s)[j]);
                } else if i < s.len() {
                    assert(rule_ids(s)[i] == rule_ids(self.rules@)[i]);
                } else {
                    assert(rule_ids(s)[j] == rule_ids(self.rules@)[j]);
                }
            }
        }
        self.version = if self.version < u64::MAX {
            self.version + 1
        } else {
            self.version
        };
        Ok(())
    }

    /// Adds `rules` in order, stopping at the first refusal, which is
    /// returned; the rules before it stay added.
    pub fn add_rules_batch(&mut self, rules: Vec<RuleDescriptor>) -> (r: Result<(), BridgeError>)
        requires
            old(self).wf(),
        ensures
            final(self).wf(),
            final(self).spec_family() == old(self).spec_family(),
            final(self)@ == batch_result(old(self)@, old(self).spec_family(), rules@).0,
            final(self).spec_version() == saturating_sum(
                old(self).spec_version(),
                batch_result(old(self)@, old(self).spec_family(), rules@).1,
            ),
            match batch_result(old(self)@, old(self).spec_family(), rules@).2 {
                Some(e) => r == Err::<(), BridgeError>(e),
                None => r is Ok,
            },
    {
        let ghost family = self.family;
        let ghost total = batch_result(old(self)@, family, rules@);
        let mut i: usize = 0;
        let ghost added: nat = 0;
        while i < rules.len()
            invariant
                self.wf(),
                self.family == family,
                family == old(self).spec_family(),
                total == batch_result(old(self)@, family, rules@),
                i <= rules@.len(),
                total.0 == batch_result(self@, family, rules@.skip(i as int)).0,
                total.1 == added + batch_result(self@, family, rules@.skip(i as int)).1,
                total.2 == batch_result(self@, family, rules@.skip(i as int)).2,
                self.version == saturating_sum(old(self).version, added),
            decreases rules@.len() - i,
        {
            let ghost before = self@;
            let ghost rest = rules@.skip(i as int);
            assert(rest[0] == rules@[i as int]);
            assert(rest.drop_first() =~= rules@.skip(i + 1));
            let d = rules[i].duplicate();
            match self.add_rule(d) {
                Ok(()) => {
                    proof {
                        added = added + 1;
                    }
                },
                Err(e) => {
                    return Err(e);
                },
            }
            i = i + 1;
        }
        assert(rules@.skip(i as int) =~= Seq::<RuleDescriptor>::empty());
        Ok(())
    }

    /// Drops the rule `rule_id`; says whether it was held. The version moves
    /// only when a rule was dropped.
    pub fn remove_rule(&mut self, rule_id: &str) -> (r: bool)
        requires
            old(self).wf(),
        ensures
            final(self).wf(),
            final(self).spec_family() == old(self).spec_family(),
            r == holds_rule(old(self)@, rule_id@),
            r ==> exists|i: int|
                0 <= i < old(self)@.len() && old(self)@[i].rule_id@ == rule_id@ && final(self)@
                    == #[trigger] old(self)@.remove(i),
            r ==> final(self).spec_version() == saturating_sum(old(self).spec_version(), 1),
            !r ==> final(self)@ == old(self)@ && final(self).spec_version() == old(
                self,
            ).spec_version(),
    {
        match self.position(rule_id) {
            Some(i) => {
                let ghost s = self.rules@;
                assert(rule_ids(s)[i as int] == rule_id@);
                let _ = self.rules.remove(i);
                proof {
                    assert(self.rules@ == s.remove(i as int));
                    assert forall|a: int| 0 <= a < self.rules@.len() implies #[trigger] rule_ids(
                        self.rules@,
                    )[a] == rule_ids(s)[if a < i {
                        a
                    } else {
                        a + 1
                    }] by {}
                    assert forall|a: int, b: int|
                        0 <= a < rule_ids(self.rules@).len() && 0 <= b < rule_ids(self.rules@).len()
                            && a != b implies rule_ids(self.rules@)[a] != rule_ids(
                        self.rules@,
                    )[b] by {
                        assert(rule_ids(self.rules@)[a] == rule_ids(s)[if a < i {
                            a
                        } else {
                            a + 1
                        }]);
                        assert(rule_ids(self.rules@)[b] == rule_ids(s)[if b < i {
                            b
                        } else {
                            b + 1
                        }]);
                    }
                    assert forall|a: int| 0 <= a < self.rules@.len() implies (#[trigger] self.rules@[
                        a
                    ]).family_id == self.family by {
                        assert(self.rules@[a] == s[if a < i {
                            a
                        } else {
                            a + 1
                        }]);
                    }
                }
                self.version = if self.version < u64::MAX {
                    self.version + 1
                } else {
                    self.version
                };
                true
            },
            None => false,
        }
    }

    /// Drops every rule and bumps the version.
    pub fn clear(&mut self)
        requires
            old(self).wf(),
        ensures
            final(self).wf(),
            final(self).spec_family() == old(self).spec_family(),
            final(self)@ == Seq::<RuleDescriptor>::empty(),
            final(self).spec_version() == saturating_sum(old(self).spec_version(), 1),
    {
        self.rules.clear();
        assert(rule_ids(self.rules@) =~= Seq::<Seq<char>>::empty());
        self.version = if self.version < u64::MAX {
            self.version + 1
        } else {
            self.version
        };
    }

    /// A copy of the rule `rule_id`, if held.
    pub fn find_rule(&self, rule_id: &str) -> (r: Option<RuleDescriptor>)
        requires
            self.wf(),
        ensures
            r is Some <==> holds_rule(self@, rule_id@),
            r matches Some(d) ==> d.rule_id@ == rule_id@ && self@.contains(d) && d.family_id
                == self.spec_family(),
    {
        match self.position(rule_id) {
            Some(i) => {
                assert(rule_ids(self@)[i as int] == rule_id@);
                Some(self.rules[i].duplicate())
            },
            None => None,
        }
    }

    /// Copies of the rules scoped to `agent_id`, in insertion order.
    pub fn query_by_secondary(&self, agent_id: &str) -> (r: Vec<RuleDescriptor>)
        ensures
            r@ == scoped_to(self@, agent_id@),
    {
        let mut out: Vec<RuleDescriptor> = Vec::new();
        let mut i: usize = 0;
        while i < self.rules.len()
            invariant
                i <= self.rules@.len(),
                out@ == scoped_to(self.rules@.take(i as int), agent_id@),
            decreases self.rules@.len() - i,
        {
            let d = &self.rules[i];
            let hit = match &d.agent_id {
                Some(a) => str_eq(a.as_str(), agent_id),
                None => false,
            };
            proof {
                assert(self.rules@.take(i + 1) =~= self.rules@.take(i as int).push(*d));
                self.rules@.take(i as int).lemma_filter_push(
                    *d,
                    |x: RuleDescriptor| is_scoped_to(x, agent_id@),
                );
            }
            if hit {
                out.push(d.duplicate());
            }
            i = i + 1;
        }
        assert(self.rules@.take(i as int) =~= self.rules@);
        out
    }

    /// Copies of the global rules, in insertion order.
    pub fn query_globals(&self) -> (r: Vec<RuleDescriptor>)
        ensures
            r@ == globals_of(self@),
    {
        let mut out: Vec<RuleDescriptor> = Vec::new();
        let mut i: usize = 0;
        while i < self.rules.len()
            invariant
                i <= self.rules@.len(),
                out@ == globals_of(self.rules@.take(i as int)),
            decreases self.rules@.len() - i,
        {
            let d = &self.rules[i];
            proof {
                assert(self.rules@.take(i + 1) =~= self.rules@.take(i as int).push(*d));
                self.rules@.take(i as int).lemma_filter_push(*d, |x: RuleDescriptor| is_global(x));
            }
            if d.agent_id.is_none() {
                out.push(d.duplicate());
            }
            i = i + 1;
        }
        assert(self.rules@.take(i as int) =~= self.rules@);
        out
    }

    /// Rule counts and version.
    pub fn metadata(&self) -> (r: TableMetadata)
        ensures
            r.rule_count == self@.len(),
            r.global_count == globals_of(self@).len(),
            r.scoped_count == self@.len() - globals_of(self@).len(),
            r.version == self.spec_version(),
    {
        let globals = self.query_globals();
        proof {
            self@.lemma_filter_len(|x: RuleDescriptor| is_global(x));
        }
        TableMetadata {
            rule_count: self.rules.len(),
            global_count: globals.len(),
            scoped_count: self.rules.len() - globals.len(),
            version: self.version,
        }
    }
}

} // verus!
