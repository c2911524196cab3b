use vstd::prelude::*;

use crate::comparison::DecisionMode;

verus! {

/// Number of rule families.
pub const FAMILY_COUNT: usize = 14;

/// The seven layers that group rule families for reporting.
#[derive(Debug, Clone, Copy, PartialEq, Eq, Structural, Hash)]
pub enum LayerId {
    System,
    Input,
    Planner,
    ModelIo,
    ToolGateway,
    Retrieval,
    Egress,
}

impl LayerId {
    /// Position of the layer, 0 to 6.
    pub open spec fn spec_layer_num(self) -> u8 {
        match self {
            LayerId::System => 0,
            LayerId::Input => 1,
            LayerId::Planner => 2,
            LayerId::ModelIo => 3,
            LayerId::ToolGateway => 4,
            LayerId::Retrieval => 5,
            LayerId::Egress => 6,
        }
    }

    /// Position of the layer, 0 to 6.
    pub fn layer_num(&self) -> (r: u8)
        ensures
            r == self.spec_layer_num(),
            r <= 6,
    {
        match self {
            LayerId::System => 0,
            LayerId::Input => 1,
            LayerId::Planner => 2,
            LayerId::ModelIo => 3,
            LayerId::ToolGateway => 4,
            LayerId::Retrieval => 5,
            LayerId::Egress => 6,
        }
    }
}

/// The fourteen rule families, two to a layer.
#[derive(Debug, Clone, Copy, PartialEq, Eq, Structural, Hash)]
pub enum RuleFamilyId {
    SystemPolicy,
    SystemIdentity,
    InputSchema,
    InputSanitize,
    PlannerIntent,
    PlannerScope,
    ModelPrompt,
    ModelOutput,
    ToolWhitelist,
    ToolParameter,
    RetrievalSource,
    RetrievalDocument,
    EgressDestination,
    EgressData,
}

impl RuleFamilyId {
    /// Position of the family in `all()`, 0 to 13.
    pub open spec fn spec_index(self) -> nat {
        match self {
            RuleFamilyId::SystemPolicy => 0,
            RuleFamilyId::SystemIdentity => 1,
            RuleFamilyId::InputSchema => 2,
            RuleFamilyId::InputSanitize => 3,
            RuleFamilyId::PlannerIntent => 4,
            RuleFamilyId::PlannerScope => 5,
            RuleFamilyId::ModelPrompt => 6,
            RuleFamilyId::ModelOutput => 7,
            RuleFamilyId::ToolWhitelist => 8,
            RuleFamilyId::ToolParameter => 9,
            RuleFamilyId::RetrievalSource => 10,
            RuleFamilyId::RetrievalDocument => 11,
            RuleFamilyId::EgressDestination => 12,
            RuleFamilyId::EgressData => 13,
        }
    }

    /// The layer that the family belongs to.
    pub open spec fn spec_layer(self) -> LayerId {
        match self {
            RuleFamilyId::SystemPolicy | RuleFamilyId::SystemIdentity => LayerId::System,
            RuleFamilyId::InputSchema | RuleFamilyId::InputSanitize => LayerId::Input,
            RuleFamilyId::PlannerIntent | RuleFamilyId::PlannerScope => LayerId::Planner,
            RuleFamilyId::ModelPrompt | RuleFamilyId::ModelOutput => LayerId::ModelIo,
            RuleFamilyId::ToolWhitelist | RuleFamilyId::ToolParameter => LayerId::ToolGateway,
            RuleFamilyId::RetrievalSource | RuleFamilyId::RetrievalDocument => LayerId::Retrieval,
            RuleFamilyId::EgressDestination | RuleFamilyId::EgressData => LayerId::Egress,
        }
    }

    /// Position of the family in `all()`, 0 to 13.
    pub fn index(&self) -> (r: usize)
        ensures
            r == self.spec_index(),
            r < FAMILY_COUNT,
    {
        match self {
            RuleFamilyId::SystemPolicy => 0,
            RuleFamilyId::SystemIdentity => 1,
            RuleFamilyId::InputSchema => 2,
            RuleFamilyId::InputSanitize => 3,
            RuleFamilyId::PlannerIntent => 4,
            RuleFamilyId::PlannerScope => 5,
            RuleFamilyId::ModelPrompt => 6,
            RuleFamilyId::ModelOutput => 7,
            RuleFamilyId::ToolWhitelist => 8,
            RuleFamilyId::ToolParameter => 9,
            RuleFamilyId::RetrievalSource => 10,
            RuleFamilyId::RetrievalDocument => 11,
            RuleFamilyId::EgressDestination => 12,
            RuleFamilyId::EgressData => 13,
        }
    }

    /// The layer that the family belongs to.
    pub fn layer(&self) -> (r: LayerId)
        ensures
            r == self.spec_layer(),
    {
        match self {
            RuleFamilyId::SystemPolicy | RuleFamilyId::SystemIdentity => LayerId::System,
            RuleFamilyId::InputSchema | RuleFamilyId::InputSanitize => LayerId::Input,
            RuleFamilyId::PlannerIntent | RuleFamilyId::PlannerScope => LayerId::Planner,
            RuleFamilyId::ModelPrompt | RuleFamilyId::ModelOutput => LayerId::ModelIo,
            RuleFamilyId::ToolWhitelist | RuleFamilyId::ToolParameter => LayerId::ToolGateway,
            RuleFamilyId::RetrievalSource | RuleFamilyId::RetrievalDocument => LayerId::Retrieval,
            RuleFamilyId::EgressDestination | RuleFamilyId::EgressData => LayerId::Egress,
        }
    }

    /// Every family, in index order.
    pub fn all() -> (r: Vec<RuleFamilyId>)
        ensures
            r@.len() == FAMILY_COUNT,
            forall|i: int| 0 <= i < FAMILY_COUNT ==> (#[trigger] r@[i]).spec_index() == i,
    {
        let r = vec![
            RuleFamilyId::SystemPolicy,
            RuleFamilyId::SystemIdentity,
            RuleFamilyId::InputSchema,
            RuleFamilyId::InputSanitize,
            RuleFamilyId::PlannerIntent,
            RuleFamilyId::PlannerScope,
            RuleFamilyId::ModelPrompt,
            RuleFamilyId::ModelOutput,
            RuleFamilyId::ToolWhitelist,
            RuleFamilyId::ToolParameter,
            RuleFamilyId::RetrievalSource,
            RuleFamilyId::RetrievalDocument,
            RuleFamilyId::EgressDestination,
            RuleFamilyId::EgressData,
        ];
        r
    }
}

/// Two families with the same index are the same family.
pub proof fn lemma_family_index_injective(a: RuleFamilyId, b: RuleFamilyId)
    ensures
        a.spec_index() == b.spec_index() ==> a == b,
{
}

/// A rule as installed: its id, family, optional agent scope, priority,
/// per-slot thresholds (`f32` bit patterns) and decision mode.
#[derive(Debug, Clone, PartialEq, Eq)]
pub struct RuleDescriptor {
    /// Unique across the whole bridge.
    pub rule_id: String,
    pub family_id: RuleFamilyId,
    /// The agent the rule is scoped to; `None` makes it global.
    pub agent_id: Option<String>,
    /// Higher goes first.
    pub priority: i32,
    /// One threshold per slot, action, resource, data, risk.
    pub thresholds: [u32; 4],
    pub decision_mode: DecisionMode,
}

impl RuleDescriptor {
    /// An equal copy.
    pub fn duplicate(&self) -> (r: RuleDescriptor)
        ensures
            r == *self,
    {
        let agent_id = match &self.agent_id {
            Some(a) => Some(a.clone()),
            None => None,
        };
        RuleDescriptor {
            rule_id: self.rule_id.clone(),
            family_id: self.family_id,
            agent_id,
            priority: self.priority,
            thresholds: self.thresholds,
            decision_mode: self.decision_mode,
        }
    }
}

} // verus!
