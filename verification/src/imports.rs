//! How what was learned before there was a core is brought into one: each kind of
//! learning once, and only while the core is open for it.
use vstd::prelude::*;

use crate::arena::{OpportunityKind, OpportunitySpec};
use crate::checkpoint::ComponentsView;
use crate::codec::Wire;
use crate::compiler::KnowledgeCompiler;
use crate::consolidation::{same_bytes, KnowledgeState, StateView};
use crate::digest;
use crate::digest::{hash_labelled, write_digest, Digest};
use crate::ecology;
use crate::ecology::{
    EcologyEdit, EditView, MandateView, ModelEcology, OriginView, RevisionView, SpecialistMandate,
    SpecialistRevision, SpecialistStatus,
};
use crate::intelligence;
use crate::intelligence::{CoreView, IntelligenceCore};
use crate::ledger::CausalLedger;
use crate::model;
use crate::model::{axes_of_heads, CompactModel, ModelView};
use crate::policy::{PolicyEngine, RuntimePolicyState};
use crate::types::{
    FeatureSchemaId, IntelligenceError, IntelligenceLimits, RoleId, RoutingFamilyId,
};

verus! {

broadcast use intelligence::lemma_core_view;

/// An import, or why it is refused.
pub open spec fn imports(
    result: Result<IntelligenceCore, IntelligenceError>,
    expected: Result<CoreView, IntelligenceError>,
) -> bool {
    match result {
        Ok(core) => expected == Ok::<CoreView, IntelligenceError>(core@) && core@.well_formed(),
        Err(error) => expected == Err::<CoreView, IntelligenceError>(error),
    }
}

/// The role of a model that was learned elsewhere.
pub open spec fn imported_role(source_lineage: Digest, canonical_model: Digest) -> RoleId {
    RoleId(
        digest::labelled(
            "reflex-imported-ftrl-generalist-role-v1\0",
            source_lineage.bytes() + canonical_model.bytes(),
        ),
    )
}

pub fn imported_ftrl_role(source_lineage: Digest, canonical_model: Digest) -> (role: RoleId)
    ensures
        role == imported_role(source_lineage, canonical_model),
{
    let mut content: Vec<u8> = Vec::new();
    write_digest(source_lineage, &mut content);
    write_digest(canonical_model, &mut content);
    assert(content@ =~= source_lineage.bytes() + canonical_model.bytes());
    RoleId(hash_labelled("reflex-imported-ftrl-generalist-role-v1\0", content.as_slice()))
}

/// What a model that was learned elsewhere may forecast: its axes, for candidates,
/// in every family.
pub open spec fn imported_mandate(source_lineage: Digest, imported: ModelView) -> MandateView {
    MandateView {
        role: imported_role(
            source_lineage,
            digest::labelled("reflex-compact-model-v1\0", CompactModel::wire((), imported)),
        ),
        axes: model::head_axes(imported.heads),
        opportunity_kinds: seq![OpportunityKind::Candidate],
        feature_schemas: seq![FeatureSchemaId::built_in_spec(1)],
        routing_families: Seq::empty(),
    }
}

/// The specialist that a model learned elsewhere becomes.
pub open spec fn imported_specialist(source_lineage: Digest, imported: ModelView) -> RevisionView {
    let mandate = imported_mandate(source_lineage, imported).arranged();
    RevisionView {
        id: ecology::revision_id(mandate, imported),
        mandate,
        model: imported,
        status: SpecialistStatus::Active,
        origin: OriginView::Spawn,
    }
}

impl CoreView {
    /// The core with a policy that was learned elsewhere.
    pub open spec fn with_policy<P: PolicyEngine>(self, policy: Seq<u8>) -> Result<
        CoreView,
        IntelligenceError,
    > {
        if !self.policy_import_eligible || self.components.policy != P::initial() || !P::is_state(
            policy,
        ) {
            Err(IntelligenceError::InvalidPolicy)
        } else {
            Ok(
                CoreView::assembled(
                    self.limits,
                    (ComponentsView { policy, ..self.components }),
                    false,
                    self.legacy_ftrl_import_eligible,
                    self.legacy_knowledge_import_eligible,
                ),
            )
        }
    }

    /// The core with a model that was learned elsewhere.
    pub open spec fn with_model(self, source_lineage: Digest, imported: ModelView) -> Result<
        CoreView,
        IntelligenceError,
    > {
        if !self.legacy_ftrl_import_eligible {
            Err(IntelligenceError::IncompatibleRevision)
        } else if self.components.ecology.specialists.len() > 0 {
            Err(IntelligenceError::InvalidMandate)
        } else if !imported_mandate(source_lineage, imported).acceptable() {
            Err(IntelligenceError::InvalidMandate)
        } else {
            match self.components.ecology.applied(
                EditView::Spawn(imported_specialist(source_lineage, imported)),
                self.limits,
            ) {
                Err(error) => Err(error),
                Ok(ecology) => Ok(
                    CoreView::assembled(
                        self.limits,
                        (ComponentsView { ecology, ..self.components }),
                        self.policy_import_eligible,
                        false,
                        self.legacy_knowledge_import_eligible,
                    ),
                ),
            }
        }
    }

    /// The core with no model from elsewhere.
    pub open spec fn without_model(self) -> Result<CoreView, IntelligenceError> {
        if !self.legacy_ftrl_import_eligible || self.components.ecology.specialists.len() > 0 {
            Err(IntelligenceError::IncompatibleRevision)
        } else {
            Ok(
                CoreView::assembled(
                    self.limits,
                    self.components,
                    self.policy_import_eligible,
                    false,
                    self.legacy_knowledge_import_eligible,
                ),
            )
        }
    }

    /// The core with what was learned elsewhere, if anything was.
    pub open spec fn with_learning(self, conversion: Option<(Digest, ModelView)>) -> Result<
        CoreView,
        IntelligenceError,
    > {
        match conversion {
            Some((source_lineage, imported)) => self.with_model(source_lineage, imported),
            None => self.without_model(),
        }
    }

    /// The core with knowledge that was gathered elsewhere.
    pub open spec fn with_knowledge(self, legacy: StateView) -> Result<
        CoreView,
        IntelligenceError,
    > {
        if !self.legacy_knowledge_import_eligible {
            Err(IntelligenceError::IncompatibleRevision)
        } else {
            match self.components.knowledge.imported(legacy, self.limits) {
                Err(error) => Err(error),
                Ok(knowledge) => Ok(
                    CoreView::assembled(
                        self.limits,
                        (ComponentsView { knowledge, ..self.components }),
                        self.policy_import_eligible,
                        self.legacy_ftrl_import_eligible,
                        false,
                    ),
                ),
            }
        }
    }

    /// The core once nothing more is to be imported. Learning and knowledge must
    /// have been; a policy that was not stays the one that everything begins with.
    pub open spec fn finalized<P: PolicyEngine>(self) -> Result<CoreView, IntelligenceError> {
        if self.legacy_ftrl_import_eligible || self.legacy_knowledge_import_eligible {
            Err(IntelligenceError::IncompatibleRevision)
        } else if self.policy_import_eligible && self.components.policy != P::initial() {
            Err(IntelligenceError::InvalidPolicy)
        } else {
            Ok(CoreView::assembled(self.limits, self.components, false, false, false))
        }
    }
}

impl IntelligenceCore {
    /// Imports a policy.
    pub fn into_legacy_runtime_policy<P: PolicyEngine>(self, policy: &RuntimePolicyState) -> (result:
        Result<Self, IntelligenceError>)
        requires
            self@.well_formed(),
        ensures
            imports(result, self@.with_policy::<P>(policy@)),
    {
        let initial = P::bootstrap();
        if !self.policy_import_eligible || !same_bytes(self.policy.encode(), initial.as_slice())
            || !P::accepts(policy.encode()) {
            return Err(IntelligenceError::InvalidPolicy);
        }
        Ok(
            Self::from_components(
                self.limits,
                self.ecology,
                self.experience,
                self.knowledge,
                policy.duplicate(),
                false,
                self.legacy_ftrl_import_eligible,
                self.legacy_knowledge_import_eligible,
            ),
        )
    }

    /// Imports a model, under the lineage that it was learned in.
    pub fn into_legacy_ftrl(self, source_lineage: Digest, imported: CompactModel) -> (result: Result<
        Self,
        IntelligenceError,
    >)
        requires
            self@.well_formed(),
        ensures
            imports(result, self@.with_model(source_lineage, imported@)),
    {
        if !self.legacy_ftrl_import_eligible {
            return Err(IntelligenceError::IncompatibleRevision);
        }
        if !self.ecology.is_empty() {
            return Err(IntelligenceError::InvalidMandate);
        }
        let role = imported_ftrl_role(source_lineage, imported.content_identity());
        let axes = axes_of_heads(imported.heads());
        let kinds: [OpportunityKind; 1] = [OpportunityKind::Candidate];
        let schemas: [FeatureSchemaId; 1] = [OpportunitySpec::candidate_schema()];
        assert(kinds@ =~= seq![OpportunityKind::Candidate]);
        assert(schemas@ =~= seq![FeatureSchemaId::built_in_spec(1)]);
        let families: [RoutingFamilyId; 0] = [];
        assert(families@ =~= Seq::empty());
        let mandate = match SpecialistMandate::for_routing_families(
            role,
            axes.as_slice(),
            kinds.as_slice(),
            schemas.as_slice(),
            families.as_slice(),
        ) {
            Ok(mandate) => mandate,
            Err(error) => return Err(error),
        };
        let specialist = match SpecialistRevision::new(mandate, imported) {
            Ok(specialist) => specialist,
            Err(error) => return Err(error),
        };
        let mut ecology = self.ecology;
        match ecology.apply(&EcologyEdit::Spawn(specialist), self.limits) {
            Ok(_) => {},
            Err(error) => return Err(error),
        }
        Ok(
            Self::from_components(
                self.limits,
                ecology,
                self.experience,
                self.knowledge,
                self.policy,
                self.policy_import_eligible,
                false,
                self.legacy_knowledge_import_eligible,
            ),
        )
    }

    /// Imports a model with its lineage, or settles that there is none.
    pub fn into_legacy_learning(self, conversion: Option<(Digest, CompactModel)>) -> (result: Result<
        Self,
        IntelligenceError,
    >)
        requires
            self@.well_formed(),
        ensures
            imports(
                result,
                self@.with_learning(
                    match conversion {
                        Some((source_lineage, imported)) => Some((source_lineage, imported@)),
                        None => None,
                    },
                ),
            ),
    {
        match conversion {
            Some((source_lineage, imported)) => self.into_legacy_ftrl(source_lineage, imported),
            None => self.without_legacy_ftrl(),
        }
    }

    fn without_legacy_ftrl(self) -> (result: Result<Self, IntelligenceError>)
        requires
            self@.well_formed(),
        ensures
            imports(result, self@.without_model()),
    {
        if !self.legacy_ftrl_import_eligible || !self.ecology.is_empty() {
            return Err(IntelligenceError::IncompatibleRevision);
        }
        Ok(
            Self::from_components(
                self.limits,
                self.ecology,
                self.experience,
                self.knowledge,
                self.policy,
                self.policy_import_eligible,
                false,
                self.legacy_knowledge_import_eligible,
            ),
        )
    }

    /// Imports knowledge.
    pub fn into_legacy_knowledge(self, legacy: &KnowledgeState) -> (result: Result<
        Self,
        IntelligenceError,
    >)
        requires
            self@.well_formed(),
            legacy@.revisions.len() > 0,
        ensures
            imports(result, self@.with_knowledge(legacy@)),
    {
        if !self.legacy_knowledge_import_eligible {
            return Err(IntelligenceError::IncompatibleRevision);
        }
        let mut knowledge = self.knowledge;
        match knowledge.import_legacy_active(legacy, self.limits) {
            Ok(_) => {},
            Err(error) => return Err(error),
        }
        Ok(
            Self::from_components(
                self.limits,
                self.ecology,
                self.experience,
                knowledge,
                self.policy,
                self.policy_import_eligible,
                self.legacy_ftrl_import_eligible,
                false,
            ),
        )
    }
}

/// A core that is open for imports and is not used before they are done.
pub struct LegacyCoreImport {
    core: IntelligenceCore,
}

/// An import into a core that is open for more, or why it is refused.
pub open spec fn imports_more(
    result: Result<LegacyCoreImport, IntelligenceError>,
    expected: Result<CoreView, IntelligenceError>,
) -> bool {
    match result {
        Ok(open) => expected == Ok::<CoreView, IntelligenceError>(open@),
        Err(error) => expected == Err::<CoreView, IntelligenceError>(error),
    }
}

impl View for LegacyCoreImport {
    type V = CoreView;

    closed spec fn view(&self) -> CoreView {
        self.core@
    }
}

impl LegacyCoreImport {
    #[verifier::type_invariant]
    spec fn usable(self) -> bool {
        self.core@.well_formed()
    }

    pub fn into_legacy_learning(self, conversion: Option<(Digest, CompactModel)>) -> (result: Result<
        Self,
        IntelligenceError,
    >)
        ensures
            imports_more(
                result,
                self@.with_learning(
                    match conversion {
                        Some((source_lineage, imported)) => Some((source_lineage, imported@)),
                        None => None,
                    },
                ),
            ),
    {
        proof {
            use_type_invariant(&self);
        }
        match self.core.into_legacy_learning(conversion) {
            Ok(core) => Ok(Self { core }),
            Err(error) => Err(error),
        }
    }

    pub fn into_legacy_ftrl(self, source_lineage: Digest, imported: CompactModel) -> (result: Result<
        Self,
        IntelligenceError,
    >)
        ensures
            imports_more(result, self@.with_model(source_lineage, imported@)),
    {
        proof {
            use_type_invariant(&self);
        }
        match self.core.into_legacy_ftrl(source_lineage, imported) {
            Ok(core) => Ok(Self { core }),
            Err(error) => Err(error),
        }
    }

    pub fn into_legacy_runtime_policy<P: PolicyEngine>(self, policy: &RuntimePolicyState) -> (result:
        Result<Self, IntelligenceError>)
        ensures
            imports_more(result, self@.with_policy::<P>(policy@)),
    {
        proof {
            use_type_invariant(&self);
        }
        match self.core.into_legacy_runtime_policy::<P>(policy) {
            Ok(core) => Ok(Self { core }),
            Err(error) => Err(error),
        }
    }

    pub fn into_legacy_knowledge(self, legacy: &KnowledgeState) -> (result: Result<
        Self,
        IntelligenceError,
    >)
        requires
            legacy@.revisions.len() > 0,
        ensures
            imports_more(result, self@.with_knowledge(legacy@)),
    {
        proof {
            use_type_invariant(&self);
        }
        match self.core.into_legacy_knowledge(legacy) {
            Ok(core) => Ok(Self { core }),
            Err(error) => Err(error),
        }
    }

    /// Ends the imports and hands out the core.
    pub fn finalize<P: PolicyEngine>(self) -> (result: Result<IntelligenceCore, IntelligenceError>)
        ensures
            imports(result, self@.finalized::<P>()),
    {
        proof {
            use_type_invariant(&self);
            P::lemma_initial();
        }
        let core = self.core;
        if core.legacy_ftrl_import_eligible || core.legacy_knowledge_import_eligible {
            return Err(IntelligenceError::IncompatibleRevision);
        }
        let core = if core.policy_import_eligible {
            let initial = RuntimePolicyState { encoded: P::bootstrap() };
            match core.into_legacy_runtime_policy::<P>(&initial) {
                Ok(core) => core,
                Err(error) => return Err(error),
            }
        } else {
            core
        };
        Ok(
            IntelligenceCore::from_components(
                core.limits,
                core.ecology,
                core.experience,
                core.knowledge,
                core.policy,
                false,
                false,
                false,
            ),
        )
    }
}

/// Nothing can be imported twice.
pub proof fn law_imports_happen_once<P: PolicyEngine>(
    core: CoreView,
    policy: Seq<u8>,
    conversion: Option<(Digest, ModelView)>,
    legacy: StateView,
    again: (Seq<u8>, Option<(Digest, ModelView)>, StateView),
)
    ensures
        core.with_policy::<P>(policy) matches Ok(next) ==> next.with_policy::<P>(again.0) == Err::<
            CoreView,
            IntelligenceError,
        >(IntelligenceError::InvalidPolicy),
        core.with_learning(conversion) matches Ok(next) ==> next.with_learning(again.1) == Err::<
            CoreView,
            IntelligenceError,
        >(IntelligenceError::IncompatibleRevision),
        core.with_knowledge(legacy) matches Ok(next) ==> next.with_knowledge(again.2) == Err::<
            CoreView,
            IntelligenceError,
        >(IntelligenceError::IncompatibleRevision),
{
}

/// The order in which policy, learning and knowledge are imported does not matter.
pub proof fn law_imports_commute<P: PolicyEngine>(
    core: CoreView,
    policy: Seq<u8>,
    conversion: Option<(Digest, ModelView)>,
    legacy: StateView,
)
    ensures
        match (core.with_policy::<P>(policy), core.with_learning(conversion)) {
            (Ok(first), Ok(second)) => first.with_learning(conversion) == second.with_policy::<P>(
                policy,
            ),
            _ => true,
        },
        match (core.with_learning(conversion), core.with_knowledge(legacy)) {
            (Ok(first), Ok(second)) => first.with_knowledge(legacy) == second.with_learning(
                conversion,
            ),
            _ => true,
        },
        match (core.with_policy::<P>(policy), core.with_knowledge(legacy)) {
            (Ok(first), Ok(second)) => first.with_knowledge(legacy) == second.with_policy::<P>(
                policy,
            ),
            _ => true,
        },
{
}

impl IntelligenceCore {
    /// A core in which nothing has happened yet, open for every import.
    pub fn fresh_for_legacy_import<P: PolicyEngine>(limits: IntelligenceLimits) -> (result: Result<
        LegacyCoreImport,
        IntelligenceError,
    >)
        ensures
            imports_more(
                result,
                if limits.valid() {
                    Ok(
                        CoreView::assembled(
                            limits,
                            intelligence::initial_components::<P>(),
                            true,
                            true,
                            true,
                        ),
                    )
                } else {
                    Err(IntelligenceError::InvalidLimits)
                },
            ),
    {
        let limits = match limits.validated() {
            Ok(limits) => limits,
            Err(error) => return Err(error),
        };
        Ok(
            LegacyCoreImport {
                core: IntelligenceCore::from_components(
                    limits,
                    ModelEcology::default(),
                    CausalLedger::default(),
                    KnowledgeCompiler::default(),
                    RuntimePolicyState { encoded: P::bootstrap() },
                    true,
                    true,
                    true,
                ),
            },
        )
    }
}

} // verus!
