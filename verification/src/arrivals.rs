//! What changes of a core when something from elsewhere is brought into it, and what
//! does not.
use vstd::prelude::*;

use crate::arena::OpportunityKind;
use crate::checkpoint::ComponentsView;
use crate::compiler;
use crate::compiler::{CompilerView, RecordView};
use crate::consolidation::StateView;
use crate::continuity;
use crate::digest::Digest;
use crate::ecology::OriginView;
use crate::forecast::ForecastAxis;
use crate::imports;
use crate::intelligence::CoreView;
use crate::lineage;
use crate::model;
use crate::model::ModelView;
use crate::order;
use crate::policy::PolicyEngine;
use crate::types::{FeatureSchemaId, IntelligenceError};

verus! {

/// The ledger, which nothing from elsewhere touches, and the limits are the same.
pub open spec fn same_history(core: CoreView, next: CoreView) -> bool {
    &&& next.limits == core.limits
    &&& next.components.ledger == core.components.ledger
}

/// A policy is brought into a core that is open for it and has the policy that
/// everything begins with; it takes the place of that one, and of nothing else.
pub proof fn law_policy_arrives<P: PolicyEngine>(core: CoreView, policy: Seq<u8>, next: CoreView)
    requires
        core.with_policy::<P>(policy) == Ok::<CoreView, IntelligenceError>(next),
    ensures
        core.policy_import_eligible,
        core.components.policy == P::initial(),
        P::is_state(policy),
        next.components.policy == policy,
        next.components.ecology == core.components.ecology,
        next.components.knowledge == core.components.knowledge,
        same_history(core, next),
        !next.policy_import_eligible,
        next.legacy_ftrl_import_eligible == core.legacy_ftrl_import_eligible,
        next.legacy_knowledge_import_eligible == core.legacy_knowledge_import_eligible,
{
}

/// A model is brought into a core that is open for it and has no specialists; it enters
/// service as the only one, for candidates of every family, on the axes that it has
/// heads for.
pub proof fn law_model_arrives(
    core: CoreView,
    source_lineage: Digest,
    imported: ModelView,
    next: CoreView,
)
    requires
        core.with_model(source_lineage, imported) == Ok::<CoreView, IntelligenceError>(next),
    ensures
        core.legacy_ftrl_import_eligible,
        core.components.ecology.specialists.len() == 0,
        next.components.ecology.specialists.len() == 1,
        ({
            let specialist = next.components.ecology.specialists[0];
            &&& specialist.status is Active
            &&& specialist.origin == OriginView::Spawn
            &&& specialist.model == imported
            &&& forall|kind: OpportunityKind| #[trigger]
                specialist.mandate.opportunity_kinds.contains(kind) <==> kind is Candidate
            &&& forall|schema: FeatureSchemaId| #[trigger]
                specialist.mandate.feature_schemas.contains(schema) <==> schema
                    == FeatureSchemaId::built_in_spec(1)
            &&& specialist.mandate.routing_families.len() == 0
            &&& forall|axis: ForecastAxis| #[trigger]
                specialist.mandate.axes.contains(axis) <==> has_head(imported, axis)
        }),
        next.components.policy == core.components.policy,
        next.components.knowledge == core.components.knowledge,
        same_history(core, next),
        !next.legacy_ftrl_import_eligible,
        next.policy_import_eligible == core.policy_import_eligible,
        next.legacy_knowledge_import_eligible == core.legacy_knowledge_import_eligible,
{
    let edit = crate::ecology::EditView::Spawn(
        imports::imported_specialist(source_lineage, imported),
    );
    lineage::law_edit_does_what_it_asks(
        core.components.ecology,
        edit,
        core.limits,
        next.components.ecology,
    );
    let specialist = next.components.ecology.specialists[0];
    assert(lineage::newcomers(edit)[0] == imports::imported_specialist(source_lineage, imported));
    assert(lineage::entered(
        next.components.ecology.specialists[core.components.ecology.specialists.len() + 0int],
        lineage::newcomers(edit)[0],
        OriginView::Spawn,
    ));
    let mandate = imports::imported_mandate(source_lineage, imported);
    let axes = model::head_axes(imported.heads);
    order::lemma_sorted_permutes(mandate.routing_families);
    assert forall|kind: OpportunityKind| #[trigger]
        specialist.mandate.opportunity_kinds.contains(kind) <==> kind is Candidate by {
        order::lemma_sorted_contains(mandate.opportunity_kinds, kind);
        assert(mandate.opportunity_kinds[0] is Candidate);
    }
    assert forall|schema: FeatureSchemaId| #[trigger]
        specialist.mandate.feature_schemas.contains(schema) <==> schema
            == FeatureSchemaId::built_in_spec(1) by {
        order::lemma_sorted_contains(mandate.feature_schemas, schema);
        assert(mandate.feature_schemas[0] == FeatureSchemaId::built_in_spec(1));
    }
    assert forall|axis: ForecastAxis| #[trigger]
        specialist.mandate.axes.contains(axis) <==> has_head(imported, axis) by {
        order::lemma_sorted_contains(mandate.axes, axis);
        if axes.contains(axis) {
            let i = choose|i: int| 0 <= i < axes.len() && axes[i] == axis;
            assert(imported.heads[i].axis == axis);
        }
        if has_head(imported, axis) {
            let i = choose|i: int|
                0 <= i < imported.heads.len() && (#[trigger] imported.heads[i]).axis == axis;
            assert(axes[i] == axis);
        }
    }
}

/// The model has a head on the axis.
pub open spec fn has_head(value: ModelView, axis: ForecastAxis) -> bool {
    exists|i: int| 0 <= i < value.heads.len() && (#[trigger] value.heads[i]).axis == axis
}

/// Knowledge is brought into a core that is open for it; it becomes the active part, and
/// every record of a challenger stays.
pub proof fn law_knowledge_arrives(core: CoreView, legacy: StateView, next: CoreView)
    requires
        core.with_knowledge(legacy) == Ok::<CoreView, IntelligenceError>(next),
    ensures
        core.legacy_knowledge_import_eligible,
        next.components.knowledge.active == legacy,
        next.components.knowledge.records == core.components.knowledge.records,
        next.components.knowledge.pending == core.components.knowledge.pending,
        next.components.policy == core.components.policy,
        next.components.ecology == core.components.ecology,
        same_history(core, next),
        !next.legacy_knowledge_import_eligible,
        next.policy_import_eligible == core.policy_import_eligible,
        next.legacy_ftrl_import_eligible == core.legacy_ftrl_import_eligible,
{
}

/// Once learning and knowledge have been settled, a core is closed for all that is from
/// elsewhere, and stays what it is.
pub proof fn law_arrivals_end<P: PolicyEngine>(core: CoreView)
    ensures
        match core.finalized::<P>() {
            Ok(next) => {
                &&& !core.legacy_ftrl_import_eligible
                &&& !core.legacy_knowledge_import_eligible
                &&& next.components == core.components
                &&& next.limits == core.limits
                &&& !next.policy_import_eligible
                &&& !next.legacy_ftrl_import_eligible
                &&& !next.legacy_knowledge_import_eligible
            },
            Err(IntelligenceError::IncompatibleRevision) => core.legacy_ftrl_import_eligible
                || core.legacy_knowledge_import_eligible,
            Err(IntelligenceError::InvalidPolicy) => core.policy_import_eligible
                && core.components.policy != P::initial(),
            Err(_) => false,
        },
{
}

/// A core is not treated while it has open work, nor with models of another domain or of
/// a template that has learnt any. Otherwise it keeps its ledger and its policy; it has
/// the models of the template, or its own; and the knowledge that it is given, without
/// challengers, or its own.
pub proof fn law_treatment_replaces_what_it_names<P: PolicyEngine>(
    core: CoreView,
    semantic_identity: Seq<u8>,
    template: Option<(CoreView, Seq<u8>)>,
    active: Option<StateView>,
)
    ensures
        ({
            let result = core.ablated::<P>(semantic_identity, template, active);
            let components = ComponentsView {
                ecology: match template {
                    Some((other, _)) => other.components.ecology,
                    None => core.components.ecology,
                },
                ledger: core.components.ledger,
                knowledge: match active {
                    Some(active) => CompilerView { active, records: Seq::empty(), pending: None },
                    None => core.components.knowledge,
                },
                policy: core.components.policy,
            };
            let busy = core.has_open_work() || (template matches Some((other, _))
                && other.has_open_work());
            let foreign = template matches Some((other, identity)) && (identity
                != semantic_identity || other.components.ecology.specialists.len() > 0);
            &&& busy ==> result == Err::<CoreView, IntelligenceError>(
                IntelligenceError::StaleTransition,
            )
            &&& !busy && foreign ==> result == Err::<CoreView, IntelligenceError>(
                IntelligenceError::InvalidModel,
            )
            &&& !busy && !foreign && components.ecology.fits(core.limits)
                && continuity::readable::<P>(core.limits, components) ==> {
                &&& result matches Ok(next)
                &&& next.components == components
                &&& next.limits == core.limits
            }
        }),
{
    let components = ComponentsView {
        ecology: match template {
            Some((other, _)) => other.components.ecology,
            None => core.components.ecology,
        },
        ledger: core.components.ledger,
        knowledge: match active {
            Some(active) => CompilerView { active, records: Seq::empty(), pending: None },
            None => core.components.knowledge,
        },
        policy: core.components.policy,
    };
    if continuity::readable::<P>(core.limits, components) {
        continuity::law_assembled_core_is_restored::<P>(core.limits, components);
    }
}

/// Knowledge from elsewhere continues what was promoted: where some derived operator is
/// promoted, the newest such one gave the product that arrives as the active one.
pub proof fn law_knowledge_continues(core: CoreView, legacy: StateView, next: CoreView, at: int)
    requires
        core.with_knowledge(legacy) == Ok::<CoreView, IntelligenceError>(next),
        0 <= at < core.components.knowledge.records.len(),
        derived_and_promoted(core.components.knowledge.records[at]),
        forall|i: int|
            at < i < core.components.knowledge.records.len() ==> !derived_and_promoted(
                #[trigger] core.components.knowledge.records[i],
            ),
    ensures
        core.components.knowledge.records[at].challenger.product.subject.0
            == legacy.revisions[legacy.revisions.len() - 1].product,
{
    lemma_latest_derivation(core.components.knowledge.records, at);
}

/// The record is of a derived operator that is promoted.
pub open spec fn derived_and_promoted(record: RecordView) -> bool {
    record.status is Promoted && record.challenger.recipe is DeriveOperator
}

proof fn lemma_latest_derivation(records: Seq<RecordView>, at: int)
    requires
        0 <= at < records.len(),
        derived_and_promoted(records[at]),
        forall|i: int| at < i < records.len() ==> !derived_and_promoted(#[trigger] records[i]),
    ensures
        compiler::latest_derivation(records) == Some(at),
    decreases records.len(),
{
    if at < records.len() - 1 {
        let front = records.drop_last();
        assert(records.last() == records[records.len() - 1]);
        assert forall|i: int| at < i < front.len() implies !derived_and_promoted(
            #[trigger] front[i],
        ) by {
            assert(front[i] == records[i]);
        }
        lemma_latest_derivation(front, at);
    }
}

} // verus!
