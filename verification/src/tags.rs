//! The bytes by which what is written is told apart when it is read.
use vstd::prelude::*;

use crate::arena::OpportunityKind;
use crate::causal;
use crate::causal::{AttributionKind, CausalSubject, ConsequenceKind, InvestmentOutcome};
use crate::challenger::{CompilerRecipe, KnowledgeProductKind, KnowledgeProductMeaning};
use crate::codec::Wire;
use crate::compiler::UpdateView;
use crate::compiler_steps;
use crate::digest;
use crate::ecology::{EcologyEdit, EditView, OriginView, SpecialistOrigin, SpecialistStatus};
use crate::forecast::ForecastAxis;
use crate::investment::InvestmentTag;
use crate::knowledge::KnowledgeInvalidationReason;
use crate::shadow::{
    ShadowArm, ShadowCampaignLifecycle, ShadowInvalidationReason, ShadowUpdate,
};
use crate::types;
use crate::types::AllocationSource;

verus! {

/// The bytes begin with the tag.
pub open spec fn leads_with(bytes: Seq<u8>, tag: u8) -> bool {
    bytes.len() > 0 && bytes[0] == tag
}

/// Axes are tagged from one to nine.
pub proof fn law_axis_tags(axis: ForecastAxis)
    ensures
        axis.tag_spec() == match axis {
            ForecastAxis::KernelAcceptance => 1u8,
            ForecastAxis::ImmediateImprovement => 2,
            ForecastAxis::UsefulDescendants => 3,
            ForecastAxis::CrossGoalLeverage => 4,
            ForecastAxis::CompressionValue => 5,
            ForecastAxis::InformationValue => 6,
            ForecastAxis::Novelty => 7,
            ForecastAxis::DeadEndRisk => 8,
            ForecastAxis::VerificationCost => 9,
        },
        ForecastAxis::decode_spec(axis.tag_spec()) == Some(axis),
        leads_with(ForecastAxis::wire((), axis), axis.tag_spec()),
{
}

/// Kinds of opportunity are tagged from one to nine.
pub proof fn law_opportunity_tags(kind: OpportunityKind)
    ensures
        kind.tag_spec() == match kind {
            OpportunityKind::Candidate => 1u8,
            OpportunityKind::OperatorApplication => 2,
            OpportunityKind::Repair => 3,
            OpportunityKind::ArtifactPotential => 4,
            OpportunityKind::Emergent => 5,
            OpportunityKind::KnowledgePattern => 6,
            OpportunityKind::SpecialistNiche => 7,
            OpportunityKind::RuntimePolicy => 8,
            OpportunityKind::ShadowQuestion => 9,
        },
        OpportunityKind::decode_spec(kind.tag_spec()) == Some(kind),
{
}

/// Investments are tagged from one to nine.
pub proof fn law_investment_tags(tag: InvestmentTag)
    ensures
        tag.tag_spec() == match tag {
            InvestmentTag::Generate => 1u8,
            InvestmentTag::Verify => 2,
            InvestmentTag::Repair => 3,
            InvestmentTag::Explore => 4,
            InvestmentTag::TrainSpecialist => 5,
            InvestmentTag::CompareRevision => 6,
            InvestmentTag::Consolidate => 7,
            InvestmentTag::RunShadowCampaign => 8,
            InvestmentTag::ProposeRuntimePolicy => 9,
        },
        InvestmentTag::decode_spec(tag.tag_spec()) == Some(tag),
{
}

/// Recipes, kinds of product, their meanings and reasons of invalidation are tagged from
/// one on.
pub proof fn law_knowledge_tags(
    recipe: CompilerRecipe,
    kind: KnowledgeProductKind,
    meaning: KnowledgeProductMeaning,
    reason: KnowledgeInvalidationReason,
)
    ensures
        recipe.tag_spec() == match recipe {
            CompilerRecipe::Deduplicate => 1u8,
            CompilerRecipe::FactorSharedDerivation => 2,
            CompilerRecipe::GeneralizeArtifact => 3,
            CompilerRecipe::DeriveOperator => 4,
            CompilerRecipe::RepairFailureFamily => 5,
            CompilerRecipe::ComposeOperators => 6,
        },
        kind.tag_spec() == match kind {
            KnowledgeProductKind::Artifact => 1u8,
            KnowledgeProductKind::DerivedOperator => 2,
            KnowledgeProductKind::KnowledgeIndex => 3,
        },
        meaning.tag_spec() == match meaning {
            KnowledgeProductMeaning::Semantic => 1u8,
            KnowledgeProductMeaning::NonSemanticIndex => 2,
        },
        reason.tag_spec() == match reason {
            KnowledgeInvalidationReason::Structure => 1u8,
            KnowledgeInvalidationReason::Product => 2,
            KnowledgeInvalidationReason::Witness => 3,
        },
{
}

/// An outcome is written as its tag, and an acceptance with the record behind it.
pub proof fn law_outcome_tags(outcome: InvestmentOutcome)
    ensures
        leads_with(
            InvestmentOutcome::wire((), outcome),
            match outcome {
                InvestmentOutcome::VerifiedAccepted { .. } => 1u8,
                InvestmentOutcome::VerifiedRefuted => 2,
                InvestmentOutcome::VerifiedUnknown => 3,
                InvestmentOutcome::Completed => 4,
                InvestmentOutcome::Failed => 5,
            },
        ),
        outcome is VerifiedAccepted ==> InvestmentOutcome::wire((), outcome).len() == 33,
        !(outcome is VerifiedAccepted) ==> InvestmentOutcome::wire((), outcome).len() == 1,
{
    if let InvestmentOutcome::VerifiedAccepted { verification_record } = outcome {
        digest::lemma_digest_len(verification_record.0);
    }
}

/// Consequences say by their tags what they are of, what kind they are and how they are
/// known.
pub proof fn law_consequence_tags(
    subject: CausalSubject,
    kind: ConsequenceKind,
    attribution: AttributionKind,
)
    ensures
        leads_with(
            CausalSubject::wire((), subject),
            match subject {
                CausalSubject::Decision(_) => 1u8,
                CausalSubject::Artifact(_) => 2,
                CausalSubject::Specialist(_) => 3,
                CausalSubject::Knowledge(_) => 4,
                CausalSubject::RuntimePolicy(_) => 5,
            },
        ),
        causal::consequence_tag(kind) == match kind {
            ConsequenceKind::Admitted => 1u8,
            ConsequenceKind::ParetoImprovement => 2,
            ConsequenceKind::UsefulDescendant => 3,
            ConsequenceKind::CrossGoalUse => 4,
            ConsequenceKind::Compression => 5,
            ConsequenceKind::CpuSaved => 6,
            ConsequenceKind::OperatorEnabled => 7,
            ConsequenceKind::SelectionUse => 8,
        },
        causal::consequence_of(causal::consequence_tag(kind)) == Some(kind),
        leads_with(
            AttributionKind::wire((), attribution),
            match attribution {
                AttributionKind::Observed => 1u8,
                AttributionKind::MechanicallyInduced => 2,
                AttributionKind::PairedShadow(_) => 3,
            },
        ),
{
}

/// Specialists, where they come from and how they are edited have tags of their own.
pub proof fn law_specialist_tags(
    status: SpecialistStatus,
    origin: OriginView,
    edit: EditView,
    limit: usize,
    source: AllocationSource,
)
    ensures
        leads_with(
            SpecialistStatus::wire((), status),
            match status {
                SpecialistStatus::Active => 1u8,
                SpecialistStatus::Retired => 2,
            },
        ),
        leads_with(
            SpecialistOrigin::wire((), origin),
            match origin {
                OriginView::Spawn => 1u8,
                OriginView::Split(_) => 2,
                OriginView::Merge(_) => 3,
                OriginView::Distill(_) => 4,
            },
        ),
        leads_with(
            EcologyEdit::wire(limit, edit),
            match edit {
                EditView::Spawn(_) => 1u8,
                EditView::Retire(_) => 2,
                EditView::Split { .. } => 3,
                EditView::Merge { .. } => 4,
                EditView::Distill { .. } => 5,
            },
        ),
        leads_with(
            types::put_source(source),
            match source {
                AllocationSource::Bootstrap => 1u8,
                AllocationSource::Specialist(_) => 2,
            },
        ),
{
}

/// Arms, the states of campaigns, reasons of invalidation and updates have tags of their
/// own.
pub proof fn law_campaign_tags(
    arm: ShadowArm,
    lifecycle: ShadowCampaignLifecycle,
    reason: ShadowInvalidationReason,
    update: ShadowUpdate,
)
    ensures
        leads_with(
            ShadowArm::wire((), arm),
            match arm {
                ShadowArm::Treatment => 1u8,
                ShadowArm::Control => 2,
            },
        ),
        leads_with(
            ShadowCampaignLifecycle::wire((), lifecycle),
            match lifecycle {
                ShadowCampaignLifecycle::Open => 1u8,
                ShadowCampaignLifecycle::Completed => 2,
                ShadowCampaignLifecycle::Invalidated(_) => 3,
            },
        ),
        leads_with(
            ShadowInvalidationReason::wire((), reason),
            match reason {
                ShadowInvalidationReason::DuplicateOpen => 1u8,
                ShadowInvalidationReason::DuplicateArm(_) => 2,
                ShadowInvalidationReason::CheckpointMismatch => 3,
                ShadowInvalidationReason::ResourceMismatch => 4,
                ShadowInvalidationReason::RandomStreamMismatch => 5,
                ShadowInvalidationReason::OutcomeAxesMismatch => 6,
                ShadowInvalidationReason::AsymmetricArms => 7,
                ShadowInvalidationReason::Interrupted => 8,
            },
        ),
        leads_with(
            ShadowUpdate::wire((), update),
            match update {
                ShadowUpdate::Open(_) => 1u8,
                ShadowUpdate::Outcome(_) => 2,
                ShadowUpdate::Close(_) => 3,
                ShadowUpdate::Invalidate { .. } => 4,
            },
        ),
{
}

/// Updates of the knowledge have tags of their own.
pub proof fn law_update_tags(update: UpdateView)
    ensures
        leads_with(
            compiler_steps::put_update(update),
            match update {
                UpdateView::Propose(_) => 1u8,
                UpdateView::Review(_) => 2,
                UpdateView::Invalidate { .. } => 3,
                UpdateView::EvaluatePromotion(_) => 4,
                UpdateView::OpenVerification { .. } => 5,
                UpdateView::CompleteVerification(_) => 6,
                UpdateView::InterruptVerification(_) => 7,
            },
        ),
{
}

} // verus!
