//! Checkpoints: what is written, what is read back, and what is refused.
use reflex_intelligence::allocation::{PortfolioBuffer, PortfolioReceipt};
use reflex_intelligence::arena::OpportunitySpec;
use reflex_intelligence::causal::{
    CausalSubject, ConsequenceEdge, ConsequenceKind, InvestmentOutcome, InvestmentSettlement,
};
use reflex_intelligence::challenger::{
    CompilerRecipe, ContextualRequirement, KnowledgeChallenger, KnowledgeProduct, PromotionGate,
};
use reflex_intelligence::checkpoint::CheckpointWire;
use reflex_intelligence::compiler::KnowledgeUpdate;
use reflex_intelligence::digest::hash_bytes;
use reflex_intelligence::ecology::{
    EcologyEdit, ModelEcology, SpecialistLifecycle, SpecialistMandate, SpecialistRevision,
};
use reflex_intelligence::forecast::{Forecast, ForecastAxis, ScoredForecast};
use reflex_intelligence::intelligence::IntelligenceCore;
use reflex_intelligence::investment::InvestmentSpec;
use reflex_intelligence::knowledge::KnowledgeInvalidationReason;
use reflex_intelligence::market::{MarketArena, MarketFrame};
use reflex_intelligence::model::{CompactModel, ModelHead};
use reflex_intelligence::policy::{PinnedPolicy, PolicyEngine};
use reflex_intelligence::transition::SettlementFrame;
use reflex_intelligence::types::{
    FeatureSchemaId, IntelligenceError, IntelligenceLimits, InvestmentId, ResourceVector, RoleId,
    RoutingFamilyId, SpecialistRevisionId, SubjectId,
};

fn bits(values: &[f32]) -> Vec<u32> {
    values.iter().map(|value| value.to_bits()).collect()
}

fn number(value: f32) -> u32 {
    value.to_bits()
}

fn head(
    axis: ForecastAxis,
    intercept: f32,
    weights: &[f32],
    calibration_error: f32,
    support: u32,
) -> Result<ModelHead, IntelligenceError> {
    Ok(ModelHead {
        axis,
        intercept: intercept.to_bits(),
        weights: weights.iter().map(|weight| weight.to_bits()).collect(),
        calibration_error: calibration_error.to_bits(),
        support,
    })
}

fn linear<const N: usize>(
    features: u8,
    heads: [ModelHead; N],
) -> Result<CompactModel, IntelligenceError> {
    CompactModel::new(Some(features), heads.into_iter().collect())
}

fn prior_head(
    axis: ForecastAxis,
    estimate: f32,
    calibration_error: f32,
    support: u32,
) -> Result<ModelHead, IntelligenceError> {
    head(axis, estimate, &[], calibration_error, support)
}

fn prior_model<const N: usize>(heads: [ModelHead; N]) -> Result<CompactModel, IntelligenceError> {
    CompactModel::new(None, heads.into_iter().collect())
}

fn market_for(limits: IntelligenceLimits) -> MarketArena {
    MarketArena::try_with_capacity(limits).unwrap()
}

fn buffer_for(limits: IntelligenceLimits) -> PortfolioBuffer {
    PortfolioBuffer::try_with_capacity(limits).unwrap()
}

fn fresh(limits: IntelligenceLimits) -> IntelligenceCore {
    IntelligenceCore::fresh::<PinnedPolicy>(limits)
}

fn restore(bytes: &[u8]) -> Result<IntelligenceCore, IntelligenceError> {
    IntelligenceCore::restore::<PinnedPolicy>(bytes)
}

/// What one head forecasts, and what the forecast is worth at the least.
fn forecast(model: &CompactModel, head: &ModelHead, features: &[u32]) -> ScoredForecast {
    let intercept = f32::from_bits(head.intercept);
    let estimate = if model.features().is_none() {
        intercept
    } else {
        let score = head
            .weights
            .iter()
            .zip(features)
            .fold(intercept, |score, (weight, feature)| {
                score + f32::from_bits(*weight) * f32::from_bits(*feature)
            });
        1.0 / (1.0 + (-score).exp())
    };
    let calibration_error = f32::from_bits(head.calibration_error);
    let uncertainty = (1.0 / (head.support.saturating_add(1) as f32).sqrt())
        .max(calibration_error)
        .clamp(0.0, 1.0);
    let conservative_value = if head.axis.higher_is_better() {
        estimate - uncertainty - calibration_error * 0.25
    } else {
        -(estimate + uncertainty + calibration_error * 0.25)
    };
    ScoredForecast {
        forecast: Forecast::with_uncertainty(
            head.axis,
            estimate.to_bits(),
            head.calibration_error,
            uncertainty.to_bits(),
            head.support,
        )
        .unwrap(),
        conservative_value: conservative_value.to_bits(),
    }
}

/// The forecasts for every investment, by every specialist that it is routed to.
fn evaluate(ecology: &ModelEcology, market: &MarketArena) -> Vec<Vec<ScoredForecast>> {
    let mut evaluations = Vec::new();
    for index in 0..market.investment_count() {
        let investment = market.investment(InvestmentId(index as u32)).unwrap();
        let opportunity = market.opportunity(investment.opportunity).unwrap();
        let features = market.features(investment.opportunity);
        for place in ecology.routed(opportunity, features.len()) {
            let model = ecology.specialists()[place].model();
            evaluations.push(
                model
                    .heads()
                    .iter()
                    .map(|head| forecast(model, head, features))
                    .collect(),
            );
        }
    }
    evaluations
}

fn allocate<'a>(
    core: &IntelligenceCore,
    frame: MarketFrame<'_>,
    limit: usize,
    output: &'a mut PortfolioBuffer,
) -> Result<PortfolioReceipt<'a>, IntelligenceError> {
    let evaluations = evaluate(core.manifest().ecology, frame.market);
    core.allocate(frame, limit, &evaluations, output)?;
    Ok(output.portfolio())
}

fn record_training_example(
    core: &mut IntelligenceCore,
    limits: IntelligenceLimits,
    epoch: u64,
    feature: f32,
    accepted: bool,
) {
    record_training_example_in_family(
        core,
        limits,
        epoch,
        feature,
        accepted,
        OpportunitySpec::candidate_schema(),
        RoutingFamilyId::generic(),
    );
}

fn record_training_example_in_family(
    core: &mut IntelligenceCore,
    limits: IntelligenceLimits,
    epoch: u64,
    feature: f32,
    accepted: bool,
    schema: FeatureSchemaId,
    family: RoutingFamilyId,
) {
    let identity = u8::try_from(epoch).unwrap();
    let mut market = market_for(limits);
    let opportunity = market
        .push_opportunity(
            OpportunitySpec::candidate_in_family([identity; 32], schema, family),
            &bits(&[feature]),
        )
        .unwrap();
    market
        .push_investment(InvestmentSpec::verify(
            opportunity,
            ResourceVector::new(1, 1, 0, 1, 1),
            0,
        ))
        .unwrap();
    let mut output = buffer_for(limits);
    let receipt = allocate(core, MarketFrame::new(&market, ResourceVector::new(1, 1, 0, 1, 1)).at_epoch(epoch),
            1,
            &mut output,
        )
        .unwrap()
        .receipts()[0];
    let outcome = if accepted {
        InvestmentOutcome::VerifiedAccepted {
            verification_record: SubjectId::new([identity; 32]),
        }
    } else {
        InvestmentOutcome::VerifiedRefuted
    };
    core.stage::<PinnedPolicy>(SettlementFrame::observations(
        &[receipt],
        &[InvestmentSettlement::new(
            receipt.decision(),
            outcome,
            ResourceVector::new(1, 1, 0, 1, 1),
        )],
        &[],
        &[],
    ))
    .unwrap()
    .commit(core)
    .unwrap();
}

fn test_specialist(role: &str, weight: f32) -> SpecialistRevision {
    SpecialistRevision::new(
        SpecialistMandate::all(
            RoleId::new(role).unwrap(),
            &[ForecastAxis::ImmediateImprovement],
        )
        .unwrap(),
        linear(
            1,
            [
                head(ForecastAxis::ImmediateImprovement, 0.0, &[weight], 0.1, 16)
                    .unwrap(),
            ],
        )
        .unwrap(),
    )
    .unwrap()
}

#[test]
fn prepared_commit_exposes_the_exact_proposed_core_before_infallible_swap() {
    let limits = IntelligenceLimits::new(8, 32, 32, 128, 8, 64 * 1024).unwrap();
    let mut core = fresh(limits);
    let specialist = SpecialistRevision::new(
        SpecialistMandate::all(
            RoleId::new("prepared-commit").unwrap(),
            &[ForecastAxis::ImmediateImprovement],
        )
        .unwrap(),
        linear(
            1,
            [
                head(ForecastAxis::ImmediateImprovement, 0.0, &[1.0], 0.05, 32)
                    .unwrap(),
            ],
        )
        .unwrap(),
    )
    .unwrap();
    let before = core.checkpoint();
    let transition = core
        .stage::<PinnedPolicy>(SettlementFrame::edits(&[EcologyEdit::Spawn(specialist)]))
        .unwrap();
    let expected = transition.checkpoint().unwrap();
    let restored = restore(expected.as_bytes()).unwrap();

    let prepared = transition.prepare(&mut core).unwrap();
    let proposed = prepared.proposed(&core);
    assert_eq!(
        core.checkpoint(),
        before,
        "preparation cannot publish state"
    );
    assert_eq!(proposed.checkpoint_bytes(), expected.as_bytes());
    assert_eq!(proposed.revision(), restored.active_revision());
    assert_ne!(
        expected.identity(),
        restored.active_revision(),
        "Bundle checkpoint identity and Core active revision are distinct authorities"
    );
    assert_eq!(
        proposed.model_ecology_identity(),
        restored.model_ecology_identity()
    );

    prepared.commit(&mut core);
    assert_eq!(core.checkpoint(), expected);
    assert_eq!(core.active_revision(), restored.active_revision());
}

#[test]
fn checkpoint_round_trip_preserves_the_complete_ecology_and_rejects_corruption() {
    let limits = IntelligenceLimits::new(8, 32, 32, 128, 8, 64 * 1024).unwrap();
    let mut core = fresh(limits);
    let specialist = SpecialistRevision::new(
        SpecialistMandate::all(
            RoleId::new("potential-curator").unwrap(),
            &[
                ForecastAxis::UsefulDescendants,
                ForecastAxis::CompressionValue,
            ],
        )
        .unwrap(),
        linear(
            2,
            [
                head(ForecastAxis::UsefulDescendants, -0.25, &[0.5, 1.0], 0.1, 64)
                    .unwrap(),
                head(ForecastAxis::CompressionValue, 0.25, &[1.0, -0.5], 0.2, 32)
                    .unwrap(),
            ],
        )
        .unwrap(),
    )
    .unwrap();
    let transition = core
        .stage::<PinnedPolicy>(SettlementFrame::edits(&[EcologyEdit::Spawn(specialist)]))
        .unwrap();
    transition.commit(&mut core).unwrap();
    let checkpoint = core.checkpoint();
    let resident_bytes: u64 = core.resident_bytes();

    let restored = restore(checkpoint.as_bytes()).unwrap();

    assert_eq!(restored.checkpoint(), checkpoint);
    assert_eq!(restored.limits(), limits);
    assert_eq!(
        checkpoint.identity().to_bytes().as_slice(),
        &checkpoint.as_bytes()[checkpoint.as_bytes().len() - 32..]
    );
    assert!(resident_bytes >= std::mem::size_of::<IntelligenceCore>() as u64);
    let mut corrupt = checkpoint.as_bytes().to_vec();
    let corrupt_index = corrupt.len() / 2;
    corrupt[corrupt_index] ^= 0x80;
    assert_eq!(
        restore(&corrupt).unwrap_err(),
        IntelligenceError::CorruptState
    );

    let mut hostile_limits = checkpoint.as_bytes().to_vec();
    let payload_length = hostile_limits.len() - 32;
    hostile_limits[37..45].copy_from_slice(&u64::MAX.to_le_bytes());
    let checksum = hash_bytes(&hostile_limits[..payload_length]).to_bytes();
    hostile_limits[payload_length..].copy_from_slice(&checksum);
    assert_eq!(
        restore(&hostile_limits).unwrap_err(),
        IntelligenceError::CorruptState,
        "checksum-valid hostile limits are rejected before scratch allocation"
    );
}

#[test]
fn limits_fork_rebinds_the_revision_only_when_all_retained_state_fits() {
    let limits = IntelligenceLimits::new(8, 16, 16, 64, 4, 32 * 1024).unwrap();
    let mut core = fresh(limits);
    core.stage::<PinnedPolicy>(SettlementFrame::edits(&[EcologyEdit::Spawn(
        test_specialist("fork-specialist", 1.0),
    )]))
    .unwrap()
    .commit(&mut core)
    .unwrap();
    let before = core.checkpoint();
    let expanded = IntelligenceLimits::new(16, 32, 32, 128, 8, 64 * 1024).unwrap();

    let forked = core.fork_with_limits(expanded).unwrap();

    assert_eq!(
        core.checkpoint(),
        before,
        "forking cannot mutate the incumbent"
    );
    assert_eq!(forked.limits(), expanded);
    assert_ne!(forked.checkpoint().identity(), before.identity());
    assert_eq!(
        forked.manifest().specialists(),
        core.manifest().specialists()
    );
    assert_eq!(
        restore(forked.checkpoint().as_bytes())
            .unwrap()
            .checkpoint(),
        forked.checkpoint()
    );

    let too_small = IntelligenceLimits::new(8, 16, 16, 64, 4, 1).unwrap();
    assert_eq!(
        core.fork_with_limits(too_small).unwrap_err(),
        IntelligenceError::CapacityExceeded
    );
    assert_eq!(core.checkpoint(), before);
}

#[test]
fn ecology_split_distill_merge_and_retirement_are_atomic_and_manifested() {
    let limits = IntelligenceLimits::new(4, 16, 32, 128, 12, 128 * 1024).unwrap();
    let mut core = fresh(limits);
    let parent = test_specialist("generalist", 1.0);
    let parent_id = parent.id();
    core.stage::<PinnedPolicy>(SettlementFrame::edits(&[EcologyEdit::Spawn(parent)]))
        .unwrap()
        .commit(&mut core)
        .unwrap();

    let operator = test_specialist("operator-specialist", 2.0);
    let potential = test_specialist("potential-specialist", 3.0);
    let operator_id = operator.id();
    let potential_id = potential.id();
    core.stage::<PinnedPolicy>(SettlementFrame::edits(&[EcologyEdit::Split {
        parent: parent_id,
        children: vec![operator, potential],
    }]))
    .unwrap()
    .commit(&mut core)
    .unwrap();
    assert_eq!(
        core.manifest().active_ids(),
        vec![operator_id, potential_id]
    );
    assert_eq!(
        core.manifest()
            .specialists()
            .into_iter()
            .filter(|specialist| specialist.active())
            .filter(|specialist| specialist.lifecycle() == SpecialistLifecycle::Split)
            .count(),
        2
    );

    let distilled = SpecialistRevision::new(
        SpecialistMandate::all(
            RoleId::new("distilled-router").unwrap(),
            &[ForecastAxis::ImmediateImprovement],
        )
        .unwrap(),
        prior_model([prior_head(
            ForecastAxis::ImmediateImprovement,
            0.8,
            0.05,
            128,
        )
        .unwrap()])
        .unwrap(),
    )
    .unwrap();
    let distilled_id = distilled.id();
    core.stage::<PinnedPolicy>(SettlementFrame::edits(&[EcologyEdit::Distill {
        teachers: vec![operator_id, potential_id],
        student: distilled,
    }]))
    .unwrap()
    .commit(&mut core)
    .unwrap();
    assert_eq!(
        core.manifest().active_ids(),
        vec![distilled_id]
    );

    let peer = test_specialist("repair-specialist", 4.0);
    let peer_id = peer.id();
    core.stage::<PinnedPolicy>(SettlementFrame::edits(&[EcologyEdit::Spawn(peer)]))
        .unwrap()
        .commit(&mut core)
        .unwrap();
    let merged = test_specialist("merged-specialist", 5.0);
    let merged_id = merged.id();
    core.stage::<PinnedPolicy>(SettlementFrame::edits(&[EcologyEdit::Merge {
        parents: vec![distilled_id, peer_id],
        merged,
    }]))
    .unwrap()
    .commit(&mut core)
    .unwrap();
    assert_eq!(
        core.manifest().active_ids(),
        vec![merged_id]
    );
    let recovered = restore(core.checkpoint().as_bytes()).unwrap();
    assert_eq!(recovered.checkpoint(), core.checkpoint());

    let before = core.checkpoint();
    let invalid = [
        EcologyEdit::Retire(merged_id),
        EcologyEdit::Retire(SpecialistRevisionId::new([255; 32])),
    ];
    assert_eq!(
        core.stage::<PinnedPolicy>(SettlementFrame::edits(&invalid)).unwrap_err(),
        IntelligenceError::MissingSpecialist
    );
    assert_eq!(
        core.checkpoint(),
        before,
        "a failed stage is all-or-nothing"
    );
}

#[test]
fn legacy_v9_checkpoint_migrates_to_authenticated_delta_checkpoints() {
    let limits = IntelligenceLimits::new(8, 16, 16, 64, 4, 64 * 1024).unwrap();
    let mut core = fresh(limits);
    for (epoch, accepted) in [(1, false), (2, true), (3, false), (4, true)] {
        record_training_example(
            &mut core,
            limits,
            epoch,
            f32::from(u16::try_from(epoch).unwrap()),
            accepted,
        );
    }
    let legacy = core.plain_checkpoint(9).unwrap();
    assert_eq!(&legacy.as_bytes()[..5], b"RFIC\x09");

    let restored = restore(legacy.as_bytes()).unwrap();

    assert_eq!(restored.experience().receipts().len(), 4);
    assert_eq!(restored.experience().settlements().len(), 4);
    assert_eq!(&restored.checkpoint().as_bytes()[..5], b"RFIC\x11");
    restore(restored.checkpoint().as_bytes()).unwrap();
}

#[test]
fn legacy_v10_checkpoint_migrates_single_head_receipts_to_forecast_vectors() {
    let limits = IntelligenceLimits::new(4, 8, 8, 32, 4, 64 * 1024).unwrap();
    let mut core = fresh(limits);
    core.stage::<PinnedPolicy>(SettlementFrame::edits(&[EcologyEdit::Spawn(
        test_specialist("legacy-single-head", 2.0),
    )]))
    .unwrap()
    .commit(&mut core)
    .unwrap();
    let mut market = market_for(limits);
    for (identity, feature, priority) in [(21, 0.0, 0), (22, 1.0, 1)] {
        let opportunity = market
            .push_opportunity(OpportunitySpec::candidate([identity; 32]), &bits(&[feature]))
            .unwrap();
        market
            .push_investment(InvestmentSpec::verify(
                opportunity,
                ResourceVector::new(1, 1, 0, 1, 1),
                priority,
            ))
            .unwrap();
    }
    let mut output = buffer_for(limits);
    let receipt = allocate(
        &core,
        MarketFrame::new(&market, ResourceVector::new(2, 2, 0, 2, 2)),
        2,
        &mut output,
    )
    .unwrap()
    .receipts()[1];
    assert_eq!(receipt.forecasts().len(), 1);
    let settlement = InvestmentSettlement::new(
        receipt.decision(),
        InvestmentOutcome::VerifiedAccepted {
            verification_record: SubjectId::new([22; 32]),
        },
        ResourceVector::new(1, 1, 0, 1, 1),
    );
    core.stage::<PinnedPolicy>(SettlementFrame::observations(
        &[receipt],
        &[settlement],
        &[],
        &[],
    ))
    .unwrap()
    .commit(&mut core)
    .unwrap();

    let legacy = core.checkpoint_in::<PinnedPolicy>(CheckpointWire::for_version(10).unwrap());
    assert_eq!(&legacy.as_bytes()[..5], b"RFIC\x0A");
    let restored = restore(legacy.as_bytes()).unwrap();

    assert_eq!(&restored.checkpoint().as_bytes()[..5], b"RFIC\x11");
    assert_eq!(restored.experience().receipts(), &[receipt]);
    assert_eq!(restored.experience().settlements(), &[settlement]);
}

#[test]
fn legacy_v11_checkpoint_migrates_missing_preferences_to_neutral_priority() {
    let limits = IntelligenceLimits::new(8, 16, 16, 64, 4, 64 * 1024).unwrap();
    let mut core = fresh(limits);
    record_training_example(&mut core, limits, 1, -1.0, false);
    record_training_example(&mut core, limits, 2, 1.0, true);
    let legacy = core.checkpoint_in::<PinnedPolicy>(CheckpointWire::for_version(11).unwrap());
    assert_eq!(&legacy.as_bytes()[..5], b"RFIC\x0B");

    let restored = restore(legacy.as_bytes()).unwrap();

    assert_eq!(&restored.checkpoint().as_bytes()[..5], b"RFIC\x11");
    assert!(
        restored
            .experience()
            .receipts()
            .iter()
            .all(|receipt| receipt.preference_priority() == 0)
    );
}

#[test]
fn legacy_v12_checkpoint_migrates_to_bootstrap_policy_under_v13() {
    let limits = IntelligenceLimits::new(8, 16, 16, 64, 4, 64 * 1024).unwrap();
    let mut core = fresh(limits);
    record_training_example(&mut core, limits, 1, -1.0, false);
    let legacy = core.checkpoint_in::<PinnedPolicy>(CheckpointWire::for_version(12).unwrap());
    assert_eq!(&legacy.as_bytes()[..5], b"RFIC\x0C");

    let restored = restore(legacy.as_bytes()).unwrap();

    assert_eq!(&restored.checkpoint().as_bytes()[..5], b"RFIC\x11");
    assert_eq!(
        restored.runtime_policy_revision::<PinnedPolicy>(),
        PinnedPolicy::active(&PinnedPolicy::bootstrap())
    );
}

#[test]
fn stage_and_checkpoint_work_scale_with_delta_not_retained_experience() {
    let matrix = [4_u64, 32, 128].map(|retained| {
        let limits = IntelligenceLimits::new(16, 256, 64, 512, 8, 256 * 1024).unwrap();
        let mut core = fresh(limits);
        let retained_feature = f32::from(u16::try_from(retained).unwrap());
        for epoch in 1..=retained {
            let epoch_feature = f32::from(u16::try_from(epoch).unwrap());
            record_training_example(
                &mut core,
                limits,
                epoch,
                epoch_feature / retained_feature,
                epoch % 2 == 0,
            );
        }
        let first_checkpoint = core.checkpoint();
        let second_checkpoint = core.checkpoint();
        assert!(first_checkpoint.shares_storage_with(&second_checkpoint));
        drop(first_checkpoint);
        drop(second_checkpoint);
        let checkpoint_bytes_before = core.checkpoint().as_bytes().len();
        let consequence_reserve = core.transition_resident_bytes(0, 0, 2, None, 4096);
        let decision = core
            .experience()
            .receipts()
            .last()
            .copied()
            .map(|receipt| receipt.decision())
            .unwrap();
        let consequence = ConsequenceEdge::observed(
            CausalSubject::Decision(decision),
            ConsequenceKind::Admitted,
        );
        let transition = core
            .stage::<PinnedPolicy>(SettlementFrame::observations(&[], &[], &[consequence], &[]))
            .unwrap();
        let work = transition.stage_work();
        transition.commit(&mut core).unwrap();
        let checkpoint_growth = core
            .checkpoint()
            .as_bytes()
            .len()
            .saturating_sub(checkpoint_bytes_before);
        restore(core.checkpoint().as_bytes()).unwrap();
        (
            retained,
            work,
            checkpoint_growth,
            consequence_reserve,
        )
    });

    let baseline_work = matrix[0].1;
    let baseline_growth = matrix[0].2;
    let baseline_consequence_reserve = matrix[0].3;
    for (retained, work, checkpoint_growth, consequence_reserve) in matrix {
        assert_eq!(work.causal_items, 1, "retained={retained}");
        assert!(!work.ecology_recomputed, "retained={retained}");
        assert!(!work.knowledge_recomputed, "retained={retained}");
        assert_eq!(work.historical_items_reencoded, 0, "retained={retained}");
        assert_eq!(
            work.checkpoint_delta_bytes, baseline_work.checkpoint_delta_bytes,
            "retained={retained}"
        );
        assert_eq!(checkpoint_growth, baseline_growth, "retained={retained}");
        assert_eq!(
            consequence_reserve, baseline_consequence_reserve,
            "retained={retained}"
        );
    }
}

#[test]
fn empty_stage_reuses_the_checkpoint_without_extending_the_log() {
    let limits = IntelligenceLimits::new(8, 8, 8, 32, 4, 64 * 1024).unwrap();
    let mut core = fresh(limits);
    let before = core.checkpoint();
    let before_bytes = core.resident_bytes();
    let transition = core.stage::<PinnedPolicy>(SettlementFrame::empty()).unwrap();
    assert_eq!(transition.materialization_resident_bytes(&core), 0);
    let proposed = transition.checkpoint().unwrap();
    assert!(before.shares_storage_with(&proposed));
    assert_eq!(transition.stage_work().checkpoint_delta_bytes, 0);

    transition.commit(&mut core).unwrap();
    let after = core.checkpoint();
    assert!(before.shares_storage_with(&after));
    assert_eq!(core.resident_bytes(), before_bytes);
}

#[test]
fn tiny_delta_over_a_large_checkpoint_uses_one_exact_final_allocation() {
    let limits = IntelligenceLimits::new(8, 64, 64, 512, 64, 1024 * 1024)
        .unwrap()
        .with_maximum_specialists_per_route(64)
        .unwrap();
    let mut core = fresh(limits);
    let mut retiring = None;
    for index in 0..32 {
        let specialist = test_specialist(&format!("retained-specialist-{index}"), 0.25);
        retiring = Some(specialist.id());
        core.stage::<PinnedPolicy>(SettlementFrame::edits(&[EcologyEdit::Spawn(specialist)]))
            .unwrap()
            .commit(&mut core)
            .unwrap();
    }
    let base_length = core.checkpoint().as_bytes().len();
    let transition = core
        .stage::<PinnedPolicy>(SettlementFrame::edits(&[EcologyEdit::Retire(
            retiring.unwrap(),
        )]))
        .unwrap();
    let final_length = transition.checkpoint_encoded_len();
    assert!(final_length > base_length);
    assert!(transition.stage_work().checkpoint_delta_bytes < base_length);
    assert_eq!(
        transition.materialization_resident_bytes(&core),
        u64::try_from(final_length).unwrap()
            + u64::try_from(std::mem::size_of::<Vec<u8>>() + 2 * std::mem::size_of::<usize>(),)
                .unwrap()
    );
    let checkpoint = transition.checkpoint().unwrap();
    assert_eq!(checkpoint.as_bytes().len(), final_length);
    assert_eq!(checkpoint.allocation_capacity(), final_length);
    restore(checkpoint.as_bytes()).unwrap();
}

#[test]
fn ecology_and_knowledge_checkpoints_encode_only_authoritative_operations() {
    let ecology_matrix = [1_usize, 8, 32].map(|retained| {
        let limits = IntelligenceLimits::new(8, 64, 64, 512, 64, 1024 * 1024)
            .unwrap()
            .with_maximum_specialists_per_route(64)
            .unwrap();
        let mut core = fresh(limits);
        let mut retiring = None;
        for index in 0..retained {
            let specialist = test_specialist(&format!("delta-specialist-{index}"), 0.25);
            retiring = Some(specialist.id());
            core.stage::<PinnedPolicy>(SettlementFrame::edits(&[EcologyEdit::Spawn(specialist)]))
                .unwrap()
                .commit(&mut core)
                .unwrap();
        }
        let transition = core
            .stage::<PinnedPolicy>(SettlementFrame::edits(&[EcologyEdit::Retire(
                retiring.unwrap(),
            )]))
            .unwrap();
        let work = transition.stage_work();
        transition.commit(&mut core).unwrap();
        restore(core.checkpoint().as_bytes()).unwrap();
        (retained, work)
    });
    let ecology_delta_bytes = ecology_matrix[0].1.checkpoint_delta_bytes;
    for (retained, work) in ecology_matrix {
        assert_eq!(work.historical_items_reencoded, 0, "retained={retained}");
        assert_eq!(work.ecology_items_cloned, retained);
        assert_eq!(work.knowledge_items_cloned, 0);
        assert_eq!(work.checkpoint_delta_bytes, ecology_delta_bytes);
    }

    let knowledge_matrix = [1_usize, 8, 32].map(|retained| {
        let limits = IntelligenceLimits::new(8, 64, 64, 512, 4, 1024 * 1024).unwrap();
        let mut core = fresh(limits);
        let mut invalidating = None;
        for index in 0..retained {
            let identity = [u8::try_from(index + 1).unwrap(); 32];
            let challenger = KnowledgeChallenger::new(
                CompilerRecipe::Deduplicate,
                &[SubjectId::new([identity[0].wrapping_add(64); 32])],
                KnowledgeProduct::nonsemantic_index(SubjectId::new(identity), vec![1]).unwrap(),
                &[],
                PromotionGate::all(&[ContextualRequirement::new(
                    ForecastAxis::UsefulDescendants,
                    number(0.1),
                )
                .unwrap()])
                .unwrap(),
            )
            .unwrap();
            invalidating = Some(challenger.id());
            core.stage::<PinnedPolicy>(SettlementFrame::knowledge(&[KnowledgeUpdate::Propose(
                challenger,
            )]))
            .unwrap()
            .commit(&mut core)
            .unwrap();
        }
        let transition = core
            .stage::<PinnedPolicy>(SettlementFrame::knowledge(&[KnowledgeUpdate::Invalidate {
                challenger: invalidating.unwrap(),
                reason: KnowledgeInvalidationReason::Product,
            }]))
            .unwrap();
        let work = transition.stage_work();
        transition.commit(&mut core).unwrap();
        restore(core.checkpoint().as_bytes()).unwrap();
        (retained, work)
    });
    let knowledge_delta_bytes = knowledge_matrix[0].1.checkpoint_delta_bytes;
    for (retained, work) in knowledge_matrix {
        assert_eq!(work.historical_items_reencoded, 0, "retained={retained}");
        assert_eq!(work.ecology_items_cloned, 0);
        assert_eq!(work.knowledge_items_cloned, retained);
        assert_eq!(work.checkpoint_delta_bytes, knowledge_delta_bytes);
    }
}
