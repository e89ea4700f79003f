//! Imports: each happens once, in any order.
use reflex_intelligence::allocation::{PortfolioBuffer, PortfolioReceipt};
use reflex_intelligence::arena::OpportunitySpec;
use reflex_intelligence::causal::{InvestmentOutcome, InvestmentSettlement};
use reflex_intelligence::checkpoint::CheckpointWire;
use reflex_intelligence::consolidation::KnowledgeState;
use reflex_intelligence::digest::Digest;
use reflex_intelligence::ecology::{
    EcologyEdit, ModelEcology, SpecialistMandate, SpecialistRevision,
};
use reflex_intelligence::forecast::{
    Forecast, ForecastAxis, Precedence, ScoredForecast, compare_forecast_vectors,
};
use reflex_intelligence::intelligence::IntelligenceCore;
use reflex_intelligence::investment::InvestmentSpec;
use reflex_intelligence::knowledge::KnowledgeWork;
use reflex_intelligence::market::{MarketArena, MarketFrame};
use reflex_intelligence::model::{CompactModel, ModelHead};
use reflex_intelligence::planning::KnowledgeVerificationReport;
use reflex_intelligence::policy::{PinnedPolicy, PolicyEngine, RuntimePolicyState};
use reflex_intelligence::receipt::InvestmentReceipt;
use reflex_intelligence::transition::SettlementFrame;
use reflex_intelligence::types::{
    AllocationSource, IntelligenceError, IntelligenceLimits, InvestmentId, ResourceVector, RoleId,
    RoutingFamilyId, SubjectId,
};

fn bits(values: &[f32]) -> Vec<u32> {
    values.iter().map(|value| value.to_bits()).collect()
}

fn head(
    axis: ForecastAxis,
    intercept: f32,
    weights: &[f32],
    calibration_error: f32,
    support: u32,
) -> Result<ModelHead, IntelligenceError> {
    Ok(ModelHead {
        axis,
        intercept: intercept.to_bits(),
        weights: weights.iter().map(|weight| weight.to_bits()).collect(),
        calibration_error: calibration_error.to_bits(),
        support,
    })
}

fn prior_head(
    axis: ForecastAxis,
    estimate: f32,
    calibration_error: f32,
    support: u32,
) -> Result<ModelHead, IntelligenceError> {
    head(axis, estimate, &[], calibration_error, support)
}

fn prior_model<const N: usize>(heads: [ModelHead; N]) -> Result<CompactModel, IntelligenceError> {
    CompactModel::new(None, heads.into_iter().collect())
}

fn market_for(limits: IntelligenceLimits) -> MarketArena {
    MarketArena::try_with_capacity(limits).unwrap()
}

fn buffer_for(limits: IntelligenceLimits) -> PortfolioBuffer {
    PortfolioBuffer::try_with_capacity(limits).unwrap()
}

fn fresh(limits: IntelligenceLimits) -> IntelligenceCore {
    IntelligenceCore::fresh::<PinnedPolicy>(limits)
}

fn restore(bytes: &[u8]) -> Result<IntelligenceCore, IntelligenceError> {
    IntelligenceCore::restore::<PinnedPolicy>(bytes)
}

/// What one head forecasts, and what the forecast is worth at the least.
fn forecast(model: &CompactModel, head: &ModelHead, features: &[u32]) -> ScoredForecast {
    let intercept = f32::from_bits(head.intercept);
    let estimate = if model.features().is_none() {
        intercept
    } else {
        let score = head
            .weights
            .iter()
            .zip(features)
            .fold(intercept, |score, (weight, feature)| {
                score + f32::from_bits(*weight) * f32::from_bits(*feature)
            });
        1.0 / (1.0 + (-score).exp())
    };
    let calibration_error = f32::from_bits(head.calibration_error);
    let uncertainty = (1.0 / (head.support.saturating_add(1) as f32).sqrt())
        .max(calibration_error)
        .clamp(0.0, 1.0);
    let conservative_value = if head.axis.higher_is_better() {
        estimate - uncertainty - calibration_error * 0.25
    } else {
        -(estimate + uncertainty + calibration_error * 0.25)
    };
    ScoredForecast {
        forecast: Forecast::with_uncertainty(
            head.axis,
            estimate.to_bits(),
            head.calibration_error,
            uncertainty.to_bits(),
            head.support,
        )
        .unwrap(),
        conservative_value: conservative_value.to_bits(),
    }
}

/// The forecasts for every investment, by every specialist that it is routed to.
fn evaluate(ecology: &ModelEcology, market: &MarketArena) -> Vec<Vec<ScoredForecast>> {
    let mut evaluations = Vec::new();
    for index in 0..market.investment_count() {
        let investment = market.investment(InvestmentId(index as u32)).unwrap();
        let opportunity = market.opportunity(investment.opportunity).unwrap();
        let features = market.features(investment.opportunity);
        for place in ecology.routed(opportunity, features.len()) {
            let model = ecology.specialists()[place].model();
            evaluations.push(
                model
                    .heads()
                    .iter()
                    .map(|head| forecast(model, head, features))
                    .collect(),
            );
        }
    }
    evaluations
}

fn allocate<'a>(
    core: &IntelligenceCore,
    frame: MarketFrame<'_>,
    limit: usize,
    output: &'a mut PortfolioBuffer,
) -> Result<PortfolioReceipt<'a>, IntelligenceError> {
    let evaluations = evaluate(core.manifest().ecology, frame.market);
    core.allocate(frame, limit, &evaluations, output)?;
    Ok(output.portfolio())
}

fn verification_pair(
    core: &IntelligenceCore,
    limits: IntelligenceLimits,
    subject: SubjectId,
    epoch: u64,
    declared: ResourceVector,
    actual: ResourceVector,
) -> (InvestmentReceipt, InvestmentSettlement) {
    let mut market = market_for(limits);
    let opportunity = market
        .push_opportunity(OpportunitySpec::candidate(subject.identity()), &bits(&[1.0]))
        .unwrap();
    market
        .push_investment(InvestmentSpec::verify(opportunity, declared, 0))
        .unwrap();
    let mut output = buffer_for(limits);
    let receipt = allocate(core, MarketFrame::new(&market, declared).at_epoch(epoch),
            1,
            &mut output,
        )
        .unwrap()
        .receipts()[0];
    let settlement = InvestmentSettlement::new(
        receipt.decision(),
        InvestmentOutcome::VerifiedAccepted {
            verification_record: subject,
        },
        actual,
    );
    (receipt, settlement)
}

/// Opens the verification of some work and settles it; everything is accepted.
fn verify(core: &mut IntelligenceCore, limits: IntelligenceLimits, work: KnowledgeWork, epoch: u64) {
    let (receipts, settlements) = work
        .obligations()
        .iter()
        .enumerate()
        .map(|(index, obligation)| {
            verification_pair(
                core,
                limits,
                obligation.subject(),
                epoch + u64::try_from(index).unwrap(),
                if index == 0 {
                    ResourceVector::new(2, 2, 2, 2, 1)
                } else {
                    ResourceVector::new(2, 0, 2, 0, 1)
                },
                if index == 0 {
                    ResourceVector::new(1, 1, 1, 1, 1)
                } else {
                    ResourceVector::new(1, 0, 1, 0, 1)
                },
            )
        })
        .unzip::<_, _, Vec<_>, Vec<_>>();
    let reserved = total(&receipts);
    let (open, opened) = core
        .open_knowledge_verification::<PinnedPolicy>(work, &receipts, reserved)
        .unwrap();
    open.commit(core).unwrap();
    let transition = core
        .settle_opened_knowledge_verification::<PinnedPolicy>(
            &opened,
            KnowledgeVerificationReport::settled(&settlements),
        )
        .unwrap();
    transition.commit(core).unwrap();
}

fn total(receipts: &[InvestmentReceipt]) -> ResourceVector {
    receipts
        .iter()
        .try_fold(ResourceVector::default(), |total, receipt| {
            total.checked_add(receipt.resources())
        })
        .unwrap()
}

fn migrated_v12_core(limits: IntelligenceLimits) -> IntelligenceCore {
    let legacy = fresh(limits).checkpoint_in::<PinnedPolicy>(CheckpointWire::for_version(12).unwrap());
    restore(legacy.as_bytes()).unwrap()
}

/// A model that was learned elsewhere: seven heads on eight features.
fn learned_model() -> CompactModel {
    let axes = [
        ForecastAxis::ImmediateImprovement,
        ForecastAxis::UsefulDescendants,
        ForecastAxis::CrossGoalLeverage,
        ForecastAxis::CompressionValue,
        ForecastAxis::KernelAcceptance,
        ForecastAxis::VerificationCost,
        ForecastAxis::DeadEndRisk,
    ];
    let heads = axes
        .into_iter()
        .enumerate()
        .map(|(index, axis)| {
            let weights: Vec<f32> = (0..8)
                .map(|feature| ((index * 3 + feature * 5) % 7) as f32 / 8.0 - 0.375)
                .collect();
            head(axis, index as f32 / 16.0, &weights, 0.125, 64).unwrap()
        })
        .collect();
    CompactModel::new(Some(8), heads).unwrap()
}

fn lineage() -> Digest {
    Digest::new([0x4c; 32])
}

fn legacy_ftrl_feature_vectors() -> Vec<[f32; 8]> {
    (0..4)
        .map(|case| {
            std::array::from_fn(|feature| {
                let magnitude = f32::from(
                    u16::try_from((case + 1) * (feature + 3)).expect("fixture value fits u16"),
                ) / 16.0;
                if (case + feature) % 3 == 0 {
                    -magnitude
                } else {
                    magnitude
                }
            })
        })
        .collect()
}

#[test]
fn legacy_ftrl_import_preserves_all_forecasts_ordering_lineage_and_restart_identity() {
    let limits = IntelligenceLimits::new(8, 8, 32, 256, 4, 64 * 1024).unwrap();
    let legacy_model = learned_model();
    let migrated = migrated_v12_core(limits);
    let empty_ecology_identity = migrated.model_ecology_identity();
    let imported = migrated
        .into_legacy_ftrl(lineage(), legacy_model.duplicate())
        .unwrap();
    let imported_checkpoint = imported.checkpoint();
    let imported_id = imported.manifest().active_ids()[0];
    assert_ne!(imported.model_ecology_identity(), empty_ecology_identity);
    assert_eq!(imported.manifest().active_ids().len(), 1);
    assert_eq!(&imported_checkpoint.as_bytes()[..5], b"RFIC\x11");

    let family = RoutingFamilyId::new([0x6a; 32]);
    let feature_vectors = legacy_ftrl_feature_vectors();
    let mut market = market_for(limits);
    for (index, features) in feature_vectors.iter().enumerate() {
        let opportunity = market
            .push_opportunity(
                OpportunitySpec::candidate_in_family(
                    [u8::try_from(index).unwrap(); 32],
                    OpportunitySpec::candidate_schema(),
                    family,
                ),
                &bits(features),
            )
            .unwrap();
        market
            .push_investment(InvestmentSpec::verify(
                opportunity,
                ResourceVector::new(1, 1, 0, 1, 1),
                u32::try_from(index).unwrap(),
            ))
            .unwrap();
    }
    let scored = |index: usize| -> Vec<ScoredForecast> {
        let features = bits(&feature_vectors[index]);
        legacy_model
            .heads()
            .iter()
            .map(|head| forecast(&legacy_model, head, &features))
            .collect()
    };
    let expected_adaptive = (1..feature_vectors.len())
        .reduce(|left, right| {
            match compare_forecast_vectors(&scored(left), &scored(right)) {
                Precedence::After => right,
                _ => left,
            }
        })
        .unwrap();
    let mut output = buffer_for(limits);
    let portfolio = allocate(
        &imported,
        MarketFrame::new(&market, ResourceVector::new(2, 2, 0, 2, 2)),
        2,
        &mut output,
    )
    .unwrap();
    assert_eq!(
        portfolio.investment_ids(),
        [
            InvestmentId(0),
            InvestmentId(u32::try_from(expected_adaptive).unwrap())
        ]
    );
    assert_eq!(
        portfolio.allocations()[1].source(),
        AllocationSource::Specialist(imported_id)
    );
    assert_eq!(portfolio.receipts()[1].forecasts().len(), 7);
    assert_eq!(
        portfolio.receipts()[1].forecasts(),
        scored(expected_adaptive)
            .into_iter()
            .map(|scored| scored.forecast)
            .collect::<Vec<_>>()
    );

    let recovered = restore(imported_checkpoint.as_bytes()).unwrap();
    assert_eq!(recovered.checkpoint(), imported_checkpoint);
    assert_eq!(
        recovered.model_ecology_identity(),
        imported.model_ecology_identity()
    );
    assert_eq!(
        recovered.manifest().active_ids(),
        [imported_id]
    );
    let independently_imported = migrated_v12_core(limits)
        .into_legacy_ftrl(lineage(), legacy_model.duplicate())
        .unwrap();
    assert_eq!(independently_imported.checkpoint(), imported_checkpoint);
    assert_eq!(
        independently_imported.manifest().active_ids(),
        [imported_id]
    );
}

#[test]
fn legacy_ftrl_import_rejects_fresh_duplicate_nonempty_and_over_limit_cores() {
    let limits = IntelligenceLimits::new(8, 8, 32, 256, 4, 64 * 1024).unwrap();
    let model = learned_model();
    assert_eq!(
        fresh(limits)
            .into_legacy_ftrl(lineage(), model.duplicate())
            .unwrap_err(),
        IntelligenceError::IncompatibleRevision
    );
    let imported = migrated_v12_core(limits)
        .into_legacy_ftrl(lineage(), model.duplicate())
        .unwrap();
    assert_eq!(
        restore(imported.checkpoint().as_bytes())
            .unwrap()
            .into_legacy_ftrl(lineage(), model.duplicate())
            .unwrap_err(),
        IntelligenceError::IncompatibleRevision
    );

    let mut nonempty = fresh(limits);
    let retained = SpecialistRevision::new(
        SpecialistMandate::all(
            RoleId::new("legacy-nonempty").unwrap(),
            &[ForecastAxis::KernelAcceptance],
        )
        .unwrap(),
        prior_model([
            prior_head(ForecastAxis::KernelAcceptance, 0.5, 0.25, 1).unwrap()
        ])
        .unwrap(),
    )
    .unwrap();
    nonempty
        .stage::<PinnedPolicy>(SettlementFrame::edits(&[EcologyEdit::Spawn(retained)]))
        .unwrap()
        .commit(&mut nonempty)
        .unwrap();
    let legacy_nonempty = nonempty.checkpoint_in::<PinnedPolicy>(CheckpointWire::for_version(12).unwrap());
    assert_eq!(
        restore(legacy_nonempty.as_bytes())
            .unwrap()
            .into_legacy_ftrl(lineage(), model.duplicate())
            .unwrap_err(),
        IntelligenceError::InvalidMandate
    );

    let constrained = IntelligenceLimits::new(8, 8, 8, 256, 1, 1).unwrap();
    assert_eq!(
        migrated_v12_core(constrained)
            .into_legacy_ftrl(lineage(), model.duplicate())
            .unwrap_err(),
        IntelligenceError::CapacityExceeded
    );
}

#[test]
fn restored_legacy_core_consumes_authenticated_absent_learning_once() {
    let limits = IntelligenceLimits::new(8, 8, 32, 256, 4, 64 * 1024).unwrap();
    let legacy = migrated_v12_core(limits);
    let bootstrap_ecology = legacy.model_ecology_identity();
    let closed = legacy.into_legacy_learning(None).unwrap();
    assert_eq!(closed.model_ecology_identity(), bootstrap_ecology);
    assert_eq!(closed.manifest().active_ids().len(), 0);
    assert_eq!(
        closed.duplicate().into_legacy_learning(None).unwrap_err(),
        IntelligenceError::IncompatibleRevision
    );
    assert_eq!(
        fresh(limits)
            .into_legacy_learning(None)
            .unwrap_err(),
        IntelligenceError::IncompatibleRevision
    );
    let resealed = closed
        .into_legacy_knowledge(&KnowledgeState::default())
        .unwrap();
    assert_eq!(
        restore(resealed.checkpoint().as_bytes())
            .unwrap()
            .into_legacy_learning(None)
            .unwrap_err(),
        IntelligenceError::IncompatibleRevision
    );
}

#[test]
fn legacy_ftrl_and_policy_imports_preserve_independent_one_time_provenance() {
    let limits = IntelligenceLimits::new(8, 8, 32, 256, 4, 64 * 1024).unwrap();
    let model = learned_model();
    let migrated = migrated_v12_core(limits);

    let model_then_policy = migrated
        .duplicate()
        .into_legacy_ftrl(lineage(), model.duplicate())
        .unwrap()
        .into_legacy_runtime_policy::<PinnedPolicy>(&RuntimePolicyState { encoded: PinnedPolicy::bootstrap() })
        .unwrap();
    let policy_then_model = migrated
        .into_legacy_runtime_policy::<PinnedPolicy>(&RuntimePolicyState { encoded: PinnedPolicy::bootstrap() })
        .unwrap()
        .into_legacy_ftrl(lineage(), model.duplicate())
        .unwrap();

    assert_eq!(
        model_then_policy.checkpoint(),
        policy_then_model.checkpoint()
    );
}

#[test]
fn v20_import_core_requires_model_and_knowledge_then_closes_all_import_eligibility() {
    let limits = IntelligenceLimits::new(8, 8, 32, 256, 4, 64 * 1024).unwrap();
    let model = learned_model();
    let knowledge = KnowledgeState::default();
    let bootstrap_ecology = fresh(limits).model_ecology_identity();
    assert_eq!(
        IntelligenceCore::fresh_for_legacy_import::<PinnedPolicy>(limits)
            .unwrap()
            .finalize::<PinnedPolicy>()
            .unwrap_err(),
        IntelligenceError::IncompatibleRevision
    );
    assert_eq!(
        IntelligenceCore::fresh_for_legacy_import::<PinnedPolicy>(limits)
            .unwrap()
            .into_legacy_runtime_policy::<PinnedPolicy>(&RuntimePolicyState { encoded: PinnedPolicy::bootstrap() })
            .unwrap()
            .finalize::<PinnedPolicy>()
            .unwrap_err(),
        IntelligenceError::IncompatibleRevision
    );

    let model_then_policy = IntelligenceCore::fresh_for_legacy_import::<PinnedPolicy>(limits)
        .unwrap()
        .into_legacy_learning(Some((lineage(), model.duplicate())))
        .unwrap()
        .into_legacy_runtime_policy::<PinnedPolicy>(&RuntimePolicyState { encoded: PinnedPolicy::bootstrap() })
        .unwrap()
        .into_legacy_knowledge(&knowledge)
        .unwrap()
        .finalize::<PinnedPolicy>()
        .unwrap();
    let policy_then_model = IntelligenceCore::fresh_for_legacy_import::<PinnedPolicy>(limits)
        .unwrap()
        .into_legacy_knowledge(&knowledge)
        .unwrap()
        .into_legacy_runtime_policy::<PinnedPolicy>(&RuntimePolicyState { encoded: PinnedPolicy::bootstrap() })
        .unwrap()
        .into_legacy_ftrl(lineage(), model.duplicate())
        .unwrap()
        .finalize::<PinnedPolicy>()
        .unwrap();
    assert_eq!(
        model_then_policy.checkpoint(),
        policy_then_model.checkpoint()
    );

    let no_model = IntelligenceCore::fresh_for_legacy_import::<PinnedPolicy>(limits)
        .unwrap()
        .into_legacy_learning(None)
        .unwrap();
    let Err(duplicate_close) = no_model.into_legacy_learning(None) else {
        panic!("legacy model absence can only be consumed once");
    };
    assert_eq!(duplicate_close, IntelligenceError::IncompatibleRevision);
    let no_model = IntelligenceCore::fresh_for_legacy_import::<PinnedPolicy>(limits)
        .unwrap()
        .into_legacy_learning(None)
        .unwrap()
        .into_legacy_knowledge(&knowledge)
        .unwrap()
        .finalize::<PinnedPolicy>()
        .unwrap();
    assert_eq!(no_model.model_ecology_identity(), bootstrap_ecology);
    assert_eq!(no_model.manifest().active_ids().len(), 0);
    assert_eq!(
        restore(no_model.checkpoint().as_bytes())
            .unwrap()
            .checkpoint(),
        no_model.checkpoint()
    );
    assert_eq!(
        model_then_policy
            .duplicate()
            .into_legacy_ftrl(lineage(), model.duplicate())
            .unwrap_err(),
        IntelligenceError::IncompatibleRevision
    );
    assert_eq!(
        model_then_policy
            .duplicate()
            .into_legacy_runtime_policy::<PinnedPolicy>(&RuntimePolicyState { encoded: PinnedPolicy::bootstrap() })
            .unwrap_err(),
        IntelligenceError::InvalidPolicy
    );
    assert_eq!(
        model_then_policy
            .into_legacy_knowledge(&knowledge)
            .unwrap_err(),
        IntelligenceError::IncompatibleRevision
    );

    let recovered = restore(policy_then_model.checkpoint().as_bytes())
        .expect("the finalized v20 import is a current authenticated checkpoint");
    assert_eq!(
        recovered
            .into_legacy_ftrl(lineage(), model.duplicate())
            .unwrap_err(),
        IntelligenceError::IncompatibleRevision
    );
}
