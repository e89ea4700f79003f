//! The runtime policy: comparisons are bound to campaigns, staged and replayed.
use reflex_intelligence::allocation::{PortfolioBuffer, PortfolioReceipt};
use reflex_intelligence::arena::OpportunitySpec;
use reflex_intelligence::causal::{InvestmentOutcome, InvestmentSettlement};
use reflex_intelligence::checkpoint::CheckpointWire;
use reflex_intelligence::digest::{Digest, hash_bytes};
use reflex_intelligence::ecology::ModelEcology;
use reflex_intelligence::evidence::OperationalEvidence;
use reflex_intelligence::forecast::{Forecast, ForecastAxis, ScoredForecast};
use reflex_intelligence::intelligence::IntelligenceCore;
use reflex_intelligence::investment::InvestmentSpec;
use reflex_intelligence::market::{MarketArena, MarketFrame};
use reflex_intelligence::model::{CompactModel, ModelHead};
use reflex_intelligence::policy::{
    ParetoPolicy, PolicyEngine, PolicyUpdate, RuntimePolicyDecision, RuntimePolicyRevision,
    RuntimePolicyState,
};
use reflex_intelligence::shadow::{
    ShadowArm, ShadowArmOutcome, ShadowCampaignId, ShadowCampaignSpec, ShadowUpdate, TypedOutcome,
};
use reflex_intelligence::transition::SettlementFrame;
use reflex_intelligence::types::{
    IntelligenceError, IntelligenceLimits, InvestmentId, ResourceVector, SubjectId,
};

fn bits(values: &[f32]) -> Vec<u32> {
    values.iter().map(|value| value.to_bits()).collect()
}

fn number(value: f32) -> u32 {
    value.to_bits()
}

fn market_for(limits: IntelligenceLimits) -> MarketArena {
    MarketArena::try_with_capacity(limits).unwrap()
}

fn buffer_for(limits: IntelligenceLimits) -> PortfolioBuffer {
    PortfolioBuffer::try_with_capacity(limits).unwrap()
}

fn fresh(limits: IntelligenceLimits) -> IntelligenceCore {
    IntelligenceCore::fresh::<ParetoPolicy>(limits)
}

fn restore(bytes: &[u8]) -> Result<IntelligenceCore, IntelligenceError> {
    IntelligenceCore::restore::<ParetoPolicy>(bytes)
}

/// What one head forecasts, and what the forecast is worth at the least.
fn forecast(model: &CompactModel, head: &ModelHead, features: &[u32]) -> ScoredForecast {
    let intercept = f32::from_bits(head.intercept);
    let estimate = if model.features().is_none() {
        intercept
    } else {
        let score = head
            .weights
            .iter()
            .zip(features)
            .fold(intercept, |score, (weight, feature)| {
                score + f32::from_bits(*weight) * f32::from_bits(*feature)
            });
        1.0 / (1.0 + (-score).exp())
    };
    let calibration_error = f32::from_bits(head.calibration_error);
    let uncertainty = (1.0 / (head.support.saturating_add(1) as f32).sqrt())
        .max(calibration_error)
        .clamp(0.0, 1.0);
    let conservative_value = if head.axis.higher_is_better() {
        estimate - uncertainty - calibration_error * 0.25
    } else {
        -(estimate + uncertainty + calibration_error * 0.25)
    };
    ScoredForecast {
        forecast: Forecast::with_uncertainty(
            head.axis,
            estimate.to_bits(),
            head.calibration_error,
            uncertainty.to_bits(),
            head.support,
        )
        .unwrap(),
        conservative_value: conservative_value.to_bits(),
    }
}

/// The forecasts for every investment, by every specialist that it is routed to.
fn evaluate(ecology: &ModelEcology, market: &MarketArena) -> Vec<Vec<ScoredForecast>> {
    let mut evaluations = Vec::new();
    for index in 0..market.investment_count() {
        let investment = market.investment(InvestmentId(index as u32)).unwrap();
        let opportunity = market.opportunity(investment.opportunity).unwrap();
        let features = market.features(investment.opportunity);
        for place in ecology.routed(opportunity, features.len()) {
            let model = ecology.specialists()[place].model();
            evaluations.push(
                model
                    .heads()
                    .iter()
                    .map(|head| forecast(model, head, features))
                    .collect(),
            );
        }
    }
    evaluations
}

fn allocate<'a>(
    core: &IntelligenceCore,
    frame: MarketFrame<'_>,
    limit: usize,
    output: &'a mut PortfolioBuffer,
) -> Result<PortfolioReceipt<'a>, IntelligenceError> {
    let evaluations = evaluate(core.manifest().ecology, frame.market);
    core.allocate(frame, limit, &evaluations, output)?;
    Ok(output.portfolio())
}

/// A policy that has not been tried against the state of a core.
fn runtime_policy_challenger(identity: Digest, sequence: u64) -> Option<RuntimePolicyRevision> {
    let mut content = identity.to_bytes().to_vec();
    content.extend_from_slice(&sequence.to_le_bytes());
    Some(RuntimePolicyRevision(hash_bytes(&content)))
}

fn evidence(values: [u64; 7]) -> OperationalEvidence {
    OperationalEvidence {
        correctness_failures: values[0],
        verified_discoveries: values[1],
        covered_claims: values[2],
        useful_descendants: values[3],
        cpu_time_ns: values[4],
        verification_requests: values[5],
        durable_bytes: values[6],
    }
}

fn bound_policy_comparison(
    core: &IntelligenceCore,
    challenger: RuntimePolicyRevision,
    incumbent: OperationalEvidence,
    treatment: OperationalEvidence,
) -> (Vec<ShadowUpdate>, PolicyUpdate) {
    let resources = |evidence: OperationalEvidence| {
        ResourceVector::new(
            evidence.cpu_time_ns,
            1,
            evidence.durable_bytes,
            1,
            evidence.verification_requests,
        )
    };
    let incumbent_resources = resources(incumbent);
    let treatment_resources = resources(treatment);
    let allowance = ResourceVector::new(
        incumbent_resources
            .cpu_time_ns
            .max(treatment_resources.cpu_time_ns),
        1,
        incumbent_resources
            .durable_bytes
            .max(treatment_resources.durable_bytes),
        1,
        incumbent_resources
            .verification_requests
            .max(treatment_resources.verification_requests),
    );
    let axes = [
        ForecastAxis::KernelAcceptance,
        ForecastAxis::ImmediateImprovement,
        ForecastAxis::UsefulDescendants,
        ForecastAxis::CrossGoalLeverage,
    ];
    let outcomes = |evidence: OperationalEvidence| {
        [
            evidence.correctness_failures,
            evidence.verified_discoveries,
            evidence.useful_descendants,
            evidence.covered_claims,
        ]
        .into_iter()
        .zip(axes)
        .map(|(value, axis)| {
            TypedOutcome::new(axis, number(f32::from(u16::try_from(value).unwrap()))).unwrap()
        })
        .collect::<Vec<_>>()
    };
    let campaign = ShadowCampaignSpec::new(
        core.checkpoint().digest(),
        SubjectId(challenger.identity()),
        allowance,
        SubjectId(challenger.identity()),
        &axes,
    )
    .unwrap();
    let updates = vec![
        ShadowUpdate::Open(campaign.clone()),
        ShadowUpdate::Outcome(
            ShadowArmOutcome::new(
                campaign.id(),
                ShadowArm::Treatment,
                campaign.checkpoint(),
                treatment_resources,
                campaign.random_stream(),
                &outcomes(treatment),
            )
            .unwrap(),
        ),
        ShadowUpdate::Outcome(
            ShadowArmOutcome::new(
                campaign.id(),
                ShadowArm::Control,
                campaign.checkpoint(),
                incumbent_resources,
                campaign.random_stream(),
                &outcomes(incumbent),
            )
            .unwrap(),
        ),
    ];
    let update = PolicyUpdate::comparison(campaign.id(), challenger);
    (updates, update)
}

#[test]
fn legacy_policy_import_preserves_lineage_and_rejects_current_overwrite() {
    let limits = IntelligenceLimits::new(8, 16, 16, 64, 4, 64 * 1024).unwrap();
    let legacy = fresh(limits).checkpoint_in::<ParetoPolicy>(CheckpointWire::for_version(12).unwrap());
    let migrated = restore(legacy.as_bytes()).unwrap();
    let bootstrap = RuntimePolicyState { encoded: ParetoPolicy::bootstrap() };
    let challenger = runtime_policy_challenger(bootstrap.canonical_root(), 0).unwrap();
    let (encoded, decision) = ParetoPolicy::compare(
        bootstrap.encode(),
        SubjectId(challenger.identity()),
        evidence([0, 4, 3, 2, 1_000, 80, 100]),
        evidence([0, 5, 4, 3, 900, 70, 90]),
    )
    .unwrap();
    assert_eq!(decision, RuntimePolicyDecision::Promote);
    let standalone = RuntimePolicyState { encoded };
    let expected_identity = standalone.canonical_root();

    let imported = migrated.into_legacy_runtime_policy::<ParetoPolicy>(&standalone).unwrap();
    assert_eq!(imported.runtime_policy_revision::<ParetoPolicy>(), challenger);
    assert_eq!(imported.runtime_policy_identity(), expected_identity);
    let recovered = restore(imported.checkpoint().as_bytes()).unwrap();
    assert_eq!(recovered.runtime_policy_identity(), expected_identity);
    assert_eq!(
        recovered
            .into_legacy_runtime_policy::<ParetoPolicy>(&standalone)
            .unwrap_err(),
        IntelligenceError::InvalidPolicy
    );
    assert_eq!(
        fresh(limits)
            .into_legacy_runtime_policy::<ParetoPolicy>(&RuntimePolicyState { encoded: ParetoPolicy::bootstrap() })
            .unwrap_err(),
        IntelligenceError::InvalidPolicy
    );
}

#[test]
fn policy_promotion_is_deterministic_authenticated_and_recoverable() {
    let limits = IntelligenceLimits::new(8, 16, 16, 64, 4, 64 * 1024).unwrap();
    let mut core = fresh(limits);
    let challenger = runtime_policy_challenger(core.runtime_policy_identity(), 7).unwrap();
    assert_eq!(runtime_policy_challenger(core.runtime_policy_identity(), 7), Some(challenger));
    let incumbent = evidence([0, 4, 3, 2, 1_000, 80, 100]);
    let dominant = evidence([0, 5, 4, 3, 900, 70, 90]);
    let (shadow_updates, update) =
        bound_policy_comparison(&core, challenger, incumbent, dominant);
    let mut market = market_for(limits);
    let opportunity = market
        .push_opportunity(OpportunitySpec::candidate([91; 32]), &bits(&[1.0]))
        .unwrap();
    market
        .push_investment(InvestmentSpec::verify(
            opportunity,
            ResourceVector::new(1, 1, 0, 1, 1),
            0,
        ))
        .unwrap();
    let mut output = buffer_for(limits);
    let receipt = allocate(
        &core,
        MarketFrame::new(&market, ResourceVector::new(1, 1, 0, 1, 1)),
        1,
        &mut output,
    )
    .unwrap()
    .receipts()[0];
    let settlement = InvestmentSettlement::new(
        receipt.decision(),
        InvestmentOutcome::VerifiedRefuted,
        ResourceVector::new(1, 1, 0, 1, 1),
    );

    let transition = core
        .stage::<ParetoPolicy>(
            SettlementFrame::observations(&[receipt], &[settlement], &[], &shadow_updates)
                .with_policy_update(&update),
        )
        .unwrap();
    assert_eq!(
        transition.policy_decision(),
        Some(RuntimePolicyDecision::Promote)
    );
    let recovered = restore(transition.checkpoint().unwrap().as_bytes()).unwrap();
    assert_eq!(recovered.runtime_policy_revision::<ParetoPolicy>(), challenger);
    assert_eq!(recovered.experience().receipts(), &[receipt]);
    transition.commit(&mut core).unwrap();
    assert_eq!(core.runtime_policy_revision::<ParetoPolicy>(), challenger);
    assert_eq!(core.checkpoint(), recovered.checkpoint());
}

#[test]
fn incomparable_and_rejected_policy_comparisons_preserve_authority() {
    let limits = IntelligenceLimits::new(8, 16, 16, 64, 4, 64 * 1024).unwrap();
    let mut core = fresh(limits);
    let active = core.runtime_policy_revision::<ParetoPolicy>();
    let bootstrap_resident = core.resident_bytes();
    let incomparable = runtime_policy_challenger(core.runtime_policy_identity(), 0).unwrap();
    let incumbent = evidence([0, 4, 3, 2, 1_000, 80, 100]);
    let tradeoff = evidence([0, 5, 3, 2, 1_200, 70, 90]);
    let (shadow_updates, update) =
        bound_policy_comparison(&core, incomparable, incumbent, tradeoff);
    let transition = core
        .stage::<ParetoPolicy>(
            SettlementFrame::observations(&[], &[], &[], &shadow_updates)
                .with_policy_update(&update),
        )
        .unwrap();
    assert_eq!(
        transition.policy_decision(),
        Some(RuntimePolicyDecision::RetainSpecialist)
    );
    transition.commit(&mut core).unwrap();
    assert_eq!(core.runtime_policy_revision::<ParetoPolicy>(), active);
    assert!(core.resident_bytes() > bootstrap_resident);
    assert_ne!(runtime_policy_challenger(core.runtime_policy_identity(), 0), Some(incomparable));

    let rejected = runtime_policy_challenger(core.runtime_policy_identity(), 0).unwrap();
    let reckless_evidence = evidence([1, 3, 4, 3, 900, 70, 90]);
    let (shadow_updates, update) =
        bound_policy_comparison(&core, rejected, incumbent, reckless_evidence);
    let transition = core
        .stage::<ParetoPolicy>(
            SettlementFrame::observations(&[], &[], &[], &shadow_updates)
                .with_policy_update(&update),
        )
        .unwrap();
    assert_eq!(
        transition.policy_decision(),
        Some(RuntimePolicyDecision::Reject)
    );
    transition.commit(&mut core).unwrap();
    assert_eq!(core.runtime_policy_revision::<ParetoPolicy>(), active);
    assert_eq!(runtime_policy_challenger(core.runtime_policy_identity(), 0), Some(rejected));
}

#[test]
fn invalid_policy_comparison_rejects_the_whole_mixed_transition() {
    let limits = IntelligenceLimits::new(8, 16, 16, 64, 4, 64 * 1024).unwrap();
    let core = fresh(limits);
    let before = core.checkpoint();
    let (shadow_updates, invalid) = bound_policy_comparison(
        &core,
        core.runtime_policy_revision::<ParetoPolicy>(),
        evidence([0, 1, 1, 0, 10, 1, 1]),
        evidence([0, 2, 1, 0, 9, 1, 1]),
    );
    let receipts = [];
    let settlements = [];

    assert_eq!(
        core.stage::<ParetoPolicy>(
            SettlementFrame::observations(&receipts, &settlements, &[], &shadow_updates)
                .with_policy_update(&invalid)
        )
        .unwrap_err(),
        IntelligenceError::InvalidPolicy
    );
    assert_eq!(core.checkpoint(), before);
}

#[test]
fn policy_update_without_its_exact_terminal_shadow_is_rejected() {
    let limits = IntelligenceLimits::new(8, 16, 16, 64, 4, 64 * 1024).unwrap();
    let core = fresh(limits);
    let challenger = runtime_policy_challenger(core.runtime_policy_identity(), 0).unwrap();
    let unbound =
        PolicyUpdate::comparison(ShadowCampaignId::from_identity([0xa5; 32]), challenger);

    assert_eq!(
        core.stage::<ParetoPolicy>(SettlementFrame::empty().with_policy_update(&unbound))
            .unwrap_err(),
        IntelligenceError::InvalidPolicy
    );
}

#[test]
fn legacy_v16_resume_migrates_before_appending_a_bound_policy_update() {
    let limits = IntelligenceLimits::new(8, 32, 32, 128, 8, 64 * 1024).unwrap();
    let legacy = fresh(limits).checkpoint_in::<ParetoPolicy>(CheckpointWire::for_version(16).unwrap());
    assert!(legacy.as_bytes().starts_with(b"RFIC\x10"));
    let mut resumed = restore(legacy.as_bytes()).unwrap();
    assert!(resumed.checkpoint().as_bytes().starts_with(b"RFIC\x11"));

    let challenger = runtime_policy_challenger(resumed.runtime_policy_identity(), 0).unwrap();
    let (shadows, update) = bound_policy_comparison(
        &resumed,
        challenger,
        evidence([0, 1, 1, 0, 20, 2, 20]),
        evidence([0, 2, 2, 0, 10, 1, 10]),
    );
    resumed
        .stage::<ParetoPolicy>(
            SettlementFrame::observations(&[], &[], &[], &shadows).with_policy_update(&update),
        )
        .unwrap()
        .commit(&mut resumed)
        .unwrap();
    assert!(resumed.checkpoint().as_bytes().starts_with(b"RFIC\x11"));
    let restored = restore(resumed.checkpoint().as_bytes()).unwrap();
    assert_eq!(restored.runtime_policy_revision::<ParetoPolicy>(), challenger);
}

#[test]
fn a_policy_is_preferred_that_is_nowhere_worse_and_somewhere_better() {
    let state = ParetoPolicy::bootstrap();
    let challenger = SubjectId::new([9; 32]);
    let incumbent = evidence([0, 4, 3, 2, 1_000, 80, 100]);
    let decision = |values: [u64; 7]| {
        ParetoPolicy::compare(&state, challenger, incumbent, evidence(values))
            .unwrap()
            .1
    };
    assert_eq!(
        decision([0, 4, 3, 2, 999, 80, 100]),
        RuntimePolicyDecision::Promote
    );
    assert_eq!(
        decision([0, 4, 3, 2, 1_000, 80, 100]),
        RuntimePolicyDecision::Reject
    );
    assert_eq!(
        decision([0, 3, 3, 2, 1_000, 80, 100]),
        RuntimePolicyDecision::Reject
    );
    assert_eq!(
        decision([0, 3, 3, 2, 10, 80, 100]),
        RuntimePolicyDecision::RetainSpecialist
    );
}

#[test]
fn a_promoted_policy_is_not_promoted_away_by_the_same_evidence() {
    let state = ParetoPolicy::bootstrap();
    let challenger = SubjectId::new([9; 32]);
    let incumbent = evidence([0, 4, 3, 2, 1_000, 80, 100]);
    let better = evidence([0, 5, 3, 2, 1_000, 80, 100]);
    let (promoted, decision) =
        ParetoPolicy::compare(&state, challenger, incumbent, better).unwrap();
    assert_eq!(decision, RuntimePolicyDecision::Promote);
    let former = SubjectId::new(state[..32].try_into().unwrap());
    let (kept, decision) = ParetoPolicy::compare(&promoted, former, better, incumbent).unwrap();
    assert_eq!(decision, RuntimePolicyDecision::Reject);
    assert_eq!(kept, promoted);
    assert!(ParetoPolicy::compare(&promoted, challenger, better, incumbent).is_none());
}
