//! Routes: which specialists are asked, and how many.
use reflex_intelligence::allocation::{PortfolioBuffer, PortfolioReceipt};
use reflex_intelligence::arena::{OpportunityKind, OpportunitySpec};
use reflex_intelligence::digest::hash_bytes;
use reflex_intelligence::ecology::{
    EcologyEdit, ModelEcology, SpecialistMandate, SpecialistRevision,
};
use reflex_intelligence::forecast::{Forecast, ForecastAxis, ScoredForecast};
use reflex_intelligence::intelligence::IntelligenceCore;
use reflex_intelligence::investment::InvestmentSpec;
use reflex_intelligence::market::{MarketArena, MarketFrame};
use reflex_intelligence::model::{CompactModel, ModelHead};
use reflex_intelligence::policy::PinnedPolicy;
use reflex_intelligence::transition::SettlementFrame;
use reflex_intelligence::types::{
    FeatureSchemaId, IntelligenceError, IntelligenceLimits, InvestmentId, ResourceVector, RoleId,
    RoutingFamilyId,
};

fn bits(values: &[f32]) -> Vec<u32> {
    values.iter().map(|value| value.to_bits()).collect()
}

fn head(
    axis: ForecastAxis,
    intercept: f32,
    weights: &[f32],
    calibration_error: f32,
    support: u32,
) -> Result<ModelHead, IntelligenceError> {
    Ok(ModelHead {
        axis,
        intercept: intercept.to_bits(),
        weights: weights.iter().map(|weight| weight.to_bits()).collect(),
        calibration_error: calibration_error.to_bits(),
        support,
    })
}

fn linear<const N: usize>(
    features: u8,
    heads: [ModelHead; N],
) -> Result<CompactModel, IntelligenceError> {
    CompactModel::new(Some(features), heads.into_iter().collect())
}

fn market_for(limits: IntelligenceLimits) -> MarketArena {
    MarketArena::try_with_capacity(limits).unwrap()
}

fn buffer_for(limits: IntelligenceLimits) -> PortfolioBuffer {
    PortfolioBuffer::try_with_capacity(limits).unwrap()
}

fn fresh(limits: IntelligenceLimits) -> IntelligenceCore {
    IntelligenceCore::fresh::<PinnedPolicy>(limits)
}

fn restore(bytes: &[u8]) -> Result<IntelligenceCore, IntelligenceError> {
    IntelligenceCore::restore::<PinnedPolicy>(bytes)
}

/// What one head forecasts, and what the forecast is worth at the least.
fn forecast(model: &CompactModel, head: &ModelHead, features: &[u32]) -> ScoredForecast {
    let intercept = f32::from_bits(head.intercept);
    let estimate = if model.features().is_none() {
        intercept
    } else {
        let score = head
            .weights
            .iter()
            .zip(features)
            .fold(intercept, |score, (weight, feature)| {
                score + f32::from_bits(*weight) * f32::from_bits(*feature)
            });
        1.0 / (1.0 + (-score).exp())
    };
    let calibration_error = f32::from_bits(head.calibration_error);
    let uncertainty = (1.0 / (head.support.saturating_add(1) as f32).sqrt())
        .max(calibration_error)
        .clamp(0.0, 1.0);
    let conservative_value = if head.axis.higher_is_better() {
        estimate - uncertainty - calibration_error * 0.25
    } else {
        -(estimate + uncertainty + calibration_error * 0.25)
    };
    ScoredForecast {
        forecast: Forecast::with_uncertainty(
            head.axis,
            estimate.to_bits(),
            head.calibration_error,
            uncertainty.to_bits(),
            head.support,
        )
        .unwrap(),
        conservative_value: conservative_value.to_bits(),
    }
}

/// The forecasts for every investment, by every specialist that it is routed to.
fn evaluate(ecology: &ModelEcology, market: &MarketArena) -> Vec<Vec<ScoredForecast>> {
    let mut evaluations = Vec::new();
    for index in 0..market.investment_count() {
        let investment = market.investment(InvestmentId(index as u32)).unwrap();
        let opportunity = market.opportunity(investment.opportunity).unwrap();
        let features = market.features(investment.opportunity);
        for place in ecology.routed(opportunity, features.len()) {
            let model = ecology.specialists()[place].model();
            evaluations.push(
                model
                    .heads()
                    .iter()
                    .map(|head| forecast(model, head, features))
                    .collect(),
            );
        }
    }
    evaluations
}

fn allocate<'a>(
    core: &IntelligenceCore,
    frame: MarketFrame<'_>,
    limit: usize,
    output: &'a mut PortfolioBuffer,
) -> Result<PortfolioReceipt<'a>, IntelligenceError> {
    let evaluations = evaluate(core.manifest().ecology, frame.market);
    core.allocate(frame, limit, &evaluations, output)?;
    Ok(output.portfolio())
}

fn routed_test_specialist(
    role: &str,
    family: RoutingFamilyId,
    schema: FeatureSchemaId,
    weight: f32,
) -> SpecialistRevision {
    SpecialistRevision::new(
        SpecialistMandate::for_routing_families(
            RoleId::new(role).unwrap(),
            &[ForecastAxis::ImmediateImprovement],
            &[OpportunityKind::Candidate],
            &[schema],
            &[family],
        )
        .unwrap(),
        linear(
            1,
            [
                head(ForecastAxis::ImmediateImprovement, 0.0, &[weight], 0.1, 16)
                    .unwrap(),
            ],
        )
        .unwrap(),
    )
    .unwrap()
}

fn generalist_test_specialist(
    role: &str,
    schema: FeatureSchemaId,
    weight: f32,
) -> SpecialistRevision {
    SpecialistRevision::new(
        SpecialistMandate::for_routing_families(
            RoleId::new(role).unwrap(),
            &[ForecastAxis::ImmediateImprovement],
            &[OpportunityKind::Candidate],
            &[schema],
            &[],
        )
        .unwrap(),
        linear(
            1,
            [
                head(ForecastAxis::ImmediateImprovement, 0.0, &[weight], 0.1, 16)
                    .unwrap(),
            ],
        )
        .unwrap(),
    )
    .unwrap()
}

#[test]
fn routing_index_bounds_specialist_evaluations_and_ignores_unrelated_families() {
    let limits = IntelligenceLimits::new(4, 8, 64, 512, 8, 64 * 1024)
        .unwrap()
        .with_maximum_specialists_per_route(2)
        .unwrap();
    let schema = OpportunitySpec::candidate_schema();
    let family_a = RoutingFamilyId::new([201; 32]);
    let family_b = RoutingFamilyId::new([202; 32]);
    let mut core = fresh(limits);
    for (role, family, weight) in [("route-a-1", family_a, 1.0), ("route-a-2", family_a, 0.5)] {
        core.stage::<PinnedPolicy>(SettlementFrame::edits(&[EcologyEdit::Spawn(
            routed_test_specialist(role, family, schema, weight),
        )]))
        .unwrap()
        .commit(&mut core)
        .unwrap();
    }
    let mut market = market_for(limits);
    let opportunity = market
        .push_opportunity(
            OpportunitySpec::candidate_in_family([203; 32], schema, family_a),
            &bits(&[1.0]),
        )
        .unwrap();
    for priority in 0..3 {
        market
            .push_investment(InvestmentSpec::verify(
                opportunity,
                ResourceVector::new(1, 1, 0, 1, 1),
                priority,
            ))
            .unwrap();
    }
    let mut output = buffer_for(limits);
    allocate(
        &core,
        MarketFrame::new(&market, ResourceVector::new(8, 8, 0, 8, 8)),
        3,
        &mut output,
    )
    .unwrap();
    assert_eq!(output.specialists_evaluated(), 6);
    assert!(
        output.specialists_evaluated()
            <= market.investment_count() * limits.maximum_specialists_per_route
    );

    for (role, weight) in [("route-b-1", -0.5), ("route-b-2", -1.0)] {
        core.stage::<PinnedPolicy>(SettlementFrame::edits(&[EcologyEdit::Spawn(
            routed_test_specialist(role, family_b, schema, weight),
        )]))
        .unwrap()
        .commit(&mut core)
        .unwrap();
    }
    allocate(
        &core,
        MarketFrame::new(&market, ResourceVector::new(8, 8, 0, 8, 8)),
        3,
        &mut output,
    )
    .unwrap();
    assert_eq!(
        output.specialists_evaluated(),
        6,
        "unrelated Routing Families add no specialist evaluation work"
    );
    assert_eq!(output.capacities(), [8, 16, 16, 512, 8, 8]);
    assert_eq!(
        output.resident_bytes(),
        limits.scratch_layout().unwrap().portfolio_bytes()
    );

    let before = core.checkpoint();
    assert_eq!(
        core.stage::<PinnedPolicy>(SettlementFrame::edits(&[EcologyEdit::Spawn(
            routed_test_specialist("route-a-overfull", family_a, schema, 2.0),
        )]))
        .unwrap_err(),
        IntelligenceError::CapacityExceeded
    );
    assert_eq!(core.checkpoint(), before);
}

#[test]
fn all_family_generalists_share_the_exact_route_bound_without_duplicate_work() {
    let limits = IntelligenceLimits::new(4, 8, 16, 128, 4, 64 * 1024)
        .unwrap()
        .with_maximum_specialists_per_route(2)
        .unwrap();
    let schema = OpportunitySpec::candidate_schema();
    let family_a = RoutingFamilyId::new([206; 32]);
    let family_b = RoutingFamilyId::new([207; 32]);
    let mut core = fresh(limits);
    for specialist in [
        generalist_test_specialist("all-family", schema, 0.25),
        routed_test_specialist("exact-family-a", family_a, schema, 1.0),
    ] {
        core.stage::<PinnedPolicy>(SettlementFrame::edits(&[EcologyEdit::Spawn(specialist)]))
            .unwrap()
            .commit(&mut core)
            .unwrap();
    }
    let checkpoint = core.checkpoint();
    let restored = restore(checkpoint.as_bytes()).unwrap();
    assert_eq!(restored.checkpoint(), checkpoint);

    let mut market = market_for(limits);
    for (identity, family, priority) in [([208; 32], family_a, 0), ([209; 32], family_b, 1)] {
        let opportunity = market
            .push_opportunity(
                OpportunitySpec::candidate_in_family(identity, schema, family),
                &bits(&[1.0]),
            )
            .unwrap();
        market
            .push_investment(InvestmentSpec::verify(
                opportunity,
                ResourceVector::new(1, 1, 0, 1, 1),
                priority,
            ))
            .unwrap();
    }
    let mut output = buffer_for(limits);
    allocate(
        &restored,
        MarketFrame::new(&market, ResourceVector::new(2, 2, 0, 2, 2)),
        2,
        &mut output,
    )
    .unwrap();
    assert_eq!(output.specialists_evaluated(), 3);

    assert_eq!(
        core.stage::<PinnedPolicy>(SettlementFrame::edits(&[EcologyEdit::Spawn(
            routed_test_specialist("exact-family-a-overfull", family_a, schema, 2.0),
        )]))
        .unwrap_err(),
        IntelligenceError::CapacityExceeded
    );
    assert_eq!(core.checkpoint(), checkpoint);
}

#[test]
fn legacy_v8_migration_retains_the_observed_route_fanout() {
    let limits = IntelligenceLimits::new(4, 8, 64, 512, 12, 1024 * 1024)
        .unwrap()
        .with_maximum_specialists_per_route(12)
        .unwrap();
    let schema = OpportunitySpec::candidate_schema();
    let family = RoutingFamilyId::new([204; 32]);
    let mut core = fresh(limits);
    for index in 0..9 {
        let role = format!("legacy-route-{index}");
        core.stage::<PinnedPolicy>(SettlementFrame::edits(&[EcologyEdit::Spawn(
            routed_test_specialist(&role, family, schema, 1.0),
        )]))
        .unwrap()
        .commit(&mut core)
        .unwrap();
    }

    let legacy = core.plain_checkpoint(8).unwrap();
    assert_eq!(&legacy.as_bytes()[..5], b"RFIC\x08");
    let restored = restore(legacy.as_bytes()).unwrap();

    assert_eq!(restored.manifest().active_ids().len(), 9);
    assert_eq!(restored.limits().maximum_specialists_per_route, 9);
    assert_eq!(&restored.checkpoint().as_bytes()[..5], b"RFIC\x11");
}

#[test]
fn checkpoint_rejects_checksum_valid_overfull_routing_index() {
    let limits = IntelligenceLimits::new(4, 8, 32, 512, 4, 64 * 1024)
        .unwrap()
        .with_maximum_specialists_per_route(2)
        .unwrap();
    let schema = OpportunitySpec::candidate_schema();
    let family = RoutingFamilyId::new([205; 32]);
    let mut core = fresh(limits);
    for (role, weight) in [("hostile-route-a", 1.0), ("hostile-route-b", 2.0)] {
        core.stage::<PinnedPolicy>(SettlementFrame::edits(&[EcologyEdit::Spawn(
            routed_test_specialist(role, family, schema, weight),
        )]))
        .unwrap()
        .commit(&mut core)
        .unwrap();
    }
    let checkpoint = core.checkpoint();
    assert_eq!(
        restore(checkpoint.as_bytes())
            .unwrap()
            .checkpoint(),
        checkpoint
    );

    let route_bound = 5 + 32 + 6 * std::mem::size_of::<u64>();
    let mut hostile = checkpoint.as_bytes().to_vec();
    hostile[route_bound..route_bound + 8].copy_from_slice(&1_u64.to_le_bytes());
    let payload_length = hostile.len() - 32;
    let checksum = hash_bytes(&hostile[..payload_length]).to_bytes();
    hostile[payload_length..].copy_from_slice(&checksum);

    assert_eq!(
        restore(&hostile).unwrap_err(),
        IntelligenceError::CorruptState
    );
}
