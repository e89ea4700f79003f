//! What a core invests in: the bootstrap first, then what specialists forecast.
use reflex_intelligence::allocation::PortfolioBuffer;
use reflex_intelligence::arena::{OpportunityKind, OpportunitySpec};
use reflex_intelligence::causal::{InvestmentOutcome, InvestmentSettlement};
use reflex_intelligence::ecology::{
    EcologyEdit, ModelEcology, SpecialistMandate, SpecialistRevision,
};
use reflex_intelligence::forecast::{Forecast, ForecastAxis, ScoredForecast};
use reflex_intelligence::intelligence::IntelligenceCore;
use reflex_intelligence::investment::{InvestmentSpec, InvestmentTag};
use reflex_intelligence::market::{MarketArena, MarketFrame};
use reflex_intelligence::model::{CompactModel, ModelHead};
use reflex_intelligence::policy::PinnedPolicy;
use reflex_intelligence::transition::SettlementFrame;
use reflex_intelligence::types::{
    AllocationSource, FeatureSchemaId, IntelligenceError, IntelligenceLimits, InvestmentId,
    ResourceVector, RoleId, RoutingFamilyId, SubjectId,
};

fn bits(values: &[f32]) -> Vec<u32> {
    values.iter().map(|value| value.to_bits()).collect()
}

fn linear(features: u8, heads: &[(ForecastAxis, f32, &[f32], f32, u32)]) -> CompactModel {
    let heads = heads
        .iter()
        .map(|(axis, intercept, weights, calibration_error, support)| ModelHead {
            axis: *axis,
            intercept: intercept.to_bits(),
            weights: bits(weights),
            calibration_error: calibration_error.to_bits(),
            support: *support,
        })
        .collect();
    CompactModel::new(Some(features), heads).unwrap()
}

fn prior(axis: ForecastAxis, estimate: f32, calibration_error: f32, support: u32) -> CompactModel {
    CompactModel::new(
        None,
        vec![ModelHead {
            axis,
            intercept: estimate.to_bits(),
            weights: Vec::new(),
            calibration_error: calibration_error.to_bits(),
            support,
        }],
    )
    .unwrap()
}

/// What one head forecasts, and what the forecast is worth at the least.
fn forecast(model: &CompactModel, head: &ModelHead, features: &[u32]) -> ScoredForecast {
    let intercept = f32::from_bits(head.intercept);
    let estimate = if model.features().is_none() {
        intercept
    } else {
        let score = head
            .weights
            .iter()
            .zip(features)
            .fold(intercept, |score, (weight, feature)| {
                score + f32::from_bits(*weight) * f32::from_bits(*feature)
            });
        1.0 / (1.0 + (-score).exp())
    };
    let calibration_error = f32::from_bits(head.calibration_error);
    let uncertainty = (1.0 / (head.support.saturating_add(1) as f32).sqrt())
        .max(calibration_error)
        .clamp(0.0, 1.0);
    let conservative_value = if head.axis.higher_is_better() {
        estimate - uncertainty - calibration_error * 0.25
    } else {
        -(estimate + uncertainty + calibration_error * 0.25)
    };
    ScoredForecast {
        forecast: Forecast::with_uncertainty(
            head.axis,
            estimate.to_bits(),
            head.calibration_error,
            uncertainty.to_bits(),
            head.support,
        )
        .unwrap(),
        conservative_value: conservative_value.to_bits(),
    }
}

/// The forecasts for every investment, by every specialist that it is routed to.
fn evaluate(ecology: &ModelEcology, market: &MarketArena) -> Vec<Vec<ScoredForecast>> {
    let mut evaluations = Vec::new();
    for index in 0..market.investment_count() {
        let investment = market.investment(InvestmentId(index as u32)).unwrap();
        let opportunity = market.opportunity(investment.opportunity).unwrap();
        let features = market.features(investment.opportunity);
        for place in ecology.routed(opportunity, features.len()) {
            let model = ecology.specialists()[place].model();
            evaluations.push(
                model
                    .heads()
                    .iter()
                    .map(|head| forecast(model, head, features))
                    .collect(),
            );
        }
    }
    evaluations
}

fn allocate(
    core: &IntelligenceCore,
    frame: MarketFrame<'_>,
    limit: usize,
    output: &mut PortfolioBuffer,
) -> Result<(), IntelligenceError> {
    let evaluations = evaluate(core.manifest().ecology, frame.market);
    core.allocate(frame, limit, &evaluations, output)
}

fn spawn(core: &mut IntelligenceCore, specialists: Vec<SpecialistRevision>) {
    let edits: Vec<EcologyEdit> = specialists.into_iter().map(EcologyEdit::Spawn).collect();
    let transition = core.stage::<PinnedPolicy>(SettlementFrame::edits(&edits)).unwrap();
    transition.commit(core).unwrap();
}

fn specialist(role: &str, weight: f32) -> SpecialistRevision {
    SpecialistRevision::new(
        SpecialistMandate::all(
            RoleId::new(role).unwrap(),
            &[ForecastAxis::ImmediateImprovement],
        )
        .unwrap(),
        linear(
            1,
            &[(ForecastAxis::ImmediateImprovement, 0.0, &[weight], 0.05, 32)],
        ),
    )
    .unwrap()
}

#[test]
fn fresh_core_allocates_the_bootstrap_prefix_without_mutating_itself() {
    let limits = IntelligenceLimits::new(8, 32, 32, 128, 8, 64 * 1024).unwrap();
    let core = IntelligenceCore::fresh::<PinnedPolicy>(limits);
    let before = core.checkpoint();
    let mut market = MarketArena::try_with_capacity(limits).unwrap();
    let opportunity = market
        .push_opportunity(OpportunitySpec::candidate([1; 32]), &bits(&[1.0, 0.5]))
        .unwrap();
    for priority in [30, 10, 20] {
        market
            .push_investment(InvestmentSpec::verify(
                opportunity,
                ResourceVector::new(priority, 1, 0, 1, 1),
                u32::try_from(priority).unwrap(),
            ))
            .unwrap();
    }
    let frame = MarketFrame::new(&market, ResourceVector::new(100, 100, 100, 100, 100));
    let mut output = PortfolioBuffer::try_with_capacity(limits).unwrap();

    allocate(&core, frame, 2, &mut output).unwrap();
    let receipt = output.portfolio();

    assert_eq!(receipt.allocations().len(), 2);
    assert!(receipt
        .allocations()
        .iter()
        .all(|allocation| allocation.source() == AllocationSource::Bootstrap));
    assert_eq!(
        receipt
            .allocations()
            .iter()
            .map(|allocation| allocation.bootstrap_priority())
            .collect::<Vec<_>>(),
        vec![10, 20]
    );
    assert_eq!(
        receipt.investment_ids(),
        vec![InvestmentId(1), InvestmentId(2)]
    );
    assert_eq!(
        core.checkpoint().as_bytes(),
        before.as_bytes(),
        "allocation is side-effect-free"
    );
}

#[test]
fn verification_allocation_rejects_heavy_bytes_and_receipts_preserve_declared_demand() {
    let limits = IntelligenceLimits::new(4, 4, 4, 32, 4, 16 * 1024).unwrap();
    let core = IntelligenceCore::fresh::<PinnedPolicy>(limits);
    let mut market = MarketArena::try_with_capacity(limits).unwrap();
    let heavy_opportunity = market
        .push_opportunity(OpportunitySpec::candidate([1; 32]), &bits(&[1.0]))
        .unwrap();
    let small_opportunity = market
        .push_opportunity(OpportunitySpec::candidate([2; 32]), &bits(&[0.5]))
        .unwrap();
    market
        .push_investment(InvestmentSpec::verify_candidate(
            heavy_opportunity,
            4_096,
            2_048,
            0,
        ))
        .unwrap();
    market
        .push_investment(InvestmentSpec::verify_candidate(small_opportunity, 64, 32, 1))
        .unwrap();
    let mut output = PortfolioBuffer::try_with_capacity(limits).unwrap();

    allocate(
        &core,
        MarketFrame::new(&market, ResourceVector::new(11, 64, 32, 13, 1)),
        2,
        &mut output,
    )
    .unwrap();
    let portfolio = output.portfolio();

    assert_eq!(portfolio.investment_ids(), vec![InvestmentId(1)]);
    assert_eq!(portfolio.resources(), ResourceVector::new(0, 64, 32, 0, 1));
    assert_eq!(
        portfolio.receipts()[0].resources(),
        ResourceVector::new(0, 64, 32, 0, 1)
    );
    let forecast = market.investment(InvestmentId(1)).unwrap().resources;
    assert!(forecast.cpu_time_is_unknown());
    assert!(forecast.elapsed_time_is_unknown());
}

#[test]
fn market_and_portfolio_storage_reset_without_losing_allocations() {
    let limits = IntelligenceLimits::new(8, 16, 16, 64, 4, 16 * 1024).unwrap();
    let core = IntelligenceCore::fresh::<PinnedPolicy>(limits);
    let before = core.checkpoint();
    let mut market = MarketArena::try_with_capacity(limits).unwrap();
    let mut output = PortfolioBuffer::try_with_capacity(limits).unwrap();
    let scratch = limits.scratch_layout().unwrap();
    assert_eq!(market.resident_bytes(), scratch.market_bytes());
    assert_eq!(output.resident_bytes(), scratch.portfolio_bytes());
    assert_eq!(
        scratch.total_bytes(),
        market.resident_bytes() + output.resident_bytes()
    );
    let build_market = |market: &mut MarketArena| {
        let opportunity = market
            .push_opportunity(OpportunitySpec::candidate([41; 32]), &bits(&[0.5, 1.0]))
            .unwrap();
        market
            .push_investment(InvestmentSpec::verify(
                opportunity,
                ResourceVector::new(3, 5, 0, 7, 1),
                2,
            ))
            .unwrap();
    };
    build_market(&mut market);
    allocate(
        &core,
        MarketFrame::new(&market, ResourceVector::new(3, 5, 0, 7, 1)).at_epoch(9),
        1,
        &mut output,
    )
    .unwrap();
    let first = output.portfolio();
    let first_allocations = first.allocations().to_vec();
    let first_receipts = first.receipts().to_vec();
    let market_capacities = market.capacities();
    let portfolio_capacities = output.capacities();
    let market_resident: u64 = market.resident_bytes();
    let portfolio_resident: u64 = output.resident_bytes();

    market.clear();
    output.clear();
    assert_eq!(market.capacities(), market_capacities);
    assert_eq!(output.capacities(), portfolio_capacities);
    assert_eq!(market.resident_bytes(), market_resident);
    assert_eq!(output.resident_bytes(), portfolio_resident);
    build_market(&mut market);
    allocate(
        &core,
        MarketFrame::new(&market, ResourceVector::new(3, 5, 0, 7, 1)).at_epoch(9),
        1,
        &mut output,
    )
    .unwrap();
    let second = output.portfolio();

    assert_eq!(second.allocations(), first_allocations);
    assert_eq!(second.receipts(), first_receipts);
    assert_eq!(core.checkpoint().as_bytes(), before.as_bytes());
}

#[test]
fn specialist_wins_an_adaptive_slot_without_erasing_bootstrap_protection() {
    let limits = IntelligenceLimits::new(8, 32, 32, 128, 8, 64 * 1024).unwrap();
    let mut core = IntelligenceCore::fresh::<PinnedPolicy>(limits);
    let edits = [EcologyEdit::Spawn(specialist("candidate-ranker", 4.0))];
    let transition = core.stage::<PinnedPolicy>(SettlementFrame::edits(&edits)).unwrap();
    let incumbent = core.checkpoint();
    assert_ne!(
        transition.checkpoint().unwrap().as_bytes(),
        incumbent.as_bytes()
    );
    assert_eq!(
        core.checkpoint().as_bytes(),
        incumbent.as_bytes(),
        "staging cannot mutate the core"
    );
    transition.commit(&mut core).unwrap();

    let mut market = MarketArena::try_with_capacity(limits).unwrap();
    for (identity, feature, bootstrap_priority) in [(1, 0.0, 1), (2, 0.5, 2), (3, 1.0, 3)] {
        let opportunity = market
            .push_opportunity(OpportunitySpec::candidate([identity; 32]), &bits(&[feature]))
            .unwrap();
        market
            .push_investment(InvestmentSpec::verify(
                opportunity,
                ResourceVector::new(1, 1, 0, 1, 1),
                bootstrap_priority,
            ))
            .unwrap();
    }
    let frame = MarketFrame::new(&market, ResourceVector::new(3, 3, 0, 3, 3));
    let mut output = PortfolioBuffer::try_with_capacity(limits).unwrap();

    allocate(&core, frame, 2, &mut output).unwrap();
    let receipt = output.portfolio();

    assert_eq!(receipt.allocations().len(), 2);
    assert_eq!(receipt.allocations()[0].source(), AllocationSource::Bootstrap);
    assert_eq!(receipt.allocations()[0].bootstrap_priority(), 1);
    assert!(matches!(
        receipt.allocations()[1].source(),
        AllocationSource::Specialist(_)
    ));
    assert_eq!(receipt.allocations()[1].bootstrap_priority(), 3);
    assert_eq!(
        receipt.allocations()[1].forecast().unwrap().axis(),
        ForecastAxis::ImmediateImprovement
    );
}

#[test]
fn caller_preference_precedes_specialist_forecasts_and_survives_recovery() {
    let limits = IntelligenceLimits::new(8, 32, 32, 128, 8, 64 * 1024).unwrap();
    let mut core = IntelligenceCore::fresh::<PinnedPolicy>(limits);
    spawn(&mut core, vec![specialist("preference-authority", 4.0)]);
    let mut market = MarketArena::try_with_capacity(limits).unwrap();
    for (identity, feature, preference, bootstrap) in
        [(1, 0.0, 99, 0), (2, -1.0, 0, 1), (3, 1.0, 1, 2)]
    {
        let opportunity = market
            .push_opportunity(OpportunitySpec::candidate([identity; 32]), &bits(&[feature]))
            .unwrap();
        market
            .push_investment(InvestmentSpec::verify_candidate_with_preference(
                opportunity,
                1,
                0,
                preference,
                bootstrap,
            ))
            .unwrap();
    }
    let mut output = PortfolioBuffer::try_with_capacity(limits).unwrap();
    allocate(
        &core,
        MarketFrame::new(&market, ResourceVector::new(2, 2, 0, 2, 2)),
        2,
        &mut output,
    )
    .unwrap();
    let portfolio = output.portfolio();
    assert_eq!(portfolio.allocations()[0].bootstrap_priority(), 0);
    assert_eq!(portfolio.allocations()[1].bootstrap_priority(), 1);
    assert_eq!(portfolio.receipts()[1].preference_priority(), 0);
    let receipt = portfolio.receipts()[1];
    let settlement = InvestmentSettlement::new(
        receipt.decision(),
        InvestmentOutcome::VerifiedAccepted { verification_record: SubjectId::new([2; 32]) },
        ResourceVector::new(1, 1, 0, 1, 1),
    );
    let transition = core
        .stage::<PinnedPolicy>(SettlementFrame::observations(
            &[receipt],
            &[settlement],
            &[],
            &[],
        ))
        .unwrap();
    transition.commit(&mut core).unwrap();

    let restored =
        IntelligenceCore::restore::<PinnedPolicy>(core.checkpoint().as_bytes()).unwrap();
    assert_eq!(restored.experience().receipts()[0].preference_priority(), 0);
}

#[test]
fn allocator_uses_the_complete_typed_forecast_vector_after_bootstrap() {
    let limits = IntelligenceLimits::new(8, 16, 32, 128, 4, 16 * 1024).unwrap();
    let mut core = IntelligenceCore::fresh::<PinnedPolicy>(limits);
    let revision = SpecialistRevision::new(
        SpecialistMandate::all(
            RoleId::new("multi-head-candidate-ranker").unwrap(),
            &[
                ForecastAxis::ImmediateImprovement,
                ForecastAxis::UsefulDescendants,
            ],
        )
        .unwrap(),
        linear(
            1,
            &[
                (ForecastAxis::ImmediateImprovement, 0.0, &[0.0], 0.01, 100),
                (ForecastAxis::UsefulDescendants, 0.0, &[4.0], 0.01, 100),
            ],
        ),
    )
    .unwrap();
    spawn(&mut core, vec![revision]);

    let mut market = MarketArena::try_with_capacity(limits).unwrap();
    for (identity, feature, priority) in [(1, 0.0, 0), (2, -1.0, 1), (3, 1.0, 2)] {
        let opportunity = market
            .push_opportunity(OpportunitySpec::candidate([identity; 32]), &bits(&[feature]))
            .unwrap();
        market
            .push_investment(InvestmentSpec::verify(
                opportunity,
                ResourceVector::new(1, 1, 0, 1, 1),
                priority,
            ))
            .unwrap();
    }
    let mut output = PortfolioBuffer::try_with_capacity(limits).unwrap();
    allocate(
        &core,
        MarketFrame::new(&market, ResourceVector::new(2, 2, 0, 2, 2)),
        2,
        &mut output,
    )
    .unwrap();
    let portfolio = output.portfolio();

    assert_eq!(portfolio.allocations()[0].source(), AllocationSource::Bootstrap);
    assert_eq!(portfolio.allocations()[0].bootstrap_priority(), 0);
    assert_eq!(portfolio.allocations()[1].bootstrap_priority(), 2);
    assert!(matches!(
        portfolio.allocations()[1].source(),
        AllocationSource::Specialist(_)
    ));

    let specialist_receipt = portfolio.receipts()[1];
    assert_eq!(
        specialist_receipt
            .forecasts()
            .iter()
            .map(|forecast| forecast.axis())
            .collect::<Vec<_>>(),
        [
            ForecastAxis::ImmediateImprovement,
            ForecastAxis::UsefulDescendants,
        ]
    );
    let settlement = InvestmentSettlement::new(
        specialist_receipt.decision(),
        InvestmentOutcome::VerifiedAccepted { verification_record: SubjectId::new([3; 32]) },
        ResourceVector::new(1, 1, 0, 1, 1),
    );
    let transition = core
        .stage::<PinnedPolicy>(SettlementFrame::observations(
            &[specialist_receipt],
            &[settlement],
            &[],
            &[],
        ))
        .unwrap();
    transition.commit(&mut core).unwrap();

    let checkpoint = core.checkpoint();
    assert_eq!(&checkpoint.as_bytes()[..5], b"RFIC\x11");
    let restored = IntelligenceCore::restore::<PinnedPolicy>(checkpoint.as_bytes()).unwrap();
    assert_eq!(restored.checkpoint().as_bytes(), checkpoint.as_bytes());
    assert_eq!(restored.experience().receipts(), &[specialist_receipt]);
    assert_eq!(restored.experience().settlements(), &[settlement]);
}

#[test]
fn specialist_mandates_isolate_opportunity_kind_schema_and_feature_width() {
    let limits = IntelligenceLimits::new(8, 16, 16, 64, 4, 32 * 1024).unwrap();
    let candidate_schema = FeatureSchemaId::new([51; 32]);
    let unrelated_schema = FeatureSchemaId::new([52; 32]);
    let revision = SpecialistRevision::new(
        SpecialistMandate::for_opportunities(
            RoleId::new("candidate-v51-ranker").unwrap(),
            &[ForecastAxis::ImmediateImprovement],
            &[OpportunityKind::Candidate],
            &[candidate_schema],
        )
        .unwrap(),
        linear(
            2,
            &[(ForecastAxis::ImmediateImprovement, 0.0, &[1.0, 2.0], 0.1, 16)],
        ),
    )
    .unwrap();
    let mut core = IntelligenceCore::fresh::<PinnedPolicy>(limits);
    spawn(&mut core, vec![revision]);
    let mut market = MarketArena::try_with_capacity(limits).unwrap();
    for (specification, features, priority) in [
        (
            OpportunitySpec::repair_with_schema([53; 32], candidate_schema),
            &[1.0, 1.0][..],
            1,
        ),
        (
            OpportunitySpec::candidate_with_schema([54; 32], unrelated_schema),
            &[1.0, 1.0][..],
            2,
        ),
        (
            OpportunitySpec::candidate_with_schema([55; 32], candidate_schema),
            &[1.0, 1.0][..],
            3,
        ),
        (
            OpportunitySpec::candidate_with_schema([56; 32], candidate_schema),
            &[1.0][..],
            4,
        ),
    ] {
        let opportunity = market.push_opportunity(specification, &bits(features)).unwrap();
        market
            .push_investment(InvestmentSpec::verify(
                opportunity,
                ResourceVector::new(1, 1, 0, 1, 1),
                priority,
            ))
            .unwrap();
    }
    let mut output = PortfolioBuffer::try_with_capacity(limits).unwrap();
    allocate(
        &core,
        MarketFrame::new(&market, ResourceVector::new(4, 4, 0, 4, 4)),
        4,
        &mut output,
    )
    .unwrap();
    let portfolio = output.portfolio();
    assert_eq!(portfolio.allocations()[0].bootstrap_priority(), 1);
    assert_eq!(portfolio.allocations()[0].source(), AllocationSource::Bootstrap);
    assert_eq!(portfolio.allocations()[1].bootstrap_priority(), 3);
    assert!(matches!(
        portfolio.allocations()[1].source(),
        AllocationSource::Specialist(_)
    ));
    assert!(portfolio.allocations()[2..]
        .iter()
        .all(|allocation| allocation.source() == AllocationSource::Bootstrap));

    let recovered =
        IntelligenceCore::restore::<PinnedPolicy>(core.checkpoint().as_bytes()).unwrap();
    let mut recovered_output = PortfolioBuffer::try_with_capacity(limits).unwrap();
    allocate(
        &recovered,
        MarketFrame::new(&market, ResourceVector::new(4, 4, 0, 4, 4)),
        4,
        &mut recovered_output,
    )
    .unwrap();
    let recovered_portfolio = recovered_output.portfolio();
    assert_eq!(recovered_portfolio.investment_ids(), portfolio.investment_ids());
    assert_eq!(recovered_portfolio.receipts(), portfolio.receipts());
    assert_eq!(
        recovered_portfolio
            .allocations()
            .iter()
            .map(|allocation| (allocation.source(), allocation.forecasts().to_vec()))
            .collect::<Vec<_>>(),
        portfolio
            .allocations()
            .iter()
            .map(|allocation| (allocation.source(), allocation.forecasts().to_vec()))
            .collect::<Vec<_>>()
    );
}

#[test]
fn routing_families_isolate_coexisting_specialists_with_one_feature_schema() {
    let limits = IntelligenceLimits::new(8, 16, 32, 128, 8, 32 * 1024).unwrap();
    let mut core = IntelligenceCore::fresh::<PinnedPolicy>(limits);
    let schema = FeatureSchemaId::new([61; 32]);
    let family_a = RoutingFamilyId::new([62; 32]);
    let family_b = RoutingFamilyId::new([63; 32]);
    let make_specialist = |role: &str, family, estimate| {
        SpecialistRevision::new(
            SpecialistMandate::for_routing_families(
                RoleId::new(role).unwrap(),
                &[ForecastAxis::ImmediateImprovement],
                &[OpportunityKind::Candidate],
                &[schema],
                &[family],
            )
            .unwrap(),
            prior(ForecastAxis::ImmediateImprovement, estimate, 0.01, 100),
        )
        .unwrap()
    };
    let specialist_a = make_specialist("family-a", family_a, 0.9);
    let first_revision = specialist_a.id();
    let specialist_b = make_specialist("family-b", family_b, 0.8);
    let second_revision = specialist_b.id();
    spawn(&mut core, vec![specialist_a, specialist_b]);

    let mut market = MarketArena::try_with_capacity(limits).unwrap();
    for (identity, family, priority) in [
        ([60; 32], RoutingFamilyId::generic(), 0),
        ([62; 32], family_a, 1),
        ([63; 32], family_b, 2),
    ] {
        let opportunity = market
            .push_opportunity(
                OpportunitySpec::candidate_in_family(identity, schema, family),
                &bits(&[1.0]),
            )
            .unwrap();
        market
            .push_investment(InvestmentSpec::verify(
                opportunity,
                ResourceVector::new(1, 1, 0, 1, 1),
                priority,
            ))
            .unwrap();
    }
    let mut output = PortfolioBuffer::try_with_capacity(limits).unwrap();
    allocate(
        &core,
        MarketFrame::new(&market, ResourceVector::new(3, 3, 0, 3, 3)),
        3,
        &mut output,
    )
    .unwrap();
    let portfolio = output.portfolio();
    let source_for_priority = |priority| {
        portfolio
            .allocations()
            .iter()
            .find(|allocation| allocation.bootstrap_priority() == priority)
            .unwrap()
            .source()
    };
    assert_eq!(source_for_priority(0), AllocationSource::Bootstrap);
    assert_eq!(
        source_for_priority(1),
        AllocationSource::Specialist(first_revision)
    );
    assert_eq!(
        source_for_priority(2),
        AllocationSource::Specialist(second_revision)
    );
    assert_eq!(
        IntelligenceCore::restore::<PinnedPolicy>(core.checkpoint().as_bytes())
            .unwrap()
            .checkpoint()
            .as_bytes(),
        core.checkpoint().as_bytes()
    );
}

#[test]
fn market_retains_every_typed_investment_kind_and_its_resource_vector() {
    let limits = IntelligenceLimits::new(4, 16, 16, 64, 4, 16 * 1024).unwrap();
    let core = IntelligenceCore::fresh::<PinnedPolicy>(limits);
    let mut market = MarketArena::try_with_capacity(limits).unwrap();
    let opportunity = market
        .push_opportunity(OpportunitySpec::emergent([9; 32]), &bits(&[0.25]))
        .unwrap();
    let resources = ResourceVector::new(2, 3, 5, 7, 11);
    let specifications = [
        InvestmentSpec::generate(opportunity, SubjectId::new([1; 32]), 3, resources, 0),
        InvestmentSpec::verify(opportunity, resources, 1),
        InvestmentSpec::repair(
            opportunity,
            SubjectId::new([2; 32]),
            SubjectId::new([3; 32]),
            resources,
            2,
        ),
        InvestmentSpec::explore(opportunity, resources, 3),
        InvestmentSpec::train_specialist(opportunity, SubjectId::new([4; 32]), resources, 4),
        InvestmentSpec::compare_revision(opportunity, SubjectId::new([5; 32]), resources, 5),
        InvestmentSpec::consolidate(opportunity, SubjectId::new([6; 32]), resources, 6),
        InvestmentSpec::run_shadow_campaign(opportunity, SubjectId::new([7; 32]), resources, 7),
        InvestmentSpec::propose_runtime_policy(opportunity, SubjectId::new([8; 32]), resources, 8),
    ];
    let expected = [
        InvestmentTag::Generate,
        InvestmentTag::Verify,
        InvestmentTag::Repair,
        InvestmentTag::Explore,
        InvestmentTag::TrainSpecialist,
        InvestmentTag::CompareRevision,
        InvestmentTag::Consolidate,
        InvestmentTag::RunShadowCampaign,
        InvestmentTag::ProposeRuntimePolicy,
    ];
    let ids = specifications
        .into_iter()
        .map(|specification| market.push_investment(specification).unwrap())
        .collect::<Vec<_>>();
    assert_eq!(
        ids.iter()
            .map(|id| market.investment(*id).unwrap().tag())
            .collect::<Vec<_>>(),
        expected
    );

    let allowance = ResourceVector::new(18, 27, 45, 63, 99);
    let frame = MarketFrame::new(&market, allowance);
    let mut output = PortfolioBuffer::try_with_capacity(limits).unwrap();
    allocate(&core, frame, 9, &mut output).unwrap();
    let receipt = output.portfolio();

    assert_eq!(receipt.allocations().len(), 9);
    assert_eq!(receipt.resources(), allowance);
}
