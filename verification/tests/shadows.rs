//! Campaigns and settlements: what the ledger takes and what it refuses.
use reflex_intelligence::allocation::{PortfolioBuffer, PortfolioReceipt};
use reflex_intelligence::arena::{OpportunityKind, OpportunitySpec};
use reflex_intelligence::causal::{
    CausalSubject, ConsequenceEdge, ConsequenceKind, InvestmentOutcome, InvestmentSettlement,
};
use reflex_intelligence::ecology::ModelEcology;
use reflex_intelligence::forecast::{Forecast, ForecastAxis, ScoredForecast};
use reflex_intelligence::intelligence::IntelligenceCore;
use reflex_intelligence::investment::InvestmentSpec;
use reflex_intelligence::market::{MarketArena, MarketFrame};
use reflex_intelligence::model::{CompactModel, ModelHead};
use reflex_intelligence::policy::PinnedPolicy;
use reflex_intelligence::shadow::{
    ShadowArm, ShadowArmOutcome, ShadowCampaignLifecycle, ShadowCampaignSpec,
    ShadowInvalidationReason, ShadowUpdate, TypedOutcome,
};
use reflex_intelligence::transition::SettlementFrame;
use reflex_intelligence::types::{
    IntelligenceError, IntelligenceLimits, InvestmentId, ResourceVector, SubjectId,
};

fn bits(values: &[f32]) -> Vec<u32> {
    values.iter().map(|value| value.to_bits()).collect()
}

fn number(value: f32) -> u32 {
    value.to_bits()
}

fn market_for(limits: IntelligenceLimits) -> MarketArena {
    MarketArena::try_with_capacity(limits).unwrap()
}

fn buffer_for(limits: IntelligenceLimits) -> PortfolioBuffer {
    PortfolioBuffer::try_with_capacity(limits).unwrap()
}

fn fresh(limits: IntelligenceLimits) -> IntelligenceCore {
    IntelligenceCore::fresh::<PinnedPolicy>(limits)
}

fn restore(bytes: &[u8]) -> Result<IntelligenceCore, IntelligenceError> {
    IntelligenceCore::restore::<PinnedPolicy>(bytes)
}

/// What one head forecasts, and what the forecast is worth at the least.
fn forecast(model: &CompactModel, head: &ModelHead, features: &[u32]) -> ScoredForecast {
    let intercept = f32::from_bits(head.intercept);
    let estimate = if model.features().is_none() {
        intercept
    } else {
        let score = head
            .weights
            .iter()
            .zip(features)
            .fold(intercept, |score, (weight, feature)| {
                score + f32::from_bits(*weight) * f32::from_bits(*feature)
            });
        1.0 / (1.0 + (-score).exp())
    };
    let calibration_error = f32::from_bits(head.calibration_error);
    let uncertainty = (1.0 / (head.support.saturating_add(1) as f32).sqrt())
        .max(calibration_error)
        .clamp(0.0, 1.0);
    let conservative_value = if head.axis.higher_is_better() {
        estimate - uncertainty - calibration_error * 0.25
    } else {
        -(estimate + uncertainty + calibration_error * 0.25)
    };
    ScoredForecast {
        forecast: Forecast::with_uncertainty(
            head.axis,
            estimate.to_bits(),
            head.calibration_error,
            uncertainty.to_bits(),
            head.support,
        )
        .unwrap(),
        conservative_value: conservative_value.to_bits(),
    }
}

/// The forecasts for every investment, by every specialist that it is routed to.
fn evaluate(ecology: &ModelEcology, market: &MarketArena) -> Vec<Vec<ScoredForecast>> {
    let mut evaluations = Vec::new();
    for index in 0..market.investment_count() {
        let investment = market.investment(InvestmentId(index as u32)).unwrap();
        let opportunity = market.opportunity(investment.opportunity).unwrap();
        let features = market.features(investment.opportunity);
        for place in ecology.routed(opportunity, features.len()) {
            let model = ecology.specialists()[place].model();
            evaluations.push(
                model
                    .heads()
                    .iter()
                    .map(|head| forecast(model, head, features))
                    .collect(),
            );
        }
    }
    evaluations
}

fn allocate<'a>(
    core: &IntelligenceCore,
    frame: MarketFrame<'_>,
    limit: usize,
    output: &'a mut PortfolioBuffer,
) -> Result<PortfolioReceipt<'a>, IntelligenceError> {
    let evaluations = evaluate(core.manifest().ecology, frame.market);
    core.allocate(frame, limit, &evaluations, output)?;
    Ok(output.portfolio())
}

#[test]
fn causal_experience_requires_a_complete_symmetric_shadow_pair() {
    let limits = IntelligenceLimits::new(4, 8, 8, 64, 4, 32 * 1024).unwrap();
    let mut core = fresh(limits);
    let mut market = market_for(limits);
    let opportunity = market
        .push_opportunity(OpportunitySpec::candidate([17; 32]), &bits(&[0.5]))
        .unwrap();
    market
        .push_investment(InvestmentSpec::verify(
            opportunity,
            ResourceVector::new(10, 20, 30, 40, 1),
            0,
        ))
        .unwrap();
    let mut output = buffer_for(limits);
    let portfolio = allocate(
        &core,
        MarketFrame::new(&market, ResourceVector::new(10, 20, 30, 40, 1)),
        1,
        &mut output,
    )
    .unwrap();
    let receipts = portfolio.receipts().to_vec();
    assert_eq!(receipts[0].opportunity_kind(), OpportunityKind::Candidate);
    assert_eq!(
        receipts[0].feature_schema(),
        OpportunitySpec::candidate_schema()
    );
    assert_eq!(receipts[0].features(), bits(&[0.5]));
    let settlement = InvestmentSettlement::new(
        receipts[0].decision(),
        InvestmentOutcome::VerifiedAccepted {
            verification_record: SubjectId::new([18; 32]),
        },
        ResourceVector::new(9, 20, 30, 39, 1),
    );
    let consequence = ConsequenceEdge::observed(
        CausalSubject::Decision(receipts[0].decision()),
        ConsequenceKind::ParetoImprovement,
    );
    let checkpoint = core.checkpoint().digest();
    let paired_resources = ResourceVector::new(100, 200, 300, 400, 8);
    let stream = SubjectId::new([19; 32]);
    let campaign = ShadowCampaignSpec::new(
        checkpoint,
        SubjectId::new([20; 32]),
        paired_resources,
        stream,
        &[
            ForecastAxis::UsefulDescendants,
            ForecastAxis::CompressionValue,
        ],
    )
    .unwrap();
    let treatment = ShadowArmOutcome::new(
        campaign.id(),
        ShadowArm::Treatment,
        checkpoint,
        paired_resources,
        stream,
        &[
            TypedOutcome::new(ForecastAxis::UsefulDescendants, number(0.75)).unwrap(),
            TypedOutcome::new(ForecastAxis::CompressionValue, number(0.5)).unwrap(),
        ],
    )
    .unwrap();
    let first_updates = [
        ShadowUpdate::Open(campaign.clone()),
        ShadowUpdate::Outcome(treatment),
    ];
    core.stage::<PinnedPolicy>(SettlementFrame::observations(
        &receipts,
        &[settlement],
        &[consequence],
        &first_updates,
    ))
    .unwrap()
    .commit(&mut core)
    .unwrap();
    assert_eq!(core.experience().receipts().len(), 1);
    assert_eq!(core.experience().settlements().len(), 1);
    assert_eq!(core.experience().consequences().len(), 1);
    assert!(core.experience().contrasts().is_empty());
    let open = core
        .experience()
        .shadow_campaign(campaign.id())
        .expect("the opened campaign is queryable for recovery");
    assert_eq!(open.lifecycle(), ShadowCampaignLifecycle::Open);
    assert!(open.has_outcome(ShadowArm::Treatment));
    assert!(!open.has_outcome(ShadowArm::Control));

    let asymmetric_control = ShadowArmOutcome::new(
        campaign.id(),
        ShadowArm::Control,
        checkpoint,
        ResourceVector::new(101, 200, 300, 400, 8),
        stream,
        &[
            TypedOutcome::new(ForecastAxis::UsefulDescendants, number(0.25)).unwrap(),
            TypedOutcome::new(ForecastAxis::CompressionValue, number(0.25)).unwrap(),
        ],
    )
    .unwrap();
    core.stage::<PinnedPolicy>(SettlementFrame::observations(
        &[],
        &[],
        &[],
        &[ShadowUpdate::Outcome(asymmetric_control)],
    ))
    .unwrap()
    .commit(&mut core)
    .unwrap();
    assert!(core.experience().contrasts().is_empty());
    assert_eq!(
        core.experience()
            .shadow_campaign(campaign.id())
            .unwrap()
            .lifecycle(),
        ShadowCampaignLifecycle::Invalidated(ShadowInvalidationReason::ResourceMismatch)
    );

    let control = ShadowArmOutcome::new(
        campaign.id(),
        ShadowArm::Control,
        checkpoint,
        paired_resources,
        stream,
        &[
            TypedOutcome::new(ForecastAxis::UsefulDescendants, number(0.25)).unwrap(),
            TypedOutcome::new(ForecastAxis::CompressionValue, number(0.25)).unwrap(),
        ],
    )
    .unwrap();
    core.stage::<PinnedPolicy>(SettlementFrame::observations(
        &[],
        &[],
        &[],
        &[ShadowUpdate::Outcome(control)],
    ))
    .unwrap()
    .commit(&mut core)
    .unwrap();
    assert!(core.experience().contrasts().is_empty());
    assert_eq!(core.experience().shadow_campaigns().len(), 1);
    assert_eq!(
        core.experience()
            .shadow_campaign(campaign.id())
            .unwrap()
            .lifecycle(),
        ShadowCampaignLifecycle::Invalidated(ShadowInvalidationReason::ResourceMismatch)
    );
    let recovered = restore(core.checkpoint().as_bytes()).unwrap();
    assert_eq!(recovered.checkpoint(), core.checkpoint());
    assert_eq!(
        recovered
            .experience()
            .shadow_campaign(campaign.id())
            .unwrap()
            .lifecycle(),
        ShadowCampaignLifecycle::Invalidated(ShadowInvalidationReason::ResourceMismatch)
    );
}

#[test]
fn shadow_terminal_updates_preserve_only_exact_completed_contrasts() {
    let limits = IntelligenceLimits::new(8, 8, 8, 32, 4, 16 * 1024).unwrap();
    let mut core = fresh(limits);
    let resources = ResourceVector::new(10, 20, 0, 30, 2);
    let stream = SubjectId::new([91; 32]);
    let campaign = ShadowCampaignSpec::new(
        core.checkpoint().digest(),
        SubjectId::new([92; 32]),
        resources,
        stream,
        &[ForecastAxis::UsefulDescendants],
    )
    .unwrap();
    let treatment = ShadowArmOutcome::new(
        campaign.id(),
        ShadowArm::Treatment,
        campaign.checkpoint(),
        resources,
        stream,
        &[TypedOutcome::new(ForecastAxis::UsefulDescendants, number(0.75)).unwrap()],
    )
    .unwrap();
    let control = ShadowArmOutcome::new(
        campaign.id(),
        ShadowArm::Control,
        campaign.checkpoint(),
        resources,
        stream,
        &[TypedOutcome::new(ForecastAxis::UsefulDescendants, number(0.25)).unwrap()],
    )
    .unwrap();
    core.stage::<PinnedPolicy>(SettlementFrame::observations(
        &[],
        &[],
        &[],
        &[
            ShadowUpdate::Open(campaign.clone()),
            ShadowUpdate::Outcome(treatment.clone()),
            ShadowUpdate::Outcome(control),
        ],
    ))
    .unwrap()
    .commit(&mut core)
    .unwrap();
    assert_eq!(
        core.experience()
            .shadow_campaign(campaign.id())
            .unwrap()
            .lifecycle(),
        ShadowCampaignLifecycle::Completed
    );
    assert_eq!(core.experience().contrasts().len(), 1);

    core.stage::<PinnedPolicy>(SettlementFrame::observations(
        &[],
        &[],
        &[],
        &[ShadowUpdate::Outcome(treatment)],
    ))
    .unwrap()
    .commit(&mut core)
    .unwrap();
    assert_eq!(
        core.experience()
            .shadow_campaign(campaign.id())
            .unwrap()
            .lifecycle(),
        ShadowCampaignLifecycle::Invalidated(ShadowInvalidationReason::DuplicateArm(
            ShadowArm::Treatment
        ))
    );
    assert!(core.experience().contrasts().is_empty());

    let asymmetric = ShadowCampaignSpec::new(
        core.checkpoint().digest(),
        SubjectId::new([93; 32]),
        resources,
        stream,
        &[ForecastAxis::CompressionValue],
    )
    .unwrap();
    let asymmetric_treatment = ShadowArmOutcome::new(
        asymmetric.id(),
        ShadowArm::Treatment,
        asymmetric.checkpoint(),
        resources,
        stream,
        &[TypedOutcome::new(ForecastAxis::CompressionValue, number(0.5)).unwrap()],
    )
    .unwrap();
    core.stage::<PinnedPolicy>(SettlementFrame::observations(
        &[],
        &[],
        &[],
        &[
            ShadowUpdate::Open(asymmetric.clone()),
            ShadowUpdate::Outcome(asymmetric_treatment),
            ShadowUpdate::close(asymmetric.id()),
        ],
    ))
    .unwrap()
    .commit(&mut core)
    .unwrap();
    assert_eq!(
        core.experience()
            .shadow_campaign(asymmetric.id())
            .unwrap()
            .lifecycle(),
        ShadowCampaignLifecycle::Invalidated(ShadowInvalidationReason::AsymmetricArms)
    );

    let interrupted = ShadowCampaignSpec::new(
        core.checkpoint().digest(),
        SubjectId::new([94; 32]),
        resources,
        stream,
        &[ForecastAxis::DeadEndRisk],
    )
    .unwrap();
    core.stage::<PinnedPolicy>(SettlementFrame::observations(
        &[],
        &[],
        &[],
        &[
            ShadowUpdate::Open(interrupted.clone()),
            ShadowUpdate::interrupted(interrupted.id()),
        ],
    ))
    .unwrap()
    .commit(&mut core)
    .unwrap();
    assert_eq!(
        core.experience()
            .shadow_campaign(interrupted.id())
            .unwrap()
            .lifecycle(),
        ShadowCampaignLifecycle::Invalidated(ShadowInvalidationReason::Interrupted)
    );

    let invalidated = ShadowCampaignSpec::new(
        core.checkpoint().digest(),
        SubjectId::new([95; 32]),
        resources,
        stream,
        &[ForecastAxis::VerificationCost],
    )
    .unwrap();
    core.stage::<PinnedPolicy>(SettlementFrame::observations(
        &[],
        &[],
        &[],
        &[
            ShadowUpdate::Open(invalidated.clone()),
            ShadowUpdate::invalidate(
                invalidated.id(),
                ShadowInvalidationReason::CheckpointMismatch,
            ),
        ],
    ))
    .unwrap()
    .commit(&mut core)
    .unwrap();
    assert_eq!(
        core.experience()
            .shadow_campaign(invalidated.id())
            .unwrap()
            .lifecycle(),
        ShadowCampaignLifecycle::Invalidated(ShadowInvalidationReason::CheckpointMismatch)
    );

    let recovered = restore(core.checkpoint().as_bytes()).unwrap();
    assert_eq!(recovered.checkpoint(), core.checkpoint());
    assert_eq!(recovered.experience().shadow_campaigns().len(), 4);
}

#[test]
fn causal_experience_requires_complete_kind_compatible_settlements() {
    let limits = IntelligenceLimits::new(8, 8, 8, 32, 4, 16 * 1024).unwrap();
    let mut core = fresh(limits);
    let before = core.checkpoint();
    let mut market = market_for(limits);
    let verify_opportunity = market
        .push_opportunity(OpportunitySpec::candidate([81; 32]), &bits(&[1.0]))
        .unwrap();
    let explore_opportunity = market
        .push_opportunity(OpportunitySpec::emergent([82; 32]), &bits(&[0.5]))
        .unwrap();
    let resources = ResourceVector::new(1, 1, 0, 1, 1);
    market
        .push_investment(InvestmentSpec::verify(verify_opportunity, resources, 0))
        .unwrap();
    market
        .push_investment(InvestmentSpec::explore(explore_opportunity, resources, 1))
        .unwrap();
    let mut output = buffer_for(limits);
    let receipts = allocate(
        &core,
        MarketFrame::new(&market, ResourceVector::new(2, 2, 0, 2, 2)),
        2,
        &mut output,
    )
    .unwrap()
    .receipts()
    .to_vec();
    let verified = InvestmentSettlement::new(
        receipts[0].decision(),
        InvestmentOutcome::VerifiedRefuted,
        resources,
    );
    let completed = InvestmentSettlement::new(
        receipts[1].decision(),
        InvestmentOutcome::Completed,
        resources,
    );

    for invalid in [
        SettlementFrame::observations(&receipts[..1], &[], &[], &[]),
        SettlementFrame::observations(&[], &[verified], &[], &[]),
        SettlementFrame::observations(&receipts[..1], &[completed], &[], &[]),
        SettlementFrame::observations(&receipts[1..], &[verified], &[], &[]),
    ] {
        assert_eq!(
            core.stage::<PinnedPolicy>(invalid).unwrap_err(),
            IntelligenceError::InvalidSettlement
        );
        assert_eq!(core.checkpoint(), before);
    }

    core.stage::<PinnedPolicy>(SettlementFrame::observations(
        &receipts,
        &[verified, completed],
        &[],
        &[],
    ))
    .unwrap()
    .commit(&mut core)
    .unwrap();
    assert_eq!(core.experience().receipts(), &receipts);
    assert_eq!(core.experience().settlements(), &[verified, completed]);
}
