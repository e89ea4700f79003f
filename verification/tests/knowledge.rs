//! Knowledge: proposals, reviews, promotion and withdrawal.
use reflex_intelligence::allocation::{PortfolioBuffer, PortfolioReceipt};
use reflex_intelligence::arena::OpportunitySpec;
use reflex_intelligence::causal::{InvestmentOutcome, InvestmentSettlement};
use reflex_intelligence::challenger::{
    CompilerRecipe, ContextualRequirement, KnowledgeChallenger, KnowledgeChallengerId,
    KnowledgeProduct, KnowledgeProductKind, KnowledgeProductMeaning, PromotionGate,
};
use reflex_intelligence::checkpoint::CheckpointWire;
use reflex_intelligence::compiler::KnowledgeUpdate;
use reflex_intelligence::consolidation::{
    ConsolidationChallenger, DerivedOperator, KnowledgeState, OperatorStep, obligation_of,
};
use reflex_intelligence::digest::{Digest, hash_bytes};
use reflex_intelligence::ecology::ModelEcology;
use reflex_intelligence::forecast::{Forecast, ForecastAxis, ScoredForecast};
use reflex_intelligence::intelligence::IntelligenceCore;
use reflex_intelligence::investment::InvestmentSpec;
use reflex_intelligence::knowledge::{KnowledgeInvalidationReason, KnowledgeReview, KnowledgeStatus};
use reflex_intelligence::market::{MarketArena, MarketFrame};
use reflex_intelligence::model::{CompactModel, ModelHead};
use reflex_intelligence::policy::PinnedPolicy;
use reflex_intelligence::receipt::DecisionId;
use reflex_intelligence::shadow::{
    ShadowArm, ShadowArmOutcome, ShadowCampaignSpec, ShadowInvalidationReason, ShadowUpdate,
    TypedOutcome,
};
use reflex_intelligence::transition::SettlementFrame;
use reflex_intelligence::types::{
    IntelligenceError, IntelligenceLimits, InvestmentId, ResourceVector, SubjectId,
};

fn bits(values: &[f32]) -> Vec<u32> {
    values.iter().map(|value| value.to_bits()).collect()
}

fn number(value: f32) -> u32 {
    value.to_bits()
}

fn market_for(limits: IntelligenceLimits) -> MarketArena {
    MarketArena::try_with_capacity(limits).unwrap()
}

fn buffer_for(limits: IntelligenceLimits) -> PortfolioBuffer {
    PortfolioBuffer::try_with_capacity(limits).unwrap()
}

fn fresh(limits: IntelligenceLimits) -> IntelligenceCore {
    IntelligenceCore::fresh::<PinnedPolicy>(limits)
}

fn restore(bytes: &[u8]) -> Result<IntelligenceCore, IntelligenceError> {
    IntelligenceCore::restore::<PinnedPolicy>(bytes)
}

/// What one head forecasts, and what the forecast is worth at the least.
fn forecast(model: &CompactModel, head: &ModelHead, features: &[u32]) -> ScoredForecast {
    let intercept = f32::from_bits(head.intercept);
    let estimate = if model.features().is_none() {
        intercept
    } else {
        let score = head
            .weights
            .iter()
            .zip(features)
            .fold(intercept, |score, (weight, feature)| {
                score + f32::from_bits(*weight) * f32::from_bits(*feature)
            });
        1.0 / (1.0 + (-score).exp())
    };
    let calibration_error = f32::from_bits(head.calibration_error);
    let uncertainty = (1.0 / (head.support.saturating_add(1) as f32).sqrt())
        .max(calibration_error)
        .clamp(0.0, 1.0);
    let conservative_value = if head.axis.higher_is_better() {
        estimate - uncertainty - calibration_error * 0.25
    } else {
        -(estimate + uncertainty + calibration_error * 0.25)
    };
    ScoredForecast {
        forecast: Forecast::with_uncertainty(
            head.axis,
            estimate.to_bits(),
            head.calibration_error,
            uncertainty.to_bits(),
            head.support,
        )
        .unwrap(),
        conservative_value: conservative_value.to_bits(),
    }
}

/// The forecasts for every investment, by every specialist that it is routed to.
fn evaluate(ecology: &ModelEcology, market: &MarketArena) -> Vec<Vec<ScoredForecast>> {
    let mut evaluations = Vec::new();
    for index in 0..market.investment_count() {
        let investment = market.investment(InvestmentId(index as u32)).unwrap();
        let opportunity = market.opportunity(investment.opportunity).unwrap();
        let features = market.features(investment.opportunity);
        for place in ecology.routed(opportunity, features.len()) {
            let model = ecology.specialists()[place].model();
            evaluations.push(
                model
                    .heads()
                    .iter()
                    .map(|head| forecast(model, head, features))
                    .collect(),
            );
        }
    }
    evaluations
}

fn allocate<'a>(
    core: &IntelligenceCore,
    frame: MarketFrame<'_>,
    limit: usize,
    output: &'a mut PortfolioBuffer,
) -> Result<PortfolioReceipt<'a>, IntelligenceError> {
    let evaluations = evaluate(core.manifest().ecology, frame.market);
    core.allocate(frame, limit, &evaluations, output)?;
    Ok(output.portfolio())
}

fn record_accepted_obligation(
    core: &mut IntelligenceCore,
    limits: IntelligenceLimits,
    challenger: KnowledgeChallengerId,
    obligation: SubjectId,
    epoch: u64,
) {
    let mut market = market_for(limits);
    let opportunity = market
        .push_opportunity(OpportunitySpec::candidate(obligation.identity()), &bits(&[1.0]))
        .unwrap();
    market
        .push_investment(InvestmentSpec::verify(
            opportunity,
            ResourceVector::new(10, 20, 0, 30, 1),
            0,
        ))
        .unwrap();
    let mut output = buffer_for(limits);
    let portfolio = allocate(core, MarketFrame::new(&market, ResourceVector::new(10, 20, 0, 30, 1)).at_epoch(epoch),
            1,
            &mut output,
        )
        .unwrap();
    let receipt = portfolio.receipts()[0];
    let settlement = InvestmentSettlement::new(
        receipt.decision(),
        InvestmentOutcome::VerifiedAccepted {
            verification_record: obligation,
        },
        ResourceVector::new(9, 20, 0, 29, 1),
    );
    core.stage::<PinnedPolicy>(SettlementFrame::observations(
        &[receipt],
        &[settlement],
        &[],
        &[],
    ))
    .unwrap()
    .commit(core)
    .unwrap();
    core.stage::<PinnedPolicy>(SettlementFrame::knowledge(&[KnowledgeUpdate::Review(
        KnowledgeReview::new(challenger, obligation, receipt.decision()),
    )]))
    .unwrap()
    .commit(core)
    .unwrap();
}

/// A product that is derived from some operators and takes the place of the active one.
fn consolidation(core: &IntelligenceCore, product: u8, names: &[&str]) -> ConsolidationChallenger {
    let product = Digest::new([product; 32]);
    let mut operators: Vec<DerivedOperator> = names
        .iter()
        .map(|name| DerivedOperator {
            id: hash_bytes(name.as_bytes()),
            steps: vec![
                OperatorStep { bytes: name.as_bytes().to_vec() },
                OperatorStep { bytes: name.as_bytes().to_vec() },
            ],
            support: (1_u8..=8).map(|case| Digest::new([case; 32])).collect(),
        })
        .collect();
    operators.sort_by_key(|operator| obligation_of(product, operator.id).identity());
    ConsolidationChallenger {
        product,
        base_product: core.knowledge_product(),
        source: Digest::new([20; 32]),
        support: Digest::new([21; 32]),
        operators,
    }
}

#[test]
fn knowledge_compiler_requires_verified_obligations_and_vector_causal_promotion() {
    let limits = IntelligenceLimits::new(8, 16, 16, 128, 4, 32 * 1024).unwrap();
    let mut core = fresh(limits);
    let exact = consolidation(&core, 70, &["simplify"]);
    let original_product = core.knowledge_product();
    let product = SubjectId(exact.product);
    let obligations = exact
        .operators
        .iter()
        .map(|operator| obligation_of(exact.product, operator.id))
        .collect::<Vec<_>>();
    let mut sources = vec![
        SubjectId(exact.source),
        SubjectId(exact.support),
    ];
    sources.sort_by_key(|source| source.identity());
    sources.dedup();
    let gate = PromotionGate::all(&[
        ContextualRequirement::new(ForecastAxis::UsefulDescendants, number(0.25)).unwrap(),
        ContextualRequirement::new(ForecastAxis::CompressionValue, number(0.25)).unwrap(),
    ])
    .unwrap();
    let challenger = KnowledgeChallenger::new(
        CompilerRecipe::DeriveOperator,
        &sources,
        KnowledgeProduct::derived_operator(product)
            .with_bytes(exact.encode())
            .unwrap(),
        &obligations,
        gate,
    )
    .unwrap();
    let challenger_id = challenger.id();

    core.stage::<PinnedPolicy>(SettlementFrame::knowledge(&[KnowledgeUpdate::Propose(
        challenger,
    )]))
    .unwrap()
    .commit(&mut core)
    .unwrap();
    assert_eq!(
        core.knowledge().status(challenger_id),
        Some(KnowledgeStatus::Provisional)
    );

    for (index, obligation) in obligations.iter().copied().enumerate() {
        record_accepted_obligation(
            &mut core,
            limits,
            challenger_id,
            obligation,
            u64::try_from(index).unwrap().saturating_add(1),
        );
    }
    assert_eq!(
        core.knowledge().status(challenger_id),
        Some(KnowledgeStatus::Verified)
    );

    let paired_resources = ResourceVector::new(100, 200, 300, 400, 8);
    let insufficient_checkpoint = core.checkpoint().digest();
    let insufficient_stream = SubjectId::new([36; 32]);
    let insufficient = ShadowCampaignSpec::new(
        insufficient_checkpoint,
        product,
        paired_resources,
        insufficient_stream,
        &[
            ForecastAxis::UsefulDescendants,
            ForecastAxis::CompressionValue,
        ],
    )
    .unwrap();
    let insufficient_updates = [
        ShadowUpdate::Open(insufficient.clone()),
        ShadowUpdate::Outcome(
            ShadowArmOutcome::new(
                insufficient.id(),
                ShadowArm::Treatment,
                insufficient_checkpoint,
                paired_resources,
                insufficient_stream,
                &[
                    TypedOutcome::new(ForecastAxis::UsefulDescendants, number(0.3)).unwrap(),
                    TypedOutcome::new(ForecastAxis::CompressionValue, number(0.8)).unwrap(),
                ],
            )
            .unwrap(),
        ),
        ShadowUpdate::Outcome(
            ShadowArmOutcome::new(
                insufficient.id(),
                ShadowArm::Control,
                insufficient_checkpoint,
                paired_resources,
                insufficient_stream,
                &[
                    TypedOutcome::new(ForecastAxis::UsefulDescendants, number(0.2)).unwrap(),
                    TypedOutcome::new(ForecastAxis::CompressionValue, number(0.2)).unwrap(),
                ],
            )
            .unwrap(),
        ),
    ];
    core.stage::<PinnedPolicy>(SettlementFrame::observations(
        &[],
        &[],
        &[],
        &insufficient_updates,
    ))
    .unwrap()
    .commit(&mut core)
    .unwrap();
    core.stage::<PinnedPolicy>(SettlementFrame::knowledge(&[
        KnowledgeUpdate::EvaluatePromotion(challenger_id),
    ]))
    .unwrap()
    .commit(&mut core)
    .unwrap();
    assert_eq!(
        core.knowledge().status(challenger_id),
        Some(KnowledgeStatus::Verified),
        "compression alone cannot promote a Knowledge Challenger"
    );

    let sufficient_checkpoint = core.checkpoint().digest();
    let sufficient_stream = SubjectId::new([37; 32]);
    let sufficient = ShadowCampaignSpec::new(
        sufficient_checkpoint,
        product,
        paired_resources,
        sufficient_stream,
        &[
            ForecastAxis::UsefulDescendants,
            ForecastAxis::CompressionValue,
        ],
    )
    .unwrap();
    let sufficient_updates = [
        ShadowUpdate::Open(sufficient.clone()),
        ShadowUpdate::Outcome(
            ShadowArmOutcome::new(
                sufficient.id(),
                ShadowArm::Treatment,
                sufficient_checkpoint,
                paired_resources,
                sufficient_stream,
                &[
                    TypedOutcome::new(ForecastAxis::UsefulDescendants, number(0.75)).unwrap(),
                    TypedOutcome::new(ForecastAxis::CompressionValue, number(0.5)).unwrap(),
                ],
            )
            .unwrap(),
        ),
        ShadowUpdate::Outcome(
            ShadowArmOutcome::new(
                sufficient.id(),
                ShadowArm::Control,
                sufficient_checkpoint,
                paired_resources,
                sufficient_stream,
                &[
                    TypedOutcome::new(ForecastAxis::UsefulDescendants, number(0.25)).unwrap(),
                    TypedOutcome::new(ForecastAxis::CompressionValue, number(0.25)).unwrap(),
                ],
            )
            .unwrap(),
        ),
    ];
    core.stage::<PinnedPolicy>(SettlementFrame::observations(
        &[],
        &[],
        &[],
        &sufficient_updates,
    ))
    .unwrap()
    .commit(&mut core)
    .unwrap();
    core.stage::<PinnedPolicy>(SettlementFrame::knowledge(&[
        KnowledgeUpdate::EvaluatePromotion(challenger_id),
    ]))
    .unwrap()
    .commit(&mut core)
    .unwrap();
    assert_eq!(
        core.knowledge().status(challenger_id),
        Some(KnowledgeStatus::Promoted)
    );
    assert_eq!(core.knowledge_product(), exact.product);
    let legacy_compiler =
        restore(core.checkpoint_in::<PinnedPolicy>(CheckpointWire::for_version(13).unwrap()).as_bytes()).unwrap();
    assert_eq!(
        legacy_compiler
            .into_legacy_knowledge(&KnowledgeState::default())
            .unwrap_err(),
        IntelligenceError::InvalidKnowledge,
        "legacy active Knowledge must agree with the latest compiler promotion"
    );

    let restored = restore(core.checkpoint().as_bytes()).unwrap();
    assert_eq!(restored.checkpoint(), core.checkpoint());
    assert_eq!(
        restored.knowledge().status(challenger_id),
        Some(KnowledgeStatus::Promoted)
    );

    core.stage::<PinnedPolicy>(SettlementFrame::observations(
        &[],
        &[],
        &[],
        &[ShadowUpdate::invalidate(
            sufficient.id(),
            ShadowInvalidationReason::Interrupted,
        )],
    ))
    .unwrap()
    .commit(&mut core)
    .unwrap();
    assert_eq!(
        core.knowledge().status(challenger_id),
        Some(KnowledgeStatus::Verified),
        "an invalidated causal label cannot leave its Knowledge Challenger promoted"
    );
    assert_eq!(
        core.knowledge_product(),
        original_product,
        "retracting the exact causal campaign rolls back its active Knowledge Revision"
    );
    assert_eq!(
        restore(core.checkpoint().as_bytes())
            .unwrap()
            .checkpoint(),
        core.checkpoint()
    );
}

#[test]
fn knowledge_records_persist_concrete_products_and_resolve_verified_support() {
    let limits = IntelligenceLimits::new(16, 32, 64, 128, 8, 64 * 1024).unwrap();
    let mut core = fresh(limits);
    let source = SubjectId::new([111; 32]);
    let product_subject = SubjectId::new([112; 32]);
    let obligation = SubjectId::new([113; 32]);
    let product = KnowledgeProduct::derived_operator(product_subject)
        .with_bytes(vec![0x52, 0x46, 0x58, 0x01])
        .unwrap();
    let challenger = KnowledgeChallenger::new(
        CompilerRecipe::DeriveOperator,
        &[source],
        product,
        &[obligation],
        PromotionGate::all(&[
            ContextualRequirement::new(ForecastAxis::UsefulDescendants, number(0.1)).unwrap(),
        ])
        .unwrap(),
    )
    .unwrap();
    let challenger_id = challenger.id();
    core.stage::<PinnedPolicy>(SettlementFrame::knowledge(&[KnowledgeUpdate::Propose(
        challenger,
    )]))
    .unwrap()
    .commit(&mut core)
    .unwrap();
    record_accepted_obligation(&mut core, limits, challenger_id, obligation, 1);

    let record = core.knowledge().record(challenger_id).unwrap();
    assert_eq!(record.status(), KnowledgeStatus::Verified);
    assert_eq!(record.challenger().recipe(), CompilerRecipe::DeriveOperator);
    assert_eq!(record.challenger().sources(), &[source]);
    assert_eq!(record.challenger().obligations(), &[obligation]);
    assert_eq!(
        record.challenger().product().kind(),
        KnowledgeProductKind::DerivedOperator
    );
    assert_eq!(record.challenger().product().subject(), product_subject);
    assert_eq!(
        record.challenger().product().bytes(),
        Some(&[0x52, 0x46, 0x58, 0x01][..])
    );
    assert_eq!(core.knowledge().records().len(), 1);
    assert_eq!(
        core.experience().authoritative_verification_decision(obligation),
        record.reviews().first().map(|review| review.decision())
    );

    let restored = restore(core.checkpoint().as_bytes()).unwrap();
    let restored_record = restored.knowledge().record(challenger_id).unwrap();
    assert_eq!(restored_record.challenger().product().bytes(), record.challenger().product().bytes());
    assert_eq!(restored.checkpoint(), core.checkpoint());
}

#[test]
fn knowledge_product_bytes_obey_the_configured_retained_capacity() {
    let limits = IntelligenceLimits::new(8, 8, 8, 32, 4, 64).unwrap();
    let core = fresh(limits);
    let before = core.checkpoint();
    let challenger = KnowledgeChallenger::new(
        CompilerRecipe::DeriveOperator,
        &[SubjectId::new([121; 32])],
        KnowledgeProduct::derived_operator(SubjectId::new([122; 32]))
            .with_bytes(vec![0x5a; 65])
            .unwrap(),
        &[SubjectId::new([123; 32])],
        PromotionGate::all(&[
            ContextualRequirement::new(ForecastAxis::UsefulDescendants, number(0.1)).unwrap(),
        ])
        .unwrap(),
    )
    .unwrap();

    assert_eq!(
        core.stage::<PinnedPolicy>(SettlementFrame::knowledge(&[KnowledgeUpdate::Propose(
            challenger
        )]))
        .unwrap_err(),
        IntelligenceError::CapacityExceeded
    );
    assert_eq!(core.checkpoint(), before);
}

#[test]
fn legacy_v6_knowledge_records_migrate_to_the_bounded_product_format() {
    let limits = IntelligenceLimits::new(16, 32, 64, 128, 8, 64 * 1024).unwrap();
    let mut core = fresh(limits);
    let obligation = SubjectId::new([126; 32]);
    let challenger = KnowledgeChallenger::new(
        CompilerRecipe::DeriveOperator,
        &[SubjectId::new([124; 32])],
        KnowledgeProduct::derived_operator(SubjectId::new([125; 32])),
        &[obligation],
        PromotionGate::all(&[
            ContextualRequirement::new(ForecastAxis::UsefulDescendants, number(0.1)).unwrap(),
        ])
        .unwrap(),
    )
    .unwrap();
    let challenger_id = challenger.id();
    core.stage::<PinnedPolicy>(SettlementFrame::knowledge(&[KnowledgeUpdate::Propose(
        challenger,
    )]))
    .unwrap()
    .commit(&mut core)
    .unwrap();
    record_accepted_obligation(&mut core, limits, challenger_id, obligation, 1);

    let legacy = core.plain_checkpoint(6).unwrap();
    assert_eq!(&legacy.as_bytes()[..5], b"RFIC\x06");

    let restored = restore(legacy.as_bytes()).unwrap();
    let record = restored.knowledge().records()[0].duplicate();
    assert_eq!(record.status(), KnowledgeStatus::Verified);
    assert_eq!(record.challenger().product().bytes(), None);
    assert_eq!(
        restored
            .experience()
            .authoritative_verification_decision(obligation),
        record.reviews().first().map(|review| review.decision())
    );
    assert_eq!(&restored.checkpoint().as_bytes()[..5], b"RFIC\x11");
}

#[test]
fn legacy_v7_payload_products_migrate_to_explicit_semantic_meaning() {
    let limits = IntelligenceLimits::new(8, 8, 8, 32, 4, 64 * 1024).unwrap();
    let mut core = fresh(limits);
    let challenger = KnowledgeChallenger::new(
        CompilerRecipe::DeriveOperator,
        &[SubjectId::new([143; 32])],
        KnowledgeProduct::derived_operator(SubjectId::new([144; 32]))
            .with_bytes(vec![4, 5, 6])
            .unwrap(),
        &[SubjectId::new([145; 32])],
        PromotionGate::all(&[
            ContextualRequirement::new(ForecastAxis::UsefulDescendants, number(0.1)).unwrap(),
        ])
        .unwrap(),
    )
    .unwrap();
    core.stage::<PinnedPolicy>(SettlementFrame::knowledge(&[KnowledgeUpdate::Propose(
        challenger,
    )]))
    .unwrap()
    .commit(&mut core)
    .unwrap();

    let legacy = core.plain_checkpoint(7).unwrap();
    assert_eq!(&legacy.as_bytes()[..5], b"RFIC\x07");
    let restored = restore(legacy.as_bytes()).unwrap();
    let record = restored.knowledge().records()[0].duplicate();
    assert_eq!(
        record.challenger().product().meaning(),
        KnowledgeProductMeaning::Semantic
    );
    assert_eq!(record.challenger().product().bytes(), Some(&[4, 5, 6][..]));
    assert_eq!(record.status(), KnowledgeStatus::Provisional);
    assert_eq!(&restored.checkpoint().as_bytes()[..5], b"RFIC\x11");
}

#[test]
fn accepted_verification_support_resolves_by_authoritative_record_subject() {
    let limits = IntelligenceLimits::new(8, 8, 8, 32, 4, 64 * 1024).unwrap();
    let mut core = fresh(limits);
    let candidate = SubjectId::new([127; 32]);
    let verification_record = SubjectId::new([128; 32]);
    let mut market = market_for(limits);
    let opportunity = market
        .push_opportunity(OpportunitySpec::candidate(candidate.identity()), &bits(&[1.0]))
        .unwrap();
    market
        .push_investment(InvestmentSpec::verify(
            opportunity,
            ResourceVector::new(1, 1, 0, 1, 1),
            0,
        ))
        .unwrap();
    let mut scratch = buffer_for(limits);
    let receipt = allocate(
        &core,
        MarketFrame::new(&market, ResourceVector::new(1, 1, 0, 1, 1)),
        1,
        &mut scratch,
    )
    .unwrap()
    .receipts()[0];
    core.stage::<PinnedPolicy>(SettlementFrame::observations(
        &[receipt],
        &[InvestmentSettlement::new(
            receipt.decision(),
            InvestmentOutcome::VerifiedAccepted {
                verification_record,
            },
            ResourceVector::new(1, 1, 0, 1, 1),
        )],
        &[],
        &[],
    ))
    .unwrap()
    .commit(&mut core)
    .unwrap();

    assert_eq!(
        core.experience().authoritative_verification_decision(verification_record),
        Some(receipt.decision())
    );
    assert_eq!(
        core.experience().authoritative_verification_decision(candidate),
        None,
        "the candidate identity cannot impersonate the verifier's retained record"
    );
}

#[test]
fn settlement_frame_atomically_composes_verification_and_knowledge_review() {
    let limits = IntelligenceLimits::new(8, 8, 8, 32, 4, 64 * 1024).unwrap();
    let mut core = fresh(limits);
    let obligation = SubjectId::new([132; 32]);
    let challenger = KnowledgeChallenger::new(
        CompilerRecipe::DeriveOperator,
        &[SubjectId::new([133; 32])],
        KnowledgeProduct::derived_operator(SubjectId::new([134; 32])),
        &[obligation],
        PromotionGate::all(&[
            ContextualRequirement::new(ForecastAxis::UsefulDescendants, number(0.1)).unwrap(),
        ])
        .unwrap(),
    )
    .unwrap();
    let challenger_id = challenger.id();
    core.stage::<PinnedPolicy>(SettlementFrame::knowledge(&[KnowledgeUpdate::Propose(
        challenger,
    )]))
    .unwrap()
    .commit(&mut core)
    .unwrap();

    let mut market = market_for(limits);
    let opportunity = market
        .push_opportunity(OpportunitySpec::candidate([135; 32]), &bits(&[1.0]))
        .unwrap();
    market
        .push_investment(InvestmentSpec::verify(
            opportunity,
            ResourceVector::new(1, 1, 0, 1, 1),
            0,
        ))
        .unwrap();
    let mut scratch = buffer_for(limits);
    let receipt = allocate(
        &core,
        MarketFrame::new(&market, ResourceVector::new(1, 1, 0, 1, 1)),
        1,
        &mut scratch,
    )
    .unwrap()
    .receipts()[0];
    let review = KnowledgeUpdate::Review(KnowledgeReview::new(
        challenger_id,
        obligation,
        receipt.decision(),
    ));
    let bad_settlement = InvestmentSettlement::new(
        receipt.decision(),
        InvestmentOutcome::VerifiedAccepted {
            verification_record: SubjectId::new([136; 32]),
        },
        ResourceVector::new(1, 1, 0, 1, 1),
    );
    let before = core.checkpoint();
    assert_eq!(
        core.stage::<PinnedPolicy>(
            SettlementFrame::observations(&[receipt], &[bad_settlement], &[], &[])
                .with_knowledge_updates(std::slice::from_ref(&review))
        )
        .unwrap_err(),
        IntelligenceError::InvalidReference
    );
    assert_eq!(core.checkpoint(), before);

    let settlement = InvestmentSettlement::new(
        receipt.decision(),
        InvestmentOutcome::VerifiedAccepted {
            verification_record: obligation,
        },
        ResourceVector::new(1, 1, 0, 1, 1),
    );
    core.stage::<PinnedPolicy>(
        SettlementFrame::observations(&[receipt], &[settlement], &[], &[])
            .with_knowledge_updates(std::slice::from_ref(&review)),
    )
    .unwrap()
    .commit(&mut core)
    .unwrap();
    assert_eq!(
        core.experience()
            .authoritative_verification_outcome(receipt.decision(), obligation),
        Ok(InvestmentOutcome::VerifiedAccepted {
            verification_record: obligation
        })
    );
    assert_eq!(
        core.knowledge().status(challenger_id),
        Some(KnowledgeStatus::Verified)
    );
}

#[test]
fn knowledge_invalidation_is_durable_and_never_masquerades_as_refutation() {
    let limits = IntelligenceLimits::new(8, 8, 8, 32, 4, 64 * 1024).unwrap();
    let mut core = fresh(limits);
    let obligation = SubjectId::new([137; 32]);
    let challenger = KnowledgeChallenger::new(
        CompilerRecipe::GeneralizeArtifact,
        &[SubjectId::new([138; 32])],
        KnowledgeProduct::artifact(SubjectId::new([139; 32])),
        &[obligation],
        PromotionGate::all(&[
            ContextualRequirement::new(ForecastAxis::UsefulDescendants, number(0.1)).unwrap(),
        ])
        .unwrap(),
    )
    .unwrap();
    let challenger_id = challenger.id();
    core.stage::<PinnedPolicy>(SettlementFrame::knowledge(&[KnowledgeUpdate::Propose(
        challenger,
    )]))
    .unwrap()
    .commit(&mut core)
    .unwrap();
    core.stage::<PinnedPolicy>(SettlementFrame::knowledge(&[KnowledgeUpdate::Invalidate {
        challenger: challenger_id,
        reason: KnowledgeInvalidationReason::Product,
    }]))
    .unwrap()
    .commit(&mut core)
    .unwrap();

    let invalidated = KnowledgeStatus::Invalidated(KnowledgeInvalidationReason::Product);
    let record = core.knowledge().record(challenger_id).unwrap();
    assert_eq!(record.status(), invalidated);
    assert_eq!(
        record.invalidation_reason(),
        Some(KnowledgeInvalidationReason::Product)
    );
    assert_eq!(record.promoted_by(), None);

    core.stage::<PinnedPolicy>(SettlementFrame::knowledge(&[
        KnowledgeUpdate::EvaluatePromotion(challenger_id),
    ]))
    .unwrap()
    .commit(&mut core)
    .unwrap();
    assert_eq!(core.knowledge().status(challenger_id), Some(invalidated));
    assert_eq!(
        core.stage::<PinnedPolicy>(SettlementFrame::knowledge(&[KnowledgeUpdate::Review(
            KnowledgeReview::new(
                challenger_id,
                obligation,
                DecisionId::from_identity([140; 32]),
            ),
        )]))
        .unwrap_err(),
        IntelligenceError::InvalidKnowledge
    );

    let restored = restore(core.checkpoint().as_bytes()).unwrap();
    assert_eq!(
        restored.knowledge().status(challenger_id),
        Some(invalidated)
    );
    assert_eq!(restored.checkpoint(), core.checkpoint());
}

#[test]
fn only_payload_bound_explicitly_nonsemantic_indexes_need_no_obligations() {
    let limits = IntelligenceLimits::new(8, 8, 8, 32, 4, 64 * 1024).unwrap();
    let product_subject = SubjectId::new([141; 32]);
    let source = SubjectId::new([142; 32]);
    let gate = || {
        PromotionGate::all(&[
            ContextualRequirement::new(ForecastAxis::UsefulDescendants, number(0.1)).unwrap(),
        ])
        .unwrap()
    };
    assert_eq!(
        KnowledgeChallenger::new(
            CompilerRecipe::Deduplicate,
            &[source],
            KnowledgeProduct::knowledge_index(product_subject),
            &[],
            gate(),
        )
        .unwrap_err(),
        IntelligenceError::InvalidKnowledge
    );
    assert_eq!(
        KnowledgeChallenger::new(
            CompilerRecipe::Deduplicate,
            &[source],
            KnowledgeProduct::knowledge_index(product_subject)
                .with_bytes(vec![1, 2, 3])
                .unwrap(),
            &[],
            gate(),
        )
        .unwrap_err(),
        IntelligenceError::InvalidKnowledge,
        "payload presence alone does not waive semantic correctness obligations"
    );

    let product = KnowledgeProduct::nonsemantic_index(product_subject, vec![1, 2, 3]).unwrap();
    assert_eq!(product.meaning(), KnowledgeProductMeaning::NonSemanticIndex);
    let challenger =
        KnowledgeChallenger::new(CompilerRecipe::Deduplicate, &[source], product, &[], gate())
            .unwrap();
    let challenger_id = challenger.id();
    let mut core = fresh(limits);
    core.stage::<PinnedPolicy>(SettlementFrame::knowledge(&[KnowledgeUpdate::Propose(
        challenger,
    )]))
    .unwrap()
    .commit(&mut core)
    .unwrap();

    assert_eq!(
        core.knowledge().status(challenger_id),
        Some(KnowledgeStatus::Verified)
    );
    core.stage::<PinnedPolicy>(SettlementFrame::knowledge(&[
        KnowledgeUpdate::EvaluatePromotion(challenger_id),
    ]))
    .unwrap()
    .commit(&mut core)
    .unwrap();
    assert_eq!(
        core.knowledge().status(challenger_id),
        Some(KnowledgeStatus::Verified),
        "a nonsemantic index remains subject to causal shadow promotion"
    );
    let restored = restore(core.checkpoint().as_bytes()).unwrap();
    let record = restored.knowledge().record(challenger_id).unwrap();
    assert_eq!(
        record.challenger().product().meaning(),
        KnowledgeProductMeaning::NonSemanticIndex
    );
    assert_eq!(record.challenger().product().bytes(), Some(&[1, 2, 3][..]));
    assert_eq!(record.status(), KnowledgeStatus::Verified);
}

#[test]
fn checkpoint_rejects_checksum_valid_hostile_knowledge_product_lengths() {
    let limits = IntelligenceLimits::new(8, 8, 8, 32, 4, 1024).unwrap();
    let mut core = fresh(limits);
    let marker = b"reflex-opaque-product-boundary";
    let challenger = KnowledgeChallenger::new(
        CompilerRecipe::DeriveOperator,
        &[SubjectId::new([129; 32])],
        KnowledgeProduct::derived_operator(SubjectId::new([130; 32]))
            .with_bytes(marker.to_vec())
            .unwrap(),
        &[SubjectId::new([131; 32])],
        PromotionGate::all(&[
            ContextualRequirement::new(ForecastAxis::UsefulDescendants, number(0.1)).unwrap(),
        ])
        .unwrap(),
    )
    .unwrap();
    core.stage::<PinnedPolicy>(SettlementFrame::knowledge(&[KnowledgeUpdate::Propose(
        challenger,
    )]))
    .unwrap()
    .commit(&mut core)
    .unwrap();
    let mut hostile = core.checkpoint().as_bytes().to_vec();
    let marker_offset = hostile
        .windows(marker.len())
        .position(|window| window == marker)
        .unwrap();
    assert_eq!(
        hostile
            .windows(marker.len())
            .filter(|window| *window == marker)
            .count(),
        1
    );
    hostile[marker_offset - 8..marker_offset].copy_from_slice(&u64::MAX.to_le_bytes());
    let payload_length = hostile.len() - 32;
    let checksum = hash_bytes(&hostile[..payload_length]).to_bytes();
    hostile[payload_length..].copy_from_slice(&checksum);

    assert_eq!(
        restore(&hostile).unwrap_err(),
        IntelligenceError::CorruptState
    );
}
