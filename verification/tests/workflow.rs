//! Workflows: compiling knowledge, verifying it, and trying it in the shadow.
use reflex_intelligence::allocation::{PortfolioBuffer, PortfolioReceipt};
use reflex_intelligence::arena::OpportunitySpec;
use reflex_intelligence::causal::{InvestmentOutcome, InvestmentSettlement};
use reflex_intelligence::checkpoint::CheckpointWire;
use reflex_intelligence::compilation::{CompilationRoots, OperationalAction, OperationalActionSpec};
use reflex_intelligence::consolidation::{
    ConsolidationChallenger, DerivedOperator, KnowledgeState, OperatorStep, obligation_of,
};
use reflex_intelligence::digest::{Digest, hash_bytes};
use reflex_intelligence::ecology::ModelEcology;
use reflex_intelligence::footprint::KnowledgeCompilationShape;
use reflex_intelligence::forecast::{Forecast, ScoredForecast};
use reflex_intelligence::intelligence::IntelligenceCore;
use reflex_intelligence::investment::InvestmentSpec;
use reflex_intelligence::knowledge::{KnowledgeInvalidationReason, KnowledgeStatus, KnowledgeWork};
use reflex_intelligence::market::{MarketArena, MarketFrame};
use reflex_intelligence::model::{CompactModel, ModelHead};
use reflex_intelligence::planning::{
    KnowledgePlanningFailure, KnowledgeShadowArmReport, KnowledgeShadowReport,
    KnowledgeShadowRootFact, KnowledgeShadowSupportFact, KnowledgeVerificationReport,
};
use reflex_intelligence::policy::PinnedPolicy;
use reflex_intelligence::receipt::InvestmentReceipt;
use reflex_intelligence::shadow::{
    CheckpointDigest, ShadowArm, ShadowInvalidationReason, ShadowUpdate,
};
use reflex_intelligence::transition::SettlementFrame;
use reflex_intelligence::types::{
    IntelligenceError, IntelligenceLimits, InvestmentId, ResourceVector, SubjectId,
};

fn bits(values: &[f32]) -> Vec<u32> {
    values.iter().map(|value| value.to_bits()).collect()
}

fn number(value: f32) -> u32 {
    value.to_bits()
}

fn market_for(limits: IntelligenceLimits) -> MarketArena {
    MarketArena::try_with_capacity(limits).unwrap()
}

fn buffer_for(limits: IntelligenceLimits) -> PortfolioBuffer {
    PortfolioBuffer::try_with_capacity(limits).unwrap()
}

fn fresh(limits: IntelligenceLimits) -> IntelligenceCore {
    IntelligenceCore::fresh::<PinnedPolicy>(limits)
}

fn restore(bytes: &[u8]) -> Result<IntelligenceCore, IntelligenceError> {
    IntelligenceCore::restore::<PinnedPolicy>(bytes)
}

/// What one head forecasts, and what the forecast is worth at the least.
fn forecast(model: &CompactModel, head: &ModelHead, features: &[u32]) -> ScoredForecast {
    let intercept = f32::from_bits(head.intercept);
    let estimate = if model.features().is_none() {
        intercept
    } else {
        let score = head
            .weights
            .iter()
            .zip(features)
            .fold(intercept, |score, (weight, feature)| {
                score + f32::from_bits(*weight) * f32::from_bits(*feature)
            });
        1.0 / (1.0 + (-score).exp())
    };
    let calibration_error = f32::from_bits(head.calibration_error);
    let uncertainty = (1.0 / (head.support.saturating_add(1) as f32).sqrt())
        .max(calibration_error)
        .clamp(0.0, 1.0);
    let conservative_value = if head.axis.higher_is_better() {
        estimate - uncertainty - calibration_error * 0.25
    } else {
        -(estimate + uncertainty + calibration_error * 0.25)
    };
    ScoredForecast {
        forecast: Forecast::with_uncertainty(
            head.axis,
            estimate.to_bits(),
            head.calibration_error,
            uncertainty.to_bits(),
            head.support,
        )
        .unwrap(),
        conservative_value: conservative_value.to_bits(),
    }
}

/// The forecasts for every investment, by every specialist that it is routed to.
fn evaluate(ecology: &ModelEcology, market: &MarketArena) -> Vec<Vec<ScoredForecast>> {
    let mut evaluations = Vec::new();
    for index in 0..market.investment_count() {
        let investment = market.investment(InvestmentId(index as u32)).unwrap();
        let opportunity = market.opportunity(investment.opportunity).unwrap();
        let features = market.features(investment.opportunity);
        for place in ecology.routed(opportunity, features.len()) {
            let model = ecology.specialists()[place].model();
            evaluations.push(
                model
                    .heads()
                    .iter()
                    .map(|head| forecast(model, head, features))
                    .collect(),
            );
        }
    }
    evaluations
}

fn allocate<'a>(
    core: &IntelligenceCore,
    frame: MarketFrame<'_>,
    limit: usize,
    output: &'a mut PortfolioBuffer,
) -> Result<PortfolioReceipt<'a>, IntelligenceError> {
    let evaluations = evaluate(core.manifest().ecology, frame.market);
    core.allocate(frame, limit, &evaluations, output)?;
    Ok(output.portfolio())
}

/// A product that is derived from some operators and takes the place of the active one.
fn consolidation(core: &IntelligenceCore, product: u8, names: &[&str]) -> ConsolidationChallenger {
    let product = Digest::new([product; 32]);
    let mut operators: Vec<DerivedOperator> = names
        .iter()
        .map(|name| DerivedOperator {
            id: hash_bytes(name.as_bytes()),
            steps: vec![
                OperatorStep { bytes: name.as_bytes().to_vec() },
                OperatorStep { bytes: name.as_bytes().to_vec() },
            ],
            support: (1_u8..=8).map(|case| Digest::new([case; 32])).collect(),
        })
        .collect();
    operators.sort_by_key(|operator| obligation_of(product, operator.id).identity());
    ConsolidationChallenger {
        product,
        base_product: core.knowledge_product(),
        source: Digest::new([20; 32]),
        support: Digest::new([21; 32]),
        operators,
    }
}

fn verification_pair(
    core: &IntelligenceCore,
    limits: IntelligenceLimits,
    subject: SubjectId,
    epoch: u64,
    declared: ResourceVector,
    actual: ResourceVector,
) -> (InvestmentReceipt, InvestmentSettlement) {
    let mut market = market_for(limits);
    let opportunity = market
        .push_opportunity(OpportunitySpec::candidate(subject.identity()), &bits(&[1.0]))
        .unwrap();
    market
        .push_investment(InvestmentSpec::verify(opportunity, declared, 0))
        .unwrap();
    let mut output = buffer_for(limits);
    let receipt = allocate(core, MarketFrame::new(&market, declared).at_epoch(epoch),
            1,
            &mut output,
        )
        .unwrap()
        .receipts()[0];
    let settlement = InvestmentSettlement::new(
        receipt.decision(),
        InvestmentOutcome::VerifiedAccepted {
            verification_record: subject,
        },
        actual,
    );
    (receipt, settlement)
}

/// A core that has verified a consolidation of its own.
fn verified_core(limits: IntelligenceLimits) -> (IntelligenceCore, ConsolidationChallenger) {
    let mut core = fresh(limits);
    let exact = consolidation(&core, 70, &["simplify"]);
    let work = core.plan_knowledge_verification(Some(&exact)).unwrap().unwrap();
    verify(&mut core, limits, work, 0);
    (core, exact)
}

/// Opens the verification of some work and settles it; everything is accepted.
fn verify(core: &mut IntelligenceCore, limits: IntelligenceLimits, work: KnowledgeWork, epoch: u64) {
    let (receipts, settlements) = work
        .obligations()
        .iter()
        .enumerate()
        .map(|(index, obligation)| {
            verification_pair(
                core,
                limits,
                obligation.subject(),
                epoch + u64::try_from(index).unwrap(),
                if index == 0 {
                    ResourceVector::new(2, 2, 2, 2, 1)
                } else {
                    ResourceVector::new(2, 0, 2, 0, 1)
                },
                if index == 0 {
                    ResourceVector::new(1, 1, 1, 1, 1)
                } else {
                    ResourceVector::new(1, 0, 1, 0, 1)
                },
            )
        })
        .unzip::<_, _, Vec<_>, Vec<_>>();
    let reserved = total(&receipts);
    let (open, opened) = core
        .open_knowledge_verification::<PinnedPolicy>(work, &receipts, reserved)
        .unwrap();
    open.commit(core).unwrap();
    let transition = core
        .settle_opened_knowledge_verification::<PinnedPolicy>(
            &opened,
            KnowledgeVerificationReport::settled(&settlements),
        )
        .unwrap();
    transition.commit(core).unwrap();
}

fn total(receipts: &[InvestmentReceipt]) -> ResourceVector {
    receipts
        .iter()
        .try_fold(ResourceVector::default(), |total, receipt| {
            total.checked_add(receipt.resources())
        })
        .unwrap()
}

/// Puts the recipes on a market, and chooses one of them.
fn chosen_compiler(
    core: &IntelligenceCore,
    limits: IntelligenceLimits,
    specifications: &[OperationalActionSpec],
    resources: ResourceVector,
) -> (SubjectId, InvestmentReceipt) {
    let mut market = market_for(limits);
    let mut compilers = Vec::new();
    for specification in specifications {
        let OperationalAction::Consolidate { compiler } = specification.action();
        let opportunity = market
            .push_opportunity(
                OpportunitySpec::knowledge_pattern(compiler.identity()),
                &specification.features,
            )
            .unwrap();
        market
            .push_investment(InvestmentSpec::consolidate(
                opportunity,
                compiler,
                specification.resources,
                specification.bootstrap_priority,
            ))
            .unwrap();
        compilers.push(compiler);
    }
    let mut output = buffer_for(limits);
    let portfolio = allocate(core, MarketFrame::new(&market, resources), 1, &mut output).unwrap();
    let chosen = portfolio.investment_ids()[0];
    (compilers[chosen.0 as usize], portfolio.receipts()[0])
}

/// Knowledge in which a product has taken over.
fn legacy_knowledge_fixture(core: &IntelligenceCore) -> KnowledgeState {
    let mut knowledge = KnowledgeState::default();
    knowledge
        .activate_reverified_challenger(&consolidation(core, 70, &["simplify", "rewrite"]))
        .unwrap();
    knowledge
}

#[test]
fn completed_compiler_recipe_atomically_retains_its_exact_restart_work() {
    let limits = IntelligenceLimits::new(16, 64, 64, 512, 8, 128 * 1024).unwrap();
    let mut core = fresh(limits);
    let resources = ResourceVector::new(10_000, 64 * 1024, 0, 10_000, 0);
    let plan = core.prepare_knowledge_compilation(resources);
    assert_eq!(plan.specifications().len(), 2);

    let (compiler, receipt) = chosen_compiler(&core, limits, plan.specifications(), resources);
    let producer = receipt.decision();
    assert_eq!(plan.roots_for(&core, compiler), Ok(CompilationRoots::Every));
    let exact = consolidation(&core, 70, &["simplify"]);
    let executed = plan.execute(&core, producer, compiler, Ok::<_, ()>(Some(exact))).unwrap();
    let settlement = InvestmentSettlement::new(
        producer,
        InvestmentOutcome::Completed,
        ResourceVector::new(1, 1, 0, 1, 0),
    );

    core.stage_completed_knowledge_compilation::<PinnedPolicy>(executed, &receipt, settlement)
        .unwrap()
        .commit(&mut core)
        .unwrap();
    let expected = core
        .pending_knowledge_compilation()
        .unwrap()
        .expect("the exact challenger is retained with its producer");
    let restored = restore(core.checkpoint().as_bytes()).unwrap();
    let resumed = restored
        .pending_knowledge_compilation()
        .unwrap()
        .expect("restart resumes the retained challenger without mining");
    assert_eq!(resumed.0.id(), expected.0.id());
    assert_eq!(resumed.1, producer);
    assert_eq!(expected.1, producer);

    let unavailable = restored
        .reject_knowledge_work::<PinnedPolicy>(
            resumed.0.clone(),
            KnowledgePlanningFailure::WitnessUnavailable(resumed.0.obligations()[0].subject()),
        )
        .expect("retained work can be terminally rejected without reproposing it");
    let invalidated = restore(unavailable.checkpoint().unwrap().as_bytes()).unwrap();
    assert_eq!(
        invalidated.knowledge().status(resumed.0.id()),
        Some(KnowledgeStatus::Invalidated(
            KnowledgeInvalidationReason::Witness
        ))
    );
}

#[test]
fn completed_compiler_recipe_without_verification_obligations_retains_only_its_receipt() {
    let limits = IntelligenceLimits::new(16, 64, 64, 512, 8, 128 * 1024).unwrap();
    let mut core = fresh(limits);
    let resources = ResourceVector::new(10_000, 64 * 1024, 0, 10_000, 0);
    let plan = core.prepare_knowledge_compilation(resources);
    let (compiler, receipt) = chosen_compiler(&core, limits, plan.specifications(), resources);
    let producer = receipt.decision();
    let nothing = consolidation(&core, 70, &[]);
    let executed = plan.execute(&core, producer, compiler, Ok::<_, ()>(Some(nothing))).unwrap();
    assert!(executed.challenger.is_none());
    let settlement = InvestmentSettlement::new(
        producer,
        InvestmentOutcome::Completed,
        ResourceVector::new(1, 1, 0, 1, 0),
    );

    core.stage_completed_knowledge_compilation::<PinnedPolicy>(executed, &receipt, settlement)
        .unwrap()
        .commit(&mut core)
        .unwrap();
    assert_eq!(core.pending_knowledge_compilation().unwrap(), None);
    assert_eq!(
        core.experience().ledger.latest_completed_consolidation(),
        Some(producer),
        "the executed compiler action remains causal Experience without a verifiable challenger"
    );
    restore(core.checkpoint().as_bytes()).unwrap();
}

#[test]
fn compiler_reservation_covers_large_symbols_and_expanded_derived_steps() {
    let limits = IntelligenceLimits::new(16, 64, 64, 512, 8, 128 * 1024).unwrap();
    let core = fresh(limits);
    let mut small = KnowledgeCompilationShape::default();
    small.observe(b"p", &[b"p".to_vec()]).unwrap();
    let mut large = KnowledgeCompilationShape::default();
    let identity = vec![7_u8; 64 * 1024];
    let steps = (0..8)
        .map(|step| vec![u8::try_from(step).unwrap(); 32 * 1024])
        .collect::<Vec<_>>();
    for _ in 0..16 {
        large.observe(&identity, &steps).unwrap();
    }

    let small_bound = core
        .knowledge_compilation_resident_bound(small, 2, 64, 4096)
        .unwrap();
    let large_bound = core
        .knowledge_compilation_resident_bound(large, 2, 64, 4096)
        .unwrap();
    assert!(large_bound > small_bound.saturating_mul(100));
    assert!(large_bound > 64 * 1024 * 16 + 32 * 1024 * 8 * 16);
}

#[test]
fn refuted_only_consolidation_is_not_executable_verification_work() {
    let limits = IntelligenceLimits::new(8, 16, 16, 128, 4, 64 * 1024).unwrap();
    let core = fresh(limits);
    let refuted = consolidation(&core, 70, &[]);

    assert!(core.plan_knowledge_verification(Some(&refuted)).unwrap().is_none());
    assert!(core.plan_knowledge_verification(None).unwrap().is_none());
}

#[test]
fn recovery_manifest_is_complete_stable_and_preflight_bounded() {
    let limits = IntelligenceLimits::new(8, 16, 16, 128, 4, 64 * 1024).unwrap();
    let (core, _) = verified_core(limits);
    let preflight = core.knowledge_recovery_manifest_resident_bytes().unwrap();
    let manifest = core.knowledge_recovery_manifest().unwrap();

    assert!(manifest.obligation_count() > 0);
    assert_eq!(preflight, manifest.heap_bytes());
    assert!(core.knowledge_recovery_manifest_matches(&manifest));
    assert!(
        manifest
            .obligations()
            .iter()
            .all(|entry| !entry.work().operator_steps().is_empty())
    );

    let restored = restore(core.checkpoint().as_bytes()).unwrap();
    let recovered = restored.knowledge_recovery_manifest().unwrap();
    assert_eq!(manifest, recovered);
    assert!(restored.knowledge_recovery_manifest_matches(&manifest));
    assert!(!fresh(limits).knowledge_recovery_manifest_matches(&manifest));
}

#[test]
fn opened_verification_is_authenticated_recoverable_and_interrupts_monotonically() {
    let limits = IntelligenceLimits::new(32, 32, 32, 256, 4, 256 * 1024).unwrap();
    let mut core = fresh(limits);
    let exact = consolidation(&core, 70, &["simplify", "rewrite"]);
    let work = core.plan_knowledge_verification(Some(&exact)).unwrap().unwrap();
    assert!(!work.obligations().is_empty());
    let receipts = work
        .obligations()
        .iter()
        .enumerate()
        .map(|(index, obligation)| {
            let declared = if index == 0 {
                ResourceVector::new(3, 5, 7, 11, 1)
            } else {
                ResourceVector::new(3, 0, 7, 0, 1)
            };
            verification_pair(
                &core,
                limits,
                obligation.subject(),
                u64::try_from(index).unwrap(),
                declared,
                declared,
            )
            .0
        })
        .collect::<Vec<_>>();
    let reserved = total(&receipts);
    let initial_receipts = core.experience().receipts().len();

    let (open, opened) = core
        .open_knowledge_verification::<PinnedPolicy>(work, &receipts, reserved)
        .unwrap();
    assert!(core.opened_knowledge_verification().is_none());
    assert_eq!(
        opened.reserved_verification_requests(),
        receipts.len() as u64
    );
    assert_eq!(opened.receipts(), receipts);
    let recovered_open = restore(open.checkpoint().unwrap().as_bytes()).unwrap();
    assert_eq!(
        recovered_open.opened_knowledge_verification().unwrap(),
        opened
    );
    open.commit(&mut core).unwrap();
    assert_eq!(core.opened_knowledge_verification().unwrap(), opened);

    let interrupted = core
        .settle_opened_knowledge_verification::<PinnedPolicy>(
            &opened,
            KnowledgeVerificationReport::interrupted(),
        )
        .unwrap();
    interrupted.commit(&mut core).unwrap();
    assert!(core.opened_knowledge_verification().is_none());
    assert_eq!(
        core.experience().receipts().len(),
        initial_receipts + receipts.len()
    );
    let restored = restore(core.checkpoint().as_bytes()).unwrap();
    assert_eq!(restored.checkpoint(), core.checkpoint());
    assert!(restored.opened_knowledge_verification().is_none());
}

#[test]
fn legacy_v14_checkpoint_migrates_to_current_without_pending_work() {
    let limits = IntelligenceLimits::new(8, 8, 8, 64, 4, 64 * 1024).unwrap();
    let core = fresh(limits);
    let legacy = core.checkpoint_in::<PinnedPolicy>(CheckpointWire::for_version(14).unwrap());
    assert_eq!(&legacy.as_bytes()[..5], b"RFIC\x0E");

    let migrated = restore(legacy.as_bytes()).unwrap();
    assert!(migrated.opened_knowledge_verification().is_none());
    assert_eq!(&migrated.checkpoint().as_bytes()[..5], b"RFIC\x11");
    let resealed = migrated.into_fork_with_limits(limits).unwrap();
    assert_eq!(&resealed.checkpoint().as_bytes()[..5], b"RFIC\x11");
    assert!(resealed.opened_knowledge_verification().is_none());
}

#[test]
fn legacy_v15_receipts_recover_semantic_corpus_identity_and_reseal_to_v17() {
    let limits = IntelligenceLimits::new(8, 8, 8, 64, 4, 64 * 1024).unwrap();
    let mut core = fresh(limits);
    let (receipt, settlement) = verification_pair(
        &core,
        limits,
        SubjectId::new([71; 32]),
        1,
        ResourceVector::new(1, 1, 0, 1, 1),
        ResourceVector::new(1, 1, 0, 1, 1),
    );
    core.stage::<PinnedPolicy>(SettlementFrame::observations(
        &[receipt],
        &[settlement],
        &[],
        &[],
    ))
    .unwrap()
    .commit(&mut core)
    .unwrap();
    let legacy = core.checkpoint_in::<PinnedPolicy>(CheckpointWire::for_version(15).unwrap());
    assert_eq!(&legacy.as_bytes()[..5], b"RFIC\x0F");

    let migrated = restore(legacy.as_bytes()).unwrap();
    let receipt = migrated.experience().receipts()[0];
    assert_eq!(receipt.corpus_key(), receipt.opportunity_identity());
    let resealed = migrated.into_fork_with_limits(limits).unwrap();
    assert_eq!(&resealed.checkpoint().as_bytes()[..5], b"RFIC\x11");
}

#[test]
fn legacy_v13_knowledge_import_is_exact_consuming_and_restart_closed() {
    let limits = IntelligenceLimits::new(8, 8, 32, 256, 4, 64 * 1024).unwrap();
    let legacy = legacy_knowledge_fixture(&fresh(limits));
    let legacy_checkpoint = fresh(limits).checkpoint_in::<PinnedPolicy>(CheckpointWire::for_version(13).unwrap());
    let migrated = restore(legacy_checkpoint.as_bytes()).unwrap();

    let imported = migrated.into_legacy_knowledge(&legacy).unwrap();
    assert_eq!(imported.knowledge_generation(), legacy.generation());
    assert_eq!(imported.knowledge_product(), legacy.product());
    assert_eq!(
        imported.pinned_knowledge_revision(),
        legacy.pinned_revision()
    );
    assert_eq!(&imported.checkpoint().as_bytes()[..5], b"RFIC\x11");

    let restored = restore(imported.checkpoint().as_bytes()).unwrap();
    assert_eq!(restored.checkpoint(), imported.checkpoint());
    assert_eq!(restored.knowledge_product(), legacy.product());
    assert_eq!(
        restored.into_legacy_knowledge(&legacy).unwrap_err(),
        IntelligenceError::IncompatibleRevision
    );
    assert_eq!(
        fresh(limits)
            .into_legacy_knowledge(&legacy)
            .unwrap_err(),
        IntelligenceError::IncompatibleRevision
    );
}

#[test]
fn knowledge_verification_reactor_plans_deterministically_and_settles_through_core() {
    let limits = IntelligenceLimits::new(8, 16, 16, 128, 4, 64 * 1024).unwrap();
    let mut core = fresh(limits);
    let exact = consolidation(&core, 70, &["simplify", "rewrite"]);
    let first = core
        .plan_knowledge_verification(Some(&exact))
        .unwrap()
        .unwrap();
    let second = core
        .plan_knowledge_verification(Some(&exact))
        .unwrap()
        .unwrap();
    assert_eq!(first.id(), second.id());
    assert_eq!(first.product(), second.product());
    assert_eq!(first.obligations(), second.obligations());
    assert!(first.obligations().iter().all(|obligation| {
        !obligation.operator_steps().is_empty() && !obligation.supporting_attempts().is_empty()
    }));
    assert_eq!(core.knowledge().records().len(), 0, "planning is pure");

    let untouched = core.checkpoint();
    assert_eq!(
        core.reject_knowledge_work::<PinnedPolicy>(
            first.clone(),
            KnowledgePlanningFailure::WitnessUnavailable(SubjectId::new([0xfe; 32])),
        )
        .unwrap_err(),
        IntelligenceError::InvalidReference
    );
    let unavailable = core
        .reject_knowledge_work::<PinnedPolicy>(
            first.clone(),
            KnowledgePlanningFailure::WitnessUnavailable(first.obligations()[0].subject()),
        )
        .unwrap();
    let invalidated = restore(unavailable.checkpoint().unwrap().as_bytes()).unwrap();
    assert_eq!(
        invalidated.knowledge().status(first.id()),
        Some(KnowledgeStatus::Invalidated(
            KnowledgeInvalidationReason::Witness
        ))
    );
    assert_eq!(core.checkpoint(), untouched, "invalidation is staged");

    let mut receipts = Vec::new();
    let mut settlements = Vec::new();
    for (index, obligation) in first.obligations().iter().enumerate() {
        let (receipt, settlement) = verification_pair(
            &core,
            limits,
            obligation.subject(),
            u64::try_from(index).unwrap(),
            if index == 0 {
                ResourceVector::new(1, 1, 0, 1, 1)
            } else {
                ResourceVector::new(1, 0, 0, 0, 1)
            },
            if index == 0 {
                ResourceVector::new(1, 1, 0, 1, 1)
            } else {
                ResourceVector::new(1, 0, 0, 0, 1)
            },
        );
        receipts.push(receipt);
        settlements.push(settlement);
    }
    assert!(receipts.len() > 1, "the fixture must exercise ordering");
    let unchanged = core.checkpoint();
    let reserved = total(&receipts);

    let mut swapped_receipts = receipts.clone();
    swapped_receipts.swap(0, 1);
    assert_eq!(
        core.open_knowledge_verification::<PinnedPolicy>(first.clone(), &swapped_receipts, reserved)
            .unwrap_err(),
        IntelligenceError::InvalidSettlement
    );
    assert_eq!(core.checkpoint(), unchanged);

    let (foreign_receipt, _) = verification_pair(
        &core,
        limits,
        SubjectId::new([0xee; 32]),
        100,
        ResourceVector::new(1, 1, 0, 1, 1),
        ResourceVector::new(1, 1, 0, 1, 1),
    );
    let mut foreign_receipts = receipts.clone();
    foreign_receipts[0] = foreign_receipt;
    assert_eq!(
        core.open_knowledge_verification::<PinnedPolicy>(first.clone(), &foreign_receipts, reserved)
            .unwrap_err(),
        IntelligenceError::InvalidSettlement
    );
    assert_eq!(core.checkpoint(), unchanged);

    let duplicate_receipts = vec![receipts[0]; receipts.len()];
    assert_eq!(
        core.open_knowledge_verification::<PinnedPolicy>(first.clone(), &duplicate_receipts, reserved)
            .unwrap_err(),
        IntelligenceError::InvalidSettlement
    );
    assert_eq!(core.checkpoint(), unchanged);

    let (open, opened) = core
        .open_knowledge_verification::<PinnedPolicy>(first.clone(), &receipts, reserved)
        .unwrap();
    open.commit(&mut core).unwrap();
    let opened_checkpoint = core.checkpoint();

    let mut oversized_settlements = settlements.clone();
    oversized_settlements[0] = InvestmentSettlement::new(
        receipts[0].decision(),
        InvestmentOutcome::VerifiedAccepted {
            verification_record: first.obligations()[0].subject(),
        },
        ResourceVector::new(1, 2, 0, 1, 1),
    );
    assert_eq!(
        core.settle_opened_knowledge_verification::<PinnedPolicy>(
            &opened,
            KnowledgeVerificationReport::settled(&oversized_settlements),
        )
        .unwrap_err(),
        IntelligenceError::InvalidSettlement
    );
    assert_eq!(core.checkpoint(), opened_checkpoint);

    let transition = core
        .settle_opened_knowledge_verification::<PinnedPolicy>(
            &opened,
            KnowledgeVerificationReport::settled(&settlements),
        )
        .unwrap();
    let proposed_checkpoint = transition.checkpoint().unwrap();
    let proposed = restore(proposed_checkpoint.as_bytes()).unwrap();
    assert_eq!(
        proposed.knowledge().status(second.id()),
        Some(KnowledgeStatus::Verified)
    );
    assert_eq!(core.knowledge().records().len(), 0, "settlement is staged");
    transition.commit(&mut core).unwrap();
    let committed = core.checkpoint();
    assert_eq!(committed, proposed_checkpoint);
    assert!(
        core.plan_knowledge_verification(Some(&exact))
            .unwrap()
            .is_none(),
        "the active compiler must not reissue retained Knowledge"
    );
    assert_eq!(
        core.open_knowledge_verification::<PinnedPolicy>(second, &receipts, reserved)
            .unwrap_err(),
        IntelligenceError::StaleTransition
    );
    assert_eq!(core.checkpoint(), committed);
}

#[test]
fn knowledge_shadow_reactor_is_restart_bound_symmetric_and_promotes_atomically() {
    let limits = IntelligenceLimits::new(8, 16, 16, 128, 4, 64 * 1024).unwrap();
    let allowance = ResourceVector::new(10, 10, 10, 10, 2);
    let restart = CheckpointDigest::new([0x71; 32]);
    let context = SubjectId::new([0x72; 32]);
    let roots = [
        KnowledgeShadowRootFact::new(SubjectId::new([0x10; 32]), SubjectId::new([0x20; 32]), 0),
        KnowledgeShadowRootFact::new(SubjectId::new([0x11; 32]), SubjectId::new([0x21; 32]), 1),
    ];

    let (mut core, exact) = verified_core(limits);
    let retained_before_planning = core.resident_bytes();
    let verified_work = KnowledgeWork::verification(core.active_revision(), &exact).unwrap();
    let supported_attempt = verified_work.obligations()[0].supporting_attempts()[0];
    let support_facts = [KnowledgeShadowSupportFact::new(
        supported_attempt,
        roots[0].claim(),
    )];
    let plan = core
        .plan_knowledge_shadow(restart, context, &roots, &support_facts, allowance)
        .unwrap()
        .unwrap();
    assert_eq!(plan.root(), roots[1].root(), "support claims are excluded");
    let challenger = plan.challenger();
    let product = plan.product();
    let incumbent = core.knowledge_product();
    let differently_bound = core
        .plan_knowledge_shadow(
            CheckpointDigest::new([0x73; 32]),
            context,
            &roots,
            &support_facts,
            allowance,
        )
        .unwrap()
        .unwrap();
    assert_ne!(plan.campaign().id(), differently_bound.campaign().id());
    assert_eq!(plan.product(), differently_bound.product());
    assert_eq!(core.resident_bytes(), retained_before_planning);

    let (open, opened) = core.open_knowledge_shadow::<PinnedPolicy>(plan).unwrap();
    assert_eq!(
        opened.execution(&core).unwrap_err(),
        IntelligenceError::StaleTransition,
        "execution is unavailable until the open transition commits"
    );
    let recovered_open = restore(open.checkpoint().unwrap().as_bytes()).unwrap();
    let execution = opened.execution(&recovered_open).unwrap();
    let execution = execution.opened();
    assert_eq!(execution.campaign_specification().subject(), product);
    assert_eq!(execution.campaign_specification().resources(), allowance);
    assert!(!execution.subject_operator().is_empty());
    assert!(execution.supporting_attempts().contains(&supported_attempt));
    assert_ne!(execution.campaign_specification().random_stream(), execution.scheduling_token());
    assert_ne!(
        execution.pinned_revision(ShadowArm::Treatment),
        execution.pinned_revision(ShadowArm::Control)
    );
    assert!(
        recovered_open
            .plan_knowledge_shadow(restart, context, &roots, &support_facts, allowance)
            .unwrap()
            .is_none(),
        "an open campaign excludes nesting after recovery"
    );
    open.commit(&mut core).unwrap();
    let shadow_settlement_bound = core
        .knowledge_shadow_settlement_transition_resident_bytes(&opened, 4096)
        .unwrap();
    assert!(shadow_settlement_bound >= core.transition_resident_bytes(0, 0, 0, None, 4096));

    let treatment = KnowledgeShadowArmReport::new(
        ShadowArm::Treatment,
        ResourceVector::new(2, 3, 4, 5, 1),
        number(0.0),
        number(2.0),
    )
    .unwrap();
    let control = KnowledgeShadowArmReport::new(
        ShadowArm::Control,
        ResourceVector::new(1, 2, 3, 4, 1),
        number(0.0),
        number(0.0),
    )
    .unwrap();
    assert_eq!(
        core.settle_knowledge_shadow::<PinnedPolicy>(
            opened.clone(),
            KnowledgeShadowReport::paired(control, treatment),
        )
        .unwrap_err(),
        IntelligenceError::InvalidSettlement
    );
    let oversized = KnowledgeShadowArmReport::new(
        ShadowArm::Treatment,
        ResourceVector::new(11, 3, 4, 5, 1),
        number(0.0),
        number(2.0),
    )
    .unwrap();
    assert_eq!(
        core.settle_knowledge_shadow::<PinnedPolicy>(
            opened.clone(),
            KnowledgeShadowReport::paired(oversized, control),
        )
        .unwrap_err(),
        IntelligenceError::InvalidSettlement
    );
    let non_promoting = core
        .settle_knowledge_shadow::<PinnedPolicy>(opened, KnowledgeShadowReport::paired(treatment, control))
        .unwrap();
    let non_promoted =
        restore(non_promoting.checkpoint().unwrap().as_bytes()).unwrap();
    assert_eq!(non_promoted.knowledge_product(), incumbent);
    assert_eq!(
        non_promoted.knowledge().status(challenger),
        Some(KnowledgeStatus::Verified),
        "compression without downstream advantage cannot promote"
    );

    let (mut promoting, _) = verified_core(limits);
    let plan = promoting
        .plan_knowledge_shadow(restart, context, &roots, &support_facts, allowance)
        .unwrap()
        .unwrap();
    let promoted_product = plan.product();
    let predecessor = promoting.knowledge_product();
    let (open, opened) = promoting.open_knowledge_shadow::<PinnedPolicy>(plan).unwrap();
    open.commit(&mut promoting).unwrap();
    let campaign = opened.campaign();
    let treatment = KnowledgeShadowArmReport::new(
        ShadowArm::Treatment,
        ResourceVector::new(2, 2, 2, 2, 1),
        number(1.0),
        number(1.0),
    )
    .unwrap();
    let control = KnowledgeShadowArmReport::new(
        ShadowArm::Control,
        ResourceVector::new(1, 1, 1, 1, 1),
        number(0.0),
        number(0.0),
    )
    .unwrap();
    promoting
        .settle_knowledge_shadow::<PinnedPolicy>(opened, KnowledgeShadowReport::paired(treatment, control))
        .unwrap()
        .commit(&mut promoting)
        .unwrap();
    assert_eq!(
        promoting.knowledge_product(),
        promoted_product.0
    );

    let second = consolidation(&promoting, 71, &["simplify", "rewrite"]);
    let second_work = promoting.plan_knowledge_verification(Some(&second)).unwrap().unwrap();
    verify(&mut promoting, limits, second_work, 100);
    let second_plan = promoting
        .plan_knowledge_shadow(
            CheckpointDigest::new([0x81; 32]),
            SubjectId::new([0x82; 32]),
            &roots,
            &[],
            allowance,
        )
        .unwrap()
        .unwrap();
    let second_product = second_plan.product();
    let (second_shadow_open, second_shadow_opened) =
        promoting.open_knowledge_shadow::<PinnedPolicy>(second_plan).unwrap();
    let second_campaign = second_shadow_opened.campaign();
    second_shadow_open.commit(&mut promoting).unwrap();
    promoting
        .settle_knowledge_shadow::<PinnedPolicy>(
            second_shadow_opened,
            KnowledgeShadowReport::paired(treatment, control),
        )
        .unwrap()
        .commit(&mut promoting)
        .unwrap();
    assert_eq!(
        promoting.knowledge_product(),
        second_product.0
    );

    let before_invalidation = promoting.checkpoint();
    let invalid_a = ShadowUpdate::invalidate(
        campaign,
        ShadowInvalidationReason::CheckpointMismatch,
    );
    let invalid_b = ShadowUpdate::invalidate(
        second_campaign,
        ShadowInvalidationReason::CheckpointMismatch,
    );
    promoting
        .stage::<PinnedPolicy>(SettlementFrame::observations(
            &[],
            &[],
            &[],
            &[invalid_b.clone(), invalid_a.clone()],
        ))
        .unwrap()
        .commit(&mut promoting)
        .unwrap();
    assert_eq!(promoting.knowledge_product(), predecessor);
    assert_eq!(promoting.knowledge_generation(), 4);

    let mut reverse = restore(before_invalidation.as_bytes()).unwrap();
    reverse
        .stage::<PinnedPolicy>(SettlementFrame::observations(
            &[],
            &[],
            &[],
            &[invalid_a, invalid_b],
        ))
        .unwrap()
        .commit(&mut reverse)
        .unwrap();
    assert_eq!(reverse.knowledge_product(), predecessor);
    assert_eq!(reverse.knowledge_generation(), 4);
    let roundtrip = restore(reverse.checkpoint().as_bytes()).unwrap();
    assert_eq!(roundtrip.knowledge_product(), predecessor);
    assert_eq!(roundtrip.knowledge_generation(), 4);

    let first_repromotion = promoting
        .plan_knowledge_shadow(
            CheckpointDigest::new([0x91; 32]),
            SubjectId::new([0x92; 32]),
            &roots,
            &support_facts,
            allowance,
        )
        .unwrap()
        .unwrap();
    assert_eq!(first_repromotion.product(), promoted_product);
    let (first_reopen, first_reopened) =
        promoting.open_knowledge_shadow::<PinnedPolicy>(first_repromotion).unwrap();
    first_reopen.commit(&mut promoting).unwrap();
    promoting
        .settle_knowledge_shadow::<PinnedPolicy>(
            first_reopened,
            KnowledgeShadowReport::paired(treatment, control),
        )
        .unwrap()
        .commit(&mut promoting)
        .unwrap();
    assert_eq!(
        promoting.knowledge_product(),
        promoted_product.0
    );

    let second_repromotion = promoting
        .plan_knowledge_shadow(
            CheckpointDigest::new([0xa1; 32]),
            SubjectId::new([0xa2; 32]),
            &roots,
            &[],
            allowance,
        )
        .unwrap()
        .unwrap();
    assert_eq!(second_repromotion.product(), second_product);
    let (second_reopen, second_reopened) =
        promoting.open_knowledge_shadow::<PinnedPolicy>(second_repromotion).unwrap();
    second_reopen.commit(&mut promoting).unwrap();
    promoting
        .settle_knowledge_shadow::<PinnedPolicy>(
            second_reopened,
            KnowledgeShadowReport::paired(treatment, control),
        )
        .unwrap()
        .commit(&mut promoting)
        .unwrap();
    assert_eq!(
        promoting.knowledge_product(),
        second_product.0
    );
    assert_eq!(promoting.knowledge_generation(), 6);
}
