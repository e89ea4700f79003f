//! Refusals: for each kind of error an input that gives it.
use reflex_intelligence::allocation::{checked_layout_bytes, PortfolioBuffer};
use reflex_intelligence::arena::{OpportunityKind, OpportunitySpec};
use reflex_intelligence::causal::{InvestmentOutcome, InvestmentSettlement};
use reflex_intelligence::challenger::{ContextualRequirement, KnowledgeProduct, PromotionGate};
use reflex_intelligence::checkpoint::CheckpointWire;
use reflex_intelligence::compilation::{CompilationRoots, KnowledgeCompilationError};
use reflex_intelligence::compiler::KnowledgeUpdate;
use reflex_intelligence::consolidation::{ConsolidationChallenger, DerivedOperator, OperatorStep};
use reflex_intelligence::digest::{hash_bytes, Digest};
use reflex_intelligence::ecology::{EcologyEdit, SpecialistMandate, SpecialistRevision};
use reflex_intelligence::forecast::{Forecast, ForecastAxis, ScoredForecast};
use reflex_intelligence::intelligence::IntelligenceCore;
use reflex_intelligence::investment::InvestmentSpec;
use reflex_intelligence::ledger::CausalLedger;
use reflex_intelligence::market::{MarketArena, MarketFrame};
use reflex_intelligence::model::{CompactModel, ModelHead};
use reflex_intelligence::policy::{PinnedPolicy, PolicyUpdate, RuntimePolicyRevision};
use reflex_intelligence::receipt::InvestmentReceipt;
use reflex_intelligence::shadow::ShadowCampaignId;
use reflex_intelligence::transition::{NativeEcologyPlan, SettlementFrame};
use reflex_intelligence::types::{
    IntelligenceError, IntelligenceLimits, OpportunityId, ResourceVector, RoleId,
    SpecialistRevisionId, SubjectId,
};

fn limits() -> IntelligenceLimits {
    IntelligenceLimits::new(2, 2, 4, 8, 2, 64 * 1024).unwrap()
}

fn fresh() -> IntelligenceCore {
    IntelligenceCore::fresh::<PinnedPolicy>(limits())
}

fn refused(core: &IntelligenceCore, frame: SettlementFrame<'_>) -> IntelligenceError {
    let before = core.checkpoint();
    let error = core.stage::<PinnedPolicy>(frame).unwrap_err();
    assert_eq!(core.checkpoint(), before, "a refusal leaves everything as it was");
    error
}

fn specialist(role: &str) -> SpecialistRevision {
    SpecialistRevision::new(
        SpecialistMandate::for_opportunities(
            RoleId::new(role).unwrap(),
            &[ForecastAxis::Novelty],
            &[OpportunityKind::Candidate],
            &[OpportunitySpec::candidate_schema()],
        )
        .unwrap(),
        model(),
    )
    .unwrap()
}

fn model() -> CompactModel {
    CompactModel::new(
        Some(1),
        vec![ModelHead {
            axis: ForecastAxis::Novelty,
            intercept: 0,
            weights: vec![1.0f32.to_bits()],
            calibration_error: 0.1f32.to_bits(),
            support: 16,
        }],
    )
    .unwrap()
}

/// A market with one opportunity and one investment in it.
fn market() -> MarketArena {
    let mut market = MarketArena::try_with_capacity(limits()).unwrap();
    let opportunity = market
        .push_opportunity(OpportunitySpec::candidate([9; 32]), &[0.5f32.to_bits()])
        .unwrap();
    market
        .push_investment(InvestmentSpec::verify(
            opportunity,
            ResourceVector::new(1, 1, 0, 1, 1),
            0,
        ))
        .unwrap();
    market
}

fn receipt(core: &IntelligenceCore) -> InvestmentReceipt {
    let market = market();
    let mut output = PortfolioBuffer::try_with_capacity(limits()).unwrap();
    core.allocate(
        MarketFrame::new(&market, ResourceVector::new(1, 1, 0, 1, 1)),
        1,
        &[],
        &mut output,
    )
    .unwrap();
    output.portfolio().receipts()[0]
}

fn settlement(receipt: &InvestmentReceipt) -> InvestmentSettlement {
    InvestmentSettlement::new(
        receipt.decision(),
        InvestmentOutcome::VerifiedAccepted {
            verification_record: SubjectId::new([18; 32]),
        },
        receipt.resources(),
    )
}

fn consolidation(core: &IntelligenceCore, product: u8) -> ConsolidationChallenger {
    ConsolidationChallenger {
        product: Digest::new([product; 32]),
        base_product: core.knowledge_product(),
        source: Digest::new([20; 32]),
        support: Digest::new([21; 32]),
        operators: vec![DerivedOperator {
            id: hash_bytes(b"simplify"),
            steps: vec![
                OperatorStep { bytes: b"a".to_vec() },
                OperatorStep { bytes: b"b".to_vec() },
            ],
            support: (1_u8..=8).map(|case| Digest::new([case; 32])).collect(),
        }],
    }
}

#[test]
fn limits_that_leave_no_room_are_invalid() {
    assert_eq!(
        IntelligenceLimits::new(0, 2, 4, 8, 1, 1024),
        Err(IntelligenceError::InvalidLimits),
    );
    assert_eq!(
        limits().with_maximum_specialists_per_route(0),
        Err(IntelligenceError::InvalidLimits),
    );
}

#[test]
fn layouts_that_no_memory_holds_overflow() {
    assert_eq!(checked_layout_bytes(5, &[(2, 3), (4, 1)]), Ok(15));
    assert_eq!(
        checked_layout_bytes(5, &[(usize::MAX, 2)]),
        Err(IntelligenceError::ResourceOverflow),
    );
    assert_eq!(
        checked_layout_bytes(5, &[(usize::MAX, 1)]),
        Err(IntelligenceError::ResourceOverflow),
    );
}

#[test]
fn features_must_be_finite() {
    let mut market = MarketArena::try_with_capacity(limits()).unwrap();
    assert_eq!(
        market.push_opportunity(OpportunitySpec::candidate([9; 32]), &[f32::NAN.to_bits()]),
        Err(IntelligenceError::InvalidFeature),
    );
    assert_eq!(market.opportunity_count(), 0);
}

#[test]
fn a_market_takes_no_more_than_it_has_room_for() {
    let mut market = market();
    market
        .push_opportunity(OpportunitySpec::candidate([8; 32]), &[])
        .unwrap();
    assert_eq!(
        market.push_opportunity(OpportunitySpec::candidate([7; 32]), &[]),
        Err(IntelligenceError::CapacityExceeded),
    );
    assert_eq!(
        market.push_investment(InvestmentSpec::verify(
            OpportunityId(9),
            ResourceVector::new(1, 1, 0, 1, 1),
            0,
        )),
        Err(IntelligenceError::InvalidReference),
    );
}

#[test]
fn bids_must_answer_to_the_mandate() {
    let mut core = fresh();
    let edit = [EcologyEdit::Spawn(specialist("first"))];
    core.stage::<PinnedPolicy>(SettlementFrame::edits(&edit))
        .unwrap()
        .commit(&mut core)
        .unwrap();
    let market = market();
    let frame = MarketFrame::new(&market, ResourceVector::new(1, 1, 0, 1, 1));
    let mut output = PortfolioBuffer::try_with_capacity(limits()).unwrap();
    let answer = |axis: ForecastAxis| ScoredForecast {
        forecast: Forecast::with_uncertainty(axis, 0, 0, 0, 1).unwrap(),
        conservative_value: 0,
    };
    core.allocate(frame, 1, &[vec![answer(ForecastAxis::Novelty)]], &mut output)
        .unwrap();
    assert_eq!(output.specialists_evaluated(), 1);
    assert_eq!(
        core.allocate(
            frame,
            1,
            &[vec![answer(ForecastAxis::DeadEndRisk)]],
            &mut output
        ),
        Err(IntelligenceError::InvalidMandate),
    );
    assert!(output.portfolio().allocations().is_empty());
}

#[test]
fn mandates_and_models_must_say_something() {
    assert_eq!(
        SpecialistMandate::all(RoleId::new("role").unwrap(), &[]),
        Err(IntelligenceError::InvalidMandate),
    );
    assert_eq!(
        CompactModel::new(Some(1), vec![]),
        Err(IntelligenceError::InvalidModel),
    );
    assert!(RoleId::new("").is_err());
}

#[test]
fn ecology_edits_name_specialists_that_are_there() {
    let mut core = fresh();
    assert_eq!(
        refused(
            &core,
            SettlementFrame::edits(&[EcologyEdit::Retire(SpecialistRevisionId::new([7; 32]))]),
        ),
        IntelligenceError::MissingSpecialist,
    );
    let edit = [EcologyEdit::Spawn(specialist("first"))];
    core.stage::<PinnedPolicy>(SettlementFrame::edits(&edit))
        .unwrap()
        .commit(&mut core)
        .unwrap();
    assert_eq!(
        refused(&core, SettlementFrame::edits(&edit)),
        IntelligenceError::DuplicateSpecialist,
    );
    let more = [
        EcologyEdit::Spawn(specialist("second")),
        EcologyEdit::Spawn(specialist("third")),
    ];
    assert_eq!(
        refused(&core, SettlementFrame::edits(&more)),
        IntelligenceError::CapacityExceeded,
    );
}

#[test]
fn experience_is_recorded_once() {
    let mut core = fresh();
    let receipts = [receipt(&core)];
    let settlements = [settlement(&receipts[0])];
    let frame = SettlementFrame::observations(&receipts, &settlements, &[], &[]);
    assert_eq!(
        refused(&core, SettlementFrame::observations(&receipts, &[], &[], &[])),
        IntelligenceError::InvalidSettlement,
    );
    core.stage::<PinnedPolicy>(frame)
        .unwrap()
        .commit(&mut core)
        .unwrap();
    assert_eq!(
        refused(&core, frame),
        IntelligenceError::StaleTransition,
        "the receipt was issued under an earlier revision"
    );
    let mut ledger = CausalLedger::default();
    ledger
        .apply(&receipts, &settlements, &[], &[], limits())
        .unwrap();
    let root = ledger.canonical_root();
    assert_eq!(
        ledger.apply(&receipts, &settlements, &[], &[], limits()),
        Err(IntelligenceError::DuplicateExperience),
    );
    assert_eq!(ledger.canonical_root(), root);
}

#[test]
fn knowledge_is_proposed_once() {
    let mut core = fresh();
    let exact = consolidation(&core, 70);
    let work = core.plan_knowledge_verification(Some(&exact)).unwrap().unwrap();
    let updates = [KnowledgeUpdate::Propose(work.challenger().duplicate())];
    let frame = SettlementFrame::knowledge(&updates);
    core.stage::<PinnedPolicy>(frame)
        .unwrap()
        .commit(&mut core)
        .unwrap();
    assert_eq!(refused(&core, frame), IntelligenceError::DuplicateKnowledge);
    assert_eq!(
        refused(
            &core,
            SettlementFrame::knowledge(&[KnowledgeUpdate::EvaluatePromotion(
                consolidated(&core, 71)
            )]),
        ),
        IntelligenceError::InvalidReference,
    );
}

/// The name of a challenger that nobody has proposed.
fn consolidated(
    core: &IntelligenceCore,
    product: u8,
) -> reflex_intelligence::challenger::KnowledgeChallengerId {
    core.plan_knowledge_verification(Some(&consolidation(core, product)))
        .unwrap()
        .unwrap()
        .id()
}

#[test]
fn products_and_gates_must_be_well_formed() {
    assert_eq!(
        KnowledgeProduct::artifact(SubjectId::new([1; 32])).with_bytes(vec![]),
        Err(IntelligenceError::InvalidKnowledge),
    );
    assert_eq!(PromotionGate::all(&[]), Err(IntelligenceError::InvalidKnowledge));
    assert_eq!(
        ContextualRequirement::new(ForecastAxis::Novelty, (-1.0f32).to_bits()),
        Err(IntelligenceError::InvalidKnowledge),
    );
}

#[test]
fn a_policy_is_compared_on_a_campaign_that_is_recorded() {
    let core = fresh();
    let update = PolicyUpdate::comparison(
        ShadowCampaignId(Digest::new([3; 32])),
        RuntimePolicyRevision(Digest::new([4; 32])),
    );
    assert_eq!(
        refused(&core, SettlementFrame::empty().with_policy_update(&update)),
        IntelligenceError::InvalidPolicy,
    );
}

#[test]
fn checkpoints_are_refused_for_what_they_are() {
    let core = fresh();
    let mut bytes = core.checkpoint_bytes().to_vec();
    assert_eq!(
        IntelligenceCore::restore::<PinnedPolicy>(&bytes[..8]).unwrap_err(),
        IntelligenceError::CorruptState,
    );
    let last = bytes.len() - 1;
    bytes[last] ^= 1;
    assert_eq!(
        IntelligenceCore::restore::<PinnedPolicy>(&bytes).unwrap_err(),
        IntelligenceError::CorruptState,
    );
    let mut foreign = b"NONE\x01 and whatever else".to_vec();
    let checksum = hash_bytes(&foreign).to_bytes();
    foreign.extend_from_slice(&checksum);
    assert_eq!(
        IntelligenceCore::restore::<PinnedPolicy>(&foreign).unwrap_err(),
        IntelligenceError::IncompatibleRevision,
    );
}

#[test]
fn a_transition_fits_the_core_it_was_staged_on() {
    let mut core = fresh();
    let edit = [EcologyEdit::Spawn(specialist("first"))];
    let receipts = [receipt(&core)];
    let settlements = [settlement(&receipts[0])];
    let late = core
        .stage::<PinnedPolicy>(SettlementFrame::observations(&receipts, &settlements, &[], &[]))
        .unwrap();
    core.stage::<PinnedPolicy>(SettlementFrame::edits(&edit))
        .unwrap()
        .commit(&mut core)
        .unwrap();
    let before = core.checkpoint();
    assert_eq!(late.commit(&mut core), Err(IntelligenceError::StaleTransition));
    assert_eq!(core.checkpoint(), before);
}

#[test]
fn recipes_are_executed_under_the_revision_that_offered_them() {
    let mut core = fresh();
    let resources = ResourceVector::new(10, 10, 0, 10, 0);
    let plan = core.prepare_knowledge_compilation(resources);
    let broad = reflex_intelligence::compilation::knowledge_compiler_subject("broad-roots");
    let focused = reflex_intelligence::compilation::knowledge_compiler_subject("pareto-roots");
    let producer = receipt(&core).decision();
    assert_eq!(plan.roots_for(&core, broad), Ok(CompilationRoots::Every));
    assert_eq!(
        plan.roots_for(&core, focused),
        Ok(CompilationRoots::Undominated),
    );
    assert_eq!(
        plan.roots_for(&core, SubjectId::new([5; 32])),
        Err(IntelligenceError::InvalidReference),
    );
    assert!(matches!(
        plan.execute(&core, producer, broad, Err::<Option<ConsolidationChallenger>, u8>(7)),
        Err(KnowledgeCompilationError::Source(7))
    ));
    let edit = [EcologyEdit::Spawn(specialist("first"))];
    core.stage::<PinnedPolicy>(SettlementFrame::edits(&edit))
        .unwrap()
        .commit(&mut core)
        .unwrap();
    assert!(matches!(
        plan.execute(&core, producer, broad, Ok::<_, u8>(None)),
        Err(KnowledgeCompilationError::Intelligence(
            IntelligenceError::StaleTransition
        ))
    ));
}

#[test]
fn an_experiment_starts_from_settled_work_and_an_empty_template() {
    let mut core = fresh();
    let edit = [EcologyEdit::Spawn(specialist("first"))];
    core.stage::<PinnedPolicy>(SettlementFrame::edits(&edit))
        .unwrap()
        .commit(&mut core)
        .unwrap();
    assert!(!core.has_open_work());
    let template = fresh();
    let ablated = core
        .treatment_ablation_for_experiment::<PinnedPolicy>(
            b"meaning",
            Some((&template, b"meaning")),
            None,
        )
        .unwrap();
    assert!(ablated.manifest().ecology.is_empty());
    assert_eq!(
        core.treatment_ablation_for_experiment::<PinnedPolicy>(
            b"meaning",
            Some((&template, b"other")),
            None,
        )
        .unwrap_err(),
        IntelligenceError::InvalidModel,
    );
    assert_eq!(
        core.treatment_ablation_for_experiment::<PinnedPolicy>(
            b"meaning",
            Some((&core, b"meaning")),
            None,
        )
        .unwrap_err(),
        IntelligenceError::InvalidModel,
    );
    let same = core
        .treatment_ablation_for_experiment::<PinnedPolicy>(b"meaning", None, None)
        .unwrap();
    assert_eq!(
        same.manifest().ecology.canonical_root(),
        core.manifest().ecology.canonical_root(),
    );
}

fn plan(identity: u8) -> NativeEcologyPlan {
    NativeEcologyPlan {
        identity: Digest::new([identity; 32]),
        selection_cases: vec![],
        edits: vec![EcologyEdit::Spawn(specialist("trained"))],
        resident_bytes: 100,
    }
}

#[test]
fn a_plan_is_bound_to_the_core_and_the_evidence_it_was_made_for() {
    let mut core = fresh();
    let receipts = [receipt(&core)];
    let settlements = [settlement(&receipts[0])];
    let evidence = SettlementFrame::observations(&receipts, &settlements, &[], &[]);
    assert!(core
        .prepare_native_training(evidence, None, 7)
        .unwrap()
        .is_none());
    let prepared = core
        .prepare_native_training(evidence, Some(plan(1)), 7)
        .unwrap()
        .unwrap();
    assert_eq!(prepared.identity(), Digest::new([1; 32]));
    assert_eq!(prepared.resident_bytes(), 100);
    assert_eq!(prepared.scratch_bytes(), 7);
    assert_eq!(prepared.comparison_resident_bytes(1_000), 1_107);
    assert_eq!(prepared.comparison_resident_bytes(u64::MAX), u64::MAX);
    assert_eq!(
        core.reproduce_prepared_native_training(evidence, &prepared, Some(plan(1))),
        Ok(true),
    );
    assert_eq!(
        core.reproduce_prepared_native_training(evidence, &prepared, Some(plan(2))),
        Ok(false),
    );
    assert_eq!(
        core.reproduce_prepared_native_training(evidence, &prepared, None),
        Ok(false),
    );
    assert_eq!(
        core.reproduce_prepared_native_training(SettlementFrame::empty(), &prepared, None),
        Err(IntelligenceError::StaleTransition),
    );
    let edit = [EcologyEdit::Spawn(specialist("first"))];
    assert_eq!(
        core.prepare_native_training(SettlementFrame::edits(&edit), Some(plan(1)), 7)
            .unwrap_err(),
        IntelligenceError::InvalidModel,
    );
    core.stage::<PinnedPolicy>(evidence.with_prepared_native_training(&prepared))
        .unwrap()
        .commit(&mut core)
        .unwrap();
    assert_eq!(core.manifest().ecology.specialists().len(), 1);
    assert_eq!(core.experience().receipts().len(), 1);
    assert_eq!(
        refused(&core, evidence.with_prepared_native_training(&prepared)),
        IntelligenceError::StaleTransition,
    );
}

#[test]
fn a_checkpoint_is_read_as_the_version_that_it_announces() {
    let core = fresh();
    let bytes = core.checkpoint_bytes();
    let current = CheckpointWire::current();
    assert_eq!(
        IntelligenceCore::restore_segmented::<PinnedPolicy>(current, bytes)
            .unwrap()
            .checkpoint(),
        core.checkpoint(),
    );
    assert_eq!(
        IntelligenceCore::restore_segmented::<PinnedPolicy>(CheckpointWire::legacy_v16(), bytes)
            .unwrap_err(),
        IntelligenceError::IncompatibleRevision,
    );
    assert_eq!(
        IntelligenceCore::restore_segmented::<PinnedPolicy>(current, &bytes[..4]).unwrap_err(),
        IntelligenceError::CorruptState,
    );
}
