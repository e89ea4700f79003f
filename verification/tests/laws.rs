//! What holds of the library as a whole, on concrete values.
use reflex_intelligence::allocation::PortfolioBuffer;
use reflex_intelligence::arena::{OpportunityKind, OpportunitySpec};
use reflex_intelligence::causal::{InvestmentOutcome, InvestmentSettlement};
use reflex_intelligence::checkpoint::CheckpointWire;
use reflex_intelligence::codec::Decoder;
use reflex_intelligence::compiler::{KnowledgeCompiler, KnowledgeUpdate};
use reflex_intelligence::consolidation::{
    obligation_of, ConsolidationChallenger, DerivedOperator, KnowledgeState, OperatorStep,
};
use reflex_intelligence::digest::{hash_bytes, Digest};
use reflex_intelligence::ecology::{
    EcologyEdit, ModelEcology, SpecialistMandate, SpecialistRevision,
};
use reflex_intelligence::forecast::ForecastAxis;
use reflex_intelligence::intelligence::IntelligenceCore;
use reflex_intelligence::investment::InvestmentSpec;
use reflex_intelligence::knowledge::{KnowledgeInvalidationReason, KnowledgeWork};
use reflex_intelligence::ledger::{CausalDelta, CausalLedger};
use reflex_intelligence::market::{MarketArena, MarketFrame};
use reflex_intelligence::model::{CompactModel, ModelHead};
use reflex_intelligence::planning::KnowledgeVerificationReport;
use reflex_intelligence::policy::{PinnedPolicy, PolicyUpdate, RuntimePolicyRevision};
use reflex_intelligence::receipt::InvestmentReceipt;
use reflex_intelligence::shadow::{
    ShadowArm, ShadowArmOutcome, ShadowCampaignId, ShadowCampaignLifecycle, ShadowCampaignSpec,
    ShadowInvalidationReason, ShadowUpdate, TypedOutcome,
};
use reflex_intelligence::transition::SettlementFrame;
use reflex_intelligence::types::{
    IntelligenceError, IntelligenceLimits, ResourceVector, RoleId, SubjectId,
};

fn limits() -> IntelligenceLimits {
    IntelligenceLimits::new(8, 16, 16, 128, 4, 64 * 1024).unwrap()
}

fn fresh() -> IntelligenceCore {
    IntelligenceCore::fresh::<PinnedPolicy>(limits())
}

fn restore(bytes: &[u8]) -> IntelligenceCore {
    IntelligenceCore::restore::<PinnedPolicy>(bytes).unwrap()
}

fn commit(core: &mut IntelligenceCore, frame: SettlementFrame<'_>) {
    core.stage::<PinnedPolicy>(frame).unwrap().commit(core).unwrap();
}

/// A product that is derived from some operators and takes the place of the active one.
fn consolidation(base_product: Digest, product: u8, names: &[&str]) -> ConsolidationChallenger {
    let product = Digest::new([product; 32]);
    let mut operators: Vec<DerivedOperator> = names
        .iter()
        .map(|name| DerivedOperator {
            id: hash_bytes(name.as_bytes()),
            steps: vec![
                OperatorStep { bytes: name.as_bytes().to_vec() },
                OperatorStep { bytes: name.as_bytes().to_vec() },
            ],
            support: (1_u8..=8).map(|case| Digest::new([case; 32])).collect(),
        })
        .collect();
    operators.sort_by_key(|operator| obligation_of(product, operator.id).identity());
    ConsolidationChallenger {
        product,
        base_product,
        source: Digest::new([20; 32]),
        support: Digest::new([21; 32]),
        operators,
    }
}

/// The receipt of a verification, and its settlement.
fn verification(
    core: &IntelligenceCore,
    subject: SubjectId,
    epoch: u64,
) -> (InvestmentReceipt, InvestmentSettlement) {
    let declared = ResourceVector::new(2, 0, 2, 0, 1);
    let mut market = MarketArena::try_with_capacity(limits()).unwrap();
    let opportunity = market
        .push_opportunity(
            OpportunitySpec::candidate(subject.identity()),
            &[1.0f32.to_bits()],
        )
        .unwrap();
    market
        .push_investment(InvestmentSpec::verify(opportunity, declared, 0))
        .unwrap();
    let mut output = PortfolioBuffer::try_with_capacity(limits()).unwrap();
    core.allocate(
        MarketFrame::new(&market, declared).at_epoch(epoch),
        1,
        &[],
        &mut output,
    )
    .unwrap();
    let receipt = output.portfolio().receipts()[0];
    let settlement = InvestmentSettlement::new(
        receipt.decision(),
        InvestmentOutcome::VerifiedAccepted {
            verification_record: subject,
        },
        ResourceVector::new(1, 0, 1, 0, 1),
    );
    (receipt, settlement)
}

/// The receipts for some work, their settlements, and what they reserve.
fn paid(
    core: &IntelligenceCore,
    work: &KnowledgeWork,
) -> (Vec<InvestmentReceipt>, Vec<InvestmentSettlement>, ResourceVector) {
    let (receipts, settlements): (Vec<_>, Vec<_>) = work
        .obligations()
        .iter()
        .zip(0u64..)
        .map(|(obligation, epoch)| verification(core, obligation.subject(), epoch))
        .unzip();
    let reserved = receipts
        .iter()
        .try_fold(ResourceVector::default(), |total, receipt| {
            total.checked_add(receipt.resources())
        })
        .unwrap();
    (receipts, settlements, reserved)
}

/// A core that has verified a consolidation of its own.
fn verified_core() -> (IntelligenceCore, ConsolidationChallenger) {
    let mut core = fresh();
    let exact = consolidation(core.knowledge_product(), 70, &["simplify"]);
    let work = core.plan_knowledge_verification(Some(&exact)).unwrap().unwrap();
    let (receipts, settlements, reserved) = paid(&core, &work);
    let (open, opened) = core
        .open_knowledge_verification::<PinnedPolicy>(work, &receipts, reserved)
        .unwrap();
    open.commit(&mut core).unwrap();
    core.settle_opened_knowledge_verification::<PinnedPolicy>(
        &opened,
        KnowledgeVerificationReport::settled(&settlements),
    )
    .unwrap()
    .commit(&mut core)
    .unwrap();
    (core, exact)
}

fn specialist(role: &str, weight: f32) -> SpecialistRevision {
    let schema = OpportunitySpec::candidate_schema();
    SpecialistRevision::new(
        SpecialistMandate::for_opportunities(
            RoleId::new(role).unwrap(),
            &[ForecastAxis::Novelty],
            &[OpportunityKind::Candidate],
            &[schema],
        )
        .unwrap(),
        CompactModel::new(
            Some(1),
            vec![ModelHead {
                axis: ForecastAxis::Novelty,
                intercept: 0.0f32.to_bits(),
                weights: vec![weight.to_bits()],
                calibration_error: 0.1f32.to_bits(),
                support: 16,
            }],
        )
        .unwrap(),
    )
    .unwrap()
}

/// A campaign on a core, and the outcomes of its two arms.
fn campaign(core: &IntelligenceCore, seed: u8) -> (ShadowCampaignSpec, Vec<ShadowUpdate>) {
    let resources = ResourceVector::new(10, 10, 10, 10, 2);
    let stream = SubjectId::new([seed; 32]);
    let specification = ShadowCampaignSpec::new(
        core.checkpoint().digest(),
        SubjectId::new([20; 32]),
        resources,
        stream,
        &[ForecastAxis::Novelty],
    )
    .unwrap();
    let outcome = |arm: ShadowArm, value: f32| {
        ShadowUpdate::Outcome(
            ShadowArmOutcome::new(
                specification.id(),
                arm,
                specification.checkpoint(),
                resources,
                stream,
                &[TypedOutcome::new(ForecastAxis::Novelty, value.to_bits()).unwrap()],
            )
            .unwrap(),
        )
    };
    let updates = vec![
        ShadowUpdate::Open(specification),
        outcome(ShadowArm::Treatment, 0.75),
        outcome(ShadowArm::Control, 0.25),
    ];
    (specification, updates)
}

/// The bytes of the experience of a core.
fn experience(core: &IntelligenceCore) -> Vec<u8> {
    let mut bytes = Vec::new();
    core.experience().ledger.encode_canonical(&mut bytes);
    bytes
}

/// The bytes of the knowledge of a core.
fn knowledge(core: &IntelligenceCore) -> Vec<u8> {
    let mut bytes = Vec::new();
    core.knowledge().encode_canonical(&mut bytes);
    bytes
}

/// The bytes of the ecology of a core.
fn ecology(core: &IntelligenceCore) -> Vec<u8> {
    let mut bytes = Vec::new();
    core.manifest().ecology.encode_canonical(&mut bytes);
    bytes
}

#[test]
fn a_challenger_reads_back_as_it_was_written() {
    let (core, _) = verified_core();
    let challenger = core.knowledge().records()[0].challenger();
    let mut bytes = Vec::new();
    challenger.encode_canonical(&mut bytes);
    assert_eq!(bytes.len(), challenger.canonical_encoded_len());
    assert_eq!(bytes[..32], challenger.id().identity());
    bytes.push(9);
    let mut input = Decoder::new(&bytes);
    let read = reflex_intelligence::challenger::KnowledgeChallenger::decode(
        &mut input,
        reflex_intelligence::challenger::KnowledgeWireFormat::V8,
        64 * 1024,
    )
    .unwrap();
    assert_eq!(&read, challenger);
    assert_eq!(input.rest(), [9]);
}

#[test]
fn knowledge_updates_read_back_as_they_were_written() {
    let core = fresh();
    let exact = consolidation(core.knowledge_product(), 70, &["simplify", "rewrite"]);
    let work = core.plan_knowledge_verification(Some(&exact)).unwrap().unwrap();
    let (receipts, _, reserved) = paid(&core, &work);
    let id = work.id();
    let updates = vec![
        KnowledgeUpdate::Propose(work.challenger().duplicate()),
        KnowledgeUpdate::Invalidate {
            challenger: id,
            reason: KnowledgeInvalidationReason::Witness,
        },
        KnowledgeUpdate::EvaluatePromotion(id),
        KnowledgeUpdate::OpenVerification { work, receipts, reserved },
        KnowledgeUpdate::CompleteVerification(id),
        KnowledgeUpdate::InterruptVerification(id),
    ];
    let mut bytes = Vec::new();
    KnowledgeCompiler::encode_updates(&updates, &mut bytes);
    let mut input = Decoder::new(&bytes);
    assert_eq!(
        KnowledgeCompiler::decode_updates(&mut input, limits()),
        Ok(updates),
    );
    assert!(input.is_finished());
}

#[test]
fn knowledge_reads_back_in_every_format_that_carries_it() {
    let (core, _) = verified_core();
    let compiler = core.knowledge();
    let ledger = core.experience().ledger;
    let mut bytes = knowledge(&core);
    assert_eq!(
        &KnowledgeCompiler::decode_canonical(&mut Decoder::new(&bytes), ledger, limits()).unwrap(),
        compiler,
    );
    bytes.clear();
    compiler.encode_legacy_v14(&mut bytes);
    assert_eq!(
        &KnowledgeCompiler::decode_legacy_v14(&mut Decoder::new(&bytes), ledger, limits())
            .unwrap(),
        compiler,
    );
    bytes.clear();
    compiler.encode_legacy_v13(&mut bytes);
    assert_eq!(
        &KnowledgeCompiler::decode_legacy_v13(&mut Decoder::new(&bytes), ledger, limits())
            .unwrap(),
        compiler,
    );
    bytes.clear();
    compiler.encode_legacy_v7(&mut bytes).unwrap();
    assert_eq!(
        &KnowledgeCompiler::decode_legacy_v7(&mut Decoder::new(&bytes), ledger, limits()).unwrap(),
        compiler,
    );
    bytes.clear();
    assert!(
        compiler.encode_legacy_v6(&mut bytes).is_err(),
        "the oldest format has no room for a payload"
    );
}

#[test]
fn consolidations_and_knowledge_states_read_back() {
    let mut state = KnowledgeState::default();
    let exact = consolidation(state.product(), 70, &["simplify", "rewrite"]);
    assert_eq!(ConsolidationChallenger::decode(&exact.encode()), Ok(exact.duplicate()));
    state.activate_reverified_challenger(&exact).unwrap();
    assert_eq!(KnowledgeState::decode(&state.encode()), Ok(state.duplicate()));
    assert!(KnowledgeState::decode(&state.encode()[1..]).is_err());
}

#[test]
fn a_rollback_undoes_an_activation() {
    let mut state = KnowledgeState::default();
    let before = state.product();
    let operators = state.pinned_revision().operators().to_vec();
    let exact = consolidation(before, 70, &["simplify"]);
    state.activate_reverified_challenger(&exact).unwrap();
    assert_eq!(state.product(), exact.product);
    assert_eq!(state.generation(), 1);
    state.rollback_promoted_product(exact.product).unwrap();
    assert_eq!(state.product(), before);
    assert_eq!(state.pinned_revision().operators(), operators);
    assert_eq!(state.generation(), 2, "the generation never goes back");
}

#[test]
fn a_step_without_change_is_no_step() {
    let (mut core, _) = verified_core();
    let before = core.checkpoint();
    let transition = core.stage::<PinnedPolicy>(SettlementFrame::empty()).unwrap();
    assert_eq!(transition.revision(), core.active_revision());
    transition.commit(&mut core).unwrap();
    assert_eq!(core.checkpoint(), before);
}

#[test]
fn a_step_that_adds_to_no_list_is_always_taken() {
    let core = fresh();
    let (specification, updates) = campaign(&core, 7);
    let mut ledger = CausalLedger::default();
    let empty = ledger.prepare_delta(&[], &[], &[], &[], limits()).unwrap();
    assert_eq!(ledger.reservation_resident_bytes(&empty), 0);
    assert_eq!(ledger.reserve_for_delta(&empty), Ok(()));
    assert_eq!(ledger.commit_delta(empty), Ok(()));
    assert_eq!(ledger.apply(&[], &[], &[], &updates, limits()), Ok(()));
    assert_eq!(ledger.shadows()[0].specification.id(), specification.id());
    assert_eq!(ledger.contrasts().len(), 1);
}

#[test]
fn every_step_is_restored_from_its_checkpoint() {
    let mut core = fresh();
    let (specification, updates) = campaign(&core, 7);
    let first = specialist("first", 0.5);
    let (receipt, settlement) = verification(&core, SubjectId::new([18; 32]), 3);
    let exact = consolidation(core.knowledge_product(), 70, &["simplify"]);
    let work = core.plan_knowledge_verification(Some(&exact)).unwrap().unwrap();
    let proposal = [KnowledgeUpdate::Propose(work.challenger().duplicate())];
    let edit = [EcologyEdit::Spawn(first)];
    let withdrawal = [ShadowUpdate::invalidate(
        specification.id(),
        ShadowInvalidationReason::CheckpointMismatch,
    )];
    let receipts = [receipt];
    let settlements = [settlement];
    for frame in [
        SettlementFrame::observations(&receipts, &settlements, &[], &updates),
        SettlementFrame::edits(&edit),
        SettlementFrame::knowledge(&proposal),
        SettlementFrame::observations(&[], &[], &[], &withdrawal),
    ] {
        let transition = core.stage::<PinnedPolicy>(frame).unwrap();
        let promised = transition.checkpoint().unwrap();
        assert_eq!(promised.as_bytes().len(), transition.checkpoint_encoded_len());
        let revision = transition.revision();
        transition.commit(&mut core).unwrap();
        assert_eq!(core.checkpoint(), promised);
        assert_eq!(core.active_revision(), revision);
        let restored = restore(core.checkpoint_bytes());
        assert_eq!(restored.checkpoint(), core.checkpoint());
        assert_eq!(restored.active_revision(), core.active_revision());
        assert_eq!(experience(&restored), experience(&core));
        assert_eq!(knowledge(&restored), knowledge(&core));
        assert_eq!(ecology(&restored), ecology(&core));
    }
}

#[test]
fn earlier_checkpoints_hold_the_same_core() {
    let mut core = fresh();
    let (_, updates) = campaign(&core, 7);
    let edit = [EcologyEdit::Spawn(specialist("first", 0.5))];
    commit(&mut core, SettlementFrame::edits(&edit));
    commit(&mut core, SettlementFrame::observations(&[], &[], &[], &updates));
    for version in 10u8..=17 {
        let wire = CheckpointWire::for_version(version).unwrap();
        let checkpoint = core.checkpoint_in::<PinnedPolicy>(wire);
        assert_eq!(checkpoint.as_bytes()[4], version);
        let restored = restore(checkpoint.as_bytes());
        assert_eq!(experience(&restored), experience(&core));
        assert_eq!(knowledge(&restored), knowledge(&core));
        assert_eq!(ecology(&restored), ecology(&core));
        assert_eq!(restored.checkpoint_bytes()[4], 17);
    }
    for version in 6u8..=9 {
        let checkpoint = core.plain_checkpoint(version).unwrap();
        assert_eq!(checkpoint.as_bytes()[4], version);
        let restored = restore(checkpoint.as_bytes());
        assert_eq!(experience(&restored), experience(&core));
        assert_eq!(knowledge(&restored), knowledge(&core));
        assert_eq!(ecology(&restored), ecology(&core));
        assert_eq!(restored.checkpoint_bytes()[4], 17);
    }
    assert!(CheckpointWire::for_version(9).is_none());
    assert!(CheckpointWire::for_version(18).is_none());
}

#[test]
fn an_ecology_reads_back_and_stays_within_its_limits() {
    let mut ecology = ModelEcology::default();
    for (role, weight) in [("first", 0.5), ("second", 0.25), ("third", 0.125)] {
        ecology
            .apply(&EcologyEdit::Spawn(specialist(role, weight)), limits())
            .unwrap();
        assert!(ecology.fits_limits(limits()));
    }
    let mut bytes = Vec::new();
    ecology.encode_canonical(&mut bytes);
    let read = ModelEcology::decode_canonical(&mut Decoder::new(&bytes), limits()).unwrap();
    assert_eq!(read.canonical_root(), ecology.canonical_root());
    assert_eq!(read.specialists(), ecology.specialists());
}

#[test]
fn a_retired_specialist_stays_retired() {
    let mut ecology = ModelEcology::default();
    let first = specialist("first", 0.5);
    let id = first.id();
    ecology.apply(&EcologyEdit::Spawn(first.duplicate()), limits()).unwrap();
    ecology.apply(&EcologyEdit::Retire(id), limits()).unwrap();
    assert!(ecology.manifest().active_ids().is_empty());
    assert_eq!(
        ecology.apply(&EcologyEdit::Retire(id), limits()),
        Err(IntelligenceError::MissingSpecialist),
    );
    assert_eq!(
        ecology.apply(&EcologyEdit::Spawn(first), limits()),
        Err(IntelligenceError::DuplicateSpecialist),
    );
    ecology
        .apply(&EcologyEdit::Spawn(specialist("second", 0.25)), limits())
        .unwrap();
    assert!(!ecology.manifest().active_ids().contains(&id));
    assert_eq!(ecology.specialists().len(), 2);
}

#[test]
fn every_record_of_knowledge_is_counted_once() {
    let (mut core, _) = verified_core();
    let second = consolidation(core.knowledge_product(), 71, &["rewrite"]);
    let work = core.plan_knowledge_verification(Some(&second)).unwrap().unwrap();
    let third = consolidation(core.knowledge_product(), 72, &["expand"]);
    let other = core.plan_knowledge_verification(Some(&third)).unwrap().unwrap();
    commit(
        &mut core,
        SettlementFrame::knowledge(&[
            KnowledgeUpdate::Propose(work.challenger().duplicate()),
            KnowledgeUpdate::Propose(other.challenger().duplicate()),
            KnowledgeUpdate::Invalidate {
                challenger: other.id(),
                reason: KnowledgeInvalidationReason::Witness,
            },
        ]),
    );
    let counts = core.knowledge_statistics();
    assert_eq!(
        (counts.provisional, counts.verified, counts.promoted, counts.invalidated),
        (1, 1, 0, 1),
    );
    let inspection = core.treatment_component_inspection();
    assert_eq!(inspection.challengers, 3);
    assert!(!inspection.verification_open);
    assert_eq!(inspection.active_operators, 0);
}

#[test]
fn experience_and_its_deltas_read_back() {
    let core = fresh();
    let mut ledger = CausalLedger::default();
    let (receipt, settlement) = verification(&core, SubjectId::new([18; 32]), 3);
    let (_, updates) = campaign(&core, 7);
    let delta = ledger
        .prepare_delta(&[receipt], &[settlement], &[], &updates, limits())
        .unwrap();
    let mut bytes = Vec::new();
    delta.encode_canonical(&mut bytes);
    let read = CausalDelta::decode_canonical(&mut Decoder::new(&bytes), &ledger, limits()).unwrap();
    assert_eq!(read.canonical_root(), delta.canonical_root());
    let promised = delta.canonical_root();
    ledger.commit_delta(delta).unwrap();
    assert_eq!(ledger.canonical_root(), promised);
    let mut written = Vec::new();
    ledger.encode_canonical(&mut written);
    let again = CausalLedger::decode_canonical(&mut Decoder::new(&written), limits()).unwrap();
    assert_eq!(again.canonical_root(), ledger.canonical_root());
    assert_eq!(again.contrasts(), ledger.contrasts());
    assert_eq!(again.contrasts().len(), 1);
    assert_eq!(again.shadows(), ledger.shadows());
}

#[test]
fn an_invalidated_campaign_stays_invalidated_and_earns_nothing() {
    let mut core = fresh();
    let (specification, updates) = campaign(&core, 7);
    commit(&mut core, SettlementFrame::observations(&[], &[], &[], &updates));
    assert_eq!(core.experience().contrasts().len(), 1);
    let withdrawal = ShadowUpdate::invalidate(
        specification.id(),
        ShadowInvalidationReason::CheckpointMismatch,
    );
    commit(&mut core, SettlementFrame::observations(&[], &[], &[], &[withdrawal]));
    assert!(core.experience().contrasts().is_empty());
    let stored = core.experience().ledger.shadows()[0];
    assert!(stored.treatment.is_some() && stored.control.is_some());
    for update in updates {
        let frame = [update];
        if let Ok(transition) =
            core.stage::<PinnedPolicy>(SettlementFrame::observations(&[], &[], &[], &frame))
        {
            transition.commit(&mut core).unwrap();
        }
        assert!(core.experience().contrasts().is_empty());
        assert_eq!(
            core.experience()
                .shadow_campaign(specification.id())
                .unwrap()
                .lifecycle(),
            ShadowCampaignLifecycle::Invalidated(ShadowInvalidationReason::CheckpointMismatch),
        );
        assert_eq!(core.experience().ledger.shadows()[0], stored);
    }
}

#[test]
fn an_update_of_the_policy_reads_back() {
    let update = PolicyUpdate::comparison(
        ShadowCampaignId(Digest::new([3; 32])),
        RuntimePolicyRevision(Digest::new([4; 32])),
    );
    let mut bytes = Vec::new();
    update.encode_canonical(&mut bytes);
    assert_eq!(bytes[..32], [3; 32]);
    assert_eq!(bytes[32..], [4; 32]);
    assert_eq!(
        PolicyUpdate::decode_canonical(&mut Decoder::new(&bytes)),
        Ok(update),
    );
}

#[test]
fn imports_happen_once_and_in_any_order() {
    let wire = CheckpointWire::for_version(12).unwrap();
    let earlier = fresh().checkpoint_in::<PinnedPolicy>(wire);
    let mut legacy = KnowledgeState::default();
    legacy
        .activate_reverified_challenger(&consolidation(legacy.product(), 70, &["simplify"]))
        .unwrap();
    let learning_first = restore(earlier.as_bytes())
        .into_legacy_learning(None)
        .unwrap()
        .into_legacy_knowledge(&legacy)
        .unwrap();
    let knowledge_first = restore(earlier.as_bytes())
        .into_legacy_knowledge(&legacy)
        .unwrap()
        .into_legacy_learning(None)
        .unwrap();
    assert_eq!(learning_first.checkpoint(), knowledge_first.checkpoint());
    assert_eq!(
        learning_first.into_legacy_knowledge(&legacy).unwrap_err(),
        IntelligenceError::IncompatibleRevision,
    );
    assert_eq!(
        knowledge_first.into_legacy_learning(None).unwrap_err(),
        IntelligenceError::IncompatibleRevision,
    );
}

#[test]
fn a_portfolio_is_distinct_affordable_and_led_by_the_bootstrap() {
    let core = fresh();
    let mut market = MarketArena::try_with_capacity(limits()).unwrap();
    let opportunity = market
        .push_opportunity(OpportunitySpec::candidate([9; 32]), &[0.5f32.to_bits()])
        .unwrap();
    for priority in [3u32, 0, 2, 1] {
        market
            .push_investment(InvestmentSpec::verify(
                opportunity,
                ResourceVector::new(4, 4, 0, 4, 1),
                priority,
            ))
            .unwrap();
    }
    let allowance = ResourceVector::new(12, 12, 0, 12, 3);
    let mut output = PortfolioBuffer::try_with_capacity(limits()).unwrap();
    core.allocate(MarketFrame::new(&market, allowance), 4, &[], &mut output)
        .unwrap();
    let portfolio = output.portfolio();
    let ids = portfolio.investment_ids();
    assert_eq!(ids.len(), 3, "a fourth would go beyond the allowance");
    assert_eq!(ids[0].0, 1, "the first by bootstrap priority");
    for (index, id) in ids.iter().enumerate() {
        assert!(!ids[..index].contains(id));
    }
    assert!(portfolio.resources().fits_within(allowance));
    assert_eq!(portfolio.receipts().len(), portfolio.allocations().len());
}

#[test]
fn what_was_chosen_first_stays_chosen_when_more_may_be() {
    let core = fresh();
    let mut market = MarketArena::try_with_capacity(limits()).unwrap();
    let opportunity = market
        .push_opportunity(OpportunitySpec::candidate([9; 32]), &[0.5f32.to_bits()])
        .unwrap();
    for priority in [3u32, 0, 2, 1] {
        market
            .push_investment(InvestmentSpec::verify(
                opportunity,
                ResourceVector::new(1, 1, 0, 1, 1),
                priority,
            ))
            .unwrap();
    }
    let allowance = ResourceVector::new(12, 12, 0, 12, 12);
    let mut output = PortfolioBuffer::try_with_capacity(limits()).unwrap();
    let mut previous = Vec::new();
    for limit in 0..=4 {
        core.allocate(MarketFrame::new(&market, allowance), limit, &[], &mut output)
            .unwrap();
        let ids = output.portfolio().investment_ids();
        assert_eq!(ids.len(), limit);
        assert_eq!(ids[..previous.len()], previous[..]);
        previous = ids;
    }
}

#[test]
fn a_short_portfolio_leaves_out_nothing_that_is_allowed() {
    let core = fresh();
    let mut market = MarketArena::try_with_capacity(limits()).unwrap();
    let opportunity = market
        .push_opportunity(OpportunitySpec::candidate([9; 32]), &[0.5f32.to_bits()])
        .unwrap();
    let demands = [6u64, 5, 4, 3, 1];
    for (priority, demand) in demands.iter().enumerate() {
        market
            .push_investment(InvestmentSpec::verify(
                opportunity,
                ResourceVector::new(*demand, 1, 0, 1, 1),
                priority as u32,
            ))
            .unwrap();
    }
    let mut output = PortfolioBuffer::try_with_capacity(limits()).unwrap();
    for available in 0..=20 {
        let allowance = ResourceVector::new(available, 9, 0, 9, 9);
        core.allocate(MarketFrame::new(&market, allowance), 5, &[], &mut output)
            .unwrap();
        let ids = output.portfolio().investment_ids();
        let taken = output.portfolio().resources();
        for (index, demand) in demands.iter().enumerate() {
            let chosen = ids.iter().any(|id| id.0 == index as u32);
            let more = ResourceVector::new(*demand, 1, 0, 1, 1);
            assert!(chosen || !taken.checked_add(more).unwrap().fits_within(allowance));
        }
    }
}

/// A core that has been through steps of every kind.
fn travelled_core() -> IntelligenceCore {
    let (mut core, _) = verified_core();
    let (_, updates) = campaign(&core, 7);
    let edits = [
        EcologyEdit::Spawn(specialist("first", 0.5)),
        EcologyEdit::Spawn(specialist("second", 0.25)),
    ];
    let third = consolidation(core.knowledge_product(), 72, &["expand"]);
    let work = core.plan_knowledge_verification(Some(&third)).unwrap().unwrap();
    commit(&mut core, SettlementFrame::edits(&edits));
    commit(&mut core, SettlementFrame::observations(&[], &[], &[], &updates));
    commit(
        &mut core,
        SettlementFrame::knowledge(&[KnowledgeUpdate::Propose(work.challenger().duplicate())]),
    );
    core
}

#[test]
fn a_run_of_steps_is_restored() {
    let core = travelled_core();
    let restored = restore(core.checkpoint_bytes());
    assert_eq!(restored.checkpoint(), core.checkpoint());
    assert_eq!(restored.limits(), core.limits());
    assert_eq!(restored.active_revision(), core.active_revision());
    assert_eq!(experience(&restored), experience(&core));
    assert_eq!(knowledge(&restored), knowledge(&core));
    assert_eq!(ecology(&restored), ecology(&core));
}

#[test]
fn a_checkpoint_with_any_byte_changed_is_corrupt() {
    for core in [fresh(), travelled_core()] {
        let bytes = core.checkpoint_bytes().to_vec();
        for index in 0..bytes.len() {
            let mut changed = bytes.clone();
            changed[index] ^= 1;
            assert_eq!(
                IntelligenceCore::restore::<PinnedPolicy>(&changed).unwrap_err(),
                IntelligenceError::CorruptState,
                "byte {index}"
            );
        }
        let mut longer = bytes.clone();
        longer.push(0);
        assert_eq!(
            IntelligenceCore::restore::<PinnedPolicy>(&longer).unwrap_err(),
            IntelligenceError::CorruptState,
        );
    }
}

#[test]
fn the_identity_of_a_checkpoint_is_its_seal_and_not_the_revision() {
    let core = travelled_core();
    let checkpoint = core.checkpoint();
    let bytes = checkpoint.as_bytes();
    assert_eq!(
        checkpoint.identity().to_bytes(),
        bytes[bytes.len() - 32..],
    );
    assert_eq!(checkpoint.digest().identity(), checkpoint.identity().to_bytes());
    assert_ne!(checkpoint.identity(), core.active_revision());
}

#[test]
fn a_step_appends_its_record_and_seals_the_checkpoint_anew() {
    let mut core = travelled_core();
    let before = core.checkpoint_bytes().to_vec();
    let edit = [EcologyEdit::Spawn(specialist("third", 0.125))];
    let transition = core
        .stage::<PinnedPolicy>(SettlementFrame::edits(&edit))
        .unwrap();
    let work = transition.stage_work();
    assert_eq!(work.ecology_items_cloned, 2);
    assert_eq!(work.knowledge_items_cloned, 0);
    transition.commit(&mut core).unwrap();
    let after = core.checkpoint_bytes();
    let front = before.len() - 233;
    assert_eq!(after.len(), before.len() + work.checkpoint_delta_bytes);
    assert_eq!(after[..front], before[..front]);
    assert_eq!(after[after.len() - 233], 0);
    let count = |bytes: &[u8]| {
        let place = bytes.len() - 232;
        u64::from_le_bytes(bytes[place..place + 8].try_into().unwrap())
    };
    assert_eq!(count(after), count(&before) + 1);
}

#[test]
fn a_society_takes_few_edits() {
    let mut ecology = ModelEcology::default();
    let mut taken = 0;
    for round in 0..10 {
        let name = format!("role-{round}");
        let next = specialist(&name, 0.5);
        let id = next.id();
        if ecology.apply(&EcologyEdit::Spawn(next), limits()).is_ok() {
            taken += 1;
        }
        if ecology.apply(&EcologyEdit::Retire(id), limits()).is_ok() {
            taken += 1;
        }
    }
    assert_eq!(taken, 8, "four specialists come and go");
}

#[test]
fn a_manifest_holds_what_its_obligations_refer_to() {
    let (core, _) = verified_core();
    let manifest = core.knowledge_recovery_manifest().unwrap();
    let content: usize = manifest
        .obligations()
        .iter()
        .map(|obligation| {
            let work = obligation.work();
            let steps: usize = work.operator_steps().iter().map(|step| step.bytes.len()).sum();
            steps + 32 * work.supporting_attempts().len()
        })
        .sum();
    assert!(manifest.heap_bytes() >= content);
    assert!(content >= 32 * 8);
}

#[test]
fn a_promotion_is_withdrawn_once_its_campaign_is() {
    let mut core = fresh();
    let before = core.knowledge_product();
    let exact = consolidation(before, 70, &["simplify"]);
    let work = core.plan_knowledge_verification(Some(&exact)).unwrap().unwrap();
    let id = work.id();
    let (receipts, settlements, reserved) = paid(&core, &work);
    let (open, opened) = core
        .open_knowledge_verification::<PinnedPolicy>(work, &receipts, reserved)
        .unwrap();
    open.commit(&mut core).unwrap();
    core.settle_opened_knowledge_verification::<PinnedPolicy>(
        &opened,
        KnowledgeVerificationReport::settled(&settlements),
    )
    .unwrap()
    .commit(&mut core)
    .unwrap();

    let resources = ResourceVector::new(10, 10, 10, 10, 2);
    let stream = SubjectId::new([9; 32]);
    let axes = [ForecastAxis::UsefulDescendants, ForecastAxis::CompressionValue];
    let specification = ShadowCampaignSpec::new(
        core.checkpoint().digest(),
        SubjectId(exact.product),
        resources,
        stream,
        &axes,
    )
    .unwrap();
    let outcome = |arm: ShadowArm, value: f32| {
        ShadowUpdate::Outcome(
            ShadowArmOutcome::new(
                specification.id(),
                arm,
                specification.checkpoint(),
                resources,
                stream,
                &axes.map(|axis| TypedOutcome::new(axis, value.to_bits()).unwrap()),
            )
            .unwrap(),
        )
    };
    let updates = [
        ShadowUpdate::Open(specification),
        outcome(ShadowArm::Treatment, 2.0),
        outcome(ShadowArm::Control, 0.0),
    ];
    commit(&mut core, SettlementFrame::observations(&[], &[], &[], &updates));
    commit(
        &mut core,
        SettlementFrame::knowledge(&[KnowledgeUpdate::EvaluatePromotion(id)]),
    );
    assert_eq!(core.knowledge_product(), exact.product);
    assert_eq!(core.knowledge_statistics().promoted, 1);
    let withdrawal = [ShadowUpdate::invalidate(
        specification.id(),
        ShadowInvalidationReason::CheckpointMismatch,
    )];
    commit(
        &mut core,
        SettlementFrame::observations(&[], &[], &[], &withdrawal),
    );
    assert_eq!(core.knowledge_product(), before);
    assert_eq!(core.knowledge_statistics().promoted, 0);
    let restored = restore(core.checkpoint_bytes());
    assert_eq!(knowledge(&restored), knowledge(&core));
}
