//! How knowledge is compiled, verified and tried in the shadow: each workflow is a
//! step of the core, or a refusal.
use vstd::prelude::*;

use crate::causal::{InvestmentOutcome, InvestmentSettlement};
use crate::codec;
use crate::compiler;
use crate::compiler::{KnowledgeUpdate, UpdateView};
use crate::consolidation::{ConsolidationChallenger, ConsolidationView};
use crate::digest::Digest;
use crate::intelligence;
use crate::intelligence::{CoreView, IntelligenceCore};
use crate::investment::InvestmentTag;
use crate::knowledge;
use crate::knowledge::{
    valid_open_verification, KnowledgeInvalidationReason, KnowledgeWork, OpenedKnowledgeWork,
    PendingView, WorkView,
};
use crate::ledger;
use crate::ledger::{copied, find_campaign};
use crate::planning;
use crate::planning::{
    campaign_is_open, plan_shadow, shadow_arm_outcome, KnowledgePlanningFailure,
    KnowledgeShadowOpened, KnowledgeShadowPlan, KnowledgeShadowReport, KnowledgeShadowRootFact,
    KnowledgeShadowSupportFact, KnowledgeVerificationReport,
};
use crate::policy::PolicyEngine;
use crate::receipt::{DecisionId, InvestmentReceipt};
use crate::search;
use crate::shadow::{
    CheckpointDigest, ShadowArm, ShadowCampaignLifecycle, ShadowCampaignSpec, ShadowUpdate,
};
use crate::transition::{FrameView, IntelligenceTransition, SettlementFrame, TransitionView};
use crate::types::{IntelligenceError, ResourceVector, SubjectId};

verus! {

broadcast use intelligence::lemma_core_view;

/// A staged step, or why there is none.
pub open spec fn stages(
    result: Result<IntelligenceTransition, IntelligenceError>,
    expected: Result<TransitionView, IntelligenceError>,
) -> bool {
    match result {
        Ok(transition) => expected == Ok::<TransitionView, IntelligenceError>(transition@),
        Err(error) => expected == Err::<TransitionView, IntelligenceError>(error),
    }
}

// ---------------------------------------------------------------------------
// Settlement batches
// ---------------------------------------------------------------------------
/// What some settlements took together.
pub open spec fn total_actual(settlements: Seq<InvestmentSettlement>) -> Option<ResourceVector>
    decreases settlements.len(),
{
    if settlements.len() == 0 {
        Some(ResourceVector::zero())
    } else {
        match total_actual(settlements.drop_last()) {
            Some(total) => total.sum(settlements.last().actual_resources),
            None => None,
        }
    }
}

/// A settlement of one verification that took no more than was declared; only the
/// first of them takes memory and elapsed time.
pub open spec fn settles_one(
    settlement: InvestmentSettlement,
    receipt: InvestmentReceipt,
    index: int,
) -> bool {
    &&& settlement.decision == receipt.decision
    &&& settlement.actual_resources.within(receipt.resources)
    &&& settlement.actual_resources.verification_requests == 1
    &&& index > 0 ==> settlement.actual_resources.resident_bytes == 0
        && settlement.actual_resources.elapsed_time_ns == 0
}

/// Receipts that open the verification of some work, and settlements that close it
/// within what was reserved.
pub open spec fn batch_is_valid(
    work: WorkView,
    receipts: Seq<InvestmentReceipt>,
    reserved: ResourceVector,
    settlements: Option<Seq<InvestmentSettlement>>,
) -> bool {
    &&& knowledge::open_is_valid(work, receipts, reserved)
    &&& match settlements {
        None => true,
        Some(settlements) => {
            &&& settlements.len() == receipts.len()
            &&& forall|i: int|
                0 <= i < settlements.len() ==> settles_one(
                    #[trigger] settlements[i],
                    receipts[i],
                    i,
                )
            &&& match total_actual(settlements) {
                Some(total) => total.within(reserved),
                None => false,
            }
        },
    }
}

proof fn lemma_actual_stays_lost(settlements: Seq<InvestmentSettlement>, count: int)
    requires
        0 <= count <= settlements.len(),
        total_actual(settlements.take(count)) is None,
    ensures
        total_actual(settlements) is None,
    decreases settlements.len() - count,
{
    if count < settlements.len() {
        assert(settlements.take(count + 1).drop_last() =~= settlements.take(count));
        lemma_actual_stays_lost(settlements, count + 1);
    } else {
        assert(settlements.take(count) =~= settlements);
    }
}

fn settlements_fit(
    receipts: &[InvestmentReceipt],
    settlements: &[InvestmentSettlement],
    reserved: ResourceVector,
) -> (result: bool)
    requires
        receipts@.len() == settlements@.len(),
    ensures
        result == ((forall|i: int|
            0 <= i < settlements@.len() ==> settles_one(
                #[trigger] settlements@[i],
                receipts@[i],
                i,
            )) && match total_actual(settlements@) {
            Some(total) => total.within(reserved),
            None => false,
        }),
{
    let mut total = ResourceVector::default();
    let mut index: usize = 0;
    assert(settlements@.take(0) =~= Seq::empty());
    while index < settlements.len()
        invariant
            index <= settlements@.len(),
            receipts@.len() == settlements@.len(),
            total_actual(settlements@.take(index as int)) == Some(total),
            forall|i: int|
                0 <= i < index ==> settles_one(#[trigger] settlements@[i], receipts@[i], i),
        decreases settlements@.len() - index,
    {
        let settlement = settlements[index];
        let receipt = &receipts[index];
        let actual = settlement.actual_resources;
        if settlement.decision != receipt.decision || !actual.fits_within(receipt.resources)
            || actual.verification_requests != 1 || index > 0 && (actual.resident_bytes != 0
            || actual.elapsed_time_ns != 0) {
            assert(!settles_one(settlements@[index as int], receipts@[index as int], index as int));
            return false;
        }
        proof {
            assert(settlements@.take(index + 1).drop_last() =~= settlements@.take(index as int));
            assert(settlements@.take(index + 1).last() == settlement);
        }
        total =
        match total.checked_add(actual) {
            Some(next) => next,
            None => {
                proof {
                    lemma_actual_stays_lost(settlements@, index + 1);
                }
                return false;
            },
        };
        index = index + 1;
    }
    assert(settlements@.take(settlements@.len() as int) =~= settlements@);
    total.fits_within(reserved)
}

/// Whether receipts open the verification of some work, and settlements, where there
/// are any, close it within what was reserved.
pub fn valid_verification_settlement_batch(
    work: &KnowledgeWork,
    receipts: &[InvestmentReceipt],
    reserved: ResourceVector,
    settlements: Option<&[InvestmentSettlement]>,
) -> (result: bool)
    ensures
        result == batch_is_valid(
            work@,
            receipts@,
            reserved,
            match settlements {
                Some(settlements) => Some(settlements@),
                None => None,
            },
        ),
{
    if !valid_open_verification(work, receipts, reserved) {
        return false;
    }
    match settlements {
        None => true,
        Some(settlements) => settlements.len() == receipts.len() && settlements_fit(
            receipts,
            settlements,
            reserved,
        ),
    }
}

// ---------------------------------------------------------------------------
// Compilation
// ---------------------------------------------------------------------------
/// What a compilation of knowledge came to.
pub struct ExecutedKnowledgeCompilation {
    pub base_revision: Digest,
    pub producer: DecisionId,
    pub challenger: Option<ConsolidationChallenger>,
}

impl CoreView {
    /// The updates that a compilation proposes.
    pub open spec fn proposals(self, challenger: Option<ConsolidationView>) -> Result<
        Seq<UpdateView>,
        IntelligenceError,
    > {
        match challenger {
            None => Ok(Seq::empty()),
            Some(consolidation) => match knowledge::work_for(self.revision, consolidation) {
                Err(error) => Err(error),
                Ok(work) => if self.components.knowledge.place(work.challenger.id) is Some {
                    Ok(Seq::empty())
                } else {
                    match self.components.knowledge.refuses(work.challenger, self.limits) {
                        Some(error) => Err(error),
                        None => Ok(seq![UpdateView::Propose(work.challenger)]),
                    }
                },
            },
        }
    }

    /// The step that settles a compilation and proposes what it found.
    pub open spec fn compilation_completed<P: PolicyEngine>(
        self,
        base_revision: Digest,
        producer: DecisionId,
        challenger: Option<ConsolidationView>,
        receipt: InvestmentReceipt,
        settlement: InvestmentSettlement,
    ) -> Result<TransitionView, IntelligenceError> {
        if base_revision != self.revision || receipt.decision != producer || settlement.decision
            != producer || !(receipt.tag is Consolidate) || receipt.active_revision
            != self.revision || !(settlement.outcome is Completed) {
            Err(IntelligenceError::InvalidReference)
        } else {
            match self.proposals(challenger) {
                Err(error) => Err(error),
                Ok(updates) => self.staged::<P>(
                    (FrameView {
                        receipts: seq![receipt],
                        settlements: seq![settlement],
                        knowledge: updates,
                        ..FrameView::empty()
                    }),
                ),
            }
        }
    }

    /// The work that verifies what was compiled last.
    pub open spec fn compilation_pending(self) -> Result<Option<WorkView>, IntelligenceError> {
        let records = self.components.knowledge.records;
        match compiler::latest_open(records) {
            None => Ok(None),
            Some(index) => if forall|j: int|
                0 <= j < self.components.ledger.receipts.len() ==> !ledger::consolidated(
                    #[trigger] self.components.ledger.receipts[j],
                    self.components.ledger.settlements[j],
                ) {
                Err(IntelligenceError::InvalidReference)
            } else {
                match knowledge::work_from(self.revision, records[index].challenger) {
                    Err(error) => Err(error),
                    Ok(work) => if work.obligations.len() == 0 {
                        Ok(None)
                    } else {
                        Ok(Some(work))
                    },
                }
            },
        }
    }

    /// The decision is the latest that completed a consolidation.
    pub open spec fn latest_producer(self, decision: DecisionId) -> bool {
        exists|i: int|
            0 <= i < self.components.ledger.receipts.len() && (
            #[trigger] self.components.ledger.receipts[i]).decision == decision
                && ledger::consolidated(
                self.components.ledger.receipts[i],
                self.components.ledger.settlements[i],
            ) && forall|j: int|
                i < j < self.components.ledger.receipts.len() ==> !ledger::consolidated(
                    #[trigger] self.components.ledger.receipts[j],
                    self.components.ledger.settlements[j],
                )
    }

    /// The work that verifies a consolidation that is not known yet.
    pub open spec fn verification_planned(self, consolidation: Option<ConsolidationView>) -> Result<
        Option<WorkView>,
        IntelligenceError,
    > {
        match consolidation {
            None => Ok(None),
            Some(consolidation) => if consolidation.operators.len() == 0 {
                Ok(None)
            } else {
                match knowledge::work_for(self.revision, consolidation) {
                    Err(error) => Err(error),
                    Ok(work) => if self.components.knowledge.place(work.challenger.id) is Some {
                        Ok(None)
                    } else {
                        match self.components.knowledge.refuses(work.challenger, self.limits) {
                            Some(error) => Err(error),
                            None => Ok(Some(work)),
                        }
                    },
                }
            },
        }
    }
}

impl IntelligenceCore {
    /// The work that verifies a consolidation, unless it is known already or holds
    /// nothing.
    pub fn plan_knowledge_verification(&self, consolidation: Option<&ConsolidationChallenger>) -> (result:
        Result<Option<KnowledgeWork>, IntelligenceError>)
        ensures
            ({
                let expected = self@.verification_planned(
                    match consolidation {
                        Some(consolidation) => Some(consolidation@),
                        None => None,
                    },
                );
                match (result, expected) {
                    (Ok(Some(work)), Ok(Some(view))) => work@ == view,
                    (Ok(None), Ok(None)) => true,
                    (Err(error), Err(other)) => error == other,
                    _ => false,
                }
            }),
    {
        let consolidation = match consolidation {
            Some(consolidation) => consolidation,
            None => return Ok(None),
        };
        assert(consolidation@.operators.len() == consolidation.operators@.len());
        if consolidation.operators.len() == 0 {
            return Ok(None);
        }
        let work = match KnowledgeWork::verification(self.revision, consolidation) {
            Ok(work) => work,
            Err(error) => return Err(error),
        };
        if self.knowledge.contains(work.id()) {
            return Ok(None);
        }
        match self.knowledge.ensure_proposal_capacity(work.challenger(), self.limits) {
            Ok(_) => Ok(Some(work)),
            Err(error) => Err(error),
        }
    }

    /// Stages the settlement of a compilation, and proposes what it found.
    pub fn stage_completed_knowledge_compilation<P: PolicyEngine>(
        &self,
        compilation: ExecutedKnowledgeCompilation,
        receipt: &InvestmentReceipt,
        settlement: InvestmentSettlement,
    ) -> (result: Result<IntelligenceTransition, IntelligenceError>)
        requires
            self@.well_formed(),
        ensures
            stages(
                result,
                self@.compilation_completed::<P>(
                    compilation.base_revision,
                    compilation.producer,
                    crate::transition::seen(compilation.challenger),
                    *receipt,
                    settlement,
                ),
            ),
            result matches Ok(transition) ==> self@.committed(transition@).well_formed(),
    {
        if compilation.base_revision != self.revision || receipt.decision != compilation.producer
            || settlement.decision != compilation.producer || receipt.tag
            != InvestmentTag::Consolidate || receipt.issued_under() != self.revision
            || settlement.outcome != InvestmentOutcome::Completed {
            return Err(IntelligenceError::InvalidReference);
        }
        let mut updates: Vec<KnowledgeUpdate> = Vec::new();
        let ghost expected = self@.proposals(crate::transition::seen(compilation.challenger));
        assert(codec::views(updates@) =~= Seq::empty());
        match &compilation.challenger {
            Some(consolidation) => {
                let work = match KnowledgeWork::verification(self.revision, consolidation) {
                    Ok(work) => work,
                    Err(error) => return Err(error),
                };
                if !self.knowledge.contains(work.id()) {
                    match self.knowledge.ensure_proposal_capacity(
                        work.challenger(),
                        self.limits,
                    ) {
                        Ok(_) => {},
                        Err(error) => return Err(error),
                    }
                    let update = KnowledgeUpdate::Propose(work.challenger().duplicate());
                    updates.push(update);
                    assert(codec::views(updates@) =~= seq![UpdateView::Propose(
                        work@.challenger,
                    )]);
                }
            },
            None => {},
        }
        assert(expected == Ok::<Seq<UpdateView>, IntelligenceError>(codec::views(updates@)));
        let receipts: [InvestmentReceipt; 1] = [*receipt];
        let settlements: [InvestmentSettlement; 1] = [settlement];
        assert(receipts@ =~= seq![*receipt]);
        assert(settlements@ =~= seq![settlement]);
        let frame = SettlementFrame::observations(
            receipts.as_slice(),
            settlements.as_slice(),
            &[],
            &[],
        ).with_knowledge_updates(updates.as_slice());
        assert(frame@ =~= (FrameView {
            receipts: seq![*receipt],
            settlements: seq![settlement],
            knowledge: codec::views(updates@),
            ..FrameView::empty()
        }));
        self.stage::<P>(frame)
    }

    /// The work that verifies what was compiled last, and the decision that
    /// compiled it.
    pub fn pending_knowledge_compilation(&self) -> (result: Result<
        Option<(KnowledgeWork, DecisionId)>,
        IntelligenceError,
    >)
        requires
            self@.well_formed(),
        ensures
            match (result, self@.compilation_pending()) {
                (Ok(Some((work, producer))), Ok(Some(view))) => work@ == view
                    && self@.latest_producer(producer),
                (Ok(None), Ok(None)) => true,
                (Err(error), Err(other)) => error == other,
                _ => false,
            },
    {
        let challenger = match self.knowledge.pending_compilation() {
            Some(challenger) => challenger,
            None => return Ok(None),
        };
        let producer = match self.experience.latest_completed_consolidation() {
            Some(producer) => producer,
            None => return Err(IntelligenceError::InvalidReference),
        };
        let work = match KnowledgeWork::from_challenger(self.revision, challenger) {
            Ok(work) => work,
            Err(error) => return Err(error),
        };
        if work.obligations().len() == 0 {
            Ok(None)
        } else {
            Ok(Some((work, producer)))
        }
    }
}

// ---------------------------------------------------------------------------
// Verification
// ---------------------------------------------------------------------------
impl CoreView {
    /// The step that opens a verification, and what is open then.
    pub open spec fn verification_opened<P: PolicyEngine>(
        self,
        work: WorkView,
        receipts: Seq<InvestmentReceipt>,
        reserved: ResourceVector,
    ) -> Result<(TransitionView, PendingView), IntelligenceError> {
        if work.base_revision != self.revision {
            Err(IntelligenceError::StaleTransition)
        } else if !batch_is_valid(work, receipts, reserved, None) {
            Err(IntelligenceError::InvalidSettlement)
        } else {
            match self.staged::<P>(
                (FrameView {
                    knowledge: seq![UpdateView::OpenVerification { work, receipts, reserved }],
                    ..FrameView::empty()
                }),
            ) {
                Err(error) => Err(error),
                Ok(step) => match step.knowledge {
                    None => Err(IntelligenceError::InvalidKnowledge),
                    Some(knowledge) => match knowledge.pending {
                        None => Err(IntelligenceError::InvalidKnowledge),
                        Some(pending) => Ok((step, pending)),
                    },
                },
            }
        }
    }

    /// Some obligation of the work concerns this subject.
    pub open spec fn owes(work: WorkView, subject: SubjectId) -> bool {
        exists|i: int|
            0 <= i < work.obligations.len() && (#[trigger] work.obligations[i]).subject == subject
    }

    /// The step that gives up work for want of a witness.
    pub open spec fn work_rejected<P: PolicyEngine>(
        self,
        work: WorkView,
        failure: KnowledgePlanningFailure,
    ) -> Result<TransitionView, IntelligenceError> {
        let KnowledgePlanningFailure::WitnessUnavailable(obligation) = failure;
        let id = work.challenger.id;
        let invalidation = UpdateView::Invalidate {
            challenger: id,
            reason: KnowledgeInvalidationReason::Witness,
        };
        if work.base_revision != self.revision {
            Err(IntelligenceError::StaleTransition)
        } else if !Self::owes(work, obligation) {
            Err(IntelligenceError::InvalidReference)
        } else {
            self.staged::<P>(
                (FrameView {
                    knowledge: if self.components.knowledge.place(id) is Some {
                        seq![invalidation]
                    } else {
                        seq![UpdateView::Propose(work.challenger), invalidation]
                    },
                    ..FrameView::empty()
                }),
            )
        }
    }

    /// The settlements of a verification that was broken off.
    pub open spec fn interruptions(receipts: Seq<InvestmentReceipt>) -> Seq<InvestmentSettlement> {
        Seq::new(
            receipts.len(),
            |i: int|
                InvestmentSettlement {
                    decision: receipts[i].decision,
                    outcome: InvestmentOutcome::VerifiedUnknown,
                    actual_resources: receipts[i].resources,
                },
        )
    }

    /// The step that settles an open verification. `None` stands for an
    /// interruption.
    pub open spec fn verification_settled<P: PolicyEngine>(
        self,
        opened_under: Digest,
        opened: PendingView,
        settlements: Option<Seq<InvestmentSettlement>>,
    ) -> Result<TransitionView, IntelligenceError> {
        if opened_under != self.revision || !self.components.knowledge.awaits(opened) {
            Err(IntelligenceError::StaleTransition)
        } else {
            match settlements {
                Some(settlements) => if !batch_is_valid(
                    opened.work,
                    opened.receipts,
                    opened.reserved,
                    Some(settlements),
                ) {
                    Err(IntelligenceError::InvalidSettlement)
                } else {
                    self.staged::<P>(
                        (FrameView {
                            receipts: opened.receipts,
                            settlements,
                            knowledge: seq![
                                UpdateView::CompleteVerification(opened.work.challenger.id),
                            ],
                            opened_verification: Some((opened_under, opened)),
                            ..FrameView::empty()
                        }),
                    )
                },
                None => self.staged::<P>(
                    (FrameView {
                        receipts: opened.receipts,
                        settlements: Self::interruptions(opened.receipts),
                        knowledge: seq![
                            UpdateView::InterruptVerification(opened.work.challenger.id),
                        ],
                        opened_verification: Some((opened_under, opened)),
                        ..FrameView::empty()
                    }),
                ),
            }
        }
    }
}

fn owes_subject(work: &KnowledgeWork, subject: SubjectId) -> (result: bool)
    ensures
        result == CoreView::owes(work@, subject),
{
    let obligations = work.obligations();
    let mut index: usize = 0;
    while index < obligations.len()
        invariant
            index <= obligations@.len(),
            codec::views(obligations@) == work@.obligations,
            forall|i: int| 0 <= i < index ==> (#[trigger] work@.obligations[i]).subject != subject,
        decreases obligations@.len() - index,
    {
        assert(work@.obligations[index as int] == obligations@[index as int]@);
        if obligations[index].subject() == subject {
            return true;
        }
        index = index + 1;
    }
    false
}

fn broken_off(receipts: &[InvestmentReceipt]) -> (settlements: Vec<InvestmentSettlement>)
    ensures
        settlements@ == CoreView::interruptions(receipts@),
{
    let mut settlements: Vec<InvestmentSettlement> = Vec::new();
    let mut index: usize = 0;
    while index < receipts.len()
        invariant
            index <= receipts@.len(),
            settlements@ == CoreView::interruptions(receipts@).take(index as int),
        decreases receipts@.len() - index,
    {
        settlements.push(
            InvestmentSettlement {
                decision: receipts[index].decision,
                outcome: InvestmentOutcome::VerifiedUnknown,
                actual_resources: receipts[index].resources,
            },
        );
        assert(settlements@ =~= CoreView::interruptions(receipts@).take(index + 1));
        index = index + 1;
    }
    assert(settlements@ =~= CoreView::interruptions(receipts@));
    settlements
}

impl IntelligenceCore {
    fn stage_updates<P: PolicyEngine>(&self, updates: &[KnowledgeUpdate]) -> (result: Result<
        IntelligenceTransition,
        IntelligenceError,
    >)
        requires
            self@.well_formed(),
        ensures
            stages(
                result,
                self@.staged::<P>(
                    (FrameView { knowledge: codec::views(updates@), ..FrameView::empty() }),
                ),
            ),
            result matches Ok(transition) ==> self@.committed(transition@).well_formed(),
    {
        self.stage::<P>(SettlementFrame::knowledge(updates))
    }

    /// Stages the opening of a verification. What comes back beside the step is the
    /// verification as its caller holds it once the step is taken.
    pub fn open_knowledge_verification<P: PolicyEngine>(
        &self,
        work: KnowledgeWork,
        receipts: &[InvestmentReceipt],
        reserved: ResourceVector,
    ) -> (result: Result<(IntelligenceTransition, OpenedKnowledgeWork), IntelligenceError>)
        requires
            self@.well_formed(),
        ensures
            match result {
                Ok((transition, opened)) => self@.verification_opened::<P>(
                    work@,
                    receipts@,
                    reserved,
                ) == Ok::<(TransitionView, PendingView), IntelligenceError>(
                    (transition@, opened@),
                ) && opened.opened_under() == transition@.revision && self@.committed(
                    transition@,
                ).well_formed(),
                Err(error) => self@.verification_opened::<P>(work@, receipts@, reserved) == Err::<
                    (TransitionView, PendingView),
                    IntelligenceError,
                >(error),
            },
    {
        if work.base_revision() != self.revision {
            return Err(IntelligenceError::StaleTransition);
        }
        if !valid_verification_settlement_batch(&work, receipts, reserved, None) {
            return Err(IntelligenceError::InvalidSettlement);
        }
        let ghost asked = UpdateView::OpenVerification {
            work: work@,
            receipts: receipts@,
            reserved,
        };
        let mut updates: Vec<KnowledgeUpdate> = Vec::new();
        updates.push(
            KnowledgeUpdate::OpenVerification { work, receipts: copied(receipts), reserved },
        );
        assert(codec::views(updates@) =~= seq![asked]);
        let transition = match self.stage_updates::<P>(updates.as_slice()) {
            Ok(transition) => transition,
            Err(error) => return Err(error),
        };
        let opened = match transition.opened_verification() {
            Some(opened) => opened,
            None => return Err(IntelligenceError::InvalidKnowledge),
        };
        Ok((transition, opened))
    }

    /// Stages the end of work for which there is no witness.
    pub fn reject_knowledge_work<P: PolicyEngine>(
        &self,
        work: KnowledgeWork,
        failure: KnowledgePlanningFailure,
    ) -> (result: Result<IntelligenceTransition, IntelligenceError>)
        requires
            self@.well_formed(),
        ensures
            stages(result, self@.work_rejected::<P>(work@, failure)),
            result matches Ok(transition) ==> self@.committed(transition@).well_formed(),
    {
        if work.base_revision() != self.revision {
            return Err(IntelligenceError::StaleTransition);
        }
        let KnowledgePlanningFailure::WitnessUnavailable(obligation) = failure;
        if !owes_subject(&work, obligation) {
            return Err(IntelligenceError::InvalidReference);
        }
        let id = work.id();
        let ghost invalidation = UpdateView::Invalidate {
            challenger: id,
            reason: KnowledgeInvalidationReason::Witness,
        };
        let mut updates: Vec<KnowledgeUpdate> = Vec::new();
        if !self.knowledge.contains(id) {
            updates.push(KnowledgeUpdate::Propose(work.challenger().duplicate()));
        }
        updates.push(
            KnowledgeUpdate::Invalidate {
                challenger: id,
                reason: KnowledgeInvalidationReason::Witness,
            },
        );
        assert(codec::views(updates@) =~= (if self@.components.knowledge.place(id) is Some {
            seq![invalidation]
        } else {
            seq![UpdateView::Propose(work@.challenger), invalidation]
        }));
        self.stage_updates::<P>(updates.as_slice())
    }

    /// The verification that is open, as its caller holds it.
    pub fn opened_knowledge_verification(&self) -> (result: Option<OpenedKnowledgeWork>)
        ensures
            match (result, self@.components.knowledge.pending) {
                (Some(opened), Some(pending)) => opened@ == pending && opened.opened_under()
                    == self@.revision,
                (None, None) => true,
                _ => false,
            },
    {
        self.knowledge.opened_verification(self.revision)
    }

    /// Stages the settlement of the verification that is open.
    pub fn settle_opened_knowledge_verification<P: PolicyEngine>(
        &self,
        opened: &OpenedKnowledgeWork,
        report: KnowledgeVerificationReport<'_>,
    ) -> (result: Result<IntelligenceTransition, IntelligenceError>)
        requires
            self@.well_formed(),
        ensures
            stages(
                result,
                self@.verification_settled::<P>(
                    opened.opened_under(),
                    opened@,
                    match report {
                        KnowledgeVerificationReport::Settled(settlements) => Some(settlements@),
                        KnowledgeVerificationReport::Interrupted => None,
                    },
                ),
            ),
            result matches Ok(transition) ==> self@.committed(transition@).well_formed(),
    {
        if opened.opened_revision() != self.revision
            || !self.knowledge.matches_opened_verification(opened) {
            return Err(IntelligenceError::StaleTransition);
        }
        let mut updates: Vec<KnowledgeUpdate> = Vec::new();
        match report {
            KnowledgeVerificationReport::Settled(settlements) => {
                if !valid_verification_settlement_batch(
                    opened.work(),
                    opened.receipts(),
                    opened.reserved_resources(),
                    Some(settlements),
                ) {
                    return Err(IntelligenceError::InvalidSettlement);
                }
                updates.push(KnowledgeUpdate::CompleteVerification(opened.id()));
                assert(codec::views(updates@) =~= seq![
                    UpdateView::CompleteVerification(opened@.work.challenger.id),
                ]);
                let frame = SettlementFrame::observations(
                    opened.receipts(),
                    settlements,
                    &[],
                    &[],
                ).with_knowledge_updates(updates.as_slice()).with_opened_verification(opened);
                assert(frame@ =~= (FrameView {
                    receipts: opened@.receipts,
                    settlements: settlements@,
                    knowledge: codec::views(updates@),
                    opened_verification: Some((opened.opened_under(), opened@)),
                    ..FrameView::empty()
                }));
                self.stage::<P>(frame)
            },
            KnowledgeVerificationReport::Interrupted => {
                let settlements = broken_off(opened.receipts());
                updates.push(KnowledgeUpdate::InterruptVerification(opened.id()));
                assert(codec::views(updates@) =~= seq![
                    UpdateView::InterruptVerification(opened@.work.challenger.id),
                ]);
                let frame = SettlementFrame::observations(
                    opened.receipts(),
                    settlements.as_slice(),
                    &[],
                    &[],
                ).with_knowledge_updates(updates.as_slice()).with_opened_verification(opened);
                assert(frame@ =~= (FrameView {
                    receipts: opened@.receipts,
                    settlements: settlements@,
                    knowledge: codec::views(updates@),
                    opened_verification: Some((opened.opened_under(), opened@)),
                    ..FrameView::empty()
                }));
                self.stage::<P>(frame)
            },
        }
    }
}

// ---------------------------------------------------------------------------
// Shadow campaigns
// ---------------------------------------------------------------------------
impl CoreView {
    /// A campaign that was opened under the core's revision and is open in it.
    pub open spec fn shadow_is_open(
        self,
        opened_under: Digest,
        campaign: ShadowCampaignSpec,
    ) -> bool {
        &&& self.revision == opened_under
        &&& match search::first(self.components.ledger.shadows, ledger::runs(campaign.id)) {
            Some(index) => {
                let state = self.components.ledger.shadows[index];
                state.lifecycle is Open && state.specification == campaign
            },
            None => false,
        }
    }

    /// The step that opens a campaign.
    pub open spec fn shadow_opened<P: PolicyEngine>(self, plan: planning::PlanView) -> Result<
        TransitionView,
        IntelligenceError,
    > {
        let knowledge = self.components.knowledge;
        let eligible = match search::first(
            knowledge.records,
            compiler::verified_on(knowledge.active.active_product()),
        ) {
            Some(index) => knowledge.records[index].challenger.id == plan.challenger,
            None => false,
        };
        if plan.base_revision != self.revision || planning::some_open(
            self.components.ledger.shadows,
        ) || !eligible {
            Err(IntelligenceError::StaleTransition)
        } else {
            self.staged::<P>(
                (FrameView {
                    shadows: seq![ShadowUpdate::Open(plan.campaign)],
                    ..FrameView::empty()
                }),
            )
        }
    }

    /// The step that settles a campaign.
    pub open spec fn shadow_settled<P: PolicyEngine>(
        self,
        opened_under: Digest,
        plan: planning::PlanView,
        report: KnowledgeShadowReport,
    ) -> Result<TransitionView, IntelligenceError> {
        let campaign = plan.campaign;
        if !self.shadow_is_open(opened_under, campaign) {
            Err(IntelligenceError::StaleTransition)
        } else {
            match report {
                KnowledgeShadowReport::Invalidated(reason) => self.staged::<P>(
                    (FrameView {
                        shadows: seq![ShadowUpdate::Invalidate { campaign: campaign.id, reason }],
                        ..FrameView::empty()
                    }),
                ),
                KnowledgeShadowReport::Paired { treatment, control } => if !(
                treatment.arm is Treatment) || !(control.arm is Control)
                    || !treatment.actual_resources.within(campaign.resources)
                    || !control.actual_resources.within(campaign.resources) {
                    Err(IntelligenceError::InvalidSettlement)
                } else {
                    match planning::arm_outcome(campaign, treatment) {
                        Err(error) => Err(error),
                        Ok(first) => match planning::arm_outcome(campaign, control) {
                            Err(error) => Err(error),
                            Ok(second) => self.staged::<P>(
                                (FrameView {
                                    shadows: seq![first, second],
                                    knowledge: seq![
                                        UpdateView::EvaluatePromotion(plan.challenger),
                                    ],
                                    ..FrameView::empty()
                                }),
                            ),
                        },
                    }
                },
            }
        }
    }
}

impl IntelligenceCore {
    /// Whether a campaign was opened under the core's revision and is open in it.
    pub fn validate_knowledge_shadow_opened(&self, opened: &KnowledgeShadowOpened) -> (result:
        Result<(), IntelligenceError>)
        ensures
            result == (if self@.shadow_is_open(opened.opened_under(), opened.plan().campaign) {
                Ok::<(), IntelligenceError>(())
            } else {
                Err(IntelligenceError::StaleTransition)
            }),
    {
        if self.revision != opened.opened_revision() {
            return Err(IntelligenceError::StaleTransition);
        }
        let shadows = self.experience.shadows();
        match find_campaign(shadows, opened.campaign()) {
            Some(index) => if shadows[index].lifecycle == ShadowCampaignLifecycle::Open
                && shadows[index].specification.same_as(opened.campaign_specification()) {
                Ok(())
            } else {
                Err(IntelligenceError::StaleTransition)
            },
            None => Err(IntelligenceError::StaleTransition),
        }
    }

    /// Plans the next campaign.
    pub fn plan_knowledge_shadow(
        &self,
        restart_checkpoint: CheckpointDigest,
        context_digest: SubjectId,
        roots: &[KnowledgeShadowRootFact],
        support_facts: &[KnowledgeShadowSupportFact],
        per_arm_allowance: ResourceVector,
    ) -> (result: Result<Option<KnowledgeShadowPlan>, IntelligenceError>)
        requires
            self@.well_formed(),
        ensures
            planning::plan_matches(
                result,
                planning::planned(
                    self@.revision,
                    self@.limits,
                    self@.components.ledger.shadows,
                    self@.components.knowledge,
                    restart_checkpoint,
                    context_digest,
                    roots@,
                    support_facts@,
                    per_arm_allowance,
                ),
            ),
    {
        plan_shadow(
            self.revision,
            self.limits,
            self.experience.shadows(),
            &self.knowledge,
            restart_checkpoint,
            context_digest,
            roots,
            support_facts,
            per_arm_allowance,
        )
    }

    /// Stages the opening of a campaign.
    pub fn open_knowledge_shadow<P: PolicyEngine>(&self, plan: KnowledgeShadowPlan) -> (result: Result<
        (IntelligenceTransition, KnowledgeShadowOpened),
        IntelligenceError,
    >)
        requires
            self@.well_formed(),
        ensures
            match result {
                Ok((transition, opened)) => self@.shadow_opened::<P>(plan@) == Ok::<
                    TransitionView,
                    IntelligenceError,
                >(transition@) && opened.plan() == plan@ && opened.opened_under()
                    == transition@.revision && self@.committed(transition@).well_formed(),
                Err(error) => self@.shadow_opened::<P>(plan@) == Err::<
                    TransitionView,
                    IntelligenceError,
                >(error),
            },
    {
        if plan.base_revision() != self.revision || campaign_is_open(self.experience.shadows()) {
            return Err(IntelligenceError::StaleTransition);
        }
        match self.knowledge.eligible_shadow() {
            Some((id, _)) => if id != plan.challenger() {
                return Err(IntelligenceError::StaleTransition);
            },
            None => return Err(IntelligenceError::StaleTransition),
        }
        let updates: [ShadowUpdate; 1] = [ShadowUpdate::Open(*plan.campaign())];
        assert(updates@ =~= seq![ShadowUpdate::Open(plan@.campaign)]);
        let frame = SettlementFrame::observations(&[], &[], &[], updates.as_slice());
        assert(frame@ =~= (FrameView { shadows: updates@, ..FrameView::empty() }));
        let transition = match self.stage::<P>(frame) {
            Ok(transition) => transition,
            Err(error) => return Err(error),
        };
        let opened = plan.into_opened(transition.revision());
        Ok((transition, opened))
    }

    /// Stages the settlement of a campaign.
    pub fn settle_knowledge_shadow<P: PolicyEngine>(
        &self,
        opened: KnowledgeShadowOpened,
        report: KnowledgeShadowReport,
    ) -> (result: Result<IntelligenceTransition, IntelligenceError>)
        requires
            self@.well_formed(),
        ensures
            stages(
                result,
                self@.shadow_settled::<P>(opened.opened_under(), opened.plan(), report),
            ),
            result matches Ok(transition) ==> self@.committed(transition@).well_formed(),
    {
        match self.validate_knowledge_shadow_opened(&opened) {
            Ok(_) => {},
            Err(error) => return Err(error),
        }
        match report {
            KnowledgeShadowReport::Invalidated(reason) => {
                let updates: [ShadowUpdate; 1] = [
                    ShadowUpdate::invalidate(opened.campaign(), reason),
                ];
                assert(updates@ =~= seq![
                    ShadowUpdate::Invalidate { campaign: opened.plan().campaign.id, reason },
                ]);
                let frame = SettlementFrame::empty().with_observations(
                    &[],
                    &[],
                    &[],
                    updates.as_slice(),
                );
                assert(frame@ =~= (FrameView { shadows: updates@, ..FrameView::empty() }));
                self.stage::<P>(frame)
            },
            KnowledgeShadowReport::Paired { treatment, control } => {
                let allowance = opened.campaign_specification().resources;
                if treatment.arm != ShadowArm::Treatment || control.arm != ShadowArm::Control
                    || !treatment.actual_resources.fits_within(allowance)
                    || !control.actual_resources.fits_within(allowance) {
                    return Err(IntelligenceError::InvalidSettlement);
                }
                let first = match shadow_arm_outcome(&opened, treatment) {
                    Ok(update) => update,
                    Err(error) => return Err(error),
                };
                let second = match shadow_arm_outcome(&opened, control) {
                    Ok(update) => update,
                    Err(error) => return Err(error),
                };
                let shadows: [ShadowUpdate; 2] = [first, second];
                assert(shadows@ =~= seq![first, second]);
                let mut updates: Vec<KnowledgeUpdate> = Vec::new();
                updates.push(KnowledgeUpdate::EvaluatePromotion(opened.challenger()));
                assert(codec::views(updates@) =~= seq![
                    UpdateView::EvaluatePromotion(opened.plan().challenger),
                ]);
                let frame = SettlementFrame::empty().with_observations(
                    &[],
                    &[],
                    &[],
                    shadows.as_slice(),
                ).with_knowledge_updates(updates.as_slice());
                assert(frame@ =~= (FrameView {
                    shadows: shadows@,
                    knowledge: codec::views(updates@),
                    ..FrameView::empty()
                }));
                self.stage::<P>(frame)
            },
        }
    }
}

/// A campaign that may be run: it is open in the core it was opened in.
#[derive(Clone, Copy, Debug)]
pub struct KnowledgeShadowExecution<'a> {
    opened: &'a KnowledgeShadowOpened,
}

impl<'a> KnowledgeShadowExecution<'a> {
    pub closed spec fn campaign(self) -> KnowledgeShadowOpened {
        *self.opened
    }

    pub fn opened(self) -> (opened: &'a KnowledgeShadowOpened)
        ensures
            *opened == self.campaign(),
    {
        self.opened
    }
}

impl KnowledgeShadowOpened {
    /// Leave to run the campaign.
    pub fn execution<'a>(&'a self, core: &IntelligenceCore) -> (result: Result<
        KnowledgeShadowExecution<'a>,
        IntelligenceError,
    >)
        ensures
            match result {
                Ok(execution) => execution.campaign() == *self && core@.shadow_is_open(
                    self.opened_under(),
                    self.plan().campaign,
                ),
                Err(error) => error is StaleTransition && !core@.shadow_is_open(
                    self.opened_under(),
                    self.plan().campaign,
                ),
            },
    {
        match core.validate_knowledge_shadow_opened(self) {
            Ok(_) => Ok(KnowledgeShadowExecution { opened: self }),
            Err(error) => Err(error),
        }
    }
}

} // verus!
