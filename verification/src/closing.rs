//! How verifications and campaigns are opened and closed, and what a step takes in.
use vstd::prelude::*;

use crate::causal::{CausalSubject, InvestmentOutcome, InvestmentSettlement};
use crate::compiler;
use crate::compiler::{CompilerView, UpdateView};
use crate::consolidation::ConsolidationView;
use crate::continuity;
use crate::digest::Digest;
use crate::intelligence::CoreView;
use crate::knowledge;
use crate::knowledge::{
    KnowledgeInvalidationReason, KnowledgeStatus, PendingView, WorkView,
};
use crate::ledger;
use crate::padded;
use crate::planning;
use crate::planning::{
    KnowledgePlanningFailure, KnowledgeShadowArmReport, KnowledgeShadowReport,
};
use crate::policy::PolicyEngine;
use crate::receipt::{DecisionId, InvestmentReceipt};
use crate::search;
use crate::shadow::{ShadowCampaignSpec, ShadowUpdate, TypedOutcome};
use crate::transition::{FrameView, PreparedView, TransitionView};
use crate::types::{IntelligenceError, ResourceVector, SubjectId};
use crate::upkeep;
use crate::workflow;

verus! {

// ---------------------------------------------------------------------------
// Resources
// ---------------------------------------------------------------------------
/// What can be spent.
pub enum Resource {
    ProcessorTime,
    ResidentMemory,
    DurableStorage,
    ElapsedTime,
    Verifications,
}

/// How much of a resource there is.
pub open spec fn amount(resources: ResourceVector, resource: Resource) -> int {
    match resource {
        Resource::ProcessorTime => resources.cpu_time_ns as int,
        Resource::ResidentMemory => resources.resident_bytes as int,
        Resource::DurableStorage => resources.durable_bytes as int,
        Resource::ElapsedTime => resources.elapsed_time_ns as int,
        Resource::Verifications => resources.verification_requests as int,
    }
}

/// How much of a resource some receipts declare together.
pub open spec fn declared(receipts: Seq<InvestmentReceipt>, resource: Resource) -> int
    decreases receipts.len(),
{
    if receipts.len() == 0 {
        0
    } else {
        declared(receipts.drop_last(), resource) + amount(receipts.last().resources, resource)
    }
}

/// How much of a resource some settlements took together.
pub open spec fn used(settlements: Seq<InvestmentSettlement>, resource: Resource) -> int
    decreases settlements.len(),
{
    if settlements.len() == 0 {
        0
    } else {
        used(settlements.drop_last(), resource) + amount(
            settlements.last().actual_resources,
            resource,
        )
    }
}

proof fn lemma_declared(receipts: Seq<InvestmentReceipt>)
    ensures
        match knowledge::total_resources(receipts) {
            Some(total) => forall|resource: Resource| #[trigger]
                declared(receipts, resource) == amount(total, resource),
            None => exists|resource: Resource| #[trigger] declared(receipts, resource) > u64::MAX,
        },
        forall|resource: Resource| #[trigger] declared(receipts, resource) >= 0,
    decreases receipts.len(),
{
    if receipts.len() > 0 {
        let front = receipts.drop_last();
        lemma_declared(front);
        let last = receipts.last().resources;
        match knowledge::total_resources(front) {
            Some(total) => {
                assert(declared(front, Resource::ProcessorTime) == total.cpu_time_ns);
                assert(declared(front, Resource::ResidentMemory) == total.resident_bytes);
                assert(declared(front, Resource::DurableStorage) == total.durable_bytes);
                assert(declared(front, Resource::ElapsedTime) == total.elapsed_time_ns);
                assert(declared(front, Resource::Verifications) == total.verification_requests);
                if total.sum(last) is None {
                    assert(declared(receipts, Resource::ProcessorTime) > u64::MAX || declared(
                        receipts,
                        Resource::ResidentMemory,
                    ) > u64::MAX || declared(receipts, Resource::DurableStorage) > u64::MAX
                        || declared(receipts, Resource::ElapsedTime) > u64::MAX || declared(
                        receipts,
                        Resource::Verifications,
                    ) > u64::MAX);
                }
            },
            None => {
                let resource = choose|resource: Resource| #[trigger]
                    declared(front, resource) > u64::MAX;
                assert(declared(receipts, resource) > u64::MAX);
            },
        }
        assert forall|resource: Resource| #[trigger] declared(receipts, resource) >= 0 by {
            assert(declared(front, resource) >= 0);
        }
        if let Some(whole) = knowledge::total_resources(receipts) {
            let total = knowledge::total_resources(front)->Some_0;
            assert forall|resource: Resource| #[trigger] declared(receipts, resource) == amount(
                whole,
                resource,
            ) by {
                assert(declared(front, resource) == amount(total, resource));
            }
        }
    }
}

proof fn lemma_used(settlements: Seq<InvestmentSettlement>)
    ensures
        workflow::total_actual(settlements) matches Some(total) ==> forall|resource: Resource|
            #[trigger]
            used(settlements, resource) == amount(total, resource),
    decreases settlements.len(),
{
    if settlements.len() > 0 {
        let front = settlements.drop_last();
        lemma_used(front);
        if let Some(whole) = workflow::total_actual(settlements) {
            let total = workflow::total_actual(front)->Some_0;
            assert forall|resource: Resource| #[trigger] used(settlements, resource) == amount(
                whole,
                resource,
            ) by {
                assert(used(front, resource) == amount(total, resource));
            }
        }
    }
}

// ---------------------------------------------------------------------------
// Verifications
// ---------------------------------------------------------------------------
/// Each item of the work is paid for by a receipt of its own, for one verification of
/// that very item under the revision that the work was made for. Memory and elapsed
/// time are declared once, by the first; and what is reserved is what they declare
/// together.
pub open spec fn paid_for(
    work: WorkView,
    receipts: Seq<InvestmentReceipt>,
    reserved: ResourceVector,
) -> bool {
    &&& receipts.len() == work.obligations.len()
    &&& receipts.len() > 0
    &&& forall|i: int|
        0 <= i < receipts.len() ==> {
            &&& (#[trigger] receipts[i]).tag is Verify
            &&& receipts[i].opportunity == work.obligations[i].subject.0
            &&& receipts[i].opportunity_kind is Candidate
            &&& receipts[i].active_revision == work.base_revision
            &&& amount(receipts[i].resources, Resource::Verifications) == 1
        }
    &&& forall|i: int|
        0 < i < receipts.len() ==> amount(
            (#[trigger] receipts[i]).resources,
            Resource::ResidentMemory,
        ) == 0 && amount(receipts[i].resources, Resource::ElapsedTime) == 0
    &&& forall|i: int, j: int|
        0 <= i < receipts.len() && 0 <= j < receipts.len() && (#[trigger] receipts[i]).decision == (
        #[trigger] receipts[j]).decision ==> i == j
    &&& forall|resource: Resource| #[trigger]
        declared(receipts, resource) == amount(reserved, resource)
}

/// Each receipt is settled by one verification that took no more of anything than was
/// declared; memory and elapsed time are accounted for once; and together they took no
/// more than was reserved.
pub open spec fn settled_within(
    receipts: Seq<InvestmentReceipt>,
    reserved: ResourceVector,
    settlements: Seq<InvestmentSettlement>,
) -> bool {
    &&& settlements.len() == receipts.len()
    &&& forall|i: int|
        0 <= i < settlements.len() ==> (#[trigger] settlements[i]).decision
            == receipts[i].decision && amount(
            settlements[i].actual_resources,
            Resource::Verifications,
        ) == 1
    &&& forall|i: int, resource: Resource|
        0 <= i < settlements.len() ==> #[trigger] amount(settlements[i].actual_resources, resource)
            <= amount(receipts[i].resources, resource)
    &&& forall|i: int|
        0 < i < settlements.len() ==> amount(
            (#[trigger] settlements[i]).actual_resources,
            Resource::ResidentMemory,
        ) == 0 && amount(settlements[i].actual_resources, Resource::ElapsedTime) == 0
    &&& forall|resource: Resource| #[trigger]
        used(settlements, resource) <= amount(reserved, resource)
}

/// A batch can be opened exactly where it is paid for.
pub proof fn law_open_batches_are_paid_for(
    work: WorkView,
    receipts: Seq<InvestmentReceipt>,
    reserved: ResourceVector,
)
    ensures
        workflow::batch_is_valid(work, receipts, reserved, None) <==> paid_for(
            work,
            receipts,
            reserved,
        ),
{
    lemma_declared(receipts);
    if workflow::batch_is_valid(work, receipts, reserved, None) {
        assert forall|i: int| 0 <= i < receipts.len() implies {
            &&& (#[trigger] receipts[i]).tag is Verify
            &&& receipts[i].opportunity == work.obligations[i].subject.0
            &&& receipts[i].opportunity_kind is Candidate
            &&& receipts[i].active_revision == work.base_revision
            &&& amount(receipts[i].resources, Resource::Verifications) == 1
        } by {
            assert(knowledge::pays_for(
                receipts[i],
                work.obligations[i],
                work.base_revision,
                i,
            ));
        }
        assert forall|i: int| 0 < i < receipts.len() implies amount(
            (#[trigger] receipts[i]).resources,
            Resource::ResidentMemory,
        ) == 0 && amount(receipts[i].resources, Resource::ElapsedTime) == 0 by {
            assert(knowledge::pays_for(
                receipts[i],
                work.obligations[i],
                work.base_revision,
                i,
            ));
        }
    }
    if paid_for(work, receipts, reserved) {
        assert forall|i: int| 0 <= i < receipts.len() implies knowledge::pays_for(
            #[trigger] receipts[i],
            work.obligations[i],
            work.base_revision,
            i,
        ) by {}
        assert forall|i: int, j: int| 0 <= i < j < receipts.len() implies (
        #[trigger] receipts[i]).decision != (#[trigger] receipts[j]).decision by {}
        if knowledge::total_resources(receipts) is None {
            let resource = choose|resource: Resource| #[trigger]
                declared(receipts, resource) > u64::MAX;
            assert(declared(receipts, resource) == amount(reserved, resource));
        }
        let total = knowledge::total_resources(receipts)->Some_0;
        assert(declared(receipts, Resource::ProcessorTime) == reserved.cpu_time_ns);
        assert(declared(receipts, Resource::ResidentMemory) == reserved.resident_bytes);
        assert(declared(receipts, Resource::DurableStorage) == reserved.durable_bytes);
        assert(declared(receipts, Resource::ElapsedTime) == reserved.elapsed_time_ns);
        assert(declared(receipts, Resource::Verifications) == reserved.verification_requests);
        assert(total =~= reserved);
    }
}

/// A batch that can be settled was paid for, and its settlements stay within it.
pub proof fn law_settled_batches_stay_within(
    work: WorkView,
    receipts: Seq<InvestmentReceipt>,
    reserved: ResourceVector,
    settlements: Seq<InvestmentSettlement>,
)
    requires
        workflow::batch_is_valid(work, receipts, reserved, Some(settlements)),
    ensures
        paid_for(work, receipts, reserved),
        settled_within(receipts, reserved, settlements),
{
    law_open_batches_are_paid_for(work, receipts, reserved);
    lemma_used(settlements);
    let total = workflow::total_actual(settlements)->Some_0;
    assert forall|i: int| 0 <= i < settlements.len() implies (#[trigger] settlements[i]).decision
        == receipts[i].decision && amount(settlements[i].actual_resources, Resource::Verifications)
        == 1 by {
        assert(workflow::settles_one(settlements[i], receipts[i], i));
    }
    assert forall|i: int, resource: Resource| 0 <= i < settlements.len() implies #[trigger] amount(
        settlements[i].actual_resources,
        resource,
    ) <= amount(receipts[i].resources, resource) by {
        assert(workflow::settles_one(settlements[i], receipts[i], i));
    }
    assert forall|i: int| 0 < i < settlements.len() implies amount(
        (#[trigger] settlements[i]).actual_resources,
        Resource::ResidentMemory,
    ) == 0 && amount(settlements[i].actual_resources, Resource::ElapsedTime) == 0 by {
        assert(workflow::settles_one(settlements[i], receipts[i], i));
    }
    assert forall|resource: Resource| #[trigger] used(settlements, resource) <= amount(
        reserved,
        resource,
    ) by {
        assert(used(settlements, resource) == amount(total, resource));
    }
}

// ---------------------------------------------------------------------------
// Steps
// ---------------------------------------------------------------------------
/// Receipts enter under the revision that the core has, unless they belong to the
/// verification that is open; and the ledger takes in those receipts and settlements,
/// and no others.
pub proof fn law_step_takes_in_its_frame<P: PolicyEngine>(
    core: CoreView,
    frame: FrameView,
    step: TransitionView,
)
    requires
        core.staged::<P>(frame) == Ok::<TransitionView, IntelligenceError>(step),
    ensures
        ({
            let before = core.components.ledger;
            let after = core.committed(step).components.ledger;
            &&& after.receipts == before.receipts + frame.receipts
            &&& after.settlements == before.settlements + frame.settlements
            &&& frame.native_training is None && frame.prepared_native_training is None
                ==> after.consequences == before.consequences + frame.consequences
            &&& frame.shadows.len() == 0 ==> after.shadows == before.shadows && after.contrasts
                == before.contrasts
            &&& frame.opened_verification is None ==> forall|i: int|
                0 <= i < frame.receipts.len() ==> (#[trigger] frame.receipts[i]).active_revision
                    == core.revision
            &&& frame.knowledge.len() == 0 && frame.shadows.len() == 0
                ==> core.committed(step).components.knowledge == core.components.knowledge
        }),
{
    continuity::lemma_step_parts::<P>(core, frame, step);
    reveal(CoreView::causal_step);
    reveal(CoreView::knowledge_step);
}

/// A verification is opened for the revision that the core has, where none was open,
/// and each of its items is paid for; the ledger stays as it is until it is settled.
pub proof fn law_verification_is_opened_in_full<P: PolicyEngine>(
    core: CoreView,
    work: WorkView,
    receipts: Seq<InvestmentReceipt>,
    reserved: ResourceVector,
    step: TransitionView,
    pending: PendingView,
)
    requires
        core.verification_opened::<P>(work, receipts, reserved) == Ok::<
            (TransitionView, PendingView),
            IntelligenceError,
        >((step, pending)),
    ensures
        work.base_revision == core.revision,
        paid_for(work, receipts, reserved),
        core.committed(step).components.knowledge.pending == Some(pending),
        core.committed(step).components.ledger.receipts == core.components.ledger.receipts,
        core.committed(step).components.ledger.settlements == core.components.ledger.settlements,
        core.committed(step).components.ledger.shadows == core.components.ledger.shadows,
{
    law_open_batches_are_paid_for(work, receipts, reserved);
    let frame = FrameView {
        knowledge: seq![UpdateView::OpenVerification { work, receipts, reserved }],
        ..FrameView::empty()
    };
    law_step_takes_in_its_frame::<P>(core, frame, step);
    let before = core.components.ledger;
    assert(before.receipts + frame.receipts =~= before.receipts);
    assert(before.settlements + frame.settlements =~= before.settlements);
}

/// A verification that no one paid for, or for another revision, is not opened.
pub proof fn law_unpaid_verification_is_refused<P: PolicyEngine>(
    core: CoreView,
    work: WorkView,
    receipts: Seq<InvestmentReceipt>,
    reserved: ResourceVector,
)
    ensures
        work.base_revision != core.revision ==> core.verification_opened::<P>(
            work,
            receipts,
            reserved,
        ) == Err::<(TransitionView, PendingView), IntelligenceError>(
            IntelligenceError::StaleTransition,
        ),
        work.base_revision == core.revision && !paid_for(work, receipts, reserved)
            ==> core.verification_opened::<P>(work, receipts, reserved) == Err::<
            (TransitionView, PendingView),
            IntelligenceError,
        >(IntelligenceError::InvalidSettlement),
{
    law_open_batches_are_paid_for(work, receipts, reserved);
}

/// A verification is settled under the revision that it was opened under, within what
/// was paid for it, and the ledger takes in its receipts with those settlements. One
/// that is broken off leaves every question open and takes all that was declared.
pub proof fn law_verification_is_settled_in_full<P: PolicyEngine>(
    core: CoreView,
    opened_under: Digest,
    opened: PendingView,
    settlements: Option<Seq<InvestmentSettlement>>,
    step: TransitionView,
)
    requires
        core.verification_settled::<P>(opened_under, opened, settlements) == Ok::<
            TransitionView,
            IntelligenceError,
        >(step),
    ensures
        opened_under == core.revision,
        core.components.knowledge.pending is Some,
        core.components.knowledge.pending->Some_0.reserved == opened.reserved,
        core.committed(step).components.ledger.receipts == core.components.ledger.receipts
            + opened.receipts,
        ({
            let before = core.components.ledger.settlements;
            let after = core.committed(step).components.ledger.settlements;
            match settlements {
                Some(settlements) => {
                    &&& after == before + settlements
                    &&& paid_for(opened.work, opened.receipts, opened.reserved)
                    &&& settled_within(opened.receipts, opened.reserved, settlements)
                },
                None => {
                    &&& after.len() == before.len() + opened.receipts.len()
                    &&& forall|i: int|
                        0 <= i < before.len() ==> #[trigger] after[i] == before[i]
                    &&& forall|i: int|
                        0 <= i < opened.receipts.len() ==> #[trigger] after[before.len() + i] == (
                        InvestmentSettlement {
                            decision: opened.receipts[i].decision,
                            outcome: InvestmentOutcome::VerifiedUnknown,
                            actual_resources: opened.receipts[i].resources,
                        })
                },
            }
        }),
{
    match settlements {
        Some(settlements) => {
            law_settled_batches_stay_within(
                opened.work,
                opened.receipts,
                opened.reserved,
                settlements,
            );
            let frame = FrameView {
                receipts: opened.receipts,
                settlements,
                knowledge: seq![UpdateView::CompleteVerification(opened.work.challenger.id)],
                opened_verification: Some((opened_under, opened)),
                ..FrameView::empty()
            };
            law_step_takes_in_its_frame::<P>(core, frame, step);
        },
        None => {
            let frame = FrameView {
                receipts: opened.receipts,
                settlements: CoreView::interruptions(opened.receipts),
                knowledge: seq![UpdateView::InterruptVerification(opened.work.challenger.id)],
                opened_verification: Some((opened_under, opened)),
                ..FrameView::empty()
            };
            law_step_takes_in_its_frame::<P>(core, frame, step);
        },
    }
}

/// A verification is not settled under another revision, nor where none is open, nor by
/// settlements that do not match its receipts one for one or took more than was paid for.
pub proof fn law_excessive_settlement_is_refused<P: PolicyEngine>(
    core: CoreView,
    opened_under: Digest,
    opened: PendingView,
    settlements: Seq<InvestmentSettlement>,
)
    ensures
        ({
            let result = core.verification_settled::<P>(opened_under, opened, Some(settlements));
            &&& opened_under != core.revision || core.components.knowledge.pending is None
                ==> result == Err::<TransitionView, IntelligenceError>(
                IntelligenceError::StaleTransition,
            )
            &&& !paid_for(opened.work, opened.receipts, opened.reserved) || !settled_within(
                opened.receipts,
                opened.reserved,
                settlements,
            ) ==> result is Err
        }),
{
    if workflow::batch_is_valid(
        opened.work,
        opened.receipts,
        opened.reserved,
        Some(settlements),
    ) {
        law_settled_batches_stay_within(
            opened.work,
            opened.receipts,
            opened.reserved,
            settlements,
        );
    }
}

/// A compilation is settled under the revision that it was made for, by a completed
/// consolidation that its producer paid for; the ledger takes in that one entry.
pub proof fn law_compilation_is_settled_in_full<P: PolicyEngine>(
    core: CoreView,
    base_revision: Digest,
    producer: DecisionId,
    challenger: Option<ConsolidationView>,
    receipt: InvestmentReceipt,
    settlement: InvestmentSettlement,
    step: TransitionView,
)
    requires
        core.compilation_completed::<P>(base_revision, producer, challenger, receipt, settlement)
            == Ok::<TransitionView, IntelligenceError>(step),
    ensures
        base_revision == core.revision,
        receipt.active_revision == core.revision,
        receipt.decision == producer,
        settlement.decision == producer,
        receipt.tag is Consolidate,
        settlement.outcome is Completed,
        core.committed(step).components.ledger.receipts == core.components.ledger.receipts.push(
            receipt,
        ),
        core.committed(step).components.ledger.settlements
            == core.components.ledger.settlements.push(settlement),
        challenger is None ==> core.committed(step).components.knowledge
            == core.components.knowledge,
{
    let frame = FrameView {
        receipts: seq![receipt],
        settlements: seq![settlement],
        knowledge: core.proposals(challenger)->Ok_0,
        ..FrameView::empty()
    };
    law_step_takes_in_its_frame::<P>(core, frame, step);
    let before = core.components.ledger;
    assert(before.receipts + frame.receipts =~= before.receipts.push(receipt));
    assert(before.settlements + frame.settlements =~= before.settlements.push(settlement));
}

// ---------------------------------------------------------------------------
// Campaigns
// ---------------------------------------------------------------------------
/// The challenger in this place stands verified and builds on the active product.
pub open spec fn could_run(core: CoreView, at: int) -> bool {
    let state = core.components.knowledge;
    &&& 0 <= at < state.records.len()
    &&& state.records[at].status is Verified
    &&& knowledge::consolidation_of(state.records[at].challenger) matches Some(consolidation)
        && consolidation.base_product == state.active.active_product()
}

/// A campaign is opened for the revision that the core has, while no other is open, on
/// the first challenger that stands verified and builds on the active product.
pub proof fn law_campaign_is_opened_alone<P: PolicyEngine>(
    core: CoreView,
    plan: planning::PlanView,
    step: TransitionView,
) -> (at: int)
    requires
        core.shadow_opened::<P>(plan) == Ok::<TransitionView, IntelligenceError>(step),
    ensures
        plan.base_revision == core.revision,
        forall|i: int|
            0 <= i < core.components.ledger.shadows.len() ==> !((
            #[trigger] core.components.ledger.shadows[i]).lifecycle is Open),
        could_run(core, at),
        core.components.knowledge.records[at].challenger.id == plan.challenger,
        forall|i: int| 0 <= i < at ==> !#[trigger] could_run(core, i),
{
    let state = core.components.knowledge;
    search::lemma_first(state.records, compiler::verified_on(state.active.active_product()));
    search::first(
        state.records,
        compiler::verified_on(state.active.active_product()),
    )->Some_0
}

/// The campaign is open in the core, under the revision that it was opened under.
pub open spec fn open_at(
    core: CoreView,
    opened_under: Digest,
    campaign: ShadowCampaignSpec,
    at: int,
) -> bool {
    &&& core.revision == opened_under
    &&& 0 <= at < core.components.ledger.shadows.len()
    &&& core.components.ledger.shadows[at].specification == campaign
    &&& core.components.ledger.shadows[at].lifecycle is Open
}

/// A campaign is settled only while it is open, under the revision that it was opened
/// under, and by the reports of both arms, neither of which took more of anything than
/// the campaign allows.
pub proof fn law_campaign_is_settled_by_both_arms<P: PolicyEngine>(
    core: CoreView,
    opened_under: Digest,
    plan: planning::PlanView,
    report: KnowledgeShadowReport,
    step: TransitionView,
) -> (at: int)
    requires
        core.shadow_settled::<P>(opened_under, plan, report) == Ok::<
            TransitionView,
            IntelligenceError,
        >(step),
    ensures
        open_at(core, opened_under, plan.campaign, at),
        report matches KnowledgeShadowReport::Paired { treatment, control } ==> {
            &&& treatment.arm is Treatment
            &&& control.arm is Control
            &&& forall|resource: Resource| #[trigger]
                amount(treatment.actual_resources, resource) <= amount(
                    plan.campaign.resources,
                    resource,
                )
            &&& forall|resource: Resource| #[trigger]
                amount(control.actual_resources, resource) <= amount(
                    plan.campaign.resources,
                    resource,
                )
        },
{
    let shadows = core.components.ledger.shadows;
    search::lemma_first(shadows, ledger::runs(plan.campaign.id));
    search::first(shadows, ledger::runs(plan.campaign.id))->Some_0
}

/// Reports under the wrong arm, or of more than the campaign allows, are refused.
pub proof fn law_misreported_arms_are_refused<P: PolicyEngine>(
    core: CoreView,
    opened_under: Digest,
    plan: planning::PlanView,
    report: KnowledgeShadowReport,
    resource: Resource,
)
    requires
        report matches KnowledgeShadowReport::Paired { treatment, control } && (!(
        treatment.arm is Treatment) || !(control.arm is Control) || amount(
            treatment.actual_resources,
            resource,
        ) > amount(plan.campaign.resources, resource) || amount(control.actual_resources, resource)
            > amount(plan.campaign.resources, resource)),
    ensures
        core.shadow_settled::<P>(opened_under, plan, report) is Err,
        core.shadow_is_open(opened_under, plan.campaign) ==> core.shadow_settled::<P>(
            opened_under,
            plan,
            report,
        ) == Err::<TransitionView, IntelligenceError>(IntelligenceError::InvalidSettlement),
{
}

/// A core has open work exactly while a verification or a campaign is open in it.
pub proof fn law_open_work_is_what_is_open(core: CoreView)
    ensures
        core.has_open_work() <==> core.components.knowledge.pending is Some || exists|i: int|
            0 <= i < core.components.ledger.shadows.len() && (
            #[trigger] core.components.ledger.shadows[i]).lifecycle is Open,
{
}

/// What is settled is the verification that is open: of the same challenger, for the
/// same items, under the same receipts, within the same reserve.
pub proof fn law_open_verification_is_the_one_settled<P: PolicyEngine>(
    core: CoreView,
    opened_under: Digest,
    opened: PendingView,
    settlements: Option<Seq<InvestmentSettlement>>,
    step: TransitionView,
)
    requires
        core.verification_settled::<P>(opened_under, opened, settlements) == Ok::<
            TransitionView,
            IntelligenceError,
        >(step),
    ensures
        core.components.knowledge.pending matches Some(pending) && {
            &&& pending.work.base_revision == opened.work.base_revision
            &&& pending.work.challenger.id == opened.work.challenger.id
            &&& pending.work.challenger.obligations == opened.work.challenger.obligations
            &&& pending.work.challenger.product == opened.work.challenger.product
            &&& pending.work.obligations == opened.work.obligations
            &&& pending.reserved == opened.reserved
            &&& pending.receipts.len() == opened.receipts.len()
            &&& forall|i: int|
                0 <= i < opened.receipts.len() ==> {
                    &&& pending.receipts[i].decision == (#[trigger] opened.receipts[i]).decision
                    &&& pending.receipts[i].tag == opened.receipts[i].tag
                    &&& pending.receipts[i].opportunity == opened.receipts[i].opportunity
                    &&& pending.receipts[i].active_revision == opened.receipts[i].active_revision
                    &&& pending.receipts[i].resources == opened.receipts[i].resources
                }
        },
{
    let pending = core.components.knowledge.pending->Some_0;
    assert forall|i: int| 0 <= i < opened.receipts.len() implies {
        &&& pending.receipts[i].decision == (#[trigger] opened.receipts[i]).decision
        &&& pending.receipts[i].tag == opened.receipts[i].tag
        &&& pending.receipts[i].opportunity == opened.receipts[i].opportunity
        &&& pending.receipts[i].active_revision == opened.receipts[i].active_revision
        &&& pending.receipts[i].resources == opened.receipts[i].resources
    } by {
        assert(pending.receipts[i].agrees(opened.receipts[i]));
    }
}

/// The evidence that a plan was prepared from is what the step begins with.
pub open spec fn learnt_from(core: CoreView, frame: FrameView, prepared: PreparedView) -> bool {
    &&& prepared.receipt_count <= frame.receipts.len()
    &&& prepared.settlement_count <= frame.settlements.len()
    &&& prepared.consequence_count <= frame.consequences.len()
    &&& prepared.shadow_count <= frame.shadows.len()
    &&& core.components.ledger.prepared(
        frame.receipts.take(prepared.receipt_count as int),
        frame.settlements.take(prepared.settlement_count as int),
        frame.consequences.take(prepared.consequence_count as int),
        frame.shadows.take(prepared.shadow_count as int),
        core.limits,
    ) matches Ok(evidence) && core.components.ledger.committed(evidence).root()
        == prepared.evidence_root
}

/// What training proposes is used as it was prepared: for the revision that the core
/// has, from the evidence that the step begins with, at most once in a step; its edits come behind those of the step, and each corpus
/// that it consulted is on record as used.
pub proof fn law_training_is_applied<P: PolicyEngine>(
    core: CoreView,
    frame: FrameView,
    step: TransitionView,
)
    requires
        core.staged::<P>(frame) == Ok::<TransitionView, IntelligenceError>(step),
    ensures
        frame.prepared_native_training matches Some(prepared) ==> frame.native_training is None
            && prepared.base_revision == core.revision && learnt_from(core, frame, prepared),
        ({
            let plan = match frame.prepared_native_training {
                Some(prepared) => Some(prepared.plan),
                None => frame.native_training,
            };
            let before = core.components.ledger.consequences + frame.consequences;
            let after = core.committed(step).components.ledger.consequences;
            &&& plan is None ==> after == before
            &&& plan matches Some(plan) ==> {
                &&& after.len() == before.len() + plan.selection_cases.len()
                &&& forall|i: int| 0 <= i < before.len() ==> #[trigger] after[i] == before[i]
                &&& forall|i: int|
                    0 <= i < plan.selection_cases.len() ==> (#[trigger] after[before.len()
                        + i]).subject == CausalSubject::Artifact(
                        SubjectId(plan.selection_cases[i]),
                    ) && after[before.len() + i].kind is SelectionUse
            }
        }),
{
    continuity::lemma_step_parts::<P>(core, frame, step);
    reveal(CoreView::causal_step);
}

/// What an arm reports is written down as it was reported: under the campaign and its
/// conditions, with what it took, and with what it achieved on each of the two axes.
pub proof fn law_arm_reports_are_written(
    campaign: ShadowCampaignSpec,
    report: KnowledgeShadowArmReport,
    update: ShadowUpdate,
)
    requires
        planning::arm_outcome(campaign, report) == Ok::<ShadowUpdate, IntelligenceError>(update),
    ensures
        update matches ShadowUpdate::Outcome(outcome) && {
            &&& outcome.campaign == campaign.id
            &&& outcome.arm == report.arm
            &&& outcome.checkpoint == campaign.checkpoint
            &&& outcome.random_stream == campaign.random_stream
            &&& outcome.resources == report.actual_resources
            &&& outcome.outcome_list().len() == 2
            &&& outcome.outcome_list()[0].axis is UsefulDescendants
            &&& outcome.outcome_list()[0].value == report.useful_descendants
            &&& outcome.outcome_list()[1].axis is CompressionValue
            &&& outcome.outcome_list()[1].value == report.compression_value
        },
{
    let pad = TypedOutcome::placeholder();
    let list = report.achieved();
    let array = [list[0], list[1], pad, pad, pad, pad, pad, pad, pad];
    assert(padded::holds(array, list, pad));
    padded::lemma_padded::<TypedOutcome, 9>(array, list, pad);
    assert(padded::listed(array, 2) =~= list);
}

/// Work is given up for the want of a witness of one of its own obligations, under the
/// revision that it was made for; the challenger is then invalidated for that reason.
pub proof fn law_work_is_given_up_for_a_witness<P: PolicyEngine>(
    core: CoreView,
    work: WorkView,
    obligation: SubjectId,
    step: TransitionView,
) -> (at: int)
    requires
        core.work_rejected::<P>(
            work,
            KnowledgePlanningFailure::WitnessUnavailable(obligation),
        ) == Ok::<TransitionView, IntelligenceError>(step),
    ensures
        work.base_revision == core.revision,
        exists|i: int|
            0 <= i < work.obligations.len() && (#[trigger] work.obligations[i]).subject
                == obligation,
        ({
            let next = core.committed(step).components.knowledge;
            &&& upkeep::recorded_at(next, work.challenger.id, at)
            &&& next.records[at].status == KnowledgeStatus::Invalidated(
                KnowledgeInvalidationReason::Witness,
            )
            &&& next.records[at].promoted_by is None
        }),
        core.committed(step).components.ledger.receipts == core.components.ledger.receipts,
{
    let id = work.challenger.id;
    let invalidation = UpdateView::Invalidate {
        challenger: id,
        reason: KnowledgeInvalidationReason::Witness,
    };
    let updates = if core.components.knowledge.place(id) is Some {
        seq![invalidation]
    } else {
        seq![UpdateView::Propose(work.challenger), invalidation]
    };
    let frame = FrameView { knowledge: updates, ..FrameView::empty() };
    continuity::lemma_step_parts::<P>(core, frame, step);
    law_step_takes_in_its_frame::<P>(core, frame, step);
    reveal(CoreView::knowledge_step);
    let ledger = core.components.ledger.committed(step.delta);
    let middle = core.components.knowledge.reconciled(ledger).0;
    let before = middle.updated_all(updates.drop_last(), ledger, core.limits).0;
    assert(updates.last() == invalidation);
    let next = middle.updated_all(updates, ledger, core.limits).0;
    assert(before.updated(invalidation, ledger, core.limits) == Ok::<
        (CompilerView, bool),
        IntelligenceError,
    >((next, true)));
    assert(core.components.ledger.receipts + frame.receipts =~= core.components.ledger.receipts);
    let at = upkeep::law_invalidation_is_recorded(
        before,
        id,
        KnowledgeInvalidationReason::Witness,
        ledger,
        core.limits,
        next,
        true,
    );
    assert forall|i: int| 0 <= i < at implies (#[trigger] next.records[i]).challenger.id != id by {
        assert(next.records[i] == before.records[i]);
    }
    at
}

/// Work is not given up for an obligation that it does not have.
pub proof fn law_foreign_failures_are_refused<P: PolicyEngine>(
    core: CoreView,
    work: WorkView,
    obligation: SubjectId,
)
    requires
        work.base_revision == core.revision,
        forall|i: int|
            0 <= i < work.obligations.len() ==> (#[trigger] work.obligations[i]).subject
                != obligation,
    ensures
        core.work_rejected::<P>(
            work,
            KnowledgePlanningFailure::WitnessUnavailable(obligation),
        ) == Err::<TransitionView, IntelligenceError>(IntelligenceError::InvalidReference),
{
}

/// What a compilation proposes is the challenger of its consolidation, once: nothing is
/// proposed where it is known, and no verification of it is planned.
pub proof fn law_known_work_is_not_repeated(core: CoreView, consolidation: ConsolidationView)
    ensures
        match (
            core.proposals(Some(consolidation)),
            knowledge::work_for(core.revision, consolidation),
        ) {
            (Ok(updates), Ok(work)) => if upkeep::unknown(
                core.components.knowledge,
                work.challenger.id,
            ) {
                updates == seq![UpdateView::Propose(work.challenger)]
            } else {
                updates.len() == 0
            },
            (Ok(_), Err(_)) => false,
            (Err(_), Ok(work)) => upkeep::unknown(core.components.knowledge, work.challenger.id),
            (Err(_), Err(_)) => true,
        },
        match core.verification_planned(Some(consolidation)) {
            Ok(Some(planned)) => {
                &&& consolidation.operators.len() > 0
                &&& upkeep::unknown(core.components.knowledge, planned.challenger.id)
                &&& knowledge::work_for(core.revision, consolidation) == Ok::<
                    WorkView,
                    IntelligenceError,
                >(planned)
            },
            Ok(None) => consolidation.operators.len() == 0 || (knowledge::work_for(
                core.revision,
                consolidation,
            ) matches Ok(work) && !upkeep::unknown(
                core.components.knowledge,
                work.challenger.id,
            )),
            Err(_) => consolidation.operators.len() > 0,
        },
{
    if let Ok(work) = knowledge::work_for(core.revision, consolidation) {
        upkeep::lemma_place(core.components.knowledge, work.challenger.id);
    }
}

} // verus!
