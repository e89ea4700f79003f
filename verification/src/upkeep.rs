//! What each update does to the knowledge of a core, and when it is refused.
use vstd::prelude::*;

use crate::challenger::{ChallengerView, KnowledgeChallengerId};
use crate::compiler;
use crate::compiler::{CompilerView, RecordView, UpdateView};
use crate::consolidation;
use crate::intelligence::CoreView;
use crate::knowledge;
use crate::knowledge::{
    KnowledgeInvalidationReason, KnowledgeReview, KnowledgeStatus, PendingView, WorkView,
};
use crate::ledger;
use crate::ledger::LedgerView;
use crate::receipt::DecisionId;
use crate::search;
use crate::standing;
use crate::types::{IntelligenceError, IntelligenceLimits, SubjectId};

verus! {

// ---------------------------------------------------------------------------
// What an update is about
// ---------------------------------------------------------------------------
/// The challenger that an update is about.
pub open spec fn concerns(update: UpdateView) -> KnowledgeChallengerId {
    match update {
        UpdateView::Propose(challenger) => challenger.id,
        UpdateView::Review(review) => review.challenger,
        UpdateView::Invalidate { challenger, .. } => challenger,
        UpdateView::EvaluatePromotion(challenger) => challenger,
        UpdateView::OpenVerification { work, .. } => work.challenger.id,
        UpdateView::CompleteVerification(challenger) => challenger,
        UpdateView::InterruptVerification(challenger) => challenger,
    }
}

/// The record in this place is the first of the challenger.
pub open spec fn recorded_at(state: CompilerView, id: KnowledgeChallengerId, at: int) -> bool {
    &&& 0 <= at < state.records.len()
    &&& state.records[at].challenger.id == id
    &&& forall|i: int| 0 <= i < at ==> (#[trigger] state.records[i]).challenger.id != id
}

/// No record is of the challenger.
pub open spec fn unknown(state: CompilerView, id: KnowledgeChallengerId) -> bool {
    forall|i: int|
        0 <= i < state.records.len() ==> (#[trigger] state.records[i]).challenger.id != id
}

/// Nothing but the record in one place differs, and that is still of its challenger.
pub open spec fn only_record_changed(state: CompilerView, next: CompilerView, at: int) -> bool {
    &&& next.records.len() == state.records.len()
    &&& next.records[at].challenger == state.records[at].challenger
    &&& forall|i: int|
        0 <= i < state.records.len() && i != at ==> #[trigger] next.records[i] == state.records[i]
}

/// Every record is as it was, and one of a challenger was added that was unknown and
/// has not been promoted.
pub open spec fn record_added(
    state: CompilerView,
    next: CompilerView,
    challenger: ChallengerView,
) -> bool {
    &&& unknown(state, challenger.id)
    &&& next.records.len() == state.records.len() + 1
    &&& forall|i: int|
        0 <= i < state.records.len() ==> #[trigger] next.records[i] == state.records[i]
    &&& next.records[state.records.len() as int].challenger == challenger
    &&& next.records[state.records.len() as int].promoted_by is None
}

/// A verification under the decision is on record for the obligation, whatever it
/// found.
pub open spec fn verified_on_record(
    ledger: LedgerView,
    decision: DecisionId,
    obligation: SubjectId,
) -> bool {
    ||| standing::accepted_on_record(ledger, decision, obligation)
    ||| standing::refuted_on_record(ledger, decision, obligation)
    ||| standing::open_on_record(ledger, decision, obligation)
}

/// One review for each item of the work, each under the decision that paid for that
/// item, and each verified on record.
pub open spec fn one_review_each(
    reviews: Seq<KnowledgeReview>,
    pending: PendingView,
    ledger: LedgerView,
) -> bool {
    &&& reviews.len() <= pending.work.obligations.len()
    &&& reviews.len() <= pending.receipts.len()
    &&& reviews.len() == pending.work.obligations.len() || reviews.len() == pending.receipts.len()
    &&& forall|k: int|
        0 <= k < reviews.len() ==> {
            &&& (#[trigger] reviews[k]).challenger == pending.work.challenger.id
            &&& reviews[k].obligation == pending.work.obligations[k].subject
            &&& reviews[k].decision == pending.receipts[k].decision
            &&& verified_on_record(ledger, reviews[k].decision, reviews[k].obligation)
        }
}

pub proof fn lemma_place(state: CompilerView, id: KnowledgeChallengerId)
    ensures
        match state.place(id) {
            Some(at) => recorded_at(state, id, at),
            None => unknown(state, id),
        },
        unknown(state, id) <==> state.place(id) is None,
        forall|at: int| #[trigger] recorded_at(state, id, at) ==> state.place(id) == Some(at),
{
    search::lemma_first(state.records, compiler::named(id));
}

proof fn lemma_reviews(pending: PendingView, ledger: LedgerView, count: nat)
    requires
        count <= pending.work.obligations.len(),
        count <= pending.receipts.len(),
    ensures
        match compiler::settled_reviews(pending, ledger, count) {
            Ok(reviews) => reviews.len() == count && forall|k: int|
                0 <= k < reviews.len() ==> {
                    &&& (#[trigger] reviews[k]).challenger == pending.work.challenger.id
                    &&& reviews[k].obligation == pending.work.obligations[k].subject
                    &&& reviews[k].decision == pending.receipts[k].decision
                    &&& verified_on_record(ledger, reviews[k].decision, reviews[k].obligation)
                },
            Err(error) => error is InvalidReference,
        },
    decreases count,
{
    if count > 0 {
        lemma_reviews(pending, ledger, (count - 1) as nat);
        standing::lemma_authority(
            ledger,
            pending.receipts[count - 1].decision,
            pending.work.obligations[count - 1].subject,
        );
    }
}

// ---------------------------------------------------------------------------
// Accepted updates
// ---------------------------------------------------------------------------
/// A proposal adds a record without reviews of a challenger that was unknown.
pub proof fn law_proposal_is_recorded(
    state: CompilerView,
    challenger: ChallengerView,
    ledger: LedgerView,
    limits: IntelligenceLimits,
    next: CompilerView,
    changed: bool,
)
    requires
        state.updated(UpdateView::Propose(challenger), ledger, limits) == Ok::<
            (CompilerView, bool),
            IntelligenceError,
        >((next, changed)),
    ensures
        changed,
        record_added(state, next, challenger),
        next.records[state.records.len() as int].reviews.len() == 0,
        next.active == state.active,
        next.pending == state.pending,
{
    lemma_place(state, challenger.id);
}

/// A review is added behind the earlier ones: of an obligation that the challenger has,
/// under a decision that no earlier review of it names, and verified on record.
pub proof fn law_review_is_recorded(
    state: CompilerView,
    review: KnowledgeReview,
    ledger: LedgerView,
    limits: IntelligenceLimits,
    next: CompilerView,
    changed: bool,
) -> (at: int)
    requires
        state.updated(UpdateView::Review(review), ledger, limits) == Ok::<
            (CompilerView, bool),
            IntelligenceError,
        >((next, changed)),
    ensures
        changed,
        recorded_at(state, review.challenger, at),
        only_record_changed(state, next, at),
        next.records[at].reviews == state.records[at].reviews.push(review),
        !(state.records[at].status is Invalidated),
        state.records[at].challenger.obligations.contains(review.obligation),
        forall|i: int|
            0 <= i < state.records[at].reviews.len() ==> (
            #[trigger] state.records[at].reviews[i]).decision != review.decision,
        verified_on_record(ledger, review.decision, review.obligation),
        next.active == state.active,
        next.pending == state.pending,
{
    lemma_place(state, review.challenger);
    standing::lemma_authority(ledger, review.decision, review.obligation);
    state.place(review.challenger)->Some_0
}

/// An invalidated challenger keeps its reviews, has the reason on record, and is
/// promoted by nothing.
pub proof fn law_invalidation_is_recorded(
    state: CompilerView,
    id: KnowledgeChallengerId,
    reason: KnowledgeInvalidationReason,
    ledger: LedgerView,
    limits: IntelligenceLimits,
    next: CompilerView,
    changed: bool,
) -> (at: int)
    requires
        state.updated(UpdateView::Invalidate { challenger: id, reason }, ledger, limits) == Ok::<
            (CompilerView, bool),
            IntelligenceError,
        >((next, changed)),
    ensures
        changed,
        recorded_at(state, id, at),
        only_record_changed(state, next, at),
        next.records[at].status == KnowledgeStatus::Invalidated(reason),
        next.records[at].promoted_by is None,
        next.records[at].reviews == state.records[at].reviews,
        !(state.records[at].status is Invalidated),
        next.active == state.active,
        next.pending == state.pending,
{
    lemma_place(state, id);
    state.place(id)->Some_0
}

/// One verification is open at a time: of a challenger that is unknown, or that is
/// provisional and has no reviews; and nothing but that is changed by opening it.
pub proof fn law_verification_is_opened_alone(
    state: CompilerView,
    opened: PendingView,
    ledger: LedgerView,
    limits: IntelligenceLimits,
    next: CompilerView,
    changed: bool,
)
    requires
        state.updated(
            UpdateView::OpenVerification {
                work: opened.work,
                receipts: opened.receipts,
                reserved: opened.reserved,
            },
            ledger,
            limits,
        ) == Ok::<(CompilerView, bool), IntelligenceError>((next, changed)),
    ensures
        changed,
        state.pending is None,
        next.pending == Some(opened),
        next.records == state.records,
        next.active == state.active,
        forall|at: int| #[trigger]
            recorded_at(state, opened.work.challenger.id, at) ==> state.records[at].status
                is Provisional && state.records[at].reviews.len() == 0,
{
    lemma_place(state, opened.work.challenger.id);
}

/// A completed verification was the open one and is open no longer; its challenger,
/// which had no reviews, has one for each item that was paid for.
pub proof fn law_completion_is_recorded(
    state: CompilerView,
    id: KnowledgeChallengerId,
    ledger: LedgerView,
    limits: IntelligenceLimits,
    next: CompilerView,
    changed: bool,
) -> (at: int)
    requires
        state.updated(UpdateView::CompleteVerification(id), ledger, limits) == Ok::<
            (CompilerView, bool),
            IntelligenceError,
        >((next, changed)),
    ensures
        changed,
        state.pending matches Some(pending) && pending.work.challenger.id == id && one_review_each(
            next.records[at].reviews,
            pending,
            ledger,
        ) && (record_added(state, next, pending.work.challenger) && at == state.records.len()
            || recorded_at(state, id, at) && only_record_changed(state, next, at)
            && state.records[at].status is Provisional && state.records[at].reviews.len() == 0),
        next.pending is None,
        next.active == state.active,
{
    let pending = state.pending->Some_0;
    lemma_place(state, id);
    lemma_reviews(pending, ledger, compiler::paired(pending));
    match state.place(id) {
        Some(at) => at,
        None => state.records.len() as int,
    }
}

/// An interrupted verification was the open one and is open no longer; its challenger
/// is invalidated for want of a witness, and no review is added.
pub proof fn law_interruption_is_recorded(
    state: CompilerView,
    id: KnowledgeChallengerId,
    ledger: LedgerView,
    limits: IntelligenceLimits,
    next: CompilerView,
    changed: bool,
) -> (at: int)
    requires
        state.updated(UpdateView::InterruptVerification(id), ledger, limits) == Ok::<
            (CompilerView, bool),
            IntelligenceError,
        >((next, changed)),
    ensures
        changed,
        0 <= at < next.records.len(),
        state.pending matches Some(pending) && pending.work.challenger.id == id && (record_added(
            state,
            next,
            pending.work.challenger,
        ) && at == state.records.len() && next.records[at].reviews.len() == 0 || recorded_at(
            state,
            id,
            at,
        ) && only_record_changed(state, next, at) && next.records[at].reviews
            == state.records[at].reviews && state.records[at].status is Provisional),
        next.records[at].status == KnowledgeStatus::Invalidated(
            KnowledgeInvalidationReason::Witness,
        ),
        next.pending is None,
        next.active == state.active,
{
    lemma_place(state, id);
    match state.place(id) {
        Some(at) => at,
        None => state.records.len() as int,
    }
}

// ---------------------------------------------------------------------------
// Refused updates
// ---------------------------------------------------------------------------
/// Who is unknown cannot be reviewed, invalidated or considered for promotion, and who
/// is known cannot be proposed again.
pub proof fn law_updates_need_their_challenger(
    state: CompilerView,
    update: UpdateView,
    ledger: LedgerView,
    limits: IntelligenceLimits,
)
    ensures
        (update is Review || update is Invalidate || update is EvaluatePromotion) && unknown(
            state,
            concerns(update),
        ) ==> state.updated(update, ledger, limits) == Err::<
            (CompilerView, bool),
            IntelligenceError,
        >(IntelligenceError::InvalidReference),
        update is Propose && !unknown(state, concerns(update)) ==> state.updated(
            update,
            ledger,
            limits,
        ) == Err::<(CompilerView, bool), IntelligenceError>(IntelligenceError::DuplicateKnowledge),
{
    lemma_place(state, concerns(update));
}

/// A review is refused where its challenger is invalidated, where the obligation is not
/// one of the challenger's, where an earlier review names its decision, and where no
/// verification under it is on record; a second invalidation is refused too.
pub proof fn law_refused_reviews_have_a_reason(
    state: CompilerView,
    review: KnowledgeReview,
    reason: KnowledgeInvalidationReason,
    ledger: LedgerView,
    limits: IntelligenceLimits,
    at: int,
)
    requires
        recorded_at(state, review.challenger, at),
    ensures
        ({
            let result = state.updated(UpdateView::Review(review), ledger, limits);
            let record = state.records[at];
            if record.status is Invalidated {
                &&& result == Err::<(CompilerView, bool), IntelligenceError>(
                    IntelligenceError::InvalidKnowledge,
                )
                &&& state.updated(
                    UpdateView::Invalidate { challenger: review.challenger, reason },
                    ledger,
                    limits,
                ) == Err::<(CompilerView, bool), IntelligenceError>(
                    IntelligenceError::DuplicateKnowledge,
                )
            } else {
                &&& !record.challenger.obligations.contains(review.obligation) ==> result == Err::<
                    (CompilerView, bool),
                    IntelligenceError,
                >(IntelligenceError::InvalidReference)
                &&& record.challenger.obligations.contains(review.obligation) && (exists|i: int|
                    0 <= i < record.reviews.len() && (#[trigger] record.reviews[i]).decision
                        == review.decision) ==> result == Err::<
                    (CompilerView, bool),
                    IntelligenceError,
                >(IntelligenceError::DuplicateKnowledge)
                &&& !verified_on_record(ledger, review.decision, review.obligation) ==> result is Err
                &&& state.updated(
                    UpdateView::Invalidate { challenger: review.challenger, reason },
                    ledger,
                    limits,
                ) is Ok
            }
        }),
{
    lemma_place(state, review.challenger);
    standing::lemma_authority(ledger, review.decision, review.obligation);
}

/// Only the open verification can be completed or broken off, and while one is open no
/// other can be opened.
pub proof fn law_verifications_do_not_overlap(
    state: CompilerView,
    update: UpdateView,
    ledger: LedgerView,
    limits: IntelligenceLimits,
)
    ensures
        update is OpenVerification && state.pending is Some ==> state.updated(
            update,
            ledger,
            limits,
        ) == Err::<(CompilerView, bool), IntelligenceError>(IntelligenceError::InvalidKnowledge),
        (update is CompleteVerification || update is InterruptVerification) && !(
        state.pending matches Some(pending) && pending.work.challenger.id == concerns(update))
            ==> state.updated(update, ledger, limits) == Err::<
            (CompilerView, bool),
            IntelligenceError,
        >(IntelligenceError::InvalidReference),
{
}

// ---------------------------------------------------------------------------
// Open work
// ---------------------------------------------------------------------------
/// The record in this place is provisional and has a consolidation.
pub open spec fn still_open(state: CompilerView, at: int) -> bool {
    &&& 0 <= at < state.records.len()
    &&& state.records[at].status is Provisional
    &&& knowledge::consolidation_of(state.records[at].challenger) is Some
}

proof fn lemma_latest_open(records: Seq<RecordView>)
    ensures
        match compiler::latest_open(records) {
            Some(at) => {
                &&& 0 <= at < records.len()
                &&& records[at].status is Provisional
                &&& knowledge::consolidation_of(records[at].challenger) is Some
                &&& forall|i: int|
                    at < i < records.len() ==> !((#[trigger] records[i]).status is Provisional
                        && knowledge::consolidation_of(records[i].challenger) is Some)
            },
            None => forall|i: int|
                0 <= i < records.len() ==> !((#[trigger] records[i]).status is Provisional
                    && knowledge::consolidation_of(records[i].challenger) is Some),
        },
    decreases records.len(),
{
    if records.len() > 0 {
        let front = records.drop_last();
        lemma_latest_open(front);
        assert forall|i: int| 0 <= i < front.len() implies #[trigger] records[i] == front[i] by {}
    }
}

/// A consolidation was completed under this entry of the ledger.
pub open spec fn compiled_at(core: CoreView, i: int) -> bool {
    let ledger = core.components.ledger;
    &&& 0 <= i < ledger.receipts.len()
    &&& ledger.receipts[i].tag is Consolidate
    &&& ledger.settlements[i].outcome is Completed
}

/// The work that is pending is that on the newest challenger that is still open; there
/// is none where no challenger is, and where one is, a consolidation was completed.
pub proof fn law_newest_open_challenger_is_pending(core: CoreView)
    ensures
        match core.compilation_pending() {
            Ok(Some(work)) => {
                &&& exists|i: int| #[trigger] compiled_at(core, i)
                &&& exists|at: int|
                    #![trigger still_open(core.components.knowledge, at)]
                    still_open(core.components.knowledge, at) && (forall|later: int|
                        at < later ==> !#[trigger] still_open(core.components.knowledge, later))
                        && knowledge::work_from(
                        core.revision,
                        core.components.knowledge.records[at].challenger,
                    ) == Ok::<WorkView, IntelligenceError>(work)
                &&& work.obligations.len() > 0
            },
            Ok(None) => true,
            Err(_) => exists|at: int| #[trigger] still_open(core.components.knowledge, at),
        },
        (forall|at: int| !#[trigger] still_open(core.components.knowledge, at)) ==> (
        core.compilation_pending() matches Ok(work) && work is None),
{
    let state = core.components.knowledge;
    lemma_latest_open(state.records);
    if let Some(at) = compiler::latest_open(state.records) {
        assert(still_open(state, at));
        assert forall|later: int| at < later implies !#[trigger] still_open(state, later) by {
            if later < state.records.len() {
                assert(state.records[later] == state.records[later]);
            }
        }
        if let Ok(Some(_)) = core.compilation_pending() {
            let i = choose|j: int|
                0 <= j < core.components.ledger.receipts.len() && ledger::consolidated(
                    #[trigger] core.components.ledger.receipts[j],
                    core.components.ledger.settlements[j],
                );
            assert(compiled_at(core, i));
        }
    }
}

/// How many bytes some challengers carry.
pub open spec fn carried_bytes(records: Seq<RecordView>) -> int
    decreases records.len(),
{
    if records.len() == 0 {
        0
    } else {
        let own = match records.last().challenger.product.bytes {
            Some(bytes) => bytes.len() as int,
            None => 0,
        };
        carried_bytes(records.drop_last()) + own
    }
}

proof fn lemma_carried(records: Seq<RecordView>)
    ensures
        compiler::payload_bytes(records) == carried_bytes(records),
    decreases records.len(),
{
    if records.len() > 0 {
        lemma_carried(records.drop_last());
    }
}

/// A challenger finds room exactly where fewer are recorded than the limits let be, and
/// what all of them carry, its own payload with them, fits beside the active part.
pub proof fn law_room_for_challengers(
    state: CompilerView,
    challenger: ChallengerView,
    limits: IntelligenceLimits,
)
    requires
        limits.maximum_opportunities * 16 <= usize::MAX,
    ensures
        ({
            let own = match challenger.product.bytes {
                Some(bytes) => bytes.len() as int,
                None => 0,
            };
            let total = consolidation::put_state(state.active).len() + carried_bytes(state.records)
                + own;
            state.refuses(challenger, limits) is None <==> state.records.len()
                < limits.maximum_opportunities * 16 && total <= limits.maximum_model_bytes
        }),
{
    lemma_carried(state.records);
}

/// The decision that compiled last is that of the last completed consolidation, and
/// there is only one such.
pub proof fn law_latest_producer_is_the_last(
    core: CoreView,
    decision: DecisionId,
    other: DecisionId,
) -> (at: int)
    requires
        core.latest_producer(decision),
    ensures
        compiled_at(core, at),
        core.components.ledger.receipts[at].decision == decision,
        forall|later: int| at < later ==> !#[trigger] compiled_at(core, later),
        core.latest_producer(other) ==> other == decision,
{
    let receipts = core.components.ledger.receipts;
    let settlements = core.components.ledger.settlements;
    let at = choose|i: int|
        0 <= i < receipts.len() && (#[trigger] receipts[i]).decision == decision
            && ledger::consolidated(receipts[i], settlements[i]) && forall|j: int|
            i < j < receipts.len() ==> !ledger::consolidated(
                #[trigger] receipts[j],
                settlements[j],
            );
    assert forall|later: int| at < later implies !#[trigger] compiled_at(core, later) by {
        if later < receipts.len() {
            assert(!ledger::consolidated(receipts[later], settlements[later]));
        }
    }
    if core.latest_producer(other) {
        let i = choose|i: int|
            0 <= i < receipts.len() && (#[trigger] receipts[i]).decision == other
                && ledger::consolidated(receipts[i], settlements[i]) && forall|j: int|
                i < j < receipts.len() ==> !ledger::consolidated(
                    #[trigger] receipts[j],
                    settlements[j],
                );
        assert(receipts[i] == receipts[i] && receipts[at] == receipts[at]);
    }
    at
}

} // verus!
