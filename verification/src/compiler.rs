//! The knowledge compiler: which challengers are proposed, verified, promoted
//! and withdrawn, and what is active in consequence.
use vstd::prelude::*;

use crate::causal::InvestmentOutcome;
use crate::challenger;
use crate::challenger::{
    ChallengerView, CompilerRecipe, KnowledgeChallenger, KnowledgeChallengerId,
};
use crate::codec;
use crate::codec::saturating_multiply;
use crate::consolidation;
use crate::consolidation::{
    ConsolidationChallenger, ConsolidationView, KnowledgeRevision, KnowledgeState, StateView,
};
use crate::digest::Digest;
use crate::evidence::CausalEvidence;
use crate::knowledge;
use crate::knowledge::{
    cached_consolidation, decode_consolidation_product, retained_consolidation,
    valid_open_verification, KnowledgeInvalidationReason, KnowledgeReview, KnowledgeStatus,
    KnowledgeWork, OpenedKnowledgeWork, PendingView, WorkView,
};
use crate::ledger::{copied, LedgerView};
use crate::receipt;
use crate::receipt::{same_receipts, InvestmentReceipt};
use crate::search;
use crate::shadow::ShadowCampaignId;
use crate::types::{IntelligenceError, IntelligenceLimits, ResourceVector, SubjectId};

verus! {

// ---------------------------------------------------------------------------
// Records
// ---------------------------------------------------------------------------
#[derive(Clone, Debug, PartialEq, Eq)]
pub struct PendingKnowledgeVerification {
    work: KnowledgeWork,
    receipts: Vec<InvestmentReceipt>,
    reserved: ResourceVector,
}

impl View for PendingKnowledgeVerification {
    type V = PendingView;

    closed spec fn view(&self) -> PendingView {
        PendingView { work: self.work@, receipts: self.receipts@, reserved: self.reserved }
    }
}

impl PendingKnowledgeVerification {
    pub fn new(
        work: KnowledgeWork,
        receipts: Vec<InvestmentReceipt>,
        reserved: ResourceVector,
    ) -> (pending: Self)
        ensures
            pending@ == (PendingView { work: work@, receipts: receipts@, reserved }),
    {
        Self { work, receipts, reserved }
    }

    pub fn work(&self) -> (work: &KnowledgeWork)
        ensures
            work@ == self@.work,
    {
        &self.work
    }

    pub fn receipts(&self) -> (receipts: &[InvestmentReceipt])
        ensures
            receipts@ == self@.receipts,
    {
        self.receipts.as_slice()
    }

    pub fn reserved(&self) -> (reserved: ResourceVector)
        ensures
            reserved == self@.reserved,
    {
        self.reserved
    }

    pub fn duplicate(&self) -> (copy: Self)
        ensures
            copy@ == self@,
    {
        Self {
            work: self.work.duplicate(),
            receipts: copied(self.receipts.as_slice()),
            reserved: self.reserved,
        }
    }
}

/// What the compiler knows of a challenger.
#[verifier::ext_equal]
pub struct RecordView {
    pub challenger: ChallengerView,
    pub reviews: Seq<KnowledgeReview>,
    pub promoted_by: Option<ShadowCampaignId>,
    pub status: KnowledgeStatus,
}

#[derive(Clone, Debug, PartialEq, Eq)]
pub struct KnowledgeRecord {
    challenger: KnowledgeChallenger,
    reviews: Vec<KnowledgeReview>,
    promoted_by: Option<ShadowCampaignId>,
    status: KnowledgeStatus,
}

impl View for KnowledgeRecord {
    type V = RecordView;

    closed spec fn view(&self) -> RecordView {
        RecordView {
            challenger: self.challenger@,
            reviews: self.reviews@,
            promoted_by: self.promoted_by,
            status: self.status,
        }
    }
}

impl KnowledgeRecord {
    pub fn new(
        challenger: KnowledgeChallenger,
        reviews: Vec<KnowledgeReview>,
        promoted_by: Option<ShadowCampaignId>,
        status: KnowledgeStatus,
    ) -> (record: Self)
        ensures
            record@ == (RecordView {
                challenger: challenger@,
                reviews: reviews@,
                promoted_by,
                status,
            }),
    {
        Self { challenger, reviews, promoted_by, status }
    }

    pub fn duplicate(&self) -> (copy: Self)
        ensures
            copy@ == self@,
    {
        Self {
            challenger: self.challenger.duplicate(),
            reviews: copied(self.reviews.as_slice()),
            promoted_by: self.promoted_by,
            status: self.status,
        }
    }

    pub fn challenger(&self) -> (challenger: &KnowledgeChallenger)
        ensures
            challenger@ == self@.challenger,
    {
        &self.challenger
    }

    pub fn status(&self) -> (status: KnowledgeStatus)
        ensures
            status == self@.status,
    {
        self.status
    }

    /// Why the challenger was invalidated, where it was.
    pub fn invalidation_reason(&self) -> (reason: Option<KnowledgeInvalidationReason>)
        ensures
            reason == match self@.status {
                KnowledgeStatus::Invalidated(reason) => Some(reason),
                _ => None,
            },
    {
        match self.status {
            KnowledgeStatus::Invalidated(reason) => Some(reason),
            _ => None,
        }
    }

    pub fn reviews(&self) -> (reviews: &[KnowledgeReview])
        ensures
            reviews@ == self@.reviews,
    {
        self.reviews.as_slice()
    }

    pub fn promoted_by(&self) -> (campaign: Option<ShadowCampaignId>)
        ensures
            campaign == self@.promoted_by,
    {
        self.promoted_by
    }
}

fn reviews_accept<E: CausalEvidence>(
    reviews: &[KnowledgeReview],
    experience: &E,
    obligation: SubjectId,
) -> (result: bool)
    requires
        experience.sound(),
    ensures
        result == knowledge::accepted(reviews@, experience.evidence(), obligation),
{
    let ghost ledger = experience.evidence();
    let mut index: usize = 0;
    while index < reviews.len()
        invariant
            index <= reviews@.len(),
            experience.sound(),
            ledger == experience.evidence(),
            forall|i: int|
                0 <= i < index ==> !((#[trigger] reviews@[i]).obligation == obligation
                    && ledger.authority(reviews@[i].decision, obligation) matches Ok(
                    InvestmentOutcome::VerifiedAccepted { .. },
                )),
        decreases reviews@.len() - index,
    {
        if reviews[index].obligation == obligation {
            match experience.authoritative_verification(reviews[index].decision, obligation) {
                Ok(InvestmentOutcome::VerifiedAccepted { .. }) => {
                    assert(reviews@[index as int].obligation == obligation);
                    return true;
                },
                _ => {},
            }
        }
        index = index + 1;
    }
    false
}

pub fn verified_status<E: CausalEvidence>(
    obligations: &[SubjectId],
    reviews: &[KnowledgeReview],
    experience: &E,
) -> (result: Result<KnowledgeStatus, IntelligenceError>)
    requires
        experience.sound(),
    ensures
        result == knowledge::status_by_reviews(obligations@, reviews@, experience.evidence()),
{
    let ghost ledger = experience.evidence();
    let mut index: usize = 0;
    while index < reviews.len()
        invariant
            index <= reviews@.len(),
            experience.sound(),
            ledger == experience.evidence(),
            forall|i: int| 0 <= i < index ==> !knowledge::decisive(ledger)(#[trigger] reviews@[i]),
        decreases reviews@.len() - index,
    {
        let review = reviews[index];
        let verdict = experience.authoritative_verification(review.decision, review.obligation);
        let settles = match verdict {
            Ok(InvestmentOutcome::VerifiedAccepted { .. }) => false,
            Ok(InvestmentOutcome::VerifiedUnknown) => false,
            _ => true,
        };
        if settles {
            proof {
                search::lemma_is_first(reviews@, knowledge::decisive(ledger), index as int);
            }
            return match verdict {
                Err(error) => Err(error),
                Ok(InvestmentOutcome::VerifiedRefuted) => Ok(KnowledgeStatus::Refuted),
                Ok(_) => Err(IntelligenceError::InvalidKnowledge),
            };
        }
        index = index + 1;
    }
    proof {
        search::lemma_is_none(reviews@, knowledge::decisive(ledger));
    }
    let mut place: usize = 0;
    while place < obligations.len()
        invariant
            place <= obligations@.len(),
            experience.sound(),
            ledger == experience.evidence(),
            search::first(reviews@, knowledge::decisive(ledger)) is None,
            forall|k: int|
                0 <= k < place ==> knowledge::accepted(reviews@, ledger, #[trigger] obligations@[k]),
        decreases obligations@.len() - place,
    {
        if !reviews_accept(reviews, experience, obligations[place]) {
            assert(!knowledge::accepted(reviews@, ledger, obligations@[place as int]));
            return Ok(KnowledgeStatus::Provisional);
        }
        place = place + 1;
    }
    Ok(KnowledgeStatus::Verified)
}

// ---------------------------------------------------------------------------
// The compiler as a value
// ---------------------------------------------------------------------------
/// A step of the compiler.
#[verifier::ext_equal]
pub enum UpdateView {
    Propose(ChallengerView),
    Review(KnowledgeReview),
    Invalidate { challenger: KnowledgeChallengerId, reason: KnowledgeInvalidationReason },
    EvaluatePromotion(KnowledgeChallengerId),
    OpenVerification {
        work: WorkView,
        receipts: Seq<InvestmentReceipt>,
        reserved: ResourceVector,
    },
    CompleteVerification(KnowledgeChallengerId),
    InterruptVerification(KnowledgeChallengerId),
}

/// Everything the compiler holds.
#[verifier::ext_equal]
pub struct CompilerView {
    pub active: StateView,
    pub records: Seq<RecordView>,
    pub pending: Option<PendingView>,
}

/// A record of the challenger with this name.
pub open spec fn named(id: KnowledgeChallengerId) -> spec_fn(RecordView) -> bool {
    |record: RecordView| record.challenger.id == id
}

/// A promoted record whose consolidation gave this product.
pub open spec fn promoted_to(product: Digest) -> spec_fn(RecordView) -> bool {
    |record: RecordView|
        record.status is Promoted && match knowledge::consolidation_of(record.challenger) {
            Some(consolidation) => consolidation.product == product,
            None => false,
        }
}

/// A verified record whose consolidation builds on this product.
pub open spec fn verified_on(product: Digest) -> spec_fn(RecordView) -> bool {
    |record: RecordView|
        record.status is Verified && match knowledge::consolidation_of(record.challenger) {
            Some(consolidation) => consolidation.base_product == product,
            None => false,
        }
}

/// The payload bytes of all records.
pub open spec fn payload_bytes(records: Seq<RecordView>) -> nat
    decreases records.len(),
{
    if records.len() == 0 {
        0
    } else {
        payload_bytes(records.drop_last()) + records.last().challenger.product.payload_len()
    }
}

/// How many records are promoted.
pub open spec fn promoted_count(records: Seq<RecordView>) -> nat
    decreases records.len(),
{
    if records.len() == 0 {
        0
    } else {
        promoted_count(records.drop_last()) + if records.last().status is Promoted {
            1nat
        } else {
            0
        }
    }
}

/// The promoted records that lead to a product, newest first, as far as `depth`.
pub open spec fn promotions(records: Seq<RecordView>, product: Digest, depth: nat) -> Seq<int>
    decreases depth,
{
    if depth == 0 {
        Seq::empty()
    } else {
        match search::first(records, promoted_to(product)) {
            None => Seq::empty(),
            Some(index) => seq![index] + promotions(
                records,
                knowledge::consolidation_of(records[index].challenger)->Some_0.base_product,
                (depth - 1) as nat,
            ),
        }
    }
}

/// The campaign that promoted a record no longer satisfies its gate.
pub open spec fn unearned(record: RecordView, ledger: LedgerView) -> bool {
    match record.promoted_by {
        None => true,
        Some(campaign) => !challenger::satisfies(
            record.challenger.promotion,
            campaign,
            record.challenger.product.subject,
            ledger.contrasts,
        ),
    }
}

/// How many promotions, newest first, have to be withdrawn so that every one
/// that remains is earned.
pub open spec fn withdrawals(
    records: Seq<RecordView>,
    chain: Seq<int>,
    ledger: LedgerView,
) -> nat
    decreases chain.len(),
{
    if chain.len() == 0 {
        0
    } else if unearned(records[chain.last()], ledger) {
        chain.len()
    } else {
        withdrawals(records, chain.drop_last(), ledger)
    }
}

/// What the settled receipts of an open verification say of the first `count`
/// obligations.
pub open spec fn settled_reviews(pending: PendingView, ledger: LedgerView, count: nat) -> Result<
    Seq<KnowledgeReview>,
    IntelligenceError,
>
    decreases count,
{
    if count == 0 {
        Ok(Seq::empty())
    } else {
        match settled_reviews(pending, ledger, (count - 1) as nat) {
            Err(error) => Err(error),
            Ok(reviews) => {
                let obligation = pending.work.obligations[count - 1].subject;
                let decision = pending.receipts[count - 1].decision;
                match ledger.authority(decision, obligation) {
                    Err(error) => Err(error),
                    Ok(_) => Ok(
                        reviews.push(
                            KnowledgeReview {
                                challenger: pending.work.challenger.id,
                                obligation,
                                decision,
                            },
                        ),
                    ),
                }
            },
        }
    }
}

/// How many obligations of an open verification have a receipt.
pub open spec fn paired(pending: PendingView) -> nat {
    if pending.work.obligations.len() <= pending.receipts.len() {
        pending.work.obligations.len()
    } else {
        pending.receipts.len()
    }
}

/// A record as it is first made, with the status that its reviews give it.
pub open spec fn first_record(
    challenger: ChallengerView,
    reviews: Seq<KnowledgeReview>,
    ledger: LedgerView,
) -> Result<RecordView, IntelligenceError> {
    match knowledge::announced(challenger) {
        Err(error) => Err(error),
        Ok(_) => match knowledge::status_by_reviews(challenger.obligations, reviews, ledger) {
            Err(error) => Err(error),
            Ok(status) => Ok(RecordView { challenger, reviews, promoted_by: None, status }),
        },
    }
}

impl CompilerView {
    pub open spec fn initial() -> CompilerView {
        CompilerView { active: StateView::initial(), records: Seq::empty(), pending: None }
    }

    /// There is an active product.
    pub open spec fn well_formed(self) -> bool {
        self.active.revisions.len() > 0
    }

    /// The record of a challenger.
    pub open spec fn place(self, id: KnowledgeChallengerId) -> Option<int> {
        search::first(self.records, named(id))
    }

    /// Why a challenger finds no room, if it does not.
    pub open spec fn refuses(self, challenger: ChallengerView, limits: IntelligenceLimits) -> Option<
        IntelligenceError,
    > {
        let bytes = consolidation::put_state(self.active).len() + payload_bytes(self.records)
            + challenger.product.payload_len();
        if self.records.len() >= codec::saturating_product(
            limits.maximum_opportunities as nat,
            16,
        ) {
            Some(IntelligenceError::CapacityExceeded)
        } else if bytes > usize::MAX {
            Some(IntelligenceError::ResourceOverflow)
        } else if bytes > limits.maximum_model_bytes {
            Some(IntelligenceError::CapacityExceeded)
        } else {
            None
        }
    }

    /// The same with another record in some place.
    pub open spec fn with_record(self, index: int, record: RecordView) -> CompilerView {
        CompilerView { records: self.records.update(index, record), ..self }
    }

    pub open spec fn with_new_record(self, record: RecordView) -> CompilerView {
        CompilerView { records: self.records.push(record), ..self }
    }

    pub open spec fn proposed(
        self,
        challenger: ChallengerView,
        ledger: LedgerView,
        limits: IntelligenceLimits,
    ) -> Result<CompilerView, IntelligenceError> {
        if self.place(challenger.id) is Some {
            Err(IntelligenceError::DuplicateKnowledge)
        } else {
            match self.refuses(challenger, limits) {
                Some(error) => Err(error),
                None => match first_record(challenger, Seq::empty(), ledger) {
                    Err(error) => Err(error),
                    Ok(record) => Ok(self.with_new_record(record)),
                },
            }
        }
    }

    pub open spec fn reviewed(self, review: KnowledgeReview, ledger: LedgerView) -> Result<
        CompilerView,
        IntelligenceError,
    > {
        match self.place(review.challenger) {
            None => Err(IntelligenceError::InvalidReference),
            Some(index) => {
                let record = self.records[index];
                let reviews = record.reviews.push(review);
                if record.status is Invalidated {
                    Err(IntelligenceError::InvalidKnowledge)
                } else if !record.challenger.obligations.contains(review.obligation) {
                    Err(IntelligenceError::InvalidReference)
                } else if decided(record.reviews, review.decision) {
                    Err(IntelligenceError::DuplicateKnowledge)
                } else {
                    match ledger.authority(review.decision, review.obligation) {
                        Err(error) => Err(error),
                        Ok(_) => match knowledge::status_by_reviews(
                            record.challenger.obligations,
                            reviews,
                            ledger,
                        ) {
                            Err(error) => Err(error),
                            Ok(status) => Ok(
                                self.with_record(index, RecordView { reviews, status, ..record }),
                            ),
                        },
                    }
                }
            },
        }
    }

    pub open spec fn invalidated(
        self,
        id: KnowledgeChallengerId,
        reason: KnowledgeInvalidationReason,
    ) -> Result<CompilerView, IntelligenceError> {
        match self.place(id) {
            None => Err(IntelligenceError::InvalidReference),
            Some(index) => if self.records[index].status is Invalidated {
                Err(IntelligenceError::DuplicateKnowledge)
            } else {
                Ok(
                    self.with_record(
                        index,
                        RecordView {
                            promoted_by: None,
                            status: KnowledgeStatus::Invalidated(reason),
                            ..self.records[index]
                        },
                    ),
                )
            },
        }
    }

    /// The state after promotion has been considered; unchanged unless a verified
    /// challenger has a campaign that satisfies its gate.
    pub open spec fn evaluated(self, id: KnowledgeChallengerId, ledger: LedgerView) -> Result<
        (CompilerView, bool),
        IntelligenceError,
    > {
        match self.place(id) {
            None => Err(IntelligenceError::InvalidReference),
            Some(index) => {
                let record = self.records[index];
                let campaign = challenger::satisfying(
                    record.challenger.promotion,
                    record.challenger.product.subject,
                    ledger.contrasts,
                );
                if !(record.status is Verified) || campaign is None {
                    Ok((self, false))
                } else {
                    match knowledge::consolidation_of(record.challenger) {
                        None => Err(IntelligenceError::InvalidKnowledge),
                        Some(consolidation) => match self.active.activated(consolidation) {
                            Err(error) => Err(error),
                            Ok(active) => Ok(
                                (
                                    CompilerView {
                                        active,
                                        records: self.records.update(
                                            index,
                                            RecordView {
                                                promoted_by: campaign,
                                                status: KnowledgeStatus::Promoted,
                                                ..record
                                            },
                                        ),
                                        pending: self.pending,
                                    },
                                    true,
                                ),
                            ),
                        },
                    }
                }
            },
        }
    }

    pub open spec fn opened(self, pending: PendingView, limits: IntelligenceLimits) -> Result<
        CompilerView,
        IntelligenceError,
    > {
        if self.pending is Some || !knowledge::open_is_valid(
            pending.work,
            pending.receipts,
            pending.reserved,
        ) {
            Err(IntelligenceError::InvalidKnowledge)
        } else {
            let opened = CompilerView { pending: Some(pending), ..self };
            match self.place(pending.work.challenger.id) {
                Some(index) => if self.records[index].awaits(pending.work.challenger)
                    && self.records[index].reviews.len() == 0 {
                    Ok(opened)
                } else {
                    Err(IntelligenceError::InvalidKnowledge)
                },
                None => match self.refuses(pending.work.challenger, limits) {
                    Some(error) => Err(error),
                    None => Ok(opened),
                },
            }
        }
    }

    pub open spec fn completed(self, id: KnowledgeChallengerId, ledger: LedgerView) -> Result<
        CompilerView,
        IntelligenceError,
    > {
        match self.pending {
            None => Err(IntelligenceError::InvalidReference),
            Some(pending) => if pending.work.challenger.id != id {
                Err(IntelligenceError::InvalidReference)
            } else {
                match settled_reviews(pending, ledger, paired(pending)) {
                    Err(error) => Err(error),
                    Ok(reviews) => match self.place(id) {
                        Some(index) => {
                            let record = self.records[index];
                            if record.awaits(pending.work.challenger) && record.reviews.len()
                                == 0 {
                                match knowledge::status_by_reviews(
                                    record.challenger.obligations,
                                    reviews,
                                    ledger,
                                ) {
                                    Err(error) => Err(error),
                                    Ok(status) => Ok(
                                        CompilerView {
                                            pending: None,
                                            ..self.with_record(
                                                index,
                                                RecordView { reviews, status, ..record },
                                            )
                                        },
                                    ),
                                }
                            } else {
                                Err(IntelligenceError::InvalidKnowledge)
                            }
                        },
                        None => match first_record(pending.work.challenger, reviews, ledger) {
                            Err(error) => Err(error),
                            Ok(record) => Ok(
                                CompilerView { pending: None, ..self.with_new_record(record) },
                            ),
                        },
                    },
                }
            },
        }
    }

    pub open spec fn interrupted(self, id: KnowledgeChallengerId) -> Result<
        CompilerView,
        IntelligenceError,
    > {
        let lost = KnowledgeStatus::Invalidated(KnowledgeInvalidationReason::Witness);
        match self.pending {
            None => Err(IntelligenceError::InvalidReference),
            Some(pending) => if pending.work.challenger.id != id {
                Err(IntelligenceError::InvalidReference)
            } else {
                match self.place(id) {
                    Some(index) => if self.records[index].awaits(pending.work.challenger) {
                        Ok(
                            CompilerView {
                                pending: None,
                                ..self.with_record(
                                    index,
                                    RecordView { status: lost, ..self.records[index] },
                                )
                            },
                        )
                    } else {
                        Err(IntelligenceError::InvalidKnowledge)
                    },
                    None => match knowledge::announced(pending.work.challenger) {
                        Err(error) => Err(error),
                        Ok(_) => Ok(
                            CompilerView {
                                pending: None,
                                ..self.with_new_record(
                                    RecordView {
                                        challenger: pending.work.challenger,
                                        reviews: Seq::empty(),
                                        promoted_by: None,
                                        status: lost,
                                    },
                                )
                            },
                        ),
                    },
                }
            },
        }
    }

    /// The state after one step, and whether the step changed anything.
    pub open spec fn updated(
        self,
        update: UpdateView,
        ledger: LedgerView,
        limits: IntelligenceLimits,
    ) -> Result<(CompilerView, bool), IntelligenceError> {
        match update {
            UpdateView::Propose(challenger) => changed(self.proposed(challenger, ledger, limits)),
            UpdateView::Review(review) => changed(self.reviewed(review, ledger)),
            UpdateView::Invalidate { challenger, reason } => changed(
                self.invalidated(challenger, reason),
            ),
            UpdateView::EvaluatePromotion(challenger) => self.evaluated(challenger, ledger),
            UpdateView::OpenVerification { work, receipts, reserved } => changed(
                self.opened(PendingView { work, receipts, reserved }, limits),
            ),
            UpdateView::CompleteVerification(challenger) => changed(
                self.completed(challenger, ledger),
            ),
            UpdateView::InterruptVerification(challenger) => changed(self.interrupted(challenger)),
        }
    }

    /// The state after some steps, up to the first that is refused, and whether
    /// any of them changed anything.
    pub open spec fn updated_all(
        self,
        updates: Seq<UpdateView>,
        ledger: LedgerView,
        limits: IntelligenceLimits,
    ) -> (CompilerView, Result<bool, IntelligenceError>)
        decreases updates.len(),
    {
        if updates.len() == 0 {
            (self, Ok(false))
        } else {
            match self.updated_all(updates.drop_last(), ledger, limits) {
                (state, Err(error)) => (state, Err(error)),
                (state, Ok(changed)) => match state.updated(updates.last(), ledger, limits) {
                    Err(error) => (state, Err(error)),
                    Ok((next, more)) => (next, Ok(changed || more)),
                },
            }
        }
    }

    /// The state once the newest promotion has been withdrawn that stands in
    /// some place.
    pub open spec fn withdrawn(self, index: int, ledger: LedgerView) -> Result<
        CompilerView,
        IntelligenceError,
    > {
        let record = self.records[index];
        match knowledge::consolidation_of(record.challenger) {
            None => Err(IntelligenceError::InvalidKnowledge),
            Some(consolidation) => match self.active.rolled_back(consolidation.product) {
                Err(error) => Err(error),
                Ok(active) => match knowledge::status_by_reviews(
                    record.challenger.obligations,
                    record.reviews,
                    ledger,
                ) {
                    Err(error) => Err(error),
                    Ok(status) => Ok(
                        CompilerView {
                            active,
                            records: self.records.update(
                                index,
                                RecordView { promoted_by: None, status, ..record },
                            ),
                            pending: self.pending,
                        },
                    ),
                },
            },
        }
    }

    /// The state once some promotions have been withdrawn, in the given order, up
    /// to the first that cannot be.
    pub open spec fn withdrawn_all(self, places: Seq<int>, ledger: LedgerView) -> (
        CompilerView,
        Result<(), IntelligenceError>,
    )
        decreases places.len(),
    {
        if places.len() == 0 {
            (self, Ok(()))
        } else {
            match self.withdrawn_all(places.drop_last(), ledger) {
                (state, Err(error)) => (state, Err(error)),
                (state, Ok(_)) => match state.withdrawn(places.last(), ledger) {
                    Err(error) => (state, Err(error)),
                    Ok(next) => (next, Ok(())),
                },
            }
        }
    }

    /// The promotions that the active product rests on, newest first.
    pub open spec fn active_promotions(self) -> Seq<int> {
        promotions(self.records, self.active.active_product(), self.records.len())
    }

    /// The state in which every promotion that the active product rests on is
    /// earned, and whether anything had to be withdrawn for it.
    pub open spec fn reconciled(self, ledger: LedgerView) -> (
        CompilerView,
        Result<bool, IntelligenceError>,
    ) {
        let chain = self.active_promotions();
        let count = withdrawals(self.records, chain, ledger);
        match self.withdrawn_all(chain.take(count as int), ledger) {
            (state, Err(error)) => (state, Err(error)),
            (state, Ok(_)) => (state, Ok(count > 0)),
        }
    }

    /// The active product rests on every promotion.
    pub open spec fn aligned(self) -> bool {
        let count = promoted_count(self.records);
        promotions(self.records, self.active.active_product(), count + 1).len() == count
    }

    /// Everything stays within the limits.
    pub open spec fn fits(self, limits: IntelligenceLimits) -> bool {
        let bytes = consolidation::put_state(self.active).len() + payload_bytes(self.records)
            + match self.pending {
            Some(pending) => pending.work.challenger.product.payload_len(),
            None => 0,
        };
        &&& limits.maximum_opportunities * 16 <= usize::MAX
        &&& limits.maximum_investments * 64 <= usize::MAX
        &&& self.records.len() <= limits.maximum_opportunities * 16
        &&& bytes <= limits.maximum_model_bytes
        &&& forall|i: int|
            0 <= i < self.records.len() ==> (#[trigger] self.records[i]).reviews.len()
                <= limits.maximum_investments * 64
        &&& self.pending matches Some(pending) ==> pending.receipts.len()
            <= limits.maximum_investments && knowledge::open_is_valid(
            pending.work,
            pending.receipts,
            pending.reserved,
        )
    }
}

/// Some review rests on the decision.
pub open spec fn decided(
    reviews: Seq<KnowledgeReview>,
    decision: crate::receipt::DecisionId,
) -> bool {
    exists|i: int| 0 <= i < reviews.len() && (#[trigger] reviews[i]).decision == decision
}

impl RecordView {
    /// Still open, and about this very challenger.
    pub open spec fn awaits(self, challenger: ChallengerView) -> bool {
        self.status is Provisional && self.challenger.agrees(challenger)
    }
}

/// A step that changes something wherever it is not refused.
pub open spec fn changed(result: Result<CompilerView, IntelligenceError>) -> Result<
    (CompilerView, bool),
    IntelligenceError,
> {
    match result {
        Ok(state) => Ok((state, true)),
        Err(error) => Err(error),
    }
}

/// Places as integers.
pub open spec fn places(chain: Seq<usize>) -> Seq<int> {
    Seq::new(chain.len(), |i: int| chain[i] as int)
}

/// A method took the step that it should, or refused it and changed nothing.
pub open spec fn stepped(
    expected: Result<CompilerView, IntelligenceError>,
    result: Result<(), IntelligenceError>,
    after: CompilerView,
    before: CompilerView,
) -> bool {
    match result {
        Ok(_) => expected == Ok::<CompilerView, IntelligenceError>(after),
        Err(error) => expected == Err::<CompilerView, IntelligenceError>(error) && after == before,
    }
}

/// The newest record that is open and has a consolidation.
pub open spec fn latest_open(records: Seq<RecordView>) -> Option<int>
    decreases records.len(),
{
    if records.len() == 0 {
        None
    } else if records.last().status is Provisional && knowledge::consolidation_of(
        records.last().challenger,
    ) is Some {
        Some(records.len() - 1)
    } else {
        latest_open(records.drop_last())
    }
}

/// The newest promoted record of a derived operator.
pub open spec fn latest_derivation(records: Seq<RecordView>) -> Option<int>
    decreases records.len(),
{
    if records.len() == 0 {
        None
    } else if records.last().status is Promoted && records.last().challenger.recipe
        is DeriveOperator {
        Some(records.len() - 1)
    } else {
        latest_derivation(records.drop_last())
    }
}

impl CompilerView {
    /// The verification is open and states the same.
    pub open spec fn awaits(self, opened: PendingView) -> bool {
        match self.pending {
            Some(pending) => {
                &&& knowledge::works_agree(pending.work, opened.work)
                &&& receipt::receipts_agree(pending.receipts, opened.receipts)
                &&& pending.reserved == opened.reserved
            },
            None => false,
        }
    }

    /// The state with another active part.
    pub open spec fn imported(self, legacy: StateView, limits: IntelligenceLimits) -> Result<
        CompilerView,
        IntelligenceError,
    > {
        let imported = CompilerView { active: legacy, ..self };
        let refusal = match latest_derivation(self.records) {
            None => None,
            Some(index) => match knowledge::carried_consolidation(self.records[index].challenger) {
                Err(error) => Some(error),
                Ok(consolidation) => if consolidation.product != legacy.active_product() {
                    Some(IntelligenceError::InvalidKnowledge)
                } else {
                    None
                },
            },
        };
        match refusal {
            Some(error) => Err(error),
            None => if imported.fits(limits) {
                Ok(imported)
            } else {
                Err(IntelligenceError::CapacityExceeded)
            },
        }
    }

    /// What promotion of a challenger takes: one identity for each obligation.
    pub open spec fn rebase_bytes(self, id: KnowledgeChallengerId) -> Result<
        usize,
        IntelligenceError,
    > {
        match self.place(id) {
            None => Err(IntelligenceError::InvalidReference),
            Some(index) => match knowledge::consolidation_of(self.records[index].challenger) {
                None => Err(IntelligenceError::InvalidKnowledge),
                Some(consolidation) => if consolidation.operators.len() * 32 > usize::MAX {
                    Err(IntelligenceError::ResourceOverflow)
                } else {
                    Ok((consolidation.operators.len() * 32) as usize)
                },
            },
        }
    }
}

// ---------------------------------------------------------------------------
// The compiler
// ---------------------------------------------------------------------------
/// A step of the compiler.
#[derive(Clone, Debug, PartialEq, Eq)]
pub enum KnowledgeUpdate {
    Propose(KnowledgeChallenger),
    Review(KnowledgeReview),
    Invalidate { challenger: KnowledgeChallengerId, reason: KnowledgeInvalidationReason },
    EvaluatePromotion(KnowledgeChallengerId),
    OpenVerification {
        work: KnowledgeWork,
        receipts: Vec<InvestmentReceipt>,
        reserved: ResourceVector,
    },
    CompleteVerification(KnowledgeChallengerId),
    InterruptVerification(KnowledgeChallengerId),
}

impl View for KnowledgeUpdate {
    type V = UpdateView;

    open spec fn view(&self) -> UpdateView {
        match *self {
            KnowledgeUpdate::Propose(challenger) => UpdateView::Propose(challenger@),
            KnowledgeUpdate::Review(review) => UpdateView::Review(review),
            KnowledgeUpdate::Invalidate { challenger, reason } => UpdateView::Invalidate {
                challenger,
                reason,
            },
            KnowledgeUpdate::EvaluatePromotion(challenger) => UpdateView::EvaluatePromotion(
                challenger,
            ),
            KnowledgeUpdate::OpenVerification {
                work,
                receipts,
                reserved,
            } => UpdateView::OpenVerification { work: work@, receipts: receipts@, reserved },
            KnowledgeUpdate::CompleteVerification(challenger) => UpdateView::CompleteVerification(
                challenger,
            ),
            KnowledgeUpdate::InterruptVerification(
                challenger,
            ) => UpdateView::InterruptVerification(challenger),
        }
    }
}

impl KnowledgeUpdate {
    pub fn duplicate(&self) -> (copy: Self)
        ensures
            copy@ == self@,
    {
        match self {
            KnowledgeUpdate::Propose(challenger) => KnowledgeUpdate::Propose(
                challenger.duplicate(),
            ),
            KnowledgeUpdate::Review(review) => KnowledgeUpdate::Review(*review),
            KnowledgeUpdate::Invalidate { challenger, reason } => KnowledgeUpdate::Invalidate {
                challenger: *challenger,
                reason: *reason,
            },
            KnowledgeUpdate::EvaluatePromotion(
                challenger,
            ) => KnowledgeUpdate::EvaluatePromotion(*challenger),
            KnowledgeUpdate::OpenVerification {
                work,
                receipts,
                reserved,
            } => KnowledgeUpdate::OpenVerification {
                work: work.duplicate(),
                receipts: copied(receipts.as_slice()),
                reserved: *reserved,
            },
            KnowledgeUpdate::CompleteVerification(
                challenger,
            ) => KnowledgeUpdate::CompleteVerification(*challenger),
            KnowledgeUpdate::InterruptVerification(
                challenger,
            ) => KnowledgeUpdate::InterruptVerification(*challenger),
        }
    }
}

#[derive(Clone, Debug, PartialEq, Eq)]
pub struct KnowledgeCompiler {
    active: KnowledgeState,
    records: Vec<KnowledgeRecord>,
    pending_verification: Option<PendingKnowledgeVerification>,
}

impl View for KnowledgeCompiler {
    type V = CompilerView;

    closed spec fn view(&self) -> CompilerView {
        CompilerView {
            active: self.active@,
            records: codec::views(self.records@),
            pending: match self.pending_verification {
                Some(pending) => Some(pending@),
                None => None,
            },
        }
    }
}

impl Default for KnowledgeCompiler {
    fn default() -> (compiler: Self)
        ensures
            compiler@ == CompilerView::initial(),
    {
        let compiler = Self {
            active: KnowledgeState::default(),
            records: Vec::new(),
            pending_verification: None,
        };
        assert(compiler@.records =~= CompilerView::initial().records);
        compiler
    }
}

pub fn review_decided(reviews: &[KnowledgeReview], decision: crate::receipt::DecisionId) -> (result:
    bool)
    ensures
        result == decided(reviews@, decision),
{
    let mut index: usize = 0;
    while index < reviews.len()
        invariant
            index <= reviews@.len(),
            forall|i: int| 0 <= i < index ==> (#[trigger] reviews@[i]).decision != decision,
        decreases reviews@.len() - index,
    {
        if reviews[index].decision == decision {
            assert(reviews@[index as int].decision == decision);
            return true;
        }
        index = index + 1;
    }
    false
}

pub fn has_subject(subjects: &[SubjectId], subject: SubjectId) -> (result: bool)
    ensures
        result == subjects@.contains(subject),
{
    let mut index: usize = 0;
    while index < subjects.len()
        invariant
            index <= subjects@.len(),
            forall|i: int| 0 <= i < index ==> #[trigger] subjects@[i] != subject,
        decreases subjects@.len() - index,
    {
        if subjects[index] == subject {
            assert(subjects@[index as int] == subject);
            return true;
        }
        index = index + 1;
    }
    false
}

/// The state that `replaced` gives has the view that it should.
proof fn lemma_replaced(records: Seq<KnowledgeRecord>, index: int, record: KnowledgeRecord)
    requires
        0 <= index < records.len(),
    ensures
        codec::views(records.update(index, record)) == codec::views(records).update(index, record@),
{
    assert(codec::views(records.update(index, record)) =~= codec::views(records).update(
        index,
        record@,
    ));
}

proof fn lemma_pushed(records: Seq<KnowledgeRecord>, record: KnowledgeRecord)
    ensures
        codec::views(records.push(record)) == codec::views(records).push(record@),
{
    assert(codec::views(records.push(record)) =~= codec::views(records).push(record@));
}

/// Once a step is refused, later ones do not matter.
proof fn lemma_refusal_stays(
    state: CompilerView,
    updates: Seq<UpdateView>,
    count: int,
    ledger: LedgerView,
    limits: IntelligenceLimits,
)
    requires
        0 <= count <= updates.len(),
        state.updated_all(updates.take(count), ledger, limits).1 is Err,
    ensures
        state.updated_all(updates, ledger, limits) == state.updated_all(
            updates.take(count),
            ledger,
            limits,
        ),
    decreases updates.len() - count,
{
    if count < updates.len() {
        assert(updates.take(count + 1).drop_last() =~= updates.take(count));
        lemma_refusal_stays(state, updates, count + 1, ledger, limits);
    } else {
        assert(updates.take(count) =~= updates);
    }
}

proof fn lemma_failed_withdrawal_stays(
    state: CompilerView,
    places: Seq<int>,
    count: int,
    ledger: LedgerView,
)
    requires
        0 <= count <= places.len(),
        state.withdrawn_all(places.take(count), ledger).1 is Err,
    ensures
        state.withdrawn_all(places, ledger) == state.withdrawn_all(places.take(count), ledger),
    decreases places.len() - count,
{
    if count < places.len() {
        assert(places.take(count + 1).drop_last() =~= places.take(count));
        lemma_failed_withdrawal_stays(state, places, count + 1, ledger);
    } else {
        assert(places.take(count) =~= places);
    }
}

proof fn lemma_missing_review_stays(
    pending: PendingView,
    ledger: LedgerView,
    count: nat,
    whole: nat,
)
    requires
        count <= whole,
        settled_reviews(pending, ledger, count) is Err,
    ensures
        settled_reviews(pending, ledger, whole) == settled_reviews(pending, ledger, count),
    decreases whole - count,
{
    if count < whole {
        lemma_missing_review_stays(pending, ledger, count, (whole - 1) as nat);
    }
}

proof fn lemma_payload_bytes_grow(records: Seq<RecordView>, count: int)
    requires
        0 <= count <= records.len(),
    ensures
        payload_bytes(records.take(count)) <= payload_bytes(records),
    decreases records.len() - count,
{
    if count < records.len() {
        assert(records.take(count + 1).drop_last() =~= records.take(count));
        lemma_payload_bytes_grow(records, count + 1);
    } else {
        assert(records.take(count) =~= records);
    }
}

/// The promotions found within a depth all stand among the records.
proof fn lemma_promotions(records: Seq<RecordView>, product: Digest, depth: nat)
    ensures
        promotions(records, product, depth).len() <= depth,
        forall|i: int|
            0 <= i < promotions(records, product, depth).len() ==> 0 <= #[trigger] promotions(
                records,
                product,
                depth,
            )[i] < records.len(),
    decreases depth,
{
    if depth > 0 {
        search::lemma_first(records, promoted_to(product));
        match search::first(records, promoted_to(product)) {
            None => {},
            Some(index) => {
                let base =
                    knowledge::consolidation_of(records[index].challenger)->Some_0.base_product;
                lemma_promotions(records, base, (depth - 1) as nat);
                let rest = promotions(records, base, (depth - 1) as nat);
                let all = promotions(records, product, depth);
                assert(all =~= seq![index] + rest);
                assert forall|i: int| 0 <= i < all.len() implies 0 <= #[trigger] all[i]
                    < records.len() by {
                    if i > 0 {
                        assert(all[i] == rest[i - 1]);
                    }
                }
            },
        }
    }
}

proof fn lemma_withdrawals(records: Seq<RecordView>, chain: Seq<int>, ledger: LedgerView)
    ensures
        withdrawals(records, chain, ledger) <= chain.len(),
    decreases chain.len(),
{
    if chain.len() > 0 {
        lemma_withdrawals(records, chain.drop_last(), ledger);
    }
}

impl KnowledgeCompiler {
    pub(crate) fn assembled(
        active: KnowledgeState,
        records: Vec<KnowledgeRecord>,
        pending_verification: Option<PendingKnowledgeVerification>,
    ) -> (compiler: Self)
        ensures
            compiler@ == (CompilerView {
                active: active@,
                records: codec::views(records@),
                pending: match pending_verification {
                    Some(pending) => Some(pending@),
                    None => None,
                },
            }),
    {
        Self { active, records, pending_verification }
    }

    pub(crate) fn with_pending(self, pending: PendingKnowledgeVerification) -> (compiler: Self)
        ensures
            compiler@ == (CompilerView { pending: Some(pending@), ..self@ }),
    {
        Self {
            active: self.active,
            records: self.records,
            pending_verification: Some(pending),
        }
    }

    pub fn pending(&self) -> (pending: Option<&PendingKnowledgeVerification>)
        ensures
            match (pending, self@.pending) {
                (Some(pending), Some(view)) => pending@ == view,
                (None, None) => true,
                _ => false,
            },
    {
        match &self.pending_verification {
            Some(pending) => Some(pending),
            None => None,
        }
    }

    pub fn duplicate(&self) -> (copy: Self)
        ensures
            copy@ == self@,
    {
        let mut records: Vec<KnowledgeRecord> = Vec::new();
        let mut index: usize = 0;
        while index < self.records.len()
            invariant
                index <= self.records@.len(),
                records@.len() == index,
                forall|i: int| 0 <= i < index ==> (#[trigger] records@[i])@ == self.records@[i]@,
            decreases self.records@.len() - index,
        {
            records.push(self.records[index].duplicate());
            index = index + 1;
        }
        let pending_verification = match &self.pending_verification {
            Some(pending) => Some(pending.duplicate()),
            None => None,
        };
        let copy = Self { active: self.active.duplicate(), records, pending_verification };
        assert(copy@ =~= self@);
        copy
    }

    pub fn pinned_revision(&self) -> (revision: &KnowledgeRevision)
        requires
            self@.well_formed(),
        ensures
            revision@ == self@.active.revisions.last(),
    {
        self.active.pinned_revision()
    }

    pub fn product(&self) -> (product: Digest)
        requires
            self@.well_formed(),
        ensures
            product == self@.active.active_product(),
    {
        self.active.product()
    }

    pub fn generation(&self) -> (generation: u64)
        ensures
            generation == self@.active.generation,
    {
        self.active.generation()
    }

    pub fn active(&self) -> (active: &KnowledgeState)
        ensures
            active@ == self@.active,
    {
        &self.active
    }

    pub fn records(&self) -> (records: &[KnowledgeRecord])
        ensures
            codec::views(records@) == self@.records,
    {
        self.records.as_slice()
    }

    pub fn retained_item_count(&self) -> (count: usize)
        ensures
            count == self@.records.len(),
    {
        self.records.len()
    }

    fn find(&self, id: KnowledgeChallengerId) -> (place: Option<usize>)
        ensures
            match place {
                Some(index) => self@.place(id) == Some(index as int) && index
                    < self.records@.len(),
                None => self@.place(id) is None,
            },
    {
        let mut index: usize = 0;
        while index < self.records.len()
            invariant
                index <= self.records@.len(),
                forall|i: int| 0 <= i < index ==> !named(id)(#[trigger] self@.records[i]),
            decreases self.records@.len() - index,
        {
            assert(self@.records[index as int] == self.records@[index as int]@);
            if self.records[index].challenger.id() == id {
                proof {
                    search::lemma_is_first(self@.records, named(id), index as int);
                }
                return Some(index);
            }
            index = index + 1;
        }
        proof {
            search::lemma_is_none(self@.records, named(id));
        }
        None
    }

    pub fn contains(&self, id: KnowledgeChallengerId) -> (result: bool)
        ensures
            result == self@.place(id) is Some,
    {
        self.find(id).is_some()
    }

    pub fn record(&self, id: KnowledgeChallengerId) -> (result: Option<&KnowledgeRecord>)
        ensures
            match result {
                Some(record) => self@.place(id) matches Some(index) && record@
                    == self@.records[index],
                None => self@.place(id) is None,
            },
    {
        match self.find(id) {
            Some(index) => Some(&self.records[index]),
            None => None,
        }
    }

    pub fn status(&self, id: KnowledgeChallengerId) -> (status: Option<KnowledgeStatus>)
        ensures
            status == match self@.place(id) {
                Some(index) => Some(self@.records[index].status),
                None => None,
            },
    {
        match self.find(id) {
            Some(index) => Some(self.records[index].status),
            None => None,
        }
    }

    pub fn product_bytes(&self) -> (bytes: usize)
        ensures
            bytes == if payload_bytes(self@.records) > usize::MAX {
                usize::MAX as nat
            } else {
                payload_bytes(self@.records)
            },
    {
        let mut bytes: usize = 0;
        let mut index: usize = 0;
        assert(self@.records.take(0) =~= Seq::empty());
        while index < self.records.len()
            invariant
                index <= self.records@.len(),
                bytes == if payload_bytes(self@.records.take(index as int)) > usize::MAX {
                    usize::MAX as nat
                } else {
                    payload_bytes(self@.records.take(index as int))
                },
            decreases self.records@.len() - index,
        {
            let ghost here = self@.records.take(index + 1);
            assert(here.drop_last() =~= self@.records.take(index as int));
            assert(here.last() == self.records@[index as int]@);
            bytes = bytes.saturating_add(self.records[index].challenger.product().heap_bytes());
            index = index + 1;
        }
        assert(self@.records.take(self@.records.len() as int) =~= self@.records);
        bytes
    }

    pub fn ensure_proposal_capacity(
        &self,
        challenger: &KnowledgeChallenger,
        limits: IntelligenceLimits,
    ) -> (result: Result<(), IntelligenceError>)
        ensures
            match result {
                Ok(_) => self@.refuses(challenger@, limits) is None,
                Err(error) => self@.refuses(challenger@, limits) == Some(error),
            },
    {
        let record_limit: usize = saturating_multiply(limits.maximum_opportunities, 16);
        if self.records.len() >= record_limit {
            return Err(IntelligenceError::CapacityExceeded);
        }
        let active: usize = self.active.encode().len();
        proof {
            consolidation::lemma_state_has_bytes(self@.active);
        }
        let retained: usize = match active.checked_add(self.product_bytes()) {
            Some(bytes) => bytes,
            None => return Err(IntelligenceError::ResourceOverflow),
        };
        let retained: usize = match retained.checked_add(challenger.product().heap_bytes()) {
            Some(bytes) => bytes,
            None => return Err(IntelligenceError::ResourceOverflow),
        };
        if retained > limits.maximum_model_bytes {
            return Err(IntelligenceError::CapacityExceeded);
        }
        Ok(())
    }

    fn enter(&mut self, record: KnowledgeRecord)
        ensures
            final(self)@ == old(self)@.with_new_record(record@),
    {
        proof {
            lemma_pushed(self.records@, record);
        }
        self.records.push(record);
    }

    fn replace(&mut self, index: usize, record: KnowledgeRecord)
        requires
            index < old(self)@.records.len(),
        ensures
            final(self)@ == old(self)@.with_record(index as int, record@),
    {
        assert(self@.records.len() == self.records@.len());
        proof {
            lemma_replaced(self.records@, index as int, record);
        }
        self.records.set(index, record);
    }

    fn propose<E: CausalEvidence>(
        &mut self,
        challenger: &KnowledgeChallenger,
        experience: &E,
        limits: IntelligenceLimits,
    ) -> (result: Result<(), IntelligenceError>)
        requires
            experience.sound(),
        ensures
            stepped(old(self)@.proposed(challenger@, experience.evidence(), limits), result, final(self)@, old(self)@),
    {
        if self.contains(challenger.id()) {
            return Err(IntelligenceError::DuplicateKnowledge);
        }
        match self.ensure_proposal_capacity(challenger, limits) {
            Ok(_) => {},
            Err(error) => return Err(error),
        }
        match new_record(challenger, Vec::new(), experience) {
            Ok(record) => {
                self.enter(record);
                Ok(())
            },
            Err(error) => Err(error),
        }
    }

    fn review<E: CausalEvidence>(&mut self, review: KnowledgeReview, experience: &E) -> (result:
        Result<(), IntelligenceError>)
        requires
            experience.sound(),
        ensures
            stepped(old(self)@.reviewed(review, experience.evidence()), result, final(self)@, old(self)@),
    {
        let index: usize = match self.find(review.challenger) {
            Some(index) => index,
            None => return Err(IntelligenceError::InvalidReference),
        };
        assert(self@.records[index as int] == self.records@[index as int]@);
        if matches!(self.records[index].status, KnowledgeStatus::Invalidated(_)) {
            return Err(IntelligenceError::InvalidKnowledge);
        }
        if !has_subject(self.records[index].challenger.obligations(), review.obligation) {
            return Err(IntelligenceError::InvalidReference);
        }
        if review_decided(self.records[index].reviews.as_slice(), review.decision) {
            return Err(IntelligenceError::DuplicateKnowledge);
        }
        match experience.authoritative_verification(review.decision, review.obligation) {
            Ok(_) => {},
            Err(error) => return Err(error),
        }
        let mut record = self.records[index].duplicate();
        record.reviews.push(review);
        record.status =
        match verified_status(
            record.challenger.obligations(),
            record.reviews.as_slice(),
            experience,
        ) {
            Ok(status) => status,
            Err(error) => return Err(error),
        };
        self.replace(index, record);
        Ok(())
    }

    fn invalidate(
        &mut self,
        challenger: KnowledgeChallengerId,
        reason: KnowledgeInvalidationReason,
    ) -> (result: Result<(), IntelligenceError>)
        ensures
            stepped(old(self)@.invalidated(challenger, reason), result, final(self)@, old(self)@),
    {
        let index: usize = match self.find(challenger) {
            Some(index) => index,
            None => return Err(IntelligenceError::InvalidReference),
        };
        assert(self@.records[index as int] == self.records@[index as int]@);
        if matches!(self.records[index].status, KnowledgeStatus::Invalidated(_)) {
            return Err(IntelligenceError::DuplicateKnowledge);
        }
        let mut record = self.records[index].duplicate();
        record.promoted_by = None;
        record.status = KnowledgeStatus::Invalidated(reason);
        self.replace(index, record);
        Ok(())
    }

    fn evaluate_promotion<E: CausalEvidence>(
        &mut self,
        challenger: KnowledgeChallengerId,
        experience: &E,
    ) -> (result: Result<bool, IntelligenceError>)
        requires
            old(self)@.well_formed(),
        ensures
            match result {
                Ok(changed) => old(self)@.evaluated(challenger, experience.evidence()) == Ok::<
                    (CompilerView, bool),
                    IntelligenceError,
                >((final(self)@, changed)),
                Err(error) => old(self)@.evaluated(challenger, experience.evidence()) == Err::<
                    (CompilerView, bool),
                    IntelligenceError,
                >(error) && final(self)@ == old(self)@,
            },
    {
        let index: usize = match self.find(challenger) {
            Some(index) => index,
            None => return Err(IntelligenceError::InvalidReference),
        };
        let ghost before = self@;
        assert(self@.records[index as int] == self.records@[index as int]@);
        if self.records[index].status != KnowledgeStatus::Verified {
            return Ok(false);
        }
        let mut record = self.records[index].duplicate();
        let campaign = match record.challenger.promotion().satisfying_campaign(
            record.challenger.product().subject(),
            experience.contrasts(),
        ) {
            Some(campaign) => campaign,
            None => return Ok(false),
        };
        let consolidation = match retained_consolidation(&record.challenger) {
            Some(consolidation) => consolidation,
            None => return Err(IntelligenceError::InvalidKnowledge),
        };
        match self.active.activate_reverified_challenger(&consolidation) {
            Ok(_) => {},
            Err(error) => {
                assert(self@ =~= before);
                return Err(error);
            },
        }
        record.promoted_by = Some(campaign);
        record.status = KnowledgeStatus::Promoted;
        self.replace(index, record);
        assert(self@ =~= before.evaluated(challenger, experience.evidence())->Ok_0.0);
        Ok(true)
    }

    fn open_verification(
        &mut self,
        work: &KnowledgeWork,
        receipts: &[InvestmentReceipt],
        reserved: ResourceVector,
        limits: IntelligenceLimits,
    ) -> (result: Result<(), IntelligenceError>)
        ensures
            stepped(
                old(self)@.opened(
                    (PendingView { work: work@, receipts: receipts@, reserved }),
                    limits,
                ),
                result,
                final(self)@,
                old(self)@,
            ),
    {
        let ghost before = self@;
        if self.pending_verification.is_some() || !valid_open_verification(
            work,
            receipts,
            reserved,
        ) {
            return Err(IntelligenceError::InvalidKnowledge);
        }
        match self.find(work.id()) {
            Some(index) => {
                assert(self@.records[index as int] == self.records@[index as int]@);
                let record = &self.records[index];
                if record.status != KnowledgeStatus::Provisional || !record.challenger.agrees_with(
                    work.challenger(),
                ) || record.reviews.len() != 0 {
                    return Err(IntelligenceError::InvalidKnowledge);
                }
            },
            None => {
                match self.ensure_proposal_capacity(work.challenger(), limits) {
                    Ok(_) => {},
                    Err(error) => return Err(error),
                }
            },
        }
        self.pending_verification = Some(
            PendingKnowledgeVerification {
                work: work.duplicate(),
                receipts: copied(receipts),
                reserved,
            },
        );
        assert(self@.records == before.records);
        Ok(())
    }

    fn complete_verification<E: CausalEvidence>(
        &mut self,
        challenger: KnowledgeChallengerId,
        experience: &E,
    ) -> (result: Result<(), IntelligenceError>)
        requires
            experience.sound(),
        ensures
            stepped(old(self)@.completed(challenger, experience.evidence()), result, final(self)@, old(self)@),
    {
        let ghost before = self@;
        let pending = match &self.pending_verification {
            Some(pending) => pending.duplicate(),
            None => return Err(IntelligenceError::InvalidReference),
        };
        if pending.work.id() != challenger {
            return Err(IntelligenceError::InvalidReference);
        }
        let reviews = match reviews_of(&pending, experience) {
            Ok(reviews) => reviews,
            Err(error) => return Err(error),
        };
        match self.find(challenger) {
            Some(index) => {
                assert(self@.records[index as int] == self.records@[index as int]@);
                let mut record = self.records[index].duplicate();
                if record.status != KnowledgeStatus::Provisional || !record.challenger.agrees_with(
                    pending.work.challenger(),
                ) || record.reviews.len() != 0 {
                    return Err(IntelligenceError::InvalidKnowledge);
                }
                record.status =
                match verified_status(
                    record.challenger.obligations(),
                    reviews.as_slice(),
                    experience,
                ) {
                    Ok(status) => status,
                    Err(error) => return Err(error),
                };
                record.reviews = reviews;
                self.replace(index, record);
            },
            None => {
                match new_record(pending.work.challenger(), reviews, experience) {
                    Ok(record) => self.enter(record),
                    Err(error) => return Err(error),
                }
            },
        }
        let ghost middle = self@;
        self.pending_verification = None;
        assert(self@.records == middle.records);
        Ok(())
    }

    fn interrupt_verification(&mut self, challenger: KnowledgeChallengerId) -> (result: Result<
        (),
        IntelligenceError,
    >)
        ensures
            stepped(old(self)@.interrupted(challenger), result, final(self)@, old(self)@),
    {
        let lost = KnowledgeStatus::Invalidated(KnowledgeInvalidationReason::Witness);
        let pending = match &self.pending_verification {
            Some(pending) => pending.duplicate(),
            None => return Err(IntelligenceError::InvalidReference),
        };
        if pending.work.id() != challenger {
            return Err(IntelligenceError::InvalidReference);
        }
        match self.find(challenger) {
            Some(index) => {
                assert(self@.records[index as int] == self.records@[index as int]@);
                let mut record = self.records[index].duplicate();
                if record.status != KnowledgeStatus::Provisional || !record.challenger.agrees_with(
                    pending.work.challenger(),
                ) {
                    return Err(IntelligenceError::InvalidKnowledge);
                }
                record.status = lost;
                self.replace(index, record);
            },
            None => {
                match cached_consolidation(pending.work.challenger()) {
                    Ok(_) => {},
                    Err(error) => return Err(error),
                }
                self.enter(
                    KnowledgeRecord {
                        challenger: pending.work.challenger().duplicate(),
                        reviews: Vec::new(),
                        promoted_by: None,
                        status: lost,
                    },
                );
            },
        }
        let ghost middle = self@;
        self.pending_verification = None;
        assert(self@.records == middle.records);
        Ok(())
    }

    fn apply_update<E: CausalEvidence>(
        &mut self,
        update: &KnowledgeUpdate,
        experience: &E,
        limits: IntelligenceLimits,
    ) -> (result: Result<bool, IntelligenceError>)
        requires
            old(self)@.well_formed(),
            experience.sound(),
        ensures
            match result {
                Ok(changed) => old(self)@.updated(update@, experience.evidence(), limits) == Ok::<
                    (CompilerView, bool),
                    IntelligenceError,
                >((final(self)@, changed)),
                Err(error) => old(self)@.updated(update@, experience.evidence(), limits) == Err::<
                    (CompilerView, bool),
                    IntelligenceError,
                >(error) && final(self)@ == old(self)@,
            },
            final(self)@.well_formed(),
    {
        let result = match update {
            KnowledgeUpdate::EvaluatePromotion(challenger) => {
                return self.evaluate_promotion(*challenger, experience);
            },
            KnowledgeUpdate::Propose(challenger) => self.propose(challenger, experience, limits),
            KnowledgeUpdate::Review(review) => self.review(*review, experience),
            KnowledgeUpdate::Invalidate { challenger, reason } => self.invalidate(
                *challenger,
                *reason,
            ),
            KnowledgeUpdate::OpenVerification { work, receipts, reserved } => self.open_verification(
                work,
                receipts.as_slice(),
                *reserved,
                limits,
            ),
            KnowledgeUpdate::CompleteVerification(challenger) => self.complete_verification(
                *challenger,
                experience,
            ),
            KnowledgeUpdate::InterruptVerification(challenger) => self.interrupt_verification(
                *challenger,
            ),
        };
        match result {
            Ok(_) => Ok(true),
            Err(error) => Err(error),
        }
    }

    /// Takes the steps in order, up to the first that is refused, and tells
    /// whether any of them changed anything. A refused step changes nothing.
    pub fn apply<E: CausalEvidence>(
        &mut self,
        updates: &[KnowledgeUpdate],
        experience: &E,
        limits: IntelligenceLimits,
    ) -> (result: Result<bool, IntelligenceError>)
        requires
            old(self)@.well_formed(),
            experience.sound(),
        ensures
            old(self)@.updated_all(codec::views(updates@), experience.evidence(), limits) == (
                final(self)@,
                result,
            ),
            final(self)@.well_formed(),
    {
        let ghost start = self@;
        let ghost ledger = experience.evidence();
        let ghost all = codec::views(updates@);
        let mut changed = false;
        let mut index: usize = 0;
        assert(all.take(0) =~= Seq::empty());
        while index < updates.len()
            invariant
                index <= updates@.len(),
                all == codec::views(updates@),
                ledger == experience.evidence(),
                experience.sound(),
                start == old(self)@,
                self@.well_formed(),
                start.updated_all(all.take(index as int), ledger, limits) == (
                    self@,
                    Ok::<bool, IntelligenceError>(changed),
                ),
            decreases updates@.len() - index,
        {
            assert(all.take(index + 1).drop_last() =~= all.take(index as int));
            assert(all.take(index + 1).last() == updates@[index as int]@);
            match self.apply_update(&updates[index], experience, limits) {
                Ok(more) => {
                    changed = changed || more;
                },
                Err(error) => {
                    proof {
                        lemma_refusal_stays(start, all, index + 1, ledger, limits);
                    }
                    return Err(error);
                },
            }
            index = index + 1;
        }
        assert(all.take(all.len() as int) =~= all);
        Ok(changed)
    }

    fn find_promoted(&self, product: Digest) -> (place: Option<(usize, Digest)>)
        ensures
            match place {
                Some((index, base)) => search::first(self@.records, promoted_to(product)) == Some(
                    index as int,
                ) && index < self.records@.len() && base == knowledge::consolidation_of(
                    self@.records[index as int].challenger,
                )->Some_0.base_product,
                None => search::first(self@.records, promoted_to(product)) is None,
            },
    {
        let mut index: usize = 0;
        while index < self.records.len()
            invariant
                index <= self.records@.len(),
                forall|i: int| 0 <= i < index ==> !promoted_to(product)(#[trigger] self@.records[i]),
            decreases self.records@.len() - index,
        {
            assert(self@.records[index as int] == self.records@[index as int]@);
            if self.records[index].status == KnowledgeStatus::Promoted {
                match retained_consolidation(&self.records[index].challenger) {
                    Some(consolidation) => {
                        if consolidation.product == product {
                            proof {
                                search::lemma_is_first(
                                    self@.records,
                                    promoted_to(product),
                                    index as int,
                                );
                            }
                            return Some((index, consolidation.base_product));
                        }
                    },
                    None => {},
                }
            }
            index = index + 1;
        }
        proof {
            search::lemma_is_none(self@.records, promoted_to(product));
        }
        None
    }

    /// The promotions that lead to a product, newest first, as far as `depth`.
    fn promotions_to(&self, product: Digest, depth: usize) -> (chain: Vec<usize>)
        ensures
            places(chain@) == promotions(self@.records, product, depth as nat),
            forall|i: int| 0 <= i < chain@.len() ==> #[trigger] chain@[i] < self@.records.len(),
    {
        let mut chain: Vec<usize> = Vec::new();
        let mut current = product;
        let mut remaining: usize = depth;
        assert(places(chain@) =~= Seq::empty());
        assert(places(chain@) + promotions(self@.records, current, depth as nat) =~= promotions(
            self@.records,
            current,
            depth as nat,
        ));
        while remaining > 0
            invariant_except_break
                places(chain@) + promotions(self@.records, current, remaining as nat)
                    == promotions(self@.records, product, depth as nat),
            invariant
                forall|i: int|
                    0 <= i < chain@.len() ==> #[trigger] chain@[i] < self@.records.len(),
            ensures
                places(chain@) == promotions(self@.records, product, depth as nat),
            decreases remaining,
        {
            let ghost before = places(chain@);
            match self.find_promoted(current) {
                None => {
                    assert(before + Seq::<int>::empty() =~= before);
                    break ;
                },
                Some((index, base)) => {
                    assert(self@.records.len() == self.records@.len());
                    chain.push(index);
                    current = base;
                    remaining = remaining - 1;
                    assert(places(chain@) =~= before.push(index as int));
                    let ghost rest = promotions(self@.records, current, remaining as nat);
                    assert(before.push(index as int) + rest =~= before + (seq![index as int]
                        + rest));
                },
            }
            proof {
                if remaining == 0 {
                    assert(places(chain@) + Seq::<int>::empty() =~= places(chain@));
                }
            }
        }
        chain
    }

    fn withdraw<E: CausalEvidence>(&mut self, index: usize, experience: &E) -> (result: Result<
        (),
        IntelligenceError,
    >)
        requires
            index < old(self)@.records.len(),
            old(self)@.well_formed(),
            experience.sound(),
        ensures
            stepped(
                old(self)@.withdrawn(index as int, experience.evidence()),
                result,
                final(self)@,
                old(self)@,
            ),
            final(self)@.well_formed(),
    {
        let ghost before = self@;
        assert(self@.records.len() == self.records@.len());
        assert(self@.records[index as int] == self.records@[index as int]@);
        let mut record = self.records[index].duplicate();
        let consolidation = match retained_consolidation(&record.challenger) {
            Some(consolidation) => consolidation,
            None => return Err(IntelligenceError::InvalidKnowledge),
        };
        let mut active = self.active.duplicate();
        match active.rollback_promoted_product(consolidation.product) {
            Ok(_) => {},
            Err(error) => return Err(error),
        }
        record.promoted_by = None;
        record.status =
        match verified_status(
            record.challenger.obligations(),
            record.reviews.as_slice(),
            experience,
        ) {
            Ok(status) => status,
            Err(error) => return Err(error),
        };
        self.active = active;
        assert(self@.records == before.records);
        self.replace(index, record);
        assert(self@ =~= before.withdrawn(index as int, experience.evidence())->Ok_0);
        Ok(())
    }

    fn is_unearned<E: CausalEvidence>(&self, index: usize, experience: &E) -> (result: bool)
        requires
            index < self@.records.len(),
        ensures
            result == unearned(self@.records[index as int], experience.evidence()),
    {
        assert(self@.records.len() == self.records@.len());
        assert(self@.records[index as int] == self.records@[index as int]@);
        let record = &self.records[index];
        match record.promoted_by {
            None => true,
            Some(campaign) => !record.challenger.promotion().campaign_satisfies(
                campaign,
                record.challenger.product().subject(),
                experience.contrasts(),
            ),
        }
    }

    /// Withdraws promotions, newest first, until every one that the active
    /// product rests on is earned by the evidence, and tells whether that took
    /// anything. A chain of promotions is followed no further than there are
    /// records.
    pub fn reconcile_promotions<E: CausalEvidence>(&mut self, experience: &E) -> (result: Result<
        bool,
        IntelligenceError,
    >)
        requires
            old(self)@.well_formed(),
            experience.sound(),
        ensures
            old(self)@.reconciled(experience.evidence()) == (final(self)@, result),
            final(self)@.well_formed(),
    {
        let ghost start = self@;
        let ghost ledger = experience.evidence();
        let chain = self.promotions_to(self.active.product(), self.records.len());
        let ghost all = places(chain@);
        let mut count: usize = chain.len();
        proof {
            lemma_withdrawals(self@.records, all, ledger);
            assert(all.take(all.len() as int) =~= all);
            assert(self@.records.len() == self.records@.len());
        }
        while count > 0
            invariant_except_break
                withdrawals(self@.records, all.take(count as int), ledger) == withdrawals(
                    self@.records,
                    all,
                    ledger,
                ),
            invariant
                count <= chain@.len(),
                all == places(chain@),
                ledger == experience.evidence(),
                forall|i: int|
                    0 <= i < chain@.len() ==> #[trigger] chain@[i] < self@.records.len(),
            ensures
                count == withdrawals(self@.records, all, ledger),
            decreases count,
        {
            let ghost here = all.take(count as int);
            assert(here.last() == chain@[count - 1] as int);
            if self.is_unearned(chain[count - 1], experience) {
                break ;
            }
            assert(here.drop_last() =~= all.take(count - 1));
            count = count - 1;
        }
        let ghost withdrawn = all.take(count as int);
        let mut index: usize = 0;
        assert(withdrawn.take(0) =~= Seq::empty());
        while index < count
            invariant
                index <= count <= chain@.len(),
                all == places(chain@),
                withdrawn == all.take(count as int),
                all == start.active_promotions(),
                count == withdrawals(start.records, all, ledger),
                ledger == experience.evidence(),
                start == old(self)@,
                experience.sound(),
                self@.well_formed(),
                self@.records.len() == start.records.len(),
                forall|i: int|
                    0 <= i < chain@.len() ==> #[trigger] chain@[i] < start.records.len(),
                start.withdrawn_all(withdrawn.take(index as int), ledger) == (
                    self@,
                    Ok::<(), IntelligenceError>(()),
                ),
            decreases count - index,
        {
            assert(withdrawn.take(index + 1).drop_last() =~= withdrawn.take(index as int));
            assert(withdrawn.take(index + 1).last() == chain@[index as int] as int);
            match self.withdraw(chain[index], experience) {
                Ok(_) => {},
                Err(error) => {
                    proof {
                        lemma_failed_withdrawal_stays(start, withdrawn, index + 1, ledger);
                    }
                    return Err(error);
                },
            }
            index = index + 1;
        }
        assert(withdrawn.take(count as int) =~= withdrawn);
        Ok(count > 0)
    }

    /// Whether the active product rests on every promotion.
    pub fn active_aligns_with_promotions(&self) -> (result: bool)
        requires
            self@.well_formed(),
        ensures
            result == self@.aligned(),
    {
        let mut promoted: usize = 0;
        let mut index: usize = 0;
        assert(self@.records.take(0) =~= Seq::empty());
        while index < self.records.len()
            invariant
                promoted <= index <= self.records@.len(),
                promoted == promoted_count(self@.records.take(index as int)),
            decreases self.records@.len() - index,
        {
            assert(self@.records.take(index + 1).drop_last() =~= self@.records.take(index as int));
            assert(self@.records.take(index + 1).last() == self.records@[index as int]@);
            if self.records[index].status == KnowledgeStatus::Promoted {
                promoted = promoted + 1;
            }
            index = index + 1;
        }
        assert(self@.records.take(self@.records.len() as int) =~= self@.records);
        let ghost whole = promotions(
            self@.records,
            self@.active.active_product(),
            (promoted + 1) as nat,
        );
        let mut product = self.active.product();
        let mut aligned: usize = 0;
        loop
            invariant
                aligned <= promoted,
                aligned + promotions(
                    self@.records,
                    product,
                    (promoted + 1 - aligned) as nat,
                ).len() == whole.len(),
                promoted == promoted_count(self@.records),
                whole == promotions(
                    self@.records,
                    self@.active.active_product(),
                    (promoted + 1) as nat,
                ),
            decreases promoted - aligned,
        {
            match self.find_promoted(product) {
                None => return aligned == promoted,
                Some((_, base)) => {
                    if aligned == promoted {
                        return false;
                    }
                    aligned = aligned + 1;
                    product = base;
                },
            }
        }
    }

    /// The first verified challenger that builds on the active product.
    pub fn eligible_shadow(&self) -> (result: Option<
        (KnowledgeChallengerId, ConsolidationChallenger),
    >)
        requires
            self@.well_formed(),
        ensures
            match (
                result,
                search::first(self@.records, verified_on(self@.active.active_product())),
            ) {
                (Some((id, consolidation)), Some(index)) => id
                    == self@.records[index].challenger.id && knowledge::consolidation_of(
                    self@.records[index].challenger,
                ) == Some(consolidation@),
                (None, None) => true,
                _ => false,
            },
    {
        let product = self.active.product();
        let mut index: usize = 0;
        while index < self.records.len()
            invariant
                index <= self.records@.len(),
                product == self@.active.active_product(),
                forall|i: int| 0 <= i < index ==> !verified_on(product)(#[trigger] self@.records[i]),
            decreases self.records@.len() - index,
        {
            assert(self@.records[index as int] == self.records@[index as int]@);
            if self.records[index].status == KnowledgeStatus::Verified {
                match retained_consolidation(&self.records[index].challenger) {
                    Some(consolidation) => {
                        if consolidation.base_product == product {
                            proof {
                                search::lemma_is_first(
                                    self@.records,
                                    verified_on(product),
                                    index as int,
                                );
                            }
                            return Some((self.records[index].challenger.id(), consolidation));
                        }
                    },
                    None => {},
                }
            }
            index = index + 1;
        }
        proof {
            search::lemma_is_none(self@.records, verified_on(product));
        }
        None
    }

    /// The newest challenger with a consolidation on which nothing is decided.
    pub fn pending_compilation(&self) -> (result: Option<&KnowledgeChallenger>)
        ensures
            match (result, latest_open(self@.records)) {
                (Some(challenger), Some(index)) => challenger@ == self@.records[index].challenger,
                (None, None) => true,
                _ => false,
            },
    {
        let mut index: usize = self.records.len();
        assert(self@.records.take(index as int) =~= self@.records);
        while index > 0
            invariant
                index <= self.records@.len(),
                latest_open(self@.records.take(index as int)) == latest_open(self@.records),
            decreases index,
        {
            let ghost here = self@.records.take(index as int);
            assert(here.last() == self.records@[index - 1]@);
            assert(here.drop_last() =~= self@.records.take(index - 1));
            index = index - 1;
            if self.records[index].status == KnowledgeStatus::Provisional
                && retained_consolidation(&self.records[index].challenger).is_some() {
                return Some(&self.records[index].challenger);
            }
        }
        None
    }

    /// The open verification, as it stands under a revision.
    pub fn opened_verification(&self, opened_revision: Digest) -> (result: Option<
        OpenedKnowledgeWork,
    >)
        ensures
            match (result, self@.pending) {
                (Some(opened), Some(pending)) => opened@ == pending && opened.opened_under()
                    == opened_revision,
                (None, None) => true,
                _ => false,
            },
    {
        match &self.pending_verification {
            Some(pending) => Some(
                OpenedKnowledgeWork::new(
                    opened_revision,
                    pending.work.duplicate(),
                    copied(pending.receipts.as_slice()),
                    pending.reserved,
                ),
            ),
            None => None,
        }
    }

    pub fn matches_opened_verification(&self, opened: &OpenedKnowledgeWork) -> (result: bool)
        ensures
            result == self@.awaits(opened@),
    {
        match &self.pending_verification {
            Some(pending) => pending.work.agrees_with(opened.work()) && same_receipts(
                pending.receipts.as_slice(),
                opened.receipts(),
            ) && pending.reserved == opened.reserved_resources(),
            None => false,
        }
    }

    /// Whether everything stays within the limits.
    pub fn fits_limits(&self, limits: IntelligenceLimits) -> (result: bool)
        ensures
            result == self@.fits(limits),
    {
        let record_limit: usize = match limits.maximum_opportunities.checked_mul(16) {
            Some(limit) => limit,
            None => return false,
        };
        let review_limit: usize = match limits.maximum_investments.checked_mul(64) {
            Some(limit) => limit,
            None => return false,
        };
        assert(self@.records.len() == self.records@.len());
        if self.records.len() > record_limit {
            return false;
        }
        let pending_bytes: usize = match &self.pending_verification {
            Some(pending) => pending.work.challenger().product().heap_bytes(),
            None => 0,
        };
        proof {
            consolidation::lemma_state_has_bytes(self@.active);
        }
        let retained: usize = match self.product_bytes().checked_add(self.active.encode().len()) {
            Some(bytes) => bytes,
            None => return false,
        };
        let retained: usize = match retained.checked_add(pending_bytes) {
            Some(bytes) => bytes,
            None => return false,
        };
        if retained > limits.maximum_model_bytes {
            return false;
        }
        let mut index: usize = 0;
        while index < self.records.len()
            invariant
                index <= self.records@.len(),
                review_limit == limits.maximum_investments * 64,
                forall|i: int|
                    0 <= i < index ==> (#[trigger] self@.records[i]).reviews.len() <= review_limit,
            decreases self.records@.len() - index,
        {
            assert(self@.records[index as int] == self.records@[index as int]@);
            if self.records[index].reviews.len() > review_limit {
                assert(!self@.fits(limits));
                return false;
            }
            index = index + 1;
        }
        match &self.pending_verification {
            Some(pending) => pending.receipts.len() <= limits.maximum_investments
                && valid_open_verification(
                &pending.work,
                pending.receipts.as_slice(),
                pending.reserved,
            ),
            None => true,
        }
    }

    /// The consolidation that was promoted last; `None` where there is none.
    fn last_promoted_consolidation(&self) -> (result: Result<
        Option<ConsolidationChallenger>,
        IntelligenceError,
    >)
        ensures
            match (result, latest_derivation(self@.records)) {
                (Ok(Some(consolidation)), Some(index)) => knowledge::carried_consolidation(
                    self@.records[index].challenger,
                ) == Ok::<ConsolidationView, IntelligenceError>(consolidation@),
                (Err(error), Some(index)) => knowledge::carried_consolidation(
                    self@.records[index].challenger,
                ) == Err::<ConsolidationView, IntelligenceError>(error),
                (Ok(None), None) => true,
                _ => false,
            },
    {
        let mut index: usize = self.records.len();
        assert(self@.records.take(index as int) =~= self@.records);
        while index > 0
            invariant
                index <= self.records@.len(),
                latest_derivation(self@.records.take(index as int)) == latest_derivation(
                    self@.records,
                ),
            decreases index,
        {
            let ghost here = self@.records.take(index as int);
            assert(here.last() == self.records@[index - 1]@);
            assert(here.drop_last() =~= self@.records.take(index - 1));
            index = index - 1;
            if self.records[index].status == KnowledgeStatus::Promoted
                && self.records[index].challenger.recipe() == CompilerRecipe::DeriveOperator {
                return match decode_consolidation_product(&self.records[index].challenger) {
                    Ok(consolidation) => Ok(Some(consolidation)),
                    Err(error) => Err(error),
                };
            }
        }
        Ok(None)
    }

    /// Takes over an active state that was kept apart from the records. It has to
    /// agree with the last promotion and to stay within the limits.
    pub fn import_legacy_active(
        &mut self,
        legacy: &KnowledgeState,
        limits: IntelligenceLimits,
    ) -> (result: Result<(), IntelligenceError>)
        requires
            legacy@.revisions.len() > 0,
        ensures
            stepped(
                old(self)@.imported(legacy@, limits),
                result,
                final(self)@,
                old(self)@,
            ),
    {
        let ghost before = self@;
        match self.last_promoted_consolidation() {
            Err(error) => return Err(error),
            Ok(Some(consolidation)) => {
                if consolidation.product != legacy.product() {
                    return Err(IntelligenceError::InvalidKnowledge);
                }
            },
            Ok(None) => {},
        }
        let encoded = legacy.encode();
        if encoded.len() > limits.maximum_model_bytes {
            return Err(IntelligenceError::CapacityExceeded);
        }
        proof {
            consolidation::lemma_held(legacy);
            consolidation::law_state_reads_back(legacy@);
        }
        let active = match KnowledgeState::decode(encoded.as_slice()) {
            Ok(active) => active,
            Err(_) => return Err(IntelligenceError::InvalidKnowledge),
        };
        let mut next = self.duplicate();
        next.active = active;
        assert(next@ =~= (CompilerView { active: legacy@, ..before }));
        if !next.fits_limits(limits) {
            return Err(IntelligenceError::CapacityExceeded);
        }
        *self = next;
        Ok(())
    }

    /// The bytes that the obligations of a challenger take when it is promoted.
    pub fn promotion_rebase_bytes(&self, challenger: KnowledgeChallengerId) -> (result: Result<
        usize,
        IntelligenceError,
    >)
        ensures
            result == self@.rebase_bytes(challenger),
    {
        let index: usize = match self.find(challenger) {
            Some(index) => index,
            None => return Err(IntelligenceError::InvalidReference),
        };
        assert(self@.records[index as int] == self.records@[index as int]@);
        match retained_consolidation(&self.records[index].challenger) {
            None => Err(IntelligenceError::InvalidKnowledge),
            Some(consolidation) => {
                assert(consolidation@.operators.len() == consolidation.operators@.len());
                match consolidation.operators.len().checked_mul(32) {
                    Some(bytes) => Ok(bytes),
                    None => Err(IntelligenceError::ResourceOverflow),
                }
            },
        }
    }
}

fn new_record<E: CausalEvidence>(
    challenger: &KnowledgeChallenger,
    reviews: Vec<KnowledgeReview>,
    experience: &E,
) -> (result: Result<KnowledgeRecord, IntelligenceError>)
    requires
        experience.sound(),
    ensures
        match result {
            Ok(record) => first_record(challenger@, reviews@, experience.evidence()) == Ok::<
                RecordView,
                IntelligenceError,
            >(record@),
            Err(error) => first_record(challenger@, reviews@, experience.evidence()) == Err::<
                RecordView,
                IntelligenceError,
            >(error),
        },
{
    match cached_consolidation(challenger) {
        Ok(_) => {},
        Err(error) => return Err(error),
    }
    match verified_status(challenger.obligations(), reviews.as_slice(), experience) {
        Ok(status) => Ok(
            KnowledgeRecord {
                challenger: challenger.duplicate(),
                reviews,
                promoted_by: None,
                status,
            },
        ),
        Err(error) => Err(error),
    }
}

fn reviews_of<E: CausalEvidence>(pending: &PendingKnowledgeVerification, experience: &E) -> (result:
    Result<Vec<KnowledgeReview>, IntelligenceError>)
    requires
        experience.sound(),
    ensures
        match result {
            Ok(reviews) => settled_reviews(pending@, experience.evidence(), paired(pending@))
                == Ok::<Seq<KnowledgeReview>, IntelligenceError>(reviews@),
            Err(error) => settled_reviews(pending@, experience.evidence(), paired(pending@))
                == Err::<Seq<KnowledgeReview>, IntelligenceError>(error),
        },
{
    let ghost ledger = experience.evidence();
    let obligations = pending.work.obligations();
    let mut reviews: Vec<KnowledgeReview> = Vec::new();
    let mut index: usize = 0;
    while index < obligations.len() && index < pending.receipts.len()
        invariant
            index <= paired(pending@),
            codec::views(obligations@) == pending@.work.obligations,
            ledger == experience.evidence(),
            experience.sound(),
            settled_reviews(pending@, ledger, index as nat) == Ok::<
                Seq<KnowledgeReview>,
                IntelligenceError,
            >(reviews@),
        decreases obligations@.len() - index,
    {
        assert(pending@.work.obligations[index as int] == obligations@[index as int]@);
        let obligation = obligations[index].subject();
        let decision = pending.receipts[index].decision;
        match experience.authoritative_verification(decision, obligation) {
            Ok(_) => {},
            Err(error) => {
                proof {
                    lemma_missing_review_stays(
                        pending@,
                        ledger,
                        (index + 1) as nat,
                        paired(pending@),
                    );
                }
                return Err(error);
            },
        }
        reviews.push(KnowledgeReview::new(pending.work.id(), obligation, decision));
        index = index + 1;
    }
    assert(pending@.work.obligations.len() == obligations@.len());
    Ok(reviews)
}

} // verus!
