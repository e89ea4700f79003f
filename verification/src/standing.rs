//! What the standing of a challenger rests on: verifications on record for what is
//! verified, and one paired campaign for what is promoted.
use vstd::prelude::*;

use crate::causal::InvestmentOutcome;
use crate::challenger;
use crate::challenger::{ContextualRequirement, KnowledgeChallengerId};
use crate::compiler;
use crate::compiler::{CompilerView, RecordView, UpdateView};
use crate::continuity;
use crate::digest::Digest;
use crate::forecast::ForecastAxis;
use crate::history;
use crate::intelligence::CoreView;
use crate::knowledge;
use crate::knowledge::{KnowledgeReview, KnowledgeStatus};
use crate::ledger;
use crate::ledger::LedgerView;
use crate::numbers;
use crate::policy::PolicyEngine;
use crate::promotion;
use crate::receipt::DecisionId;
use crate::search;
use crate::shadow::{ContextualContrast, ShadowCampaignId};
use crate::transition::{FrameView, TransitionView};
use crate::types::{IntelligenceError, IntelligenceLimits, SubjectId};

verus! {

// ---------------------------------------------------------------------------
// What is on record
// ---------------------------------------------------------------------------
/// A verification was paid for and settled under the decision, with this outcome.
pub open spec fn settled_as(
    ledger: LedgerView,
    decision: DecisionId,
    receipt: int,
    settlement: int,
    outcome: InvestmentOutcome,
) -> bool {
    &&& 0 <= receipt < ledger.receipts.len()
    &&& 0 <= settlement < ledger.settlements.len()
    &&& ledger.receipts[receipt].decision == decision
    &&& ledger.receipts[receipt].tag is Verify
    &&& ledger.settlements[settlement].decision == decision
    &&& ledger.settlements[settlement].outcome == outcome
}

/// The record holds that the obligation was accepted under the decision.
pub open spec fn accepted_on_record(
    ledger: LedgerView,
    decision: DecisionId,
    obligation: SubjectId,
) -> bool {
    exists|r: int, s: int| #[trigger]
        settled_as(
            ledger,
            decision,
            r,
            s,
            InvestmentOutcome::VerifiedAccepted { verification_record: obligation },
        )
}

/// The record holds that what was asked about the obligation came out so under the
/// decision.
pub open spec fn answered_on_record(
    ledger: LedgerView,
    decision: DecisionId,
    obligation: SubjectId,
    outcome: InvestmentOutcome,
) -> bool {
    exists|r: int, s: int| #[trigger]
        settled_as(ledger, decision, r, s, outcome) && ledger.receipts[r].opportunity
            == obligation.0
}

/// The record holds that the obligation was refuted under the decision.
pub open spec fn refuted_on_record(
    ledger: LedgerView,
    decision: DecisionId,
    obligation: SubjectId,
) -> bool {
    answered_on_record(ledger, decision, obligation, InvestmentOutcome::VerifiedRefuted)
}

/// The record holds that the question was left open under the decision.
pub open spec fn open_on_record(
    ledger: LedgerView,
    decision: DecisionId,
    obligation: SubjectId,
) -> bool {
    answered_on_record(ledger, decision, obligation, InvestmentOutcome::VerifiedUnknown)
}

/// Some review of the obligation rests on its acceptance.
pub open spec fn obligation_accepted(
    reviews: Seq<KnowledgeReview>,
    ledger: LedgerView,
    obligation: SubjectId,
) -> bool {
    exists|i: int|
        0 <= i < reviews.len() && (#[trigger] reviews[i]).obligation == obligation
            && accepted_on_record(ledger, reviews[i].decision, obligation)
}

/// Every obligation is accepted.
pub open spec fn all_accepted(
    obligations: Seq<SubjectId>,
    reviews: Seq<KnowledgeReview>,
    ledger: LedgerView,
) -> bool {
    forall|k: int|
        0 <= k < obligations.len() ==> obligation_accepted(
            reviews,
            ledger,
            #[trigger] obligations[k],
        )
}

/// Some review rests on a refutation.
pub open spec fn some_refuted(reviews: Seq<KnowledgeReview>, ledger: LedgerView) -> bool {
    exists|i: int|
        0 <= i < reviews.len() && refuted_on_record(
            ledger,
            (#[trigger] reviews[i]).decision,
            reviews[i].obligation,
        )
}

pub proof fn lemma_authority(ledger: LedgerView, decision: DecisionId, obligation: SubjectId)
    ensures
        match ledger.authority(decision, obligation) {
            Ok(InvestmentOutcome::VerifiedAccepted { .. }) => accepted_on_record(
                ledger,
                decision,
                obligation,
            ),
            Ok(InvestmentOutcome::VerifiedRefuted) => refuted_on_record(
                ledger,
                decision,
                obligation,
            ),
            Ok(InvestmentOutcome::VerifiedUnknown) => open_on_record(ledger, decision, obligation),
            Ok(_) => false,
            Err(error) => error == IntelligenceError::InvalidReference,
        },
{
    search::lemma_first(ledger.receipts, ledger::issued(decision));
    search::lemma_first(ledger.settlements, ledger::settles(decision));
    if let (Some(r), Some(s)) = (
        search::first(ledger.receipts, ledger::issued(decision)),
        search::first(ledger.settlements, ledger::settles(decision)),
    ) {
        if let Ok(outcome) = ledger.authority(decision, obligation) {
            assert(settled_as(ledger, decision, r, s, outcome));
        }
    }
}

/// Where each decision is settled once, what is on record is what has authority.
pub proof fn lemma_record(ledger: LedgerView, decision: DecisionId, obligation: SubjectId)
    requires
        ledger.valid(),
    ensures
        accepted_on_record(ledger, decision, obligation) ==> ledger.authority(decision, obligation)
            == Ok::<InvestmentOutcome, IntelligenceError>(
            InvestmentOutcome::VerifiedAccepted { verification_record: obligation },
        ),
        refuted_on_record(ledger, decision, obligation) ==> ledger.authority(decision, obligation)
            == Ok::<InvestmentOutcome, IntelligenceError>(InvestmentOutcome::VerifiedRefuted),
        open_on_record(ledger, decision, obligation) ==> ledger.authority(decision, obligation)
            == Ok::<InvestmentOutcome, IntelligenceError>(InvestmentOutcome::VerifiedUnknown),
{
    search::lemma_first(ledger.receipts, ledger::issued(decision));
    search::lemma_first(ledger.settlements, ledger::settles(decision));
    assert forall|r: int, s: int, outcome: InvestmentOutcome| #[trigger]
        settled_as(ledger, decision, r, s, outcome) implies search::first(
        ledger.receipts,
        ledger::issued(decision),
    ) == Some(r) && search::first(ledger.settlements, ledger::settles(decision)) == Some(s) by {
        assert(ledger::issued(decision)(ledger.receipts[r]));
        assert(ledger::settles(decision)(ledger.settlements[s]));
        let a = search::first(ledger.receipts, ledger::issued(decision))->Some_0;
        let b = search::first(ledger.settlements, ledger::settles(decision))->Some_0;
        if a < r {
            assert(ledger.receipts[a].decision != ledger.receipts[r].decision);
        }
        assert(ledger.receipts[s].decision == ledger.settlements[s].decision);
        assert(ledger.receipts[b].decision == ledger.settlements[b].decision);
        if b < s {
            assert(ledger.receipts[b].decision != ledger.receipts[s].decision);
        }
    }
}

// ---------------------------------------------------------------------------
// Standing by reviews
// ---------------------------------------------------------------------------
/// What the reviews of a record make of it: refuted where one of them rests on a
/// refutation; verified where none does and every obligation is accepted; and
/// provisional otherwise.
pub open spec fn stands(record: RecordView, ledger: LedgerView) -> bool {
    let refuted = some_refuted(record.reviews, ledger);
    let accepted = all_accepted(record.challenger.obligations, record.reviews, ledger);
    &&& record.status is Refuted <==> refuted
    &&& record.status is Verified <==> !refuted && accepted
    &&& record.status is Provisional <==> !refuted && !accepted
}

proof fn lemma_status(
    obligations: Seq<SubjectId>,
    reviews: Seq<KnowledgeReview>,
    ledger: LedgerView,
)
    ensures
        match knowledge::status_by_reviews(obligations, reviews, ledger) {
            Ok(KnowledgeStatus::Verified) => all_accepted(obligations, reviews, ledger),
            Ok(KnowledgeStatus::Refuted) => some_refuted(reviews, ledger),
            Ok(KnowledgeStatus::Provisional) => true,
            Ok(_) => false,
            Err(_) => true,
        },
{
    search::lemma_first(reviews, knowledge::decisive(ledger));
    match search::first(reviews, knowledge::decisive(ledger)) {
        Some(index) => {
            lemma_authority(ledger, reviews[index].decision, reviews[index].obligation);
        },
        None => {
            assert forall|k: int|
                0 <= k < obligations.len() && knowledge::accepted(
                    reviews,
                    ledger,
                    #[trigger] obligations[k],
                ) implies obligation_accepted(reviews, ledger, obligations[k]) by {
                let i = choose|i: int|
                    0 <= i < reviews.len() && (#[trigger] reviews[i]).obligation == obligations[k]
                        && ledger.authority(reviews[i].decision, obligations[k]) matches Ok(
                        InvestmentOutcome::VerifiedAccepted { .. },
                    );
                lemma_authority(ledger, reviews[i].decision, obligations[k]);
            }
        },
    }
}

proof fn lemma_status_exact(
    obligations: Seq<SubjectId>,
    reviews: Seq<KnowledgeReview>,
    ledger: LedgerView,
)
    requires
        ledger.valid(),
    ensures
        knowledge::status_by_reviews(obligations, reviews, ledger) matches Ok(status) ==> {
            &&& status is Refuted <==> some_refuted(reviews, ledger)
            &&& status is Verified <==> !some_refuted(reviews, ledger) && all_accepted(
                obligations,
                reviews,
                ledger,
            )
            &&& status is Provisional <==> !some_refuted(reviews, ledger) && !all_accepted(
                obligations,
                reviews,
                ledger,
            )
        },
{
    lemma_status(obligations, reviews, ledger);
    let test = knowledge::decisive(ledger);
    search::lemma_first(reviews, test);
    if some_refuted(reviews, ledger) {
        let i = choose|i: int|
            0 <= i < reviews.len() && refuted_on_record(
                ledger,
                (#[trigger] reviews[i]).decision,
                reviews[i].obligation,
            );
        lemma_record(ledger, reviews[i].decision, reviews[i].obligation);
        assert(test(reviews[i]));
    }
    if all_accepted(obligations, reviews, ledger) {
        assert forall|k: int| 0 <= k < obligations.len() implies knowledge::accepted(
            reviews,
            ledger,
            #[trigger] obligations[k],
        ) by {
            assert(obligation_accepted(reviews, ledger, obligations[k]));
            let i = choose|i: int|
                0 <= i < reviews.len() && (#[trigger] reviews[i]).obligation == obligations[k]
                    && accepted_on_record(ledger, reviews[i].decision, obligations[k]);
            lemma_record(ledger, reviews[i].decision, obligations[k]);
        }
    }
}

/// A review that is taken, and a verification that is completed, leave the record in
/// question with the standing that all of its reviews make: where nothing but open
/// questions is on record, a challenger with obligations stays provisional.
pub proof fn law_reviews_decide_the_standing(
    state: CompilerView,
    update: UpdateView,
    ledger: LedgerView,
    limits: IntelligenceLimits,
    index: int,
)
    requires
        ledger.valid(),
        update is Review || update is CompleteVerification || update is Propose,
    ensures
        state.updated(update, ledger, limits) matches Ok((next, _)) ==> 0 <= index
            < next.records.len() ==> (index < state.records.len() && next.records[index]
            == state.records[index]) || stands(next.records[index], ledger),
{
    if let Ok((next, _)) = state.updated(update, ledger, limits) {
        if 0 <= index < next.records.len() {
            lemma_status_exact(
                next.records[index].challenger.obligations,
                next.records[index].reviews,
                ledger,
            );
            match update {
                UpdateView::Review(review) => {
                    search::lemma_first(state.records, compiler::named(review.challenger));
                },
                UpdateView::CompleteVerification(id) => {
                    search::lemma_first(state.records, compiler::named(id));
                },
                _ => {},
            }
        }
    }
}

/// Under a review whose obligation is left open on record nothing becomes verified
/// that was not before.
pub proof fn law_open_questions_verify_nothing(
    state: CompilerView,
    review: KnowledgeReview,
    ledger: LedgerView,
    limits: IntelligenceLimits,
    index: int,
)
    requires
        ledger.valid(),
        open_on_record(ledger, review.decision, review.obligation),
        0 <= index < state.records.len(),
        !all_accepted(
            state.records[index].challenger.obligations,
            state.records[index].reviews,
            ledger,
        ),
        !(state.records[index].status is Verified),
    ensures
        state.updated(UpdateView::Review(review), ledger, limits) matches Ok((next, _)) ==> !(
        next.records[index].status is Verified),
{
    law_reviews_decide_the_standing(state, UpdateView::Review(review), ledger, limits, index);
    if let Ok((next, _)) = state.updated(UpdateView::Review(review), ledger, limits) {
        search::lemma_first(state.records, compiler::named(review.challenger));
        let before = state.records[index];
        let after = next.records[index];
        if after != before && all_accepted(after.challenger.obligations, after.reviews, ledger) {
            lemma_record(ledger, review.decision, review.obligation);
            assert forall|k: int|
                0 <= k < before.challenger.obligations.len() implies obligation_accepted(
                before.reviews,
                ledger,
                #[trigger] before.challenger.obligations[k],
            ) by {
                let obligation = before.challenger.obligations[k];
                assert(obligation_accepted(after.reviews, ledger, obligation));
                let i = choose|i: int|
                    0 <= i < after.reviews.len() && (#[trigger] after.reviews[i]).obligation
                        == obligation && accepted_on_record(
                        ledger,
                        after.reviews[i].decision,
                        obligation,
                    );
                lemma_record(ledger, after.reviews[i].decision, obligation);
                assert(i < before.reviews.len());
                assert(before.reviews[i] == after.reviews[i]);
            }
        }
    }
}

// ---------------------------------------------------------------------------
// Standing in every state
// ---------------------------------------------------------------------------
/// What is verified or promoted has every obligation accepted on record, and what is
/// refuted has a refutation there.
pub open spec fn founded(record: RecordView, ledger: LedgerView) -> bool {
    &&& record.status is Verified || record.status is Promoted ==> all_accepted(
        record.challenger.obligations,
        record.reviews,
        ledger,
    )
    &&& record.status is Refuted ==> some_refuted(record.reviews, ledger)
}

pub open spec fn all_founded(state: CompilerView, ledger: LedgerView) -> bool {
    forall|i: int| 0 <= i < state.records.len() ==> founded(#[trigger] state.records[i], ledger)
}

/// What is on record stays on record.
proof fn lemma_founded_later(record: RecordView, earlier: LedgerView, later: LedgerView)
    requires
        founded(record, earlier),
        earlier.receipts.len() <= later.receipts.len(),
        earlier.settlements.len() <= later.settlements.len(),
        forall|i: int|
            0 <= i < earlier.receipts.len() ==> #[trigger] later.receipts[i]
                == earlier.receipts[i],
        forall|i: int|
            0 <= i < earlier.settlements.len() ==> #[trigger] later.settlements[i]
                == earlier.settlements[i],
    ensures
        founded(record, later),
{
    assert forall|d: DecisionId, o: SubjectId| #[trigger]
        accepted_on_record(earlier, d, o) implies accepted_on_record(later, d, o) by {
        let outcome = InvestmentOutcome::VerifiedAccepted { verification_record: o };
        let (r, s) = choose|r: int, s: int| #[trigger] settled_as(earlier, d, r, s, outcome);
        assert(settled_as(later, d, r, s, outcome));
    }
    assert forall|d: DecisionId, o: SubjectId| #[trigger]
        refuted_on_record(earlier, d, o) implies refuted_on_record(later, d, o) by {
        let outcome = InvestmentOutcome::VerifiedRefuted;
        let (r, s) = choose|r: int, s: int| #[trigger]
            settled_as(earlier, d, r, s, outcome) && earlier.receipts[r].opportunity == o.0;
        assert(settled_as(later, d, r, s, outcome));
    }
    let obligations = record.challenger.obligations;
    if all_accepted(obligations, record.reviews, earlier) {
        assert forall|k: int| 0 <= k < obligations.len() implies obligation_accepted(
            record.reviews,
            later,
            #[trigger] obligations[k],
        ) by {
            assert(obligation_accepted(record.reviews, earlier, obligations[k]));
        }
    }
}

proof fn lemma_update_founded(
    state: CompilerView,
    update: UpdateView,
    ledger: LedgerView,
    limits: IntelligenceLimits,
)
    requires
        all_founded(state, ledger),
    ensures
        state.updated(update, ledger, limits) matches Ok((next, _)) ==> all_founded(next, ledger),
{
    if let Ok((next, _)) = state.updated(update, ledger, limits) {
        match update {
            UpdateView::Review(review) => {
                search::lemma_first(state.records, compiler::named(review.challenger));
            },
            UpdateView::CompleteVerification(id) => {
                search::lemma_first(state.records, compiler::named(id));
            },
            UpdateView::InterruptVerification(id) => {
                search::lemma_first(state.records, compiler::named(id));
            },
            UpdateView::EvaluatePromotion(id) => {
                search::lemma_first(state.records, compiler::named(id));
            },
            UpdateView::Invalidate { challenger, .. } => {
                search::lemma_first(state.records, compiler::named(challenger));
            },
            _ => {},
        }
        assert forall|i: int| 0 <= i < next.records.len() implies founded(
            #[trigger] next.records[i],
            ledger,
        ) by {
            let record = next.records[i];
            lemma_status(record.challenger.obligations, record.reviews, ledger);
            if i < state.records.len() {
                assert(founded(state.records[i], ledger));
            }
        }
    }
}

proof fn lemma_updates_founded(
    state: CompilerView,
    updates: Seq<UpdateView>,
    ledger: LedgerView,
    limits: IntelligenceLimits,
)
    requires
        all_founded(state, ledger),
    ensures
        all_founded(state.updated_all(updates, ledger, limits).0, ledger),
    decreases updates.len(),
{
    if updates.len() > 0 {
        lemma_updates_founded(state, updates.drop_last(), ledger, limits);
        let (middle, outcome) = state.updated_all(updates.drop_last(), ledger, limits);
        if outcome is Ok {
            lemma_update_founded(middle, updates.last(), ledger, limits);
        }
    }
}

proof fn lemma_promotions_exist(records: Seq<RecordView>, product: Digest, depth: nat)
    ensures
        forall|k: int|
            0 <= k < compiler::promotions(records, product, depth).len() ==> 0 <= (
            #[trigger] compiler::promotions(records, product, depth)[k]) < records.len(),
    decreases depth,
{
    if depth > 0 {
        search::lemma_first(records, compiler::promoted_to(product));
        if let Some(index) = search::first(records, compiler::promoted_to(product)) {
            let base = knowledge::consolidation_of(records[index].challenger)->Some_0.base_product;
            lemma_promotions_exist(records, base, (depth - 1) as nat);
            let rest = compiler::promotions(records, base, (depth - 1) as nat);
            let all = compiler::promotions(records, product, depth);
            assert forall|k: int| 0 <= k < all.len() implies 0 <= (#[trigger] all[k])
                < records.len() by {
                if k > 0 {
                    assert(all[k] == rest[k - 1]);
                }
            }
        }
    }
}

proof fn lemma_withdrawals_founded(state: CompilerView, places: Seq<int>, ledger: LedgerView)
    requires
        all_founded(state, ledger),
        forall|k: int| 0 <= k < places.len() ==> 0 <= (#[trigger] places[k]) < state.records.len(),
    ensures
        all_founded(state.withdrawn_all(places, ledger).0, ledger),
        state.withdrawn_all(places, ledger).0.records.len() == state.records.len(),
    decreases places.len(),
{
    if places.len() > 0 {
        assert(0 <= places[places.len() - 1] < state.records.len());
        lemma_withdrawals_founded(state, places.drop_last(), ledger);
        let (middle, outcome) = state.withdrawn_all(places.drop_last(), ledger);
        if outcome is Ok {
            if let Ok(next) = middle.withdrawn(places.last(), ledger) {
                assert forall|i: int| 0 <= i < next.records.len() implies founded(
                    #[trigger] next.records[i],
                    ledger,
                ) by {
                    let record = next.records[i];
                    lemma_status(record.challenger.obligations, record.reviews, ledger);
                    assert(founded(middle.records[i], ledger));
                }
            }
        }
    }
}

proof fn lemma_withdrawals_counted(
    records: Seq<RecordView>,
    chain: Seq<int>,
    ledger: LedgerView,
)
    ensures
        compiler::withdrawals(records, chain, ledger) <= chain.len(),
    decreases chain.len(),
{
    if chain.len() > 0 {
        lemma_withdrawals_counted(records, chain.drop_last(), ledger);
    }
}

/// A step that a core takes leaves everything that is verified, promoted or refuted
/// founded on what the ledger then holds.
pub proof fn law_steps_keep_standing_founded<P: PolicyEngine>(
    core: CoreView,
    frame: FrameView,
    step: TransitionView,
)
    requires
        all_founded(core.components.knowledge, core.components.ledger),
        core.staged::<P>(frame) == Ok::<TransitionView, IntelligenceError>(step),
    ensures
        all_founded(
            core.committed(step).components.knowledge,
            core.committed(step).components.ledger,
        ),
{
    continuity::lemma_step_parts::<P>(core, frame, step);
    let state = core.components.knowledge;
    let before = core.components.ledger;
    let after = before.committed(step.delta);
    assert forall|i: int| 0 <= i < state.records.len() implies founded(
        #[trigger] state.records[i],
        after,
    ) by {
        lemma_founded_later(state.records[i], before, after);
    }
    assert(all_founded(state, after));
    reveal(CoreView::knowledge_step);
    let chain = state.active_promotions();
    let count = compiler::withdrawals(state.records, chain, after);
    lemma_promotions_exist(
        state.records,
        state.active.active_product(),
        state.records.len(),
    );
    lemma_withdrawals_counted(state.records, chain, after);
    lemma_withdrawals_founded(state, chain.take(count as int), after);
    lemma_updates_founded(state.reconciled(after).0, frame.knowledge, after, core.limits);
}

/// Whatever a core has been through since it began: every obligation of what is
/// verified or promoted was accepted, under a decision that one of its reviews names
/// and that the ledger holds as paid for, settled and accepted.
pub proof fn law_standing_is_founded<P: PolicyEngine>(
    limits: IntelligenceLimits,
    frames: Seq<FrameView>,
)
    ensures
        history::run::<P>(history::beginning::<P>(limits), frames) matches Some(core)
            ==> all_founded(core.components.knowledge, core.components.ledger),
    decreases frames.len(),
{
    if frames.len() > 0 {
        law_standing_is_founded::<P>(limits, frames.drop_last());
        if let Some(middle) = history::run::<P>(
            history::beginning::<P>(limits),
            frames.drop_last(),
        ) {
            if let Ok(step) = middle.staged::<P>(frames.last()) {
                law_steps_keep_standing_founded::<P>(middle, frames.last(), step);
            }
        }
    }
}

// ---------------------------------------------------------------------------
// Promotions
// ---------------------------------------------------------------------------
/// What both arms achieved on an axis improves by a minimum, up to the rounding of the
/// difference.
pub open spec fn improved_by(axis: ForecastAxis, treatment: u32, control: u32, minimum: u32) -> bool {
    let gain = numbers::improvement(axis, treatment, control);
    if minimum == 0 || minimum == 0x8000_0000 {
        gain >= 0
    } else {
        gain > 0 && 2 * gain >= numbers::scaled(minimum) + numbers::scaled((minimum - 1) as u32)
    }
}

/// A contrast of this very campaign, about this subject, that meets a requirement.
pub open spec fn shown_by(
    contrast: ContextualContrast,
    campaign: ShadowCampaignId,
    subject: SubjectId,
    requirement: ContextualRequirement,
) -> bool {
    &&& contrast.campaign == campaign
    &&& contrast.subject == subject
    &&& contrast.axis == requirement.axis
    &&& improved_by(
        requirement.axis,
        contrast.treatment,
        contrast.control,
        requirement.minimum_advantage,
    )
}

/// Some contrast of this very campaign meets the requirement.
pub open spec fn shown(
    contrasts: Seq<ContextualContrast>,
    campaign: ShadowCampaignId,
    subject: SubjectId,
    requirement: ContextualRequirement,
) -> bool {
    exists|j: int|
        0 <= j < contrasts.len() && shown_by(
            #[trigger] contrasts[j],
            campaign,
            subject,
            requirement,
        )
}

/// One campaign shows all that a challenger has to show for its promotion.
pub open spec fn campaign_carries(
    contrasts: Seq<ContextualContrast>,
    campaign: ShadowCampaignId,
    subject: SubjectId,
    requirements: Seq<ContextualRequirement>,
) -> bool {
    forall|i: int|
        0 <= i < requirements.len() ==> shown(
            contrasts,
            campaign,
            subject,
            #[trigger] requirements[i],
        )
}

/// The record is promoted, and the campaign that it names carries the promotion.
pub open spec fn promotion_carried(record: RecordView, ledger: LedgerView) -> bool {
    record.promoted_by matches Some(campaign) && campaign_carries(
        ledger.contrasts,
        campaign,
        record.challenger.product.subject,
        record.challenger.promotion,
    )
}

proof fn lemma_satisfies_carries(
    requirements: Seq<ContextualRequirement>,
    campaign: ShadowCampaignId,
    subject: SubjectId,
    contrasts: Seq<ContextualContrast>,
)
    requires
        challenger::satisfies(requirements, campaign, subject, contrasts),
        challenger::requirements_valid(requirements),
    ensures
        campaign_carries(contrasts, campaign, subject, requirements),
{
    assert forall|i: int| 0 <= i < requirements.len() implies shown(
        contrasts,
        campaign,
        subject,
        #[trigger] requirements[i],
    ) by {
        let requirement = requirements[i];
        assert(challenger::requirement_met(requirement, campaign, subject, contrasts));
        assert(requirement.valid());
        let j = choose|j: int|
            0 <= j < contrasts.len() && challenger::meets(
                #[trigger] contrasts[j],
                requirement,
                campaign,
                subject,
            );
        numbers::law_reached_minimum_is_an_improvement(
            requirement.axis,
            contrasts[j].treatment,
            contrasts[j].control,
            requirement.minimum_advantage,
        );
        assert(shown_by(contrasts[j], campaign, subject, requirement));
    }
}

/// A promotion falls on a challenger that was verified, and one campaign carries it:
/// Only a challenger that stands verified is promoted, and one campaign carries it:
/// the product, on the requirement's axis, whose improvement reaches the minimum. The
/// product becomes the active one, in place of that which it builds on, and no other
/// record changes.
pub proof fn law_one_campaign_carries_a_promotion(
    state: CompilerView,
    id: KnowledgeChallengerId,
    ledger: LedgerView,
    limits: IntelligenceLimits,
    index: int,
)
    requires
        0 <= index < state.records.len(),
        challenger::requirements_valid(state.records[index].challenger.promotion),
    ensures
        state.updated(UpdateView::EvaluatePromotion(id), ledger, limits) matches Ok((next, _)) ==> {
            let before = state.records[index];
            let after = next.records[index];
            &&& next.records.len() == state.records.len()
            &&& after.challenger == before.challenger && after.reviews == before.reviews
            &&& after == before || {
                &&& after.challenger.id == id
                &&& before.status is Verified && after.status is Promoted
                &&& promotion_carried(after, ledger)
                &&& knowledge::consolidation_of(after.challenger) matches Some(consolidation)
                &&& consolidation.base_product == state.active.revisions.last().product
                &&& next.active.revisions.last().product == consolidation.product
                &&& next.active.revisions.last().operators == consolidation.operators
                &&& next.active.revisions.drop_last() == state.active.revisions
            }
        },
{
    if let Ok((next, changed)) = state.updated(
        UpdateView::EvaluatePromotion(id),
        ledger,
        limits,
    ) {
        search::lemma_first(state.records, compiler::named(id));
        let place = state.place(id)->Some_0;
        if changed && place == index {
            let record = state.records[index];
            let requirements = record.challenger.promotion;
            let subject = record.challenger.product.subject;
            search::lemma_first(
                ledger.contrasts,
                challenger::from_satisfying_campaign(requirements, subject, ledger.contrasts),
            );
            let campaign = challenger::satisfying(requirements, subject, ledger.contrasts)->Some_0;
            lemma_satisfies_carries(requirements, campaign, subject, ledger.contrasts);
            assert(next.active.revisions.drop_last() =~= state.active.revisions);
        }
    }
}

/// A verified challenger whose gate some campaign meets, requirement by requirement, is
/// promoted where its product can take the place of the active one.
pub proof fn law_a_carried_promotion_is_owed(
    state: CompilerView,
    id: KnowledgeChallengerId,
    ledger: LedgerView,
    limits: IntelligenceLimits,
    index: int,
    campaign: ShadowCampaignId,
)
    requires
        0 <= index < state.records.len(),
        state.records[index].challenger.id == id,
        forall|i: int| 0 <= i < index ==> (#[trigger] state.records[i]).challenger.id != id,
        state.records[index].status is Verified,
        state.records[index].challenger.promotion.len() > 0,
        challenger::requirements_valid(state.records[index].challenger.promotion),
        forall|i: int|
            0 <= i < state.records[index].challenger.promotion.len() ==> exists|j: int|
                0 <= j < ledger.contrasts.len() && (#[trigger] ledger.contrasts[j]).campaign
                    == campaign && ledger.contrasts[j].subject
                    == state.records[index].challenger.product.subject && ledger.contrasts[j].axis
                    == (#[trigger] state.records[index].challenger.promotion[i]).axis
                    && numbers::improvement(
                    ledger.contrasts[j].axis,
                    ledger.contrasts[j].treatment,
                    ledger.contrasts[j].control,
                ) >= numbers::scaled(
                    state.records[index].challenger.promotion[i].minimum_advantage,
                ),
        knowledge::consolidation_of(state.records[index].challenger) is Some,
        knowledge::consolidation_of(state.records[index].challenger)->Some_0.base_product
            == state.active.revisions.last().product,
        knowledge::consolidation_of(state.records[index].challenger)->Some_0.product
            != state.active.revisions.last().product,
        state.active.generation < u64::MAX,
    ensures
        state.updated(UpdateView::EvaluatePromotion(id), ledger, limits) matches Ok((next, true))
            && next.records[index].status is Promoted && next.records[index].promoted_by is Some,
{
    search::lemma_is_first(state.records, compiler::named(id), index);
    let requirements = state.records[index].challenger.promotion;
    let subject = state.records[index].challenger.product.subject;
    let contrasts = ledger.contrasts;
    assert forall|i: int| 0 <= i < requirements.len() implies challenger::requirement_met(
        #[trigger] requirements[i],
        campaign,
        subject,
        contrasts,
    ) by {
        let requirement = requirements[i];
        assert(requirement.valid());
        let j = choose|j: int|
            0 <= j < contrasts.len() && (#[trigger] contrasts[j]).campaign == campaign
                && contrasts[j].subject == subject && contrasts[j].axis == requirement.axis
                && numbers::improvement(
                contrasts[j].axis,
                contrasts[j].treatment,
                contrasts[j].control,
            ) >= numbers::scaled(requirement.minimum_advantage);
        numbers::law_reached_minimum_is_an_improvement(
            requirement.axis,
            contrasts[j].treatment,
            contrasts[j].control,
            requirement.minimum_advantage,
        );
        assert(challenger::meets(contrasts[j], requirement, campaign, subject));
    }
    assert(challenger::satisfies(requirements, campaign, subject, contrasts));
    let test = challenger::from_satisfying_campaign(requirements, subject, contrasts);
    search::lemma_first(contrasts, test);
    assert(challenger::requirement_met(requirements[0], campaign, subject, contrasts));
    let j = choose|j: int|
        0 <= j < contrasts.len() && challenger::meets(
            #[trigger] contrasts[j],
            requirements[0],
            campaign,
            subject,
        );
    assert(test(contrasts[j]));
}

/// Where the active knowledge is made of what is promoted, a ledger that changed leaves
/// nothing promoted but what one of its campaigns still carries.
pub proof fn law_lost_campaigns_undo_promotions(
    state: CompilerView,
    stack: Seq<int>,
    ledger: LedgerView,
    index: int,
)
    requires
        promotion::stacked(state, stack),
    ensures
        state.reconciled(ledger) matches (next, Ok(_)) ==> 0 <= index < next.records.len()
            && next.records[index].status is Promoted && challenger::requirements_valid(
            next.records[index].challenger.promotion,
        ) ==> promotion_carried(next.records[index], ledger),
{
    promotion::law_reconciled_promotions_are_earned(state, stack, ledger);
    if let (next, Ok(_)) = state.reconciled(ledger) {
        if 0 <= index < next.records.len() && next.records[index].status is Promoted
            && challenger::requirements_valid(next.records[index].challenger.promotion) {
            lemma_upheld_carried(next, ledger, index);
        }
    }
}

proof fn lemma_upheld_carried(state: CompilerView, ledger: LedgerView, index: int)
    requires
        promotion::upheld(state, ledger),
        0 <= index < state.records.len(),
        state.records[index].status is Promoted,
        challenger::requirements_valid(state.records[index].challenger.promotion),
    ensures
        promotion_carried(state.records[index], ledger),
{
    let stack = choose|stack: Seq<int>| #[trigger]
        promotion::stacked(state, stack) && promotion::earned(state, stack, ledger);
    assert(stack.contains(index));
    let k = choose|k: int| 0 <= k < stack.len() && stack[k] == index;
    let record = state.records[stack[k]];
    assert(!compiler::unearned(record, ledger));
    lemma_satisfies_carries(
        record.challenger.promotion,
        record.promoted_by->Some_0,
        record.challenger.product.subject,
        ledger.contrasts,
    );
}

/// After a run of steady steps, whatever is promoted is carried by one campaign of the
/// ledger.
pub proof fn law_promotions_of_a_run_are_carried<P: PolicyEngine>(
    limits: IntelligenceLimits,
    frames: Seq<FrameView>,
    index: int,
)
    requires
        limits.valid(),
        CompilerView::initial().fits(limits),
        history::steady_all::<P>(history::beginning::<P>(limits), frames),
    ensures
        history::run::<P>(history::beginning::<P>(limits), frames) matches Some(core) ==> {
            let knowledge = core.components.knowledge;
            0 <= index < knowledge.records.len() && knowledge.records[index].status is Promoted
                && challenger::requirements_valid(knowledge.records[index].challenger.promotion)
                ==> promotion_carried(knowledge.records[index], core.components.ledger)
        },
{
    history::law_steady_run_is_restored::<P>(limits, frames);
    if let Some(core) = history::run::<P>(history::beginning::<P>(limits), frames) {
        let knowledge = core.components.knowledge;
        if 0 <= index < knowledge.records.len() && knowledge.records[index].status is Promoted
            && challenger::requirements_valid(knowledge.records[index].challenger.promotion) {
            lemma_upheld_carried(knowledge, core.components.ledger, index);
        }
    }
}

/// A promotion names the earliest campaign that carries it: no earlier contrast about the
/// product is of a campaign that improves by every minimum.
pub proof fn law_earliest_campaign_is_named(
    state: CompilerView,
    id: KnowledgeChallengerId,
    ledger: LedgerView,
    limits: IntelligenceLimits,
    index: int,
) -> (j: int)
    requires
        0 <= index < state.records.len(),
        challenger::requirements_valid(state.records[index].challenger.promotion),
        state.updated(UpdateView::EvaluatePromotion(id), ledger, limits) is Ok,
        state.updated(UpdateView::EvaluatePromotion(id), ledger, limits)->Ok_0.0.records[index]
            != state.records[index],
    ensures
        0 <= j < ledger.contrasts.len(),
        ledger.contrasts[j].subject == state.records[index].challenger.product.subject,
        state.updated(
            UpdateView::EvaluatePromotion(id),
            ledger,
            limits,
        )->Ok_0.0.records[index].promoted_by == Some(ledger.contrasts[j].campaign),
        forall|k: int|
            0 <= k < j && (#[trigger] ledger.contrasts[k]).subject
                == state.records[index].challenger.product.subject ==> !improves_throughout(
                ledger.contrasts,
                ledger.contrasts[k].campaign,
                state.records[index].challenger.product.subject,
                state.records[index].challenger.promotion,
            ),
{
    let record = state.records[index];
    let requirements = record.challenger.promotion;
    let subject = record.challenger.product.subject;
    let contrasts = ledger.contrasts;
    let test = challenger::from_satisfying_campaign(requirements, subject, contrasts);
    search::lemma_first(state.records, compiler::named(id));
    search::lemma_first(contrasts, test);
    assert(state.place(id) == Some(index));
    let j = search::first(contrasts, test)->Some_0;
    assert forall|k: int|
        0 <= k < j && (#[trigger] contrasts[k]).subject == subject implies !improves_throughout(
        contrasts,
        contrasts[k].campaign,
        subject,
        requirements,
    ) by {
        assert(!test(contrasts[k]));
        if improves_throughout(contrasts, contrasts[k].campaign, subject, requirements) {
            let campaign = contrasts[k].campaign;
            assert forall|i: int| 0 <= i < requirements.len() implies challenger::requirement_met(
                #[trigger] requirements[i],
                campaign,
                subject,
                contrasts,
            ) by {
                let requirement = requirements[i];
                assert(requirement.valid());
                assert(improves_somewhere(contrasts, campaign, subject, requirement));
                let m = choose|m: int|
                    0 <= m < contrasts.len() && improves(
                        #[trigger] contrasts[m],
                        campaign,
                        subject,
                        requirement,
                    );
                numbers::law_reached_minimum_is_an_improvement(
                    requirement.axis,
                    contrasts[m].treatment,
                    contrasts[m].control,
                    requirement.minimum_advantage,
                );
                assert(challenger::meets(contrasts[m], requirement, campaign, subject));
            }
            assert(challenger::satisfies(requirements, campaign, subject, contrasts));
        }
    }
    j
}

/// A contrast of the campaign, about the subject, on the axis of the requirement, that
/// improves by the minimum.
pub open spec fn improves(
    contrast: ContextualContrast,
    campaign: ShadowCampaignId,
    subject: SubjectId,
    requirement: ContextualRequirement,
) -> bool {
    &&& contrast.campaign == campaign
    &&& contrast.subject == subject
    &&& contrast.axis == requirement.axis
    &&& numbers::improvement(requirement.axis, contrast.treatment, contrast.control)
        >= numbers::scaled(requirement.minimum_advantage)
}

/// Some contrast of the campaign improves by the minimum of the requirement.
pub open spec fn improves_somewhere(
    contrasts: Seq<ContextualContrast>,
    campaign: ShadowCampaignId,
    subject: SubjectId,
    requirement: ContextualRequirement,
) -> bool {
    exists|m: int|
        0 <= m < contrasts.len() && improves(
            #[trigger] contrasts[m],
            campaign,
            subject,
            requirement,
        )
}

/// The campaign improves by the minimum of every requirement.
pub open spec fn improves_throughout(
    contrasts: Seq<ContextualContrast>,
    campaign: ShadowCampaignId,
    subject: SubjectId,
    requirements: Seq<ContextualRequirement>,
) -> bool {
    forall|i: int|
        0 <= i < requirements.len() ==> improves_somewhere(
            contrasts,
            campaign,
            subject,
            #[trigger] requirements[i],
        )
}

} // verus!
