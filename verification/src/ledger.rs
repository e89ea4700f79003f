//! The causal ledger: receipts with their settlements, consequences and shadow
//! campaigns, grown by prepared deltas.
use vstd::prelude::*;

use crate::causal;
use crate::causal::{
    combined_causal_root, extend_causal_roots, extend_causal_roots_with_fields,
    outcome_is_compatible, CausalRootState, CausalSubject, ConsequenceEdge, InvestmentOutcome,
    InvestmentSettlement,
};
use crate::codec;
use crate::footprint;
use crate::footprint::{ledger_bytes, reservation_bytes};
use crate::resident::{capacity_of, resident_u64};
use crate::codec::{saturating_multiply, Decoder, Wire};
use crate::digest;
use crate::digest::Digest;
use crate::investment::InvestmentTag;
use crate::receipt::{DecisionId, InvestmentReceipt, ReceiptFormat};
use crate::search;
use crate::shadow;
use crate::shadow::{
    push_contrasts, shadow_outcome_mismatch, ContextualContrast, ShadowArm, ShadowArmOutcome,
    ShadowCampaignId, ShadowCampaignLifecycle, ShadowCampaignSpec, ShadowCampaignState,
    ShadowInvalidationReason, ShadowUpdate,
};
use crate::types::{IntelligenceError, IntelligenceLimits, SubjectId};

verus! {

// ---------------------------------------------------------------------------
// Models
// ---------------------------------------------------------------------------
/// The shadow side of a ledger.
#[verifier::ext_equal]
pub struct ShadowsView {
    pub shadows: Seq<ShadowCampaignState>,
    pub contrasts: Seq<ContextualContrast>,
}

/// What a ledger holds.
#[verifier::ext_equal]
pub struct LedgerView {
    pub receipts: Seq<InvestmentReceipt>,
    pub settlements: Seq<InvestmentSettlement>,
    pub consequences: Seq<ConsequenceEdge>,
    pub shadows: Seq<ShadowCampaignState>,
    pub contrasts: Seq<ContextualContrast>,
    pub roots: CausalRootState,
}

/// What a prepared step adds to a ledger.
#[verifier::ext_equal]
pub struct DeltaView {
    pub receipts: Seq<InvestmentReceipt>,
    pub settlements: Seq<InvestmentSettlement>,
    pub consequences: Seq<ConsequenceEdge>,
    pub updates: Seq<ShadowUpdate>,
    pub proposed: Option<ShadowsView>,
    pub roots: CausalRootState,
}

pub open spec fn issued(decision: DecisionId) -> spec_fn(InvestmentReceipt) -> bool {
    |receipt: InvestmentReceipt| receipt.decision == decision
}

pub open spec fn settles(decision: DecisionId) -> spec_fn(InvestmentSettlement) -> bool {
    |settlement: InvestmentSettlement| settlement.decision == decision
}

pub open spec fn runs(campaign: ShadowCampaignId) -> spec_fn(ShadowCampaignState) -> bool {
    |state: ShadowCampaignState| state.specification.id == campaign
}

/// A receipt of the decision is among them.
pub open spec fn knows(receipts: Seq<InvestmentReceipt>, decision: DecisionId) -> bool {
    exists|i: int| 0 <= i < receipts.len() && (#[trigger] receipts[i]).decision == decision
}

/// No decision has two receipts.
pub open spec fn distinct_decisions(receipts: Seq<InvestmentReceipt>) -> bool {
    forall|i: int, j: int|
        0 <= i < j < receipts.len() ==> (#[trigger] receipts[i]).decision != (
        #[trigger] receipts[j]).decision
}

/// Every receipt has its settlement at the same place, of a fitting kind.
pub open spec fn settled(
    receipts: Seq<InvestmentReceipt>,
    settlements: Seq<InvestmentSettlement>,
) -> bool {
    &&& receipts.len() == settlements.len()
    &&& forall|i: int|
        0 <= i < receipts.len() ==> (#[trigger] receipts[i]).decision == settlements[i].decision
            && causal::compatible(receipts[i].tag, settlements[i].outcome)
}

/// A consequence of a decision names one that is known.
pub open spec fn reference_known(
    consequence: ConsequenceEdge,
    receipts: Seq<InvestmentReceipt>,
) -> bool {
    consequence.subject matches CausalSubject::Decision(decision) ==> knows(receipts, decision)
}

pub open spec fn references_known(
    consequences: Seq<ConsequenceEdge>,
    receipts: Seq<InvestmentReceipt>,
) -> bool {
    forall|i: int|
        0 <= i < consequences.len() ==> reference_known(#[trigger] consequences[i], receipts)
}

/// No campaign has two states.
pub open spec fn distinct_campaigns(shadows: Seq<ShadowCampaignState>) -> bool {
    forall|i: int, j: int|
        0 <= i < j < shadows.len() ==> (#[trigger] shadows[i]).specification.id != (
        #[trigger] shadows[j]).specification.id
}

/// The contrasts of one campaign, in order.
pub open spec fn of_campaign(
    contrasts: Seq<ContextualContrast>,
    campaign: ShadowCampaignId,
) -> Seq<ContextualContrast>
    decreases contrasts.len(),
{
    if contrasts.len() == 0 {
        Seq::empty()
    } else if contrasts.last().campaign == campaign {
        of_campaign(contrasts.drop_last(), campaign).push(contrasts.last())
    } else {
        of_campaign(contrasts.drop_last(), campaign)
    }
}

/// The contrasts of all other campaigns, in order.
pub open spec fn without_campaign(
    contrasts: Seq<ContextualContrast>,
    campaign: ShadowCampaignId,
) -> Seq<ContextualContrast>
    decreases contrasts.len(),
{
    if contrasts.len() == 0 {
        Seq::empty()
    } else if contrasts.last().campaign == campaign {
        without_campaign(contrasts.drop_last(), campaign)
    } else {
        without_campaign(contrasts.drop_last(), campaign).push(contrasts.last())
    }
}

/// The contrasts of every campaign, campaign by campaign.
pub open spec fn contrasts_in_order(shadows: Seq<ShadowCampaignState>) -> Seq<ContextualContrast>
    decreases shadows.len(),
{
    if shadows.len() == 0 {
        Seq::empty()
    } else {
        contrasts_in_order(shadows.drop_last()) + shadows.last().contrasts()
    }
}

impl ShadowsView {
    /// Each campaign has the contrasts it earned, and no contrast comes from
    /// anywhere else.
    pub open spec fn contrasts_earned(self) -> bool {
        &&& forall|i: int|
            0 <= i < self.shadows.len() ==> of_campaign(
                self.contrasts,
                (#[trigger] self.shadows[i]).specification.id,
            ) == self.shadows[i].contrasts()
        &&& forall|j: int|
            0 <= j < self.contrasts.len() ==> search::first(
                self.shadows,
                runs((#[trigger] self.contrasts[j]).campaign),
            ) is Some
    }

    pub open spec fn valid(self) -> bool {
        &&& distinct_campaigns(self.shadows)
        &&& forall|i: int| 0 <= i < self.shadows.len() ==> (#[trigger] self.shadows[i]).well_formed()
        &&& self.contrasts_earned()
    }

    /// A campaign that counts for nothing from here on; one that already does
    /// stays as it is.
    pub open spec fn invalidated(self, index: int, reason: ShadowInvalidationReason) -> ShadowsView {
        let state = self.shadows[index];
        if state.lifecycle is Invalidated {
            self
        } else {
            ShadowsView {
                shadows: self.shadows.update(
                    index,
                    ShadowCampaignState {
                        lifecycle: ShadowCampaignLifecycle::Invalidated(reason),
                        ..state
                    },
                ),
                contrasts: without_campaign(self.contrasts, state.specification.id),
            }
        }
    }

    /// A state with one more arm; with both arms the campaign is complete.
    pub open spec fn with_arm(state: ShadowCampaignState, outcome: ShadowArmOutcome) -> ShadowCampaignState {
        let treatment = if outcome.arm is Treatment {
            Some(outcome)
        } else {
            state.treatment
        };
        let control = if outcome.arm is Control {
            Some(outcome)
        } else {
            state.control
        };
        ShadowCampaignState {
            specification: state.specification,
            treatment,
            control,
            lifecycle: if treatment is Some && control is Some {
                ShadowCampaignLifecycle::Completed
            } else {
                state.lifecycle
            },
        }
    }

    /// What one report changes.
    pub open spec fn reported(self, outcome: ShadowArmOutcome) -> Result<
        ShadowsView,
        IntelligenceError,
    > {
        match search::first(self.shadows, runs(outcome.campaign)) {
            None => Err(IntelligenceError::InvalidReference),
            Some(index) => {
                let state = self.shadows[index];
                let arm_taken = if outcome.arm is Treatment {
                    state.treatment is Some
                } else {
                    state.control is Some
                };
                if state.lifecycle is Invalidated {
                    Ok(self)
                } else if state.lifecycle is Completed {
                    Ok(self.invalidated(index, ShadowInvalidationReason::DuplicateArm(outcome.arm)))
                } else if shadow::mismatch(state.specification, outcome) is Some {
                    Ok(
                        self.invalidated(
                            index,
                            shadow::mismatch(state.specification, outcome)->Some_0,
                        ),
                    )
                } else if arm_taken {
                    Ok(self.invalidated(index, ShadowInvalidationReason::DuplicateArm(outcome.arm)))
                } else {
                    let next = Self::with_arm(state, outcome);
                    Ok(
                        ShadowsView {
                            shadows: self.shadows.update(index, next),
                            contrasts: self.contrasts + next.contrasts(),
                        },
                    )
                }
            },
        }
    }

    /// What one update changes.
    pub open spec fn updated(self, update: ShadowUpdate, limit: nat) -> Result<
        ShadowsView,
        IntelligenceError,
    > {
        match update {
            ShadowUpdate::Open(specification) => match search::first(
                self.shadows,
                runs(specification.id),
            ) {
                Some(index) => Ok(self.invalidated(index, ShadowInvalidationReason::DuplicateOpen)),
                None => if self.shadows.len() == limit {
                    Err(IntelligenceError::CapacityExceeded)
                } else {
                    Ok(
                        ShadowsView {
                            shadows: self.shadows.push(
                                ShadowCampaignState {
                                    specification,
                                    treatment: None,
                                    control: None,
                                    lifecycle: ShadowCampaignLifecycle::Open,
                                },
                            ),
                            contrasts: self.contrasts,
                        },
                    )
                },
            },
            ShadowUpdate::Outcome(outcome) => self.reported(outcome),
            ShadowUpdate::Close(campaign) => match search::first(self.shadows, runs(campaign)) {
                None => Err(IntelligenceError::InvalidReference),
                Some(index) => if self.shadows[index].lifecycle is Open {
                    Ok(self.invalidated(index, ShadowInvalidationReason::AsymmetricArms))
                } else {
                    Ok(self)
                },
            },
            ShadowUpdate::Invalidate { campaign, reason } => match search::first(
                self.shadows,
                runs(campaign),
            ) {
                None => Err(IntelligenceError::InvalidReference),
                Some(index) => Ok(self.invalidated(index, reason)),
            },
        }
    }

    /// What a run of updates changes; the first refusal ends it.
    pub open spec fn updated_all(self, updates: Seq<ShadowUpdate>, limit: nat) -> Result<
        ShadowsView,
        IntelligenceError,
    >
        decreases updates.len(),
    {
        if updates.len() == 0 {
            Ok(self)
        } else {
            match self.updated_all(updates.drop_last(), limit) {
                Ok(view) => view.updated(updates.last(), limit),
                Err(error) => Err(error),
            }
        }
    }
}

pub open spec fn saturating_sum(left: nat, right: nat) -> nat {
    if left + right > usize::MAX {
        usize::MAX as nat
    } else {
        left + right
    }
}

impl LedgerView {
    pub open spec fn empty() -> LedgerView {
        LedgerView {
            receipts: Seq::empty(),
            settlements: Seq::empty(),
            consequences: Seq::empty(),
            shadows: Seq::empty(),
            contrasts: Seq::empty(),
            roots: CausalRootState::initial(),
        }
    }

    pub open spec fn shadow_side(self) -> ShadowsView {
        ShadowsView { shadows: self.shadows, contrasts: self.contrasts }
    }

    /// The roots that follow from everything else.
    pub open spec fn true_roots(self, format: ReceiptFormat) -> CausalRootState {
        causal::extended_roots(
            format,
            CausalRootState::initial(),
            self.receipts,
            self.settlements,
            self.consequences,
            Some(self.shadows),
        )
    }

    /// What every ledger keeps: decisions settled once each, references that
    /// lead somewhere, campaigns in order and roots that commit to all of it.
    pub open spec fn valid(self) -> bool {
        &&& settled(self.receipts, self.settlements)
        &&& distinct_decisions(self.receipts)
        &&& references_known(self.consequences, self.receipts)
        &&& self.shadow_side().valid()
        &&& self.roots == self.true_roots(ReceiptFormat::Current)
    }

    /// The step that adds the given records, or why there is none.
    pub open spec fn prepared(
        self,
        receipts: Seq<InvestmentReceipt>,
        settlements: Seq<InvestmentSettlement>,
        consequences: Seq<ConsequenceEdge>,
        updates: Seq<ShadowUpdate>,
        limits: IntelligenceLimits,
    ) -> Result<DeltaView, IntelligenceError> {
        if !settled(receipts, settlements) {
            Err(IntelligenceError::InvalidSettlement)
        } else if saturating_sum(self.receipts.len(), receipts.len()) > limits.entry_limit()
            || saturating_sum(self.settlements.len(), settlements.len()) > limits.entry_limit()
            || saturating_sum(self.consequences.len(), consequences.len())
            > limits.consequence_limit() {
            Err(IntelligenceError::CapacityExceeded)
        } else if !distinct_decisions(self.receipts + receipts) {
            Err(IntelligenceError::DuplicateExperience)
        } else if !references_known(consequences, self.receipts + receipts) {
            Err(IntelligenceError::InvalidReference)
        } else {
            match self.proposed(updates, limits) {
                Err(error) => Err(error),
                Ok(proposed) => Ok(
                    DeltaView {
                        receipts,
                        settlements,
                        consequences,
                        updates,
                        proposed,
                        roots: causal::extended_roots(
                            ReceiptFormat::Current,
                            self.roots,
                            receipts,
                            settlements,
                            consequences,
                            match proposed {
                                Some(proposed) => Some(proposed.shadows),
                                None => None,
                            },
                        ),
                    },
                ),
            }
        }
    }

    /// The shadow side after some updates; without updates there is nothing to
    /// propose.
    pub open spec fn proposed(self, updates: Seq<ShadowUpdate>, limits: IntelligenceLimits) -> Result<
        Option<ShadowsView>,
        IntelligenceError,
    > {
        if updates.len() == 0 {
            Ok(None)
        } else {
            match self.shadow_side().updated_all(updates, limits.shadow_limit()) {
                Ok(view) => Ok(Some(view)),
                Err(error) => Err(error),
            }
        }
    }

    /// The ledger after a step.
    pub open spec fn committed(self, delta: DeltaView) -> LedgerView {
        let side = match delta.proposed {
            Some(side) => side,
            None => self.shadow_side(),
        };
        LedgerView {
            receipts: self.receipts + delta.receipts,
            settlements: self.settlements + delta.settlements,
            consequences: self.consequences + delta.consequences,
            shadows: side.shadows,
            contrasts: side.contrasts,
            roots: delta.roots,
        }
    }

    pub open spec fn root(self) -> Digest {
        causal::combined_root(self.roots)
    }

    pub open spec fn within(self, limits: IntelligenceLimits) -> bool {
        &&& limits.maximum_investments * 64 <= usize::MAX
        &&& limits.maximum_forecast_cells * 64 <= usize::MAX
        &&& limits.maximum_opportunities * 16 <= usize::MAX
        &&& self.receipts.len() <= limits.maximum_investments * 64
        &&& self.settlements.len() <= limits.maximum_investments * 64
        &&& self.consequences.len() <= limits.maximum_forecast_cells * 64
        &&& self.shadows.len() <= limits.maximum_opportunities * 16
    }

    /// No list is longer than a reader takes under the limits.
    pub open spec fn counted(self, limits: IntelligenceLimits) -> bool {
        &&& self.receipts.len() <= limits.entry_limit()
        &&& self.settlements.len() <= limits.entry_limit()
        &&& self.consequences.len() <= limits.consequence_limit()
        &&& self.shadows.len() <= limits.shadow_limit()
    }

    /// The verdict on an obligation that a decision is the authority for.
    pub open spec fn authority(self, decision: DecisionId, obligation: SubjectId) -> Result<
        InvestmentOutcome,
        IntelligenceError,
    > {
        match (
            search::first(self.receipts, issued(decision)),
            search::first(self.settlements, settles(decision)),
        ) {
            (Some(i), Some(j)) => authority_of(self.receipts[i], self.settlements[j], obligation),
            _ => Err(IntelligenceError::InvalidReference),
        }
    }
}

/// The verdict of one verification on an obligation.
pub open spec fn authority_of(
    receipt: InvestmentReceipt,
    settlement: InvestmentSettlement,
    obligation: SubjectId,
) -> Result<InvestmentOutcome, IntelligenceError> {
    let about = match settlement.outcome {
        InvestmentOutcome::VerifiedAccepted { verification_record } => verification_record
            == obligation,
        InvestmentOutcome::VerifiedRefuted => receipt.opportunity == obligation.0,
        InvestmentOutcome::VerifiedUnknown => receipt.opportunity == obligation.0,
        _ => false,
    };
    if receipt.tag is Verify && receipt.decision == settlement.decision && about {
        Ok(settlement.outcome)
    } else {
        Err(IntelligenceError::InvalidReference)
    }
}

// ---------------------------------------------------------------------------
// Lemmas on contrasts
// ---------------------------------------------------------------------------
proof fn lemma_of_campaign_joins(
    first: Seq<ContextualContrast>,
    second: Seq<ContextualContrast>,
    campaign: ShadowCampaignId,
)
    ensures
        of_campaign(first + second, campaign) == of_campaign(first, campaign) + of_campaign(
            second,
            campaign,
        ),
    decreases second.len(),
{
    if second.len() == 0 {
        assert(first + second =~= first);
        assert(of_campaign(first, campaign) + of_campaign(second, campaign) =~= of_campaign(
            first,
            campaign,
        ));
    } else {
        lemma_of_campaign_joins(first, second.drop_last(), campaign);
        assert((first + second).drop_last() =~= first + second.drop_last());
        assert((first + second).last() == second.last());
        assert(of_campaign(first + second, campaign) =~= of_campaign(first, campaign)
            + of_campaign(second, campaign));
    }
}

proof fn lemma_of_campaign_all(contrasts: Seq<ContextualContrast>, campaign: ShadowCampaignId)
    requires
        forall|j: int| 0 <= j < contrasts.len() ==> (#[trigger] contrasts[j]).campaign == campaign,
    ensures
        of_campaign(contrasts, campaign) == contrasts,
    decreases contrasts.len(),
{
    if contrasts.len() > 0 {
        lemma_of_campaign_all(contrasts.drop_last(), campaign);
        assert(contrasts[contrasts.len() - 1].campaign == campaign);
        assert(contrasts.drop_last().push(contrasts.last()) =~= contrasts);
    } else {
        assert(contrasts =~= Seq::empty());
    }
}

proof fn lemma_of_campaign_none(contrasts: Seq<ContextualContrast>, campaign: ShadowCampaignId)
    requires
        forall|j: int| 0 <= j < contrasts.len() ==> (#[trigger] contrasts[j]).campaign != campaign,
    ensures
        of_campaign(contrasts, campaign) == Seq::<ContextualContrast>::empty(),
    decreases contrasts.len(),
{
    if contrasts.len() > 0 {
        assert(contrasts[contrasts.len() - 1].campaign != campaign);
        lemma_of_campaign_none(contrasts.drop_last(), campaign);
    }
}

proof fn lemma_without_campaign(
    contrasts: Seq<ContextualContrast>,
    removed: ShadowCampaignId,
    campaign: ShadowCampaignId,
)
    ensures
        of_campaign(without_campaign(contrasts, removed), campaign) == (if campaign == removed {
            Seq::<ContextualContrast>::empty()
        } else {
            of_campaign(contrasts, campaign)
        }),
        forall|j: int|
            0 <= j < without_campaign(contrasts, removed).len() ==> contrasts.contains(
                #[trigger] without_campaign(contrasts, removed)[j],
            ),
    decreases contrasts.len(),
{
    if contrasts.len() > 0 {
        let front = contrasts.drop_last();
        lemma_without_campaign(front, removed, campaign);
        let kept = without_campaign(contrasts, removed);
        if contrasts.last().campaign != removed {
            assert(kept.drop_last() =~= without_campaign(front, removed));
            assert(kept.last() == contrasts.last());
        }
        assert forall|j: int| 0 <= j < kept.len() implies contrasts.contains(#[trigger] kept[j]) by {
            if j < without_campaign(front, removed).len() {
                let item = without_campaign(front, removed)[j];
                assert(front.contains(item));
                let k = choose|k: int| 0 <= k < front.len() && front[k] == item;
                assert(contrasts[k] == item);
            } else {
                assert(contrasts[contrasts.len() - 1] == kept[j]);
            }
        }
    }
}

// ---------------------------------------------------------------------------
// Shadow updates keep the shadow side valid
// ---------------------------------------------------------------------------
proof fn lemma_invalidated_valid(view: ShadowsView, index: int, reason: ShadowInvalidationReason)
    requires
        view.valid(),
        0 <= index < view.shadows.len(),
    ensures
        view.invalidated(index, reason).valid(),
{
    let next = view.invalidated(index, reason);
    let id = view.shadows[index].specification.id;
    if !(view.shadows[index].lifecycle is Invalidated) {
        assert forall|i: int| 0 <= i < next.shadows.len() implies of_campaign(
            next.contrasts,
            (#[trigger] next.shadows[i]).specification.id,
        ) == next.shadows[i].contrasts() by {
            lemma_without_campaign(view.contrasts, id, view.shadows[i].specification.id);
            if i < index {
                assert(view.shadows[i].specification.id != view.shadows[index].specification.id);
            } else if i > index {
                assert(view.shadows[index].specification.id != view.shadows[i].specification.id);
            }
        }
        assert forall|j: int| 0 <= j < next.contrasts.len() implies search::first(
            next.shadows,
            runs((#[trigger] next.contrasts[j]).campaign),
        ) is Some by {
            lemma_without_campaign(view.contrasts, id, id);
            let item = next.contrasts[j];
            let k = choose|k: int| 0 <= k < view.contrasts.len() && view.contrasts[k] == item;
            assert(search::first(view.shadows, runs(view.contrasts[k].campaign)) is Some);
            search::lemma_first(view.shadows, runs(item.campaign));
            search::lemma_first(next.shadows, runs(item.campaign));
            let found = search::first(view.shadows, runs(item.campaign))->Some_0;
            assert(runs(item.campaign)(next.shadows[found]));
        }
        assert(distinct_campaigns(next.shadows)) by {
            assert forall|i: int, j: int| 0 <= i < j < next.shadows.len() implies (
            #[trigger] next.shadows[i]).specification.id != (
            #[trigger] next.shadows[j]).specification.id by {
                assert(view.shadows[i].specification.id != view.shadows[j].specification.id);
            }
        }
    }
}

proof fn lemma_reported_valid(view: ShadowsView, outcome: ShadowArmOutcome)
    requires
        view.valid(),
        outcome.well_formed(),
    ensures
        view.reported(outcome) matches Ok(next) ==> next.valid(),
{
    search::lemma_first(view.shadows, runs(outcome.campaign));
    match search::first(view.shadows, runs(outcome.campaign)) {
        None => {},
        Some(index) => {
            let state = view.shadows[index];
            lemma_invalidated_valid(
                view,
                index,
                ShadowInvalidationReason::DuplicateArm(outcome.arm),
            );
            if shadow::mismatch(state.specification, outcome) is Some {
                lemma_invalidated_valid(
                    view,
                    index,
                    shadow::mismatch(state.specification, outcome)->Some_0,
                );
            }
            let arm_taken = if outcome.arm is Treatment {
                state.treatment is Some
            } else {
                state.control is Some
            };
            if state.lifecycle is Open && shadow::mismatch(state.specification, outcome) is None
                && !arm_taken {
                lemma_arm_stored_valid(view, index, outcome);
            }
        },
    }
}

proof fn lemma_arm_stored_valid(view: ShadowsView, index: int, outcome: ShadowArmOutcome)
    requires
        view.valid(),
        outcome.well_formed(),
        0 <= index < view.shadows.len(),
        view.shadows[index].specification.id == outcome.campaign,
        view.shadows[index].lifecycle is Open,
        shadow::mismatch(view.shadows[index].specification, outcome) is None,
        if outcome.arm is Treatment {
            view.shadows[index].treatment is None
        } else {
            view.shadows[index].control is None
        },
    ensures
        (ShadowsView {
            shadows: view.shadows.update(
                index,
                ShadowsView::with_arm(view.shadows[index], outcome),
            ),
            contrasts: view.contrasts + ShadowsView::with_arm(
                view.shadows[index],
                outcome,
            ).contrasts(),
        }).valid(),
{
    let state = view.shadows[index];
    let stored = ShadowsView::with_arm(state, outcome);
    let added = stored.contrasts();
    let next = ShadowsView {
        shadows: view.shadows.update(index, stored),
        contrasts: view.contrasts + added,
    };
    assert(state.well_formed());
    assert(stored.well_formed());
    assert forall|i: int| 0 <= i < next.shadows.len() implies of_campaign(
        next.contrasts,
        (#[trigger] next.shadows[i]).specification.id,
    ) == next.shadows[i].contrasts() by {
        let id = view.shadows[i].specification.id;
        lemma_of_campaign_joins(view.contrasts, added, id);
        if i == index {
            lemma_of_campaign_all(added, id);
            assert(of_campaign(view.contrasts, view.shadows[i].specification.id) == Seq::<
                ContextualContrast,
            >::empty());
            assert(Seq::<ContextualContrast>::empty() + added =~= added);
        } else {
            if i < index {
                assert(view.shadows[i].specification.id != view.shadows[index].specification.id);
            } else {
                assert(view.shadows[index].specification.id != view.shadows[i].specification.id);
            }
            lemma_of_campaign_none(added, id);
            assert(of_campaign(view.contrasts, id) + Seq::<ContextualContrast>::empty()
                =~= of_campaign(view.contrasts, id));
        }
    }
    assert forall|j: int| 0 <= j < next.contrasts.len() implies search::first(
        next.shadows,
        runs((#[trigger] next.contrasts[j]).campaign),
    ) is Some by {
        let item = next.contrasts[j];
        search::lemma_first(next.shadows, runs(item.campaign));
        if j < view.contrasts.len() {
            assert(search::first(view.shadows, runs(view.contrasts[j].campaign)) is Some);
            search::lemma_first(view.shadows, runs(item.campaign));
            let found = search::first(view.shadows, runs(item.campaign))->Some_0;
            assert(runs(item.campaign)(next.shadows[found]));
        } else {
            assert(item == added[j - view.contrasts.len()]);
            assert(runs(item.campaign)(next.shadows[index]));
        }
    }
    assert(distinct_campaigns(next.shadows)) by {
        assert forall|i: int, j: int| 0 <= i < j < next.shadows.len() implies (
        #[trigger] next.shadows[i]).specification.id != (
        #[trigger] next.shadows[j]).specification.id by {
            assert(view.shadows[i].specification.id != view.shadows[j].specification.id);
        }
    }
}

proof fn lemma_opened_valid(view: ShadowsView, specification: ShadowCampaignSpec)
    requires
        view.valid(),
        specification.well_formed(),
        search::first(view.shadows, runs(specification.id)) is None,
    ensures
        (ShadowsView {
            shadows: view.shadows.push(
                ShadowCampaignState {
                    specification,
                    treatment: None,
                    control: None,
                    lifecycle: ShadowCampaignLifecycle::Open,
                },
            ),
            contrasts: view.contrasts,
        }).valid(),
{
    let opened = ShadowCampaignState {
        specification,
        treatment: None,
        control: None,
        lifecycle: ShadowCampaignLifecycle::Open,
    };
    let next = ShadowsView { shadows: view.shadows.push(opened), contrasts: view.contrasts };
    search::lemma_first(view.shadows, runs(specification.id));
    assert forall|i: int| 0 <= i < next.shadows.len() implies of_campaign(
        next.contrasts,
        (#[trigger] next.shadows[i]).specification.id,
    ) == next.shadows[i].contrasts() by {
        if i < view.shadows.len() {
            assert(view.shadows[i] == next.shadows[i]);
        } else {
            assert forall|j: int| 0 <= j < view.contrasts.len() implies (
            #[trigger] view.contrasts[j]).campaign != specification.id by {
                assert(search::first(view.shadows, runs(view.contrasts[j].campaign)) is Some);
            }
            lemma_of_campaign_none(view.contrasts, specification.id);
        }
    }
    assert forall|j: int| 0 <= j < next.contrasts.len() implies search::first(
        next.shadows,
        runs((#[trigger] next.contrasts[j]).campaign),
    ) is Some by {
        let item = next.contrasts[j];
        assert(search::first(view.shadows, runs(view.contrasts[j].campaign)) is Some);
        search::lemma_first(view.shadows, runs(item.campaign));
        search::lemma_first(next.shadows, runs(item.campaign));
        let found = search::first(view.shadows, runs(item.campaign))->Some_0;
        assert(runs(item.campaign)(next.shadows[found]));
    }
    assert(distinct_campaigns(next.shadows)) by {
        assert forall|i: int, j: int| 0 <= i < j < next.shadows.len() implies (
        #[trigger] next.shadows[i]).specification.id != (
        #[trigger] next.shadows[j]).specification.id by {
            assert(!runs(specification.id)(view.shadows[i]));
        }
    }
}

/// One update keeps the shadow side valid.
pub proof fn lemma_updated_valid(view: ShadowsView, update: ShadowUpdate, limit: nat)
    requires
        view.valid(),
        update.well_formed(),
    ensures
        view.updated(update, limit) matches Ok(next) ==> next.valid(),
{
    match update {
        ShadowUpdate::Open(specification) => {
            search::lemma_first(view.shadows, runs(specification.id));
            match search::first(view.shadows, runs(specification.id)) {
                Some(index) => lemma_invalidated_valid(
                    view,
                    index,
                    ShadowInvalidationReason::DuplicateOpen,
                ),
                None => lemma_opened_valid(view, specification),
            }
        },
        ShadowUpdate::Outcome(outcome) => lemma_reported_valid(view, outcome),
        ShadowUpdate::Close(campaign) => {
            search::lemma_first(view.shadows, runs(campaign));
            if let Some(index) = search::first(view.shadows, runs(campaign)) {
                lemma_invalidated_valid(view, index, ShadowInvalidationReason::AsymmetricArms);
            }
        },
        ShadowUpdate::Invalidate { campaign, reason } => {
            search::lemma_first(view.shadows, runs(campaign));
            if let Some(index) = search::first(view.shadows, runs(campaign)) {
                lemma_invalidated_valid(view, index, reason);
            }
        },
    }
}

/// Every update of a run is well formed.
pub open spec fn all_well_formed(updates: Seq<ShadowUpdate>) -> bool {
    forall|i: int| 0 <= i < updates.len() ==> (#[trigger] updates[i]).well_formed()
}

/// A run of updates keeps the shadow side valid: every contrast comes from a
/// completed campaign, and each completed campaign has all of its contrasts.
pub proof fn law_updates_keep_contrasts_earned(
    view: ShadowsView,
    updates: Seq<ShadowUpdate>,
    limit: nat,
)
    requires
        view.valid(),
        all_well_formed(updates),
    ensures
        view.updated_all(updates, limit) matches Ok(next) ==> next.valid(),
    decreases updates.len(),
{
    if updates.len() > 0 {
        law_updates_keep_contrasts_earned(view, updates.drop_last(), limit);
        assert(updates[updates.len() - 1].well_formed());
        if let Ok(middle) = view.updated_all(updates.drop_last(), limit) {
            lemma_updated_valid(middle, updates.last(), limit);
        }
    }
}

/// What a later shadow side keeps of an earlier one: every campaign with its
/// specification, and every invalidated campaign with its reason and the arms that
/// were stored for it.
pub open spec fn shadows_continue(earlier: ShadowsView, later: ShadowsView) -> bool {
    &&& earlier.shadows.len() <= later.shadows.len()
    &&& forall|i: int|
        0 <= i < earlier.shadows.len() ==> (#[trigger] later.shadows[i]).specification
            == earlier.shadows[i].specification && (
        earlier.shadows[i].lifecycle is Invalidated ==> later.shadows[i].lifecycle
            == earlier.shadows[i].lifecycle && later.shadows[i].treatment
            == earlier.shadows[i].treatment && later.shadows[i].control
            == earlier.shadows[i].control)
}

/// No update forgets a campaign, revives an invalidated one or changes its arms.
pub proof fn law_invalidation_is_permanent(
    view: ShadowsView,
    updates: Seq<ShadowUpdate>,
    limit: nat,
)
    ensures
        view.updated_all(updates, limit) matches Ok(next) ==> shadows_continue(view, next),
    decreases updates.len(),
{
    if updates.len() > 0 {
        law_invalidation_is_permanent(view, updates.drop_last(), limit);
        if let Ok(middle) = view.updated_all(updates.drop_last(), limit) {
            let update = updates.last();
            let campaign = match update {
                ShadowUpdate::Open(specification) => specification.id,
                ShadowUpdate::Outcome(outcome) => outcome.campaign,
                ShadowUpdate::Close(campaign) => campaign,
                ShadowUpdate::Invalidate { campaign, .. } => campaign,
            };
            search::lemma_first(middle.shadows, runs(campaign));
            if let Ok(next) = middle.updated(update, limit) {
                assert forall|i: int| 0 <= i < view.shadows.len() implies (
                #[trigger] next.shadows[i]).specification == view.shadows[i].specification && (
                view.shadows[i].lifecycle is Invalidated ==> next.shadows[i].lifecycle
                    == view.shadows[i].lifecycle && next.shadows[i].treatment
                    == view.shadows[i].treatment && next.shadows[i].control
                    == view.shadows[i].control) by {
                    assert(middle.shadows[i].specification == view.shadows[i].specification);
                }
            }
        }
    }
}

proof fn lemma_none_of_campaign(contrasts: Seq<ContextualContrast>, campaign: ShadowCampaignId)
    requires
        of_campaign(contrasts, campaign).len() == 0,
    ensures
        forall|j: int| 0 <= j < contrasts.len() ==> (#[trigger] contrasts[j]).campaign != campaign,
    decreases contrasts.len(),
{
    if contrasts.len() > 0 {
        lemma_none_of_campaign(contrasts.drop_last(), campaign);
        assert forall|j: int| 0 <= j < contrasts.len() implies (
        #[trigger] contrasts[j]).campaign != campaign by {
            if j < contrasts.len() - 1 {
                assert(contrasts.drop_last()[j] == contrasts[j]);
            }
        }
    }
}

/// Whatever updates there are, no contrast of an invalidated campaign remains.
pub proof fn law_invalidated_campaigns_have_no_contrasts(
    view: ShadowsView,
    updates: Seq<ShadowUpdate>,
    limit: nat,
)
    requires
        view.valid(),
        all_well_formed(updates),
    ensures
        view.updated_all(updates, limit) matches Ok(next) ==> forall|i: int, j: int|
            0 <= i < next.shadows.len() && next.shadows[i].lifecycle is Invalidated && 0 <= j
                < next.contrasts.len() ==> (#[trigger] next.contrasts[j]).campaign != (
            #[trigger] next.shadows[i]).specification.id,
{
    law_updates_keep_contrasts_earned(view, updates, limit);
    if let Ok(next) = view.updated_all(updates, limit) {
        assert forall|i: int, j: int|
            0 <= i < next.shadows.len() && next.shadows[i].lifecycle is Invalidated && 0 <= j
                < next.contrasts.len() implies (#[trigger] next.contrasts[j]).campaign != (
        #[trigger] next.shadows[i]).specification.id by {
            let id = next.shadows[i].specification.id;
            assert(of_campaign(next.contrasts, id) == next.shadows[i].contrasts());
            lemma_none_of_campaign(next.contrasts, id);
        }
    }
}

// ---------------------------------------------------------------------------
// Deltas keep the ledger valid
// ---------------------------------------------------------------------------
proof fn lemma_knows_more(
    receipts: Seq<InvestmentReceipt>,
    more: Seq<InvestmentReceipt>,
    decision: DecisionId,
)
    requires
        knows(receipts, decision),
    ensures
        knows(receipts + more, decision),
{
    let i = choose|i: int| 0 <= i < receipts.len() && (#[trigger] receipts[i]).decision == decision;
    assert((receipts + more)[i].decision == decision);
}

/// Committing a prepared step to a valid ledger gives a valid ledger.
pub proof fn law_prepared_commit_is_valid(
    ledger: LedgerView,
    receipts: Seq<InvestmentReceipt>,
    settlements: Seq<InvestmentSettlement>,
    consequences: Seq<ConsequenceEdge>,
    updates: Seq<ShadowUpdate>,
    limits: IntelligenceLimits,
)
    requires
        ledger.valid(),
        all_well_formed(updates),
    ensures
        ledger.prepared(receipts, settlements, consequences, updates, limits) matches Ok(delta)
            ==> ledger.committed(delta).valid(),
{
    if let Ok(delta) = ledger.prepared(receipts, settlements, consequences, updates, limits) {
        let next = ledger.committed(delta);
        law_updates_keep_contrasts_earned(ledger.shadow_side(), updates, limits.shadow_limit());
        assert(next.shadow_side().valid());
        assert(settled(next.receipts, next.settlements)) by {
            assert forall|i: int| 0 <= i < next.receipts.len() implies (
            #[trigger] next.receipts[i]).decision == next.settlements[i].decision
                && causal::compatible(next.receipts[i].tag, next.settlements[i].outcome) by {
                if i < ledger.receipts.len() {
                    assert(ledger.receipts[i].decision == ledger.settlements[i].decision);
                } else {
                    let j = i - ledger.receipts.len();
                    assert(receipts[j].decision == settlements[j].decision);
                }
            }
        }
        assert forall|i: int| 0 <= i < next.consequences.len() implies reference_known(
            #[trigger] next.consequences[i],
            next.receipts,
        ) by {
            if i < ledger.consequences.len() {
                assert(reference_known(ledger.consequences[i], ledger.receipts));
                if let CausalSubject::Decision(decision) = ledger.consequences[i].subject {
                    lemma_knows_more(ledger.receipts, receipts, decision);
                }
            } else {
                assert(reference_known(
                    consequences[i - ledger.consequences.len()],
                    ledger.receipts + receipts,
                ));
            }
        }
        lemma_roots_follow(
            ledger,
            receipts,
            settlements,
            consequences,
            match delta.proposed {
                Some(side) => Some(side.shadows),
                None => None,
            },
        );
    }
}

proof fn lemma_roots_follow(
    ledger: LedgerView,
    receipts: Seq<InvestmentReceipt>,
    settlements: Seq<InvestmentSettlement>,
    consequences: Seq<ConsequenceEdge>,
    shadows: Option<Seq<ShadowCampaignState>>,
)
    requires
        ledger.roots == ledger.true_roots(ReceiptFormat::Current),
    ensures
        causal::extended_roots(
            ReceiptFormat::Current,
            ledger.roots,
            receipts,
            settlements,
            consequences,
            shadows,
        ) == causal::extended_roots(
            ReceiptFormat::Current,
            CausalRootState::initial(),
            ledger.receipts + receipts,
            ledger.settlements + settlements,
            ledger.consequences + consequences,
            Some(
                match shadows {
                    Some(shadows) => shadows,
                    None => ledger.shadows,
                },
            ),
        ),
{
    let initial = CausalRootState::initial();
    causal::lemma_appended_all_joins::<ReceiptFormat, InvestmentReceipt>(
        initial.receipts,
        "reflex-causal-receipts-v1\0",
        ReceiptFormat::Current,
        ledger.receipts,
        receipts,
    );
    causal::lemma_appended_all_joins::<(), InvestmentSettlement>(
        initial.settlements,
        "reflex-causal-settlements-v1\0",
        (),
        ledger.settlements,
        settlements,
    );
    causal::lemma_appended_all_joins::<(), ConsequenceEdge>(
        initial.consequences,
        "reflex-causal-consequences-v1\0",
        (),
        ledger.consequences,
        consequences,
    );
}

// ---------------------------------------------------------------------------
// Byte forms
// ---------------------------------------------------------------------------
/// The bytes of a ledger.
pub open spec fn put_ledger(format: ReceiptFormat, ledger: LedgerView) -> Seq<u8> {
    codec::put_list::<ReceiptFormat, InvestmentReceipt>(format, ledger.receipts) + (
    codec::put_list::<(), InvestmentSettlement>((), ledger.settlements) + (codec::put_list::<
        (),
        ConsequenceEdge,
    >((), ledger.consequences) + codec::put_list::<(), ShadowCampaignState>((), ledger.shadows)))
}

/// The ledger with the given records, its contrasts and roots derived.
pub open spec fn rebuilt(
    receipts: Seq<InvestmentReceipt>,
    settlements: Seq<InvestmentSettlement>,
    consequences: Seq<ConsequenceEdge>,
    shadows: Seq<ShadowCampaignState>,
) -> LedgerView {
    LedgerView {
        receipts,
        settlements,
        consequences,
        shadows,
        contrasts: contrasts_in_order(shadows),
        roots: causal::extended_roots(
            ReceiptFormat::Current,
            CausalRootState::initial(),
            receipts,
            settlements,
            consequences,
            Some(shadows),
        ),
    }
}

/// Records that can stand in one ledger.
pub open spec fn consistent(
    receipts: Seq<InvestmentReceipt>,
    settlements: Seq<InvestmentSettlement>,
    consequences: Seq<ConsequenceEdge>,
    shadows: Seq<ShadowCampaignState>,
) -> bool {
    &&& settled(receipts, settlements)
    &&& distinct_decisions(receipts)
    &&& references_known(consequences, receipts)
    &&& distinct_campaigns(shadows)
}

/// The ledger at the front of some bytes.
pub open spec fn parse_ledger(
    format: ReceiptFormat,
    limits: IntelligenceLimits,
    input: Seq<u8>,
) -> Option<(LedgerView, Seq<u8>)> {
    match codec::parse_list::<ReceiptFormat, InvestmentReceipt>(
        format,
        input,
        limits.entry_limit(),
        221,
    ) {
        None => None,
        Some((receipts, rest)) => match codec::parse_list::<(), InvestmentSettlement>(
            (),
            rest,
            limits.entry_limit(),
            73,
        ) {
            None => None,
            Some((settlements, rest)) => match codec::parse_list::<(), ConsequenceEdge>(
                (),
                rest,
                limits.consequence_limit(),
                34,
            ) {
                None => None,
                Some((consequences, rest)) => match codec::parse_list::<(), ShadowCampaignState>(
                    (),
                    rest,
                    limits.shadow_limit(),
                    179,
                ) {
                    None => None,
                    Some((shadows, rest)) => if consistent(
                        receipts,
                        settlements,
                        consequences,
                        shadows,
                    ) {
                        Some((rebuilt(receipts, settlements, consequences, shadows), rest))
                    } else {
                        None
                    },
                },
            },
        },
    }
}

/// The bytes of a step.
pub open spec fn put_delta(delta: DeltaView) -> Seq<u8> {
    codec::put_list::<ReceiptFormat, InvestmentReceipt>(ReceiptFormat::Current, delta.receipts) + (
    codec::put_list::<(), InvestmentSettlement>((), delta.settlements) + (codec::put_list::<
        (),
        ConsequenceEdge,
    >((), delta.consequences) + codec::put_list::<(), ShadowUpdate>((), delta.updates)))
}

/// The step at the front of some bytes, prepared against a ledger.
pub open spec fn parse_delta(
    format: ReceiptFormat,
    base: LedgerView,
    limits: IntelligenceLimits,
    input: Seq<u8>,
) -> Option<(DeltaView, Seq<u8>)> {
    match codec::parse_list::<ReceiptFormat, InvestmentReceipt>(
        format,
        input,
        limits.entry_limit(),
        221,
    ) {
        None => None,
        Some((receipts, rest)) => match codec::parse_list::<(), InvestmentSettlement>(
            (),
            rest,
            limits.entry_limit(),
            73,
        ) {
            None => None,
            Some((settlements, rest)) => match codec::parse_list::<(), ConsequenceEdge>(
                (),
                rest,
                limits.consequence_limit(),
                34,
            ) {
                None => None,
                Some((consequences, rest)) => match codec::parse_list::<(), ShadowUpdate>(
                    (),
                    rest,
                    codec::saturating_product(limits.shadow_limit(), 4),
                    1,
                ) {
                    None => None,
                    Some((updates, rest)) => match base.prepared(
                        receipts,
                        settlements,
                        consequences,
                        updates,
                        limits,
                    ) {
                        Ok(delta) => Some((delta, rest)),
                        Err(_) => None,
                    },
                },
            },
        },
    }
}

/// Every receipt has a byte form that carries it without loss.
pub open spec fn receipts_carried(format: ReceiptFormat, receipts: Seq<InvestmentReceipt>) -> bool {
    codec::all_admissible::<ReceiptFormat, InvestmentReceipt>(format, receipts)
}

/// A ledger within its limits, whose contrasts stand campaign by campaign, reads
/// back as it was written.
#[verifier::spinoff_prover]
#[verifier::rlimit(40)]
pub proof fn law_ledger_reads_back(
    format: ReceiptFormat,
    limits: IntelligenceLimits,
    ledger: LedgerView,
    rest: Seq<u8>,
)
    requires
        ledger.valid(),
        ledger.counted(limits),
        ledger.contrasts == contrasts_in_order(ledger.shadows),
        receipts_carried(format, ledger.receipts),
    ensures
        parse_ledger(format, limits, put_ledger(format, ledger) + rest) == Some((ledger, rest)),
{
    let shadows = codec::put_list::<(), ShadowCampaignState>((), ledger.shadows) + rest;
    let consequences = codec::put_list::<(), ConsequenceEdge>((), ledger.consequences) + shadows;
    let settlements = codec::put_list::<(), InvestmentSettlement>((), ledger.settlements)
        + consequences;
    assert(put_ledger(format, ledger) + rest =~= codec::put_list::<
        ReceiptFormat,
        InvestmentReceipt,
    >(format, ledger.receipts) + settlements);
    codec::lemma_list_round_trip::<ReceiptFormat, InvestmentReceipt>(
        format,
        ledger.receipts,
        limits.entry_limit(),
        221,
        settlements,
    );
    codec::lemma_list_round_trip::<(), InvestmentSettlement>(
        (),
        ledger.settlements,
        limits.entry_limit(),
        73,
        consequences,
    );
    codec::lemma_list_round_trip::<(), ConsequenceEdge>(
        (),
        ledger.consequences,
        limits.consequence_limit(),
        34,
        shadows,
    );
    codec::lemma_list_round_trip::<(), ShadowCampaignState>(
        (),
        ledger.shadows,
        limits.shadow_limit(),
        179,
        rest,
    );
}

/// A prepared step reads back, against the same ledger, as it was written.
pub proof fn law_delta_reads_back(
    base: LedgerView,
    receipts: Seq<InvestmentReceipt>,
    settlements: Seq<InvestmentSettlement>,
    consequences: Seq<ConsequenceEdge>,
    updates: Seq<ShadowUpdate>,
    limits: IntelligenceLimits,
    rest: Seq<u8>,
)
    requires
        base.prepared(receipts, settlements, consequences, updates, limits) is Ok,
        receipts_carried(ReceiptFormat::Current, receipts),
        all_well_formed(updates),
        receipts.len() <= usize::MAX,
        consequences.len() <= usize::MAX,
        updates.len() <= codec::saturating_product(limits.shadow_limit(), 4),
    ensures
        ({
            let delta = base.prepared(receipts, settlements, consequences, updates, limits)->Ok_0;
            parse_delta(ReceiptFormat::Current, base, limits, put_delta(delta) + rest) == Some(
                (delta, rest),
            )
        }),
{
    let delta = base.prepared(receipts, settlements, consequences, updates, limits)->Ok_0;
    let after_updates = codec::put_list::<(), ShadowUpdate>((), updates) + rest;
    let after_consequences = codec::put_list::<(), ConsequenceEdge>((), consequences)
        + after_updates;
    let after_settlements = codec::put_list::<(), InvestmentSettlement>((), settlements)
        + after_consequences;
    assert(put_delta(delta) + rest =~= codec::put_list::<ReceiptFormat, InvestmentReceipt>(
        ReceiptFormat::Current,
        receipts,
    ) + after_settlements);
    codec::lemma_list_round_trip::<ReceiptFormat, InvestmentReceipt>(
        ReceiptFormat::Current,
        receipts,
        limits.entry_limit(),
        221,
        after_settlements,
    );
    codec::lemma_list_round_trip::<(), InvestmentSettlement>(
        (),
        settlements,
        limits.entry_limit(),
        73,
        after_consequences,
    );
    codec::lemma_list_round_trip::<(), ConsequenceEdge>(
        (),
        consequences,
        limits.consequence_limit(),
        34,
        after_updates,
    );
    codec::lemma_list_round_trip::<(), ShadowUpdate>(
        (),
        updates,
        codec::saturating_product(limits.shadow_limit(), 4),
        1,
        rest,
    );
}

// ---------------------------------------------------------------------------
// The ledger
// ---------------------------------------------------------------------------
/// Everything that has been decided, settled and learned from.
#[derive(Debug)]
pub struct CausalLedger {
    receipts: Vec<InvestmentReceipt>,
    settlements: Vec<InvestmentSettlement>,
    consequences: Vec<ConsequenceEdge>,
    shadows: Vec<ShadowCampaignState>,
    contrasts: Vec<ContextualContrast>,
    roots: CausalRootState,
}

impl View for CausalLedger {
    type V = LedgerView;

    closed spec fn view(&self) -> LedgerView {
        LedgerView {
            receipts: self.receipts@,
            settlements: self.settlements@,
            consequences: self.consequences@,
            shadows: self.shadows@,
            contrasts: self.contrasts@,
            roots: self.roots,
        }
    }
}

/// The shadow side that a step proposes.
#[derive(Debug)]
pub struct ProposedShadows {
    shadows: Vec<ShadowCampaignState>,
    contrasts: Vec<ContextualContrast>,
}

impl View for ProposedShadows {
    type V = ShadowsView;

    closed spec fn view(&self) -> ShadowsView {
        ShadowsView { shadows: self.shadows@, contrasts: self.contrasts@ }
    }
}

/// A prepared step.
#[derive(Debug)]
pub struct CausalDelta {
    receipts: Vec<InvestmentReceipt>,
    settlements: Vec<InvestmentSettlement>,
    consequences: Vec<ConsequenceEdge>,
    shadow_updates: Vec<ShadowUpdate>,
    proposed: Option<ProposedShadows>,
    roots: CausalRootState,
}

impl View for CausalDelta {
    type V = DeltaView;

    closed spec fn view(&self) -> DeltaView {
        DeltaView {
            receipts: self.receipts@,
            settlements: self.settlements@,
            consequences: self.consequences@,
            updates: self.shadow_updates@,
            proposed: match self.proposed {
                Some(proposed) => Some(proposed@),
                None => None,
            },
            roots: self.roots,
        }
    }
}

/// A list of its own with the same items.
pub fn copied<T: Copy>(items: &[T]) -> (copy: Vec<T>)
    ensures
        copy@ == items@,
{
    let mut copy: Vec<T> = Vec::new();
    let mut index: usize = 0;
    while index < items.len()
        invariant
            index <= items@.len(),
            copy@ == items@.take(index as int),
        decreases items@.len() - index,
    {
        copy.push(items[index]);
        assert(items@.take(index + 1) =~= items@.take(index as int).push(items@[index as int]));
        index = index + 1;
    }
    assert(items@.take(items@.len() as int) =~= items@);
    copy
}

fn knows_decision(receipts: &[InvestmentReceipt], decision: DecisionId) -> (result: bool)
    ensures
        result == knows(receipts@, decision),
{
    let mut index: usize = 0;
    while index < receipts.len()
        invariant
            index <= receipts@.len(),
            forall|i: int| 0 <= i < index ==> (#[trigger] receipts@[i]).decision != decision,
        decreases receipts@.len() - index,
    {
        if receipts[index].decision == decision {
            assert(receipts@[index as int].decision == decision);
            return true;
        }
        index = index + 1;
    }
    false
}

/// Whether no decision of `receipts` repeats, among them or in `earlier`.
fn decisions_are_new(earlier: &[InvestmentReceipt], receipts: &[InvestmentReceipt]) -> (result: bool)
    requires
        distinct_decisions(earlier@),
    ensures
        result == distinct_decisions(earlier@ + receipts@),
{
    let ghost joined = earlier@ + receipts@;
    let mut index: usize = 0;
    while index < receipts.len()
        invariant
            index <= receipts@.len(),
            joined == earlier@ + receipts@,
            distinct_decisions(joined.take(earlier@.len() + index)),
        decreases receipts@.len() - index,
    {
        let decision = receipts[index].decision;
        let ghost place = earlier@.len() + index;
        if knows_decision(earlier, decision) {
            proof {
                let i = choose|i: int|
                    0 <= i < earlier@.len() && (#[trigger] earlier@[i]).decision == decision;
                assert(joined[i].decision == joined[place as int].decision);
            }
            return false;
        }
        let (before, _from) = receipts.split_at(index);
        if knows_decision(before, decision) {
            proof {
                let i = choose|i: int|
                    0 <= i < before@.len() && (#[trigger] before@[i]).decision == decision;
                assert(joined[earlier@.len() + i] == before@[i]);
                assert(joined[earlier@.len() + i].decision == joined[place as int].decision);
            }
            return false;
        }
        assert(distinct_decisions(joined.take(place + 1))) by {
            let longer = joined.take(place + 1);
            let shorter = joined.take(place as int);
            assert forall|i: int, j: int| 0 <= i < j < longer.len() implies (
            #[trigger] longer[i]).decision != (#[trigger] longer[j]).decision by {
                if j < place {
                    assert(shorter[i].decision != shorter[j].decision);
                } else if i < earlier@.len() {
                    assert(earlier@[i].decision != decision);
                } else {
                    assert(before@[i - earlier@.len()].decision != decision);
                }
            }
        }
        index = index + 1;
    }
    assert(joined.take(joined.len() as int) =~= joined);
    true
}

fn receipts_are_settled(
    receipts: &[InvestmentReceipt],
    settlements: &[InvestmentSettlement],
) -> (result: bool)
    ensures
        result == settled(receipts@, settlements@),
{
    if receipts.len() != settlements.len() {
        return false;
    }
    let mut index: usize = 0;
    while index < receipts.len()
        invariant
            index <= receipts@.len(),
            receipts@.len() == settlements@.len(),
            forall|i: int|
                0 <= i < index ==> (#[trigger] receipts@[i]).decision == settlements@[i].decision
                    && causal::compatible(receipts@[i].tag, settlements@[i].outcome),
        decreases receipts@.len() - index,
    {
        if receipts[index].decision != settlements[index].decision || !outcome_is_compatible(
            receipts[index].tag,
            settlements[index].outcome,
        ) {
            assert(!(receipts@[index as int].decision == settlements@[index as int].decision
                && causal::compatible(
                receipts@[index as int].tag,
                settlements@[index as int].outcome,
            )));
            return false;
        }
        index = index + 1;
    }
    true
}

/// Whether every decision that a consequence names has a receipt in one of two
/// lists.
fn references_are_known(
    consequences: &[ConsequenceEdge],
    earlier: &[InvestmentReceipt],
    receipts: &[InvestmentReceipt],
) -> (result: bool)
    ensures
        result == references_known(consequences@, earlier@ + receipts@),
{
    let ghost joined = earlier@ + receipts@;
    let mut index: usize = 0;
    while index < consequences.len()
        invariant
            index <= consequences@.len(),
            joined == earlier@ + receipts@,
            forall|i: int|
                0 <= i < index ==> reference_known(#[trigger] consequences@[i], joined),
        decreases consequences@.len() - index,
    {
        if let CausalSubject::Decision(decision) = consequences[index].subject {
            let known_earlier = knows_decision(earlier, decision);
            let known_now = knows_decision(receipts, decision);
            proof {
                if known_earlier {
                    lemma_knows_more(earlier@, receipts@, decision);
                }
                if known_now {
                    let i = choose|i: int|
                        0 <= i < receipts@.len() && (#[trigger] receipts@[i]).decision == decision;
                    assert(joined[earlier@.len() + i].decision == decision);
                }
                if knows(joined, decision) {
                    let i = choose|i: int|
                        0 <= i < joined.len() && (#[trigger] joined[i]).decision == decision;
                    if i < earlier@.len() {
                        assert(earlier@[i].decision == decision);
                    } else {
                        assert(receipts@[i - earlier@.len()].decision == decision);
                    }
                }
            }
            if !known_earlier && !known_now {
                assert(!reference_known(consequences@[index as int], joined));
                return false;
            }
        }
        index = index + 1;
    }
    true
}

pub fn find_campaign(shadows: &[ShadowCampaignState], campaign: ShadowCampaignId) -> (result: Option<
    usize,
>)
    ensures
        match result {
            Some(index) => index < shadows@.len() && search::first(shadows@, runs(campaign))
                == Some(index as int),
            None => search::first(shadows@, runs(campaign)) is None,
        },
{
    let mut index: usize = 0;
    while index < shadows.len()
        invariant
            index <= shadows@.len(),
            forall|i: int| 0 <= i < index ==> !runs(campaign)(#[trigger] shadows@[i]),
        decreases shadows@.len() - index,
    {
        if shadows[index].specification.id == campaign {
            proof {
                search::lemma_is_first(shadows@, runs(campaign), index as int);
            }
            return Some(index);
        }
        index = index + 1;
    }
    proof {
        search::lemma_is_none(shadows@, runs(campaign));
    }
    None
}

fn campaigns_are_distinct(shadows: &[ShadowCampaignState]) -> (result: bool)
    ensures
        result == distinct_campaigns(shadows@),
{
    let mut index: usize = 0;
    while index < shadows.len()
        invariant
            index <= shadows@.len(),
            distinct_campaigns(shadows@.take(index as int)),
        decreases shadows@.len() - index,
    {
        let (before, _from) = shadows.split_at(index);
        let campaign = shadows[index].specification.id;
        proof {
            search::lemma_first(before@, runs(campaign));
        }
        match find_campaign(before, campaign) {
            Some(found) => {
                assert(shadows@[found as int] == before@[found as int]);
                assert(shadows@[found as int].specification.id
                    == shadows@[index as int].specification.id);
                return false;
            },
            None => {},
        }
        assert(distinct_campaigns(shadows@.take(index + 1))) by {
            let longer = shadows@.take(index + 1);
            let shorter = shadows@.take(index as int);
            assert forall|i: int, j: int| 0 <= i < j < longer.len() implies (
            #[trigger] longer[i]).specification.id != (#[trigger] longer[j]).specification.id by {
                if j < index {
                    assert(shorter[i].specification.id != shorter[j].specification.id);
                } else {
                    assert(!runs(campaign)(before@[i]));
                }
            }
        }
        index = index + 1;
    }
    assert(shadows@.take(shadows@.len() as int) =~= shadows@);
    true
}

fn contrasts_without(
    contrasts: &[ContextualContrast],
    campaign: ShadowCampaignId,
) -> (kept: Vec<ContextualContrast>)
    ensures
        kept@ == without_campaign(contrasts@, campaign),
{
    let mut kept: Vec<ContextualContrast> = Vec::new();
    let mut index: usize = 0;
    while index < contrasts.len()
        invariant
            index <= contrasts@.len(),
            kept@ == without_campaign(contrasts@.take(index as int), campaign),
        decreases contrasts@.len() - index,
    {
        if contrasts[index].campaign != campaign {
            kept.push(contrasts[index]);
        }
        assert(contrasts@.take(index + 1).drop_last() =~= contrasts@.take(index as int));
        assert(contrasts@.take(index + 1).last() == contrasts@[index as int]);
        index = index + 1;
    }
    assert(contrasts@.take(contrasts@.len() as int) =~= contrasts@);
    kept
}

/// A complete campaign has both arms.
pub open spec fn arms_present(state: ShadowCampaignState) -> bool {
    state.lifecycle is Completed ==> state.treatment is Some && state.control is Some
}

fn contrasts_of(shadows: &[ShadowCampaignState]) -> (contrasts: Vec<ContextualContrast>)
    requires
        forall|i: int| 0 <= i < shadows@.len() ==> arms_present(#[trigger] shadows@[i]),
    ensures
        contrasts@ == contrasts_in_order(shadows@),
{
    let mut contrasts: Vec<ContextualContrast> = Vec::new();
    let mut index: usize = 0;
    assert(shadows@.take(0) =~= Seq::empty());
    while index < shadows.len()
        invariant
            index <= shadows@.len(),
            contrasts@ == contrasts_in_order(shadows@.take(index as int)),
            forall|i: int| 0 <= i < shadows@.len() ==> arms_present(#[trigger] shadows@[i]),
        decreases shadows@.len() - index,
    {
        let state = &shadows[index];
        let ghost before = contrasts@;
        if let ShadowCampaignLifecycle::Completed = state.lifecycle {
            if let (Some(treatment), Some(control)) = (&state.treatment, &state.control) {
                push_contrasts(&state.specification, treatment, control, &mut contrasts);
            }
        }
        assert(contrasts@ =~= before + shadows@[index as int].contrasts());
        assert(shadows@.take(index + 1).drop_last() =~= shadows@.take(index as int));
        assert(shadows@.take(index + 1).last() == shadows@[index as int]);
        index = index + 1;
    }
    assert(shadows@.take(shadows@.len() as int) =~= shadows@);
    contrasts
}

pub fn authoritative_verification_pair(
    receipt: &InvestmentReceipt,
    settlement: &InvestmentSettlement,
    obligation: SubjectId,
) -> (result: Result<InvestmentOutcome, IntelligenceError>)
    ensures
        result == authority_of(*receipt, *settlement, obligation),
{
    if receipt.tag != InvestmentTag::Verify || receipt.decision != settlement.decision {
        return Err(IntelligenceError::InvalidReference);
    }
    let subject_matches = match settlement.outcome {
        InvestmentOutcome::VerifiedAccepted { verification_record } => verification_record
            == obligation,
        InvestmentOutcome::VerifiedRefuted => receipt.opportunity == obligation.0,
        InvestmentOutcome::VerifiedUnknown => receipt.opportunity == obligation.0,
        InvestmentOutcome::Completed => false,
        InvestmentOutcome::Failed => false,
    };
    if !subject_matches {
        return Err(IntelligenceError::InvalidReference);
    }
    Ok(settlement.outcome)
}

pub fn find_receipt(receipts: &[InvestmentReceipt], decision: DecisionId) -> (result: Option<usize>)
    ensures
        match result {
            Some(index) => index < receipts@.len() && search::first(receipts@, issued(decision))
                == Some(index as int),
            None => search::first(receipts@, issued(decision)) is None,
        },
{
    let mut index: usize = 0;
    while index < receipts.len()
        invariant
            index <= receipts@.len(),
            forall|i: int| 0 <= i < index ==> !issued(decision)(#[trigger] receipts@[i]),
        decreases receipts@.len() - index,
    {
        if receipts[index].decision == decision {
            proof {
                search::lemma_is_first(receipts@, issued(decision), index as int);
            }
            return Some(index);
        }
        index = index + 1;
    }
    proof {
        search::lemma_is_none(receipts@, issued(decision));
    }
    None
}

fn find_settlement(
    settlements: &[InvestmentSettlement],
    decision: DecisionId,
) -> (result: Option<usize>)
    ensures
        match result {
            Some(index) => index < settlements@.len() && search::first(
                settlements@,
                settles(decision),
            ) == Some(index as int),
            None => search::first(settlements@, settles(decision)) is None,
        },
{
    let mut index: usize = 0;
    while index < settlements.len()
        invariant
            index <= settlements@.len(),
            forall|i: int| 0 <= i < index ==> !settles(decision)(#[trigger] settlements@[i]),
        decreases settlements@.len() - index,
    {
        if settlements[index].decision == decision {
            proof {
                search::lemma_is_first(settlements@, settles(decision), index as int);
            }
            return Some(index);
        }
        index = index + 1;
    }
    proof {
        search::lemma_is_none(settlements@, settles(decision));
    }
    None
}

impl Default for CausalLedger {
    fn default() -> (ledger: Self)
        ensures
            ledger@ == LedgerView::empty(),
            ledger@.valid(),
    {
        let ledger = Self {
            receipts: Vec::new(),
            settlements: Vec::new(),
            consequences: Vec::new(),
            shadows: Vec::new(),
            contrasts: Vec::new(),
            roots: CausalRootState::default(),
        };
        assert(ledger@ =~= LedgerView::empty());
        ledger
    }
}

/// A completed investment that produces candidates.
pub open spec fn produced(receipt: InvestmentReceipt, settlement: InvestmentSettlement) -> bool {
    &&& receipt.tag is Generate || receipt.tag is Repair || receipt.tag is Explore
    &&& settlement.outcome is Completed
}

pub open spec fn consolidated(receipt: InvestmentReceipt, settlement: InvestmentSettlement) -> bool {
    receipt.tag is Consolidate && settlement.outcome is Completed
}

impl CausalLedger {
    /// A ledger of its own with the same contents.
    pub fn duplicate(&self) -> (copy: Self)
        ensures
            copy@ == self@,
    {
        Self {
            receipts: copied(self.receipts.as_slice()),
            settlements: copied(self.settlements.as_slice()),
            consequences: copied(self.consequences.as_slice()),
            shadows: copied(self.shadows.as_slice()),
            contrasts: copied(self.contrasts.as_slice()),
            roots: self.roots,
        }
    }

    pub fn receipt_count(&self) -> (count: usize)
        ensures
            count == self@.receipts.len(),
    {
        self.receipts.len()
    }

    pub fn receipts(&self) -> (receipts: &[InvestmentReceipt])
        ensures
            receipts@ == self@.receipts,
    {
        self.receipts.as_slice()
    }

    pub fn settlements(&self) -> (settlements: &[InvestmentSettlement])
        ensures
            settlements@ == self@.settlements,
    {
        self.settlements.as_slice()
    }

    pub fn consequences(&self) -> (consequences: &[ConsequenceEdge])
        ensures
            consequences@ == self@.consequences,
    {
        self.consequences.as_slice()
    }

    pub fn contrasts(&self) -> (contrasts: &[ContextualContrast])
        ensures
            contrasts@ == self@.contrasts,
    {
        self.contrasts.as_slice()
    }

    pub fn shadows(&self) -> (shadows: &[ShadowCampaignState])
        ensures
            shadows@ == self@.shadows,
    {
        self.shadows.as_slice()
    }

    pub fn fits_limits(&self, limits: IntelligenceLimits) -> (fits: bool)
        ensures
            fits == self@.within(limits),
    {
        let entry_limit: usize = match limits.maximum_investments.checked_mul(64) {
            Some(limit) => limit,
            None => return false,
        };
        let consequence_limit: usize = match limits.maximum_forecast_cells.checked_mul(64) {
            Some(limit) => limit,
            None => return false,
        };
        let shadow_limit: usize = match limits.maximum_opportunities.checked_mul(16) {
            Some(limit) => limit,
            None => return false,
        };
        self.receipts.len() <= entry_limit && self.settlements.len() <= entry_limit
            && self.consequences.len() <= consequence_limit && self.shadows.len() <= shadow_limit
    }

    pub fn authoritative_verification(&self, decision: DecisionId, obligation: SubjectId) -> (result:
        Result<InvestmentOutcome, IntelligenceError>)
        ensures
            result == self@.authority(decision, obligation),
    {
        let receipt: usize = match find_receipt(self.receipts.as_slice(), decision) {
            Some(index) => index,
            None => return Err(IntelligenceError::InvalidReference),
        };
        let settlement: usize = match find_settlement(self.settlements.as_slice(), decision) {
            Some(index) => index,
            None => return Err(IntelligenceError::InvalidReference),
        };
        authoritative_verification_pair(
            &self.receipts[receipt],
            &self.settlements[settlement],
            obligation,
        )
    }

    /// Whether the decision paid for candidates that were produced.
    pub fn completed_candidate_production(&self, decision: DecisionId) -> (result: bool)
        ensures
            result == exists|i: int|
                0 <= i < self@.receipts.len() && i < self@.settlements.len() && (
                #[trigger] self@.receipts[i]).decision == decision && self@.settlements[i].decision
                    == decision && produced(self@.receipts[i], self@.settlements[i]),
    {
        let mut index: usize = 0;
        while index < self.receipts.len() && index < self.settlements.len()
            invariant
                index <= self@.receipts.len(),
                index <= self@.settlements.len(),
                forall|i: int|
                    0 <= i < index ==> !((#[trigger] self@.receipts[i]).decision == decision
                        && self@.settlements[i].decision == decision && produced(
                        self@.receipts[i],
                        self@.settlements[i],
                    )),
            decreases self@.receipts.len() - index,
        {
            let receipt = &self.receipts[index];
            let settlement = &self.settlements[index];
            let produces = matches!(
                receipt.tag,
                InvestmentTag::Generate | InvestmentTag::Repair | InvestmentTag::Explore
            );
            if receipt.decision == decision && settlement.decision == decision && produces
                && settlement.outcome == InvestmentOutcome::Completed {
                assert(self@.receipts[index as int].decision == decision);
                return true;
            }
            index = index + 1;
        }
        false
    }

    /// The last decision that paid for a completed consolidation.
    pub fn latest_completed_consolidation(&self) -> (result: Option<DecisionId>)
        requires
            self@.receipts.len() == self@.settlements.len(),
        ensures
            match result {
                Some(decision) => exists|i: int|
                    0 <= i < self@.receipts.len() && (#[trigger] self@.receipts[i]).decision
                        == decision && consolidated(self@.receipts[i], self@.settlements[i])
                        && forall|j: int|
                        i < j < self@.receipts.len() ==> !consolidated(
                            #[trigger] self@.receipts[j],
                            self@.settlements[j],
                        ),
                None => forall|j: int|
                    0 <= j < self@.receipts.len() ==> !consolidated(
                        #[trigger] self@.receipts[j],
                        self@.settlements[j],
                    ),
            },
    {
        let mut index: usize = self.receipts.len();
        while index > 0
            invariant
                index <= self@.receipts.len(),
                self@.receipts.len() == self@.settlements.len(),
                forall|j: int|
                    index <= j < self@.receipts.len() ==> !consolidated(
                        #[trigger] self@.receipts[j],
                        self@.settlements[j],
                    ),
            decreases index,
        {
            index = index - 1;
            if self.receipts[index].tag == InvestmentTag::Consolidate
                && self.settlements[index].outcome == InvestmentOutcome::Completed {
                assert(consolidated(self@.receipts[index as int], self@.settlements[index as int]));
                return Some(self.receipts[index].decision);
            }
        }
        None
    }

    pub fn canonical_root(&self) -> (root: Digest)
        ensures
            root == self@.root(),
    {
        combined_causal_root(self.roots)
    }

    /// The root as it was taken over receipts of an earlier shape.
    pub fn legacy_canonical_root(&self, format: ReceiptFormat) -> (root: Digest)
        ensures
            root == causal::combined_root(self@.true_roots(format)),
    {
        let roots = extend_causal_roots_with_fields(
            CausalRootState::default(),
            self.receipts.as_slice(),
            self.settlements.as_slice(),
            self.consequences.as_slice(),
            Some(self.shadows.as_slice()),
            format,
        );
        combined_causal_root(roots)
    }

    pub fn legacy_v11_canonical_root(&self) -> (root: Digest)
        ensures
            root == causal::combined_root(self@.true_roots(ReceiptFormat::LegacyV11)),
    {
        self.legacy_canonical_root(ReceiptFormat::LegacyV11)
    }

    pub fn legacy_v15_canonical_root(&self) -> (root: Digest)
        ensures
            root == causal::combined_root(self@.true_roots(ReceiptFormat::LegacyV15)),
    {
        self.legacy_canonical_root(ReceiptFormat::LegacyV15)
    }

    /// Checks new records against the ledger and works out what they add.
    pub fn prepare_delta(
        &self,
        receipts: &[InvestmentReceipt],
        settlements: &[InvestmentSettlement],
        consequences: &[ConsequenceEdge],
        shadows: &[ShadowUpdate],
        limits: IntelligenceLimits,
    ) -> (result: Result<CausalDelta, IntelligenceError>)
        requires
            distinct_decisions(self@.receipts),
        ensures
            match result {
                Ok(delta) => self@.prepared(
                    receipts@,
                    settlements@,
                    consequences@,
                    shadows@,
                    limits,
                ) == Ok::<DeltaView, IntelligenceError>(delta@),
                Err(error) => self@.prepared(
                    receipts@,
                    settlements@,
                    consequences@,
                    shadows@,
                    limits,
                ) == Err::<DeltaView, IntelligenceError>(error),
            },
    {
        if !receipts_are_settled(receipts, settlements) {
            return Err(IntelligenceError::InvalidSettlement);
        }
        let entry_limit: usize = saturating_multiply(limits.maximum_investments, 64);
        let consequence_limit: usize = saturating_multiply(limits.maximum_forecast_cells, 64);
        let shadow_limit: usize = saturating_multiply(limits.maximum_opportunities, 16);
        if self.receipts.len().saturating_add(receipts.len()) > entry_limit
            || self.settlements.len().saturating_add(settlements.len()) > entry_limit
            || self.consequences.len().saturating_add(consequences.len()) > consequence_limit {
            return Err(IntelligenceError::CapacityExceeded);
        }
        if !decisions_are_new(self.receipts.as_slice(), receipts) {
            return Err(IntelligenceError::DuplicateExperience);
        }
        if !references_are_known(consequences, self.receipts.as_slice(), receipts) {
            return Err(IntelligenceError::InvalidReference);
        }
        let proposed = if shadows.len() == 0 {
            None
        } else {
            let mut side = ProposedShadows {
                shadows: copied(self.shadows.as_slice()),
                contrasts: copied(self.contrasts.as_slice()),
            };
            assert(side@ =~= self@.shadow_side());
            match side.apply_shadow_updates(shadows, shadow_limit) {
                Ok(_) => {},
                Err(error) => return Err(error),
            }
            Some(side)
        };
        let roots = match &proposed {
            Some(side) => extend_causal_roots(
                self.roots,
                receipts,
                settlements,
                consequences,
                Some(side.shadows.as_slice()),
            ),
            None => extend_causal_roots(self.roots, receipts, settlements, consequences, None),
        };
        Ok(
            CausalDelta {
                receipts: copied(receipts),
                settlements: copied(settlements),
                consequences: copied(consequences),
                shadow_updates: copied(shadows),
                proposed,
                roots,
            },
        )
    }

    /// Prepares and commits in one go; a refused step changes nothing.
    pub fn apply(
        &mut self,
        receipts: &[InvestmentReceipt],
        settlements: &[InvestmentSettlement],
        consequences: &[ConsequenceEdge],
        shadows: &[ShadowUpdate],
        limits: IntelligenceLimits,
    ) -> (result: Result<(), IntelligenceError>)
        requires
            distinct_decisions(old(self)@.receipts),
        ensures
            match old(self)@.prepared(receipts@, settlements@, consequences@, shadows@, limits) {
                Ok(delta) => match result {
                    Ok(_) => final(self)@ == old(self)@.committed(delta),
                    Err(error) => error == IntelligenceError::CapacityExceeded
                        && delta.needs_room() && final(self)@ == old(self)@,
                },
                Err(error) => result == Err::<(), IntelligenceError>(error) && final(self)@ == old(
                    self,
                )@,
            },
    {
        match self.prepare_delta(receipts, settlements, consequences, shadows, limits) {
            Ok(delta) => self.commit_delta(delta),
            Err(error) => Err(error),
        }
    }

    /// The memory that the lists take with all their room.
    pub fn heap_bytes(&self) -> (bytes: usize)
        ensures
            footprint::ledger_takes(self@, bytes as nat),
    {
        let a: usize = capacity_of(&self.receipts);
        let b: usize = capacity_of(&self.settlements);
        let c: usize = capacity_of(&self.consequences);
        let d: usize = capacity_of(&self.contrasts);
        let e: usize = capacity_of(&self.shadows);
        assert(footprint::ledger_rooms(self@, a, b, c, d, e));
        ledger_bytes(a, b, c, d, e)
    }

    /// The memory that room for a step takes, as far as it is not there yet.
    pub fn reservation_resident_bytes(&self, delta: &CausalDelta) -> (bytes: u64)
        ensures
            footprint::reservation_takes(self@, delta@, bytes as nat),
    {
        let a: usize = capacity_of(&self.receipts);
        let b: usize = capacity_of(&self.settlements);
        let c: usize = capacity_of(&self.consequences);
        assert(footprint::growing_rooms(self@, a, b, c));
        let bytes: usize = reservation_bytes(
            (self.receipts.len(), a, delta.receipts.len()),
            (self.settlements.len(), b, delta.settlements.len()),
            (self.consequences.len(), c, delta.consequences.len()),
        );
        resident_u64(bytes)
    }

    /// Makes room for a step; without room nothing changes. A step that adds to no
    /// list needs none and is never refused.
    pub fn reserve_for_delta(&mut self, delta: &CausalDelta) -> (result: Result<(), IntelligenceError>)
        ensures
            final(self)@ == old(self)@,
            result matches Err(error) ==> error == IntelligenceError::CapacityExceeded
                && delta@.needs_room(),
    {
        if delta.receipts.len() > 0 && self.receipts.try_reserve(delta.receipts.len()).is_err() {
            return Err(IntelligenceError::CapacityExceeded);
        }
        if delta.settlements.len() > 0 && self.settlements.try_reserve(
            delta.settlements.len(),
        ).is_err() {
            return Err(IntelligenceError::CapacityExceeded);
        }
        if delta.consequences.len() > 0 && self.consequences.try_reserve(
            delta.consequences.len(),
        ).is_err() {
            return Err(IntelligenceError::CapacityExceeded);
        }
        Ok(())
    }

    /// Commits a step; where there is no room for what it adds, nothing changes.
    pub fn commit_delta(&mut self, delta: CausalDelta) -> (result: Result<(), IntelligenceError>)
        ensures
            match result {
                Ok(_) => final(self)@ == old(self)@.committed(delta@),
                Err(error) => error == IntelligenceError::CapacityExceeded && delta@.needs_room()
                    && final(self)@ == old(self)@,
            },
    {
        match self.reserve_for_delta(&delta) {
            Ok(_) => {
                self.commit_reserved_delta(delta);
                Ok(())
            },
            Err(error) => Err(error),
        }
    }

    /// Commits a step for which there is room.
    pub fn commit_reserved_delta(&mut self, delta: CausalDelta)
        ensures
            final(self)@ == old(self)@.committed(delta@),
    {
        let mut receipts = delta.receipts;
        let mut settlements = delta.settlements;
        let mut consequences = delta.consequences;
        self.receipts.append(&mut receipts);
        self.settlements.append(&mut settlements);
        self.consequences.append(&mut consequences);
        match delta.proposed {
            Some(side) => {
                self.shadows = side.shadows;
                self.contrasts = side.contrasts;
            },
            None => {},
        }
        self.roots = delta.roots;
        assert(self@ =~= old(self)@.committed(delta@));
    }

    pub fn encode_with_fields(&self, output: &mut Vec<u8>, format: ReceiptFormat)
        ensures
            final(output)@ == old(output)@ + put_ledger(format, self@),
    {
        broadcast use digest::group_digest;

        assert(codec::views(self.receipts@) =~= self.receipts@);
        assert(codec::views(self.settlements@) =~= self.settlements@);
        assert(codec::views(self.consequences@) =~= self.consequences@);
        assert(codec::views(self.shadows@) =~= self.shadows@);
        codec::write_list::<ReceiptFormat, InvestmentReceipt>(
            &format,
            self.receipts.as_slice(),
            output,
        );
        codec::write_list::<(), InvestmentSettlement>(&(), self.settlements.as_slice(), output);
        codec::write_list::<(), ConsequenceEdge>(&(), self.consequences.as_slice(), output);
        codec::write_list::<(), ShadowCampaignState>(&(), self.shadows.as_slice(), output);
    }

    pub fn encode_canonical(&self, output: &mut Vec<u8>)
        ensures
            final(output)@ == old(output)@ + put_ledger(ReceiptFormat::Current, self@),
    {
        self.encode_with_fields(output, ReceiptFormat::Current);
    }

    pub fn encode_legacy_v11(&self, output: &mut Vec<u8>)
        ensures
            final(output)@ == old(output)@ + put_ledger(ReceiptFormat::LegacyV11, self@),
    {
        self.encode_with_fields(output, ReceiptFormat::LegacyV11);
    }

    pub fn encode_legacy_v15(&self, output: &mut Vec<u8>)
        ensures
            final(output)@ == old(output)@ + put_ledger(ReceiptFormat::LegacyV15, self@),
    {
        self.encode_with_fields(output, ReceiptFormat::LegacyV15);
    }

    /// Reads the records, checks them against each other and derives the rest.
    pub fn decode_with_fields(
        input: &mut Decoder<'_>,
        limits: IntelligenceLimits,
        format: ReceiptFormat,
    ) -> (result: Result<Self, ()>)
        ensures
            codec::reads_view(result, final(input)@, parse_ledger(format, limits, old(input)@)),
    {
        let entry_limit: usize = saturating_multiply(limits.maximum_investments, 64);
        let consequence_limit: usize = saturating_multiply(limits.maximum_forecast_cells, 64);
        let shadow_limit: usize = saturating_multiply(limits.maximum_opportunities, 16);
        let receipts = codec::read_list::<ReceiptFormat, InvestmentReceipt>(
            &format,
            input,
            entry_limit,
            221,
        )?;
        let settlements = codec::read_list::<(), InvestmentSettlement>(
            &(),
            input,
            entry_limit,
            73,
        )?;
        let consequences = codec::read_list::<(), ConsequenceEdge>(
            &(),
            input,
            consequence_limit,
            34,
        )?;
        let ghost before_shadows = input@;
        let shadows = codec::read_list::<(), ShadowCampaignState>(&(), input, shadow_limit, 179)?;
        assert(codec::views(receipts@) =~= receipts@);
        assert(codec::views(settlements@) =~= settlements@);
        assert(codec::views(consequences@) =~= consequences@);
        assert(codec::views(shadows@) =~= shadows@);
        let nothing: Vec<InvestmentReceipt> = Vec::new();
        assert(nothing@ + receipts@ =~= receipts@);
        if !receipts_are_settled(receipts.as_slice(), settlements.as_slice()) || !decisions_are_new(
            nothing.as_slice(),
            receipts.as_slice(),
        ) || !references_are_known(
            consequences.as_slice(),
            nothing.as_slice(),
            receipts.as_slice(),
        ) || !campaigns_are_distinct(shadows.as_slice()) {
            return Err(());
        }
        proof {
            let counted = codec::parse_count(before_shadows, limits.shadow_limit(), 179)->Some_0;
            lemma_parsed_count::<(), ShadowCampaignState>((), counted.1, counted.0);
            lemma_parsed_states_complete(counted.1, shadows@, input@);
        }
        let contrasts = contrasts_of(shadows.as_slice());
        let roots = extend_causal_roots(
            CausalRootState::default(),
            receipts.as_slice(),
            settlements.as_slice(),
            consequences.as_slice(),
            Some(shadows.as_slice()),
        );
        let ledger = Self { receipts, settlements, consequences, shadows, contrasts, roots };
        assert(ledger@ =~= rebuilt(receipts@, settlements@, consequences@, shadows@));
        Ok(ledger)
    }

    pub fn decode_canonical(input: &mut Decoder<'_>, limits: IntelligenceLimits) -> (result: Result<
        Self,
        (),
    >)
        ensures
            codec::reads_view(
                result,
                final(input)@,
                parse_ledger(ReceiptFormat::Current, limits, old(input)@),
            ),
    {
        Self::decode_with_fields(input, limits, ReceiptFormat::Current)
    }

    pub fn decode_legacy_v11(input: &mut Decoder<'_>, limits: IntelligenceLimits) -> (result: Result<
        Self,
        (),
    >)
        ensures
            codec::reads_view(
                result,
                final(input)@,
                parse_ledger(ReceiptFormat::LegacyV11, limits, old(input)@),
            ),
    {
        Self::decode_with_fields(input, limits, ReceiptFormat::LegacyV11)
    }

    pub fn decode_legacy_v15(input: &mut Decoder<'_>, limits: IntelligenceLimits) -> (result: Result<
        Self,
        (),
    >)
        ensures
            codec::reads_view(
                result,
                final(input)@,
                parse_ledger(ReceiptFormat::LegacyV15, limits, old(input)@),
            ),
    {
        Self::decode_with_fields(input, limits, ReceiptFormat::LegacyV15)
    }
}

/// States that were read have both arms where they are complete.
proof fn lemma_parsed_states_complete(
    input: Seq<u8>,
    states: Seq<ShadowCampaignState>,
    rest: Seq<u8>,
)
    requires
        codec::parse_all::<(), ShadowCampaignState>((), input, states.len()) == Some(
            (states, rest),
        ),
    ensures
        forall|i: int| 0 <= i < states.len() ==> arms_present(#[trigger] states[i]),
    decreases states.len(),
{
    if states.len() > 0 {
        let front = codec::parse_all::<(), ShadowCampaignState>(
            (),
            input,
            (states.len() - 1) as nat,
        )->Some_0;
        lemma_parsed_count::<(), ShadowCampaignState>((), input, (states.len() - 1) as nat);
        assert(states.drop_last() =~= front.0);
        lemma_parsed_states_complete(input, states.drop_last(), front.1);
        assert forall|i: int| 0 <= i < states.len() implies arms_present(#[trigger] states[i]) by {
            if i < states.len() - 1 {
                assert(states.drop_last()[i] == states[i]);
            }
        }
    }
}

/// As many values are read as were asked for.
proof fn lemma_parsed_count<F, T: Wire<F>>(format: F, input: Seq<u8>, count: nat)
    ensures
        codec::parse_all::<F, T>(format, input, count) matches Some((values, _)) ==> values.len()
            == count,
    decreases count,
{
    if count > 0 {
        lemma_parsed_count::<F, T>(format, input, (count - 1) as nat);
    }
}

impl ProposedShadows {
    pub fn shadows(&self) -> (shadows: &[ShadowCampaignState])
        ensures
            shadows@ == self@.shadows,
    {
        self.shadows.as_slice()
    }

    pub fn contrasts(&self) -> (contrasts: &[ContextualContrast])
        ensures
            contrasts@ == self@.contrasts,
    {
        self.contrasts.as_slice()
    }

    fn invalidate_shadow(&mut self, index: usize, reason: ShadowInvalidationReason)
        requires
            index < old(self)@.shadows.len(),
        ensures
            final(self)@ == old(self)@.invalidated(index as int, reason),
    {
        let state = self.shadows[index];
        if matches!(state.lifecycle, ShadowCampaignLifecycle::Invalidated(_)) {
            return;
        }
        self.shadows[index] =
        ShadowCampaignState {
            specification: state.specification,
            treatment: state.treatment,
            control: state.control,
            lifecycle: ShadowCampaignLifecycle::Invalidated(reason),
        };
        self.contrasts = contrasts_without(self.contrasts.as_slice(), state.specification.id);
        assert(self@ =~= old(self)@.invalidated(index as int, reason));
    }

    fn apply_shadow_outcome(&mut self, outcome: &ShadowArmOutcome) -> (result: Result<
        (),
        IntelligenceError,
    >)
        ensures
            match result {
                Ok(_) => old(self)@.reported(*outcome) == Ok::<ShadowsView, IntelligenceError>(
                    final(self)@,
                ),
                Err(error) => old(self)@.reported(*outcome) == Err::<
                    ShadowsView,
                    IntelligenceError,
                >(error),
            },
    {
        let index: usize = match find_campaign(self.shadows.as_slice(), outcome.campaign) {
            Some(index) => index,
            None => return Err(IntelligenceError::InvalidReference),
        };
        let state = self.shadows[index];
        match state.lifecycle {
            ShadowCampaignLifecycle::Invalidated(_) => return Ok(()),
            ShadowCampaignLifecycle::Completed => {
                self.invalidate_shadow(index, ShadowInvalidationReason::DuplicateArm(outcome.arm));
                return Ok(());
            },
            ShadowCampaignLifecycle::Open => {},
        }
        match shadow_outcome_mismatch(&state.specification, outcome) {
            Some(reason) => {
                self.invalidate_shadow(index, reason);
                return Ok(());
            },
            None => {},
        }
        let taken = match outcome.arm {
            ShadowArm::Treatment => state.treatment.is_some(),
            ShadowArm::Control => state.control.is_some(),
        };
        if taken {
            self.invalidate_shadow(index, ShadowInvalidationReason::DuplicateArm(outcome.arm));
            return Ok(());
        }
        let mut next = state;
        match outcome.arm {
            ShadowArm::Treatment => {
                next.treatment = Some(*outcome);
            },
            ShadowArm::Control => {
                next.control = Some(*outcome);
            },
        }
        match (&next.treatment, &next.control) {
            (Some(treatment), Some(control)) => {
                push_contrasts(&next.specification, treatment, control, &mut self.contrasts);
                next.lifecycle = ShadowCampaignLifecycle::Completed;
            },
            _ => {},
        }
        self.shadows[index] = next;
        assert(next == ShadowsView::with_arm(state, *outcome));
        assert(self@.contrasts =~= old(self)@.contrasts + next.contrasts());
        Ok(())
    }

    /// Applies updates in order; the first refusal ends it.
    pub fn apply_shadow_updates(&mut self, shadows: &[ShadowUpdate], shadow_limit: usize) -> (result:
        Result<(), IntelligenceError>)
        ensures
            match result {
                Ok(_) => old(self)@.updated_all(shadows@, shadow_limit as nat) == Ok::<
                    ShadowsView,
                    IntelligenceError,
                >(final(self)@),
                Err(error) => old(self)@.updated_all(shadows@, shadow_limit as nat) == Err::<
                    ShadowsView,
                    IntelligenceError,
                >(error),
            },
    {
        let mut index: usize = 0;
        while index < shadows.len()
            invariant
                index <= shadows@.len(),
                old(self)@.updated_all(shadows@.take(index as int), shadow_limit as nat) == Ok::<
                    ShadowsView,
                    IntelligenceError,
                >(self@),
            decreases shadows@.len() - index,
        {
            let ghost prefix = shadows@.take(index + 1);
            assert(prefix.drop_last() =~= shadows@.take(index as int));
            match self.apply_shadow_update(&shadows[index], shadow_limit) {
                Ok(_) => {},
                Err(error) => {
                    proof {
                        lemma_refusal_stays(
                            old(self)@,
                            shadows@,
                            shadow_limit as nat,
                            (index + 1) as int,
                            error,
                        );
                    }
                    return Err(error);
                },
            }
            index = index + 1;
        }
        assert(shadows@.take(shadows@.len() as int) =~= shadows@);
        Ok(())
    }

    fn apply_shadow_update(&mut self, update: &ShadowUpdate, shadow_limit: usize) -> (result: Result<
        (),
        IntelligenceError,
    >)
        ensures
            match result {
                Ok(_) => old(self)@.updated(*update, shadow_limit as nat) == Ok::<
                    ShadowsView,
                    IntelligenceError,
                >(final(self)@),
                Err(error) => old(self)@.updated(*update, shadow_limit as nat) == Err::<
                    ShadowsView,
                    IntelligenceError,
                >(error),
            },
    {
        match update {
            ShadowUpdate::Open(specification) => {
                match find_campaign(self.shadows.as_slice(), specification.id) {
                    Some(index) => {
                        self.invalidate_shadow(index, ShadowInvalidationReason::DuplicateOpen);
                        return Ok(());
                    },
                    None => {},
                }
                if self.shadows.len() == shadow_limit {
                    return Err(IntelligenceError::CapacityExceeded);
                }
                self.shadows.push(
                    ShadowCampaignState {
                        specification: *specification,
                        treatment: None,
                        control: None,
                        lifecycle: ShadowCampaignLifecycle::Open,
                    },
                );
                Ok(())
            },
            ShadowUpdate::Outcome(outcome) => self.apply_shadow_outcome(outcome),
            ShadowUpdate::Close(campaign) => {
                match find_campaign(self.shadows.as_slice(), *campaign) {
                    Some(index) => {
                        if matches!(self.shadows[index].lifecycle, ShadowCampaignLifecycle::Open) {
                            self.invalidate_shadow(index, ShadowInvalidationReason::AsymmetricArms);
                        }
                        Ok(())
                    },
                    None => Err(IntelligenceError::InvalidReference),
                }
            },
            ShadowUpdate::Invalidate { campaign, reason } => {
                match find_campaign(self.shadows.as_slice(), *campaign) {
                    Some(index) => {
                        self.invalidate_shadow(index, *reason);
                        Ok(())
                    },
                    None => Err(IntelligenceError::InvalidReference),
                }
            },
        }
    }
}

proof fn lemma_refusal_stays(
    view: ShadowsView,
    updates: Seq<ShadowUpdate>,
    limit: nat,
    count: int,
    error: IntelligenceError,
)
    requires
        0 <= count <= updates.len(),
        view.updated_all(updates.take(count), limit) == Err::<ShadowsView, IntelligenceError>(error),
    ensures
        view.updated_all(updates, limit) == Err::<ShadowsView, IntelligenceError>(error),
    decreases updates.len() - count,
{
    if count < updates.len() {
        assert(updates.take(count + 1).drop_last() =~= updates.take(count));
        lemma_refusal_stays(view, updates, limit, count + 1, error);
    } else {
        assert(updates.take(count) =~= updates);
    }
}

// ---------------------------------------------------------------------------
// Deltas
// ---------------------------------------------------------------------------
/// Uses of selection corpora, one for each.
pub open spec fn selection_uses(cases: Seq<Digest>) -> Seq<ConsequenceEdge> {
    Seq::new(cases.len(), |i: int| ConsequenceEdge::selection_use_spec(cases[i]))
}

impl DeltaView {
    /// The step adds to a list of the ledger.
    pub open spec fn needs_room(self) -> bool {
        self.receipts.len() + self.settlements.len() + self.consequences.len() > 0
    }

    /// The step with selection uses appended to its consequences.
    pub open spec fn with_uses(self, base: LedgerView, cases: Seq<Digest>, limits: IntelligenceLimits) -> Result<
        DeltaView,
        IntelligenceError,
    > {
        if cases.len() == 0 {
            Ok(self)
        } else if saturating_sum(
            saturating_sum(base.consequences.len(), self.consequences.len()),
            cases.len(),
        ) > limits.consequence_limit() {
            Err(IntelligenceError::CapacityExceeded)
        } else {
            Ok(
                DeltaView {
                    consequences: self.consequences + selection_uses(cases),
                    roots: causal::extended_roots(
                        ReceiptFormat::Current,
                        self.roots,
                        Seq::empty(),
                        Seq::empty(),
                        selection_uses(cases),
                        match self.proposed {
                            Some(proposed) => Some(proposed.shadows),
                            None => None,
                        },
                    ),
                    ..self
                },
            )
        }
    }

    pub open spec fn is_empty_spec(self) -> bool {
        self.receipts.len() == 0 && self.settlements.len() == 0 && self.consequences.len() == 0
            && self.updates.len() == 0
    }
}

/// Recording selection uses on a prepared step is preparing it with the uses
/// among its consequences.
pub proof fn law_uses_are_prepared(
    base: LedgerView,
    receipts: Seq<InvestmentReceipt>,
    settlements: Seq<InvestmentSettlement>,
    consequences: Seq<ConsequenceEdge>,
    updates: Seq<ShadowUpdate>,
    limits: IntelligenceLimits,
    cases: Seq<Digest>,
)
    requires
        base.valid(),
        base.prepared(receipts, settlements, consequences, updates, limits) is Ok,
        base.consequences.len() + consequences.len() <= usize::MAX,
    ensures
        base.prepared(receipts, settlements, consequences, updates, limits)->Ok_0.with_uses(
            base,
            cases,
            limits,
        ) == base.prepared(
            receipts,
            settlements,
            consequences + selection_uses(cases),
            updates,
            limits,
        ),
{
    let delta = base.prepared(receipts, settlements, consequences, updates, limits)->Ok_0;
    let uses = selection_uses(cases);
    let all = consequences + uses;
    assert(references_known(all, base.receipts + receipts)) by {
        assert forall|i: int| 0 <= i < all.len() implies reference_known(
            #[trigger] all[i],
            base.receipts + receipts,
        ) by {
            if i < consequences.len() {
                assert(reference_known(consequences[i], base.receipts + receipts));
            } else {
                assert(all[i] == uses[i - consequences.len()]);
            }
        }
    }
    causal::lemma_appended_all_joins::<(), ConsequenceEdge>(
        base.roots.consequences,
        "reflex-causal-consequences-v1\0",
        (),
        consequences,
        uses,
    );
    if cases.len() == 0 {
        assert(all =~= consequences);
    }
}

impl CausalDelta {
    pub fn is_empty(&self) -> (result: bool)
        ensures
            result == self@.is_empty_spec(),
    {
        self.receipts.len() == 0 && self.settlements.len() == 0 && self.consequences.len() == 0
            && self.shadow_updates.len() == 0
    }

    pub fn receipts(&self) -> (receipts: &[InvestmentReceipt])
        ensures
            receipts@ == self@.receipts,
    {
        self.receipts.as_slice()
    }

    pub fn settlements(&self) -> (settlements: &[InvestmentSettlement])
        ensures
            settlements@ == self@.settlements,
    {
        self.settlements.as_slice()
    }

    pub fn consequences(&self) -> (consequences: &[ConsequenceEdge])
        ensures
            consequences@ == self@.consequences,
    {
        self.consequences.as_slice()
    }

    pub fn proposed(&self) -> (proposed: Option<&ProposedShadows>)
        ensures
            match proposed {
                Some(side) => self@.proposed == Some(side@),
                None => self@.proposed is None,
            },
    {
        match &self.proposed {
            Some(side) => Some(side),
            None => None,
        }
    }

    pub fn canonical_root(&self) -> (root: Digest)
        ensures
            root == causal::combined_root(self@.roots),
    {
        combined_causal_root(self.roots)
    }

    pub fn has_shadow_updates(&self) -> (result: bool)
        ensures
            result == (self@.updates.len() > 0),
    {
        self.shadow_updates.len() > 0
    }

    pub fn staged_item_count(&self) -> (count: usize)
        ensures
            count == saturating_sum(
                saturating_sum(
                    saturating_sum(self@.receipts.len(), self@.settlements.len()),
                    self@.consequences.len(),
                ),
                self@.updates.len(),
            ),
    {
        self.receipts.len().saturating_add(self.settlements.len()).saturating_add(
            self.consequences.len(),
        ).saturating_add(self.shadow_updates.len())
    }

    /// Appends the uses of selection corpora; a refusal changes nothing.
    pub fn record_selection_uses(
        &mut self,
        base: &CausalLedger,
        cases: &[Digest],
        limits: IntelligenceLimits,
    ) -> (result: Result<(), IntelligenceError>)
        ensures
            match result {
                Ok(_) => old(self)@.with_uses(base@, cases@, limits) == Ok::<
                    DeltaView,
                    IntelligenceError,
                >(final(self)@),
                Err(error) => old(self)@.with_uses(base@, cases@, limits) == Err::<
                    DeltaView,
                    IntelligenceError,
                >(error) && final(self)@ == old(self)@,
            },
    {
        if cases.len() == 0 {
            return Ok(());
        }
        let consequence_limit: usize = saturating_multiply(limits.maximum_forecast_cells, 64);
        if base.consequences.len().saturating_add(self.consequences.len()).saturating_add(
            cases.len(),
        ) > consequence_limit {
            return Err(IntelligenceError::CapacityExceeded);
        }
        let mut uses: Vec<ConsequenceEdge> = Vec::new();
        let mut index: usize = 0;
        while index < cases.len()
            invariant
                index <= cases@.len(),
                uses@ == selection_uses(cases@.take(index as int)),
            decreases cases@.len() - index,
        {
            uses.push(ConsequenceEdge::selection_use(cases[index]));
            assert(uses@ =~= selection_uses(cases@.take(index + 1)));
            index = index + 1;
        }
        assert(cases@.take(cases@.len() as int) =~= cases@);
        let no_receipts: Vec<InvestmentReceipt> = Vec::new();
        let no_settlements: Vec<InvestmentSettlement> = Vec::new();
        self.roots =
        match &self.proposed {
            Some(side) => extend_causal_roots(
                self.roots,
                no_receipts.as_slice(),
                no_settlements.as_slice(),
                uses.as_slice(),
                Some(side.shadows.as_slice()),
            ),
            None => extend_causal_roots(
                self.roots,
                no_receipts.as_slice(),
                no_settlements.as_slice(),
                uses.as_slice(),
                None,
            ),
        };
        self.consequences.append(&mut uses);
        Ok(())
    }

    pub fn encode_canonical(&self, output: &mut Vec<u8>)
        ensures
            final(output)@ == old(output)@ + put_delta(self@),
    {
        broadcast use digest::group_digest;

        assert(codec::views(self.receipts@) =~= self.receipts@);
        assert(codec::views(self.settlements@) =~= self.settlements@);
        assert(codec::views(self.consequences@) =~= self.consequences@);
        assert(codec::views(self.shadow_updates@) =~= self.shadow_updates@);
        codec::write_list::<ReceiptFormat, InvestmentReceipt>(
            &ReceiptFormat::Current,
            self.receipts.as_slice(),
            output,
        );
        codec::write_list::<(), InvestmentSettlement>(&(), self.settlements.as_slice(), output);
        codec::write_list::<(), ConsequenceEdge>(&(), self.consequences.as_slice(), output);
        codec::write_list::<(), ShadowUpdate>(&(), self.shadow_updates.as_slice(), output);
    }

    /// Reads a step and prepares it against a ledger.
    pub fn decode_with_fields(
        input: &mut Decoder<'_>,
        base: &CausalLedger,
        limits: IntelligenceLimits,
        format: ReceiptFormat,
    ) -> (result: Result<Self, ()>)
        requires
            distinct_decisions(base@.receipts),
        ensures
            codec::reads_view(
                result,
                final(input)@,
                parse_delta(format, base@, limits, old(input)@),
            ),
    {
        let entry_limit: usize = saturating_multiply(limits.maximum_investments, 64);
        let consequence_limit: usize = saturating_multiply(limits.maximum_forecast_cells, 64);
        let shadow_limit: usize = saturating_multiply(limits.maximum_opportunities, 16);
        let receipts = codec::read_list::<ReceiptFormat, InvestmentReceipt>(
            &format,
            input,
            entry_limit,
            221,
        )?;
        let settlements = codec::read_list::<(), InvestmentSettlement>(
            &(),
            input,
            entry_limit,
            73,
        )?;
        let consequences = codec::read_list::<(), ConsequenceEdge>(
            &(),
            input,
            consequence_limit,
            34,
        )?;
        let updates = codec::read_list::<(), ShadowUpdate>(
            &(),
            input,
            saturating_multiply(shadow_limit, 4),
            1,
        )?;
        assert(codec::views(receipts@) =~= receipts@);
        assert(codec::views(settlements@) =~= settlements@);
        assert(codec::views(consequences@) =~= consequences@);
        assert(codec::views(updates@) =~= updates@);
        match base.prepare_delta(
            receipts.as_slice(),
            settlements.as_slice(),
            consequences.as_slice(),
            updates.as_slice(),
            limits,
        ) {
            Ok(delta) => Ok(delta),
            Err(_) => Err(()),
        }
    }

    pub fn decode_canonical(
        input: &mut Decoder<'_>,
        base: &CausalLedger,
        limits: IntelligenceLimits,
    ) -> (result: Result<Self, ()>)
        requires
            distinct_decisions(base@.receipts),
        ensures
            codec::reads_view(
                result,
                final(input)@,
                parse_delta(ReceiptFormat::Current, base@, limits, old(input)@),
            ),
    {
        Self::decode_with_fields(input, base, limits, ReceiptFormat::Current)
    }

    pub fn decode_legacy_v11(
        input: &mut Decoder<'_>,
        base: &CausalLedger,
        limits: IntelligenceLimits,
    ) -> (result: Result<Self, ()>)
        requires
            distinct_decisions(base@.receipts),
        ensures
            codec::reads_view(
                result,
                final(input)@,
                parse_delta(ReceiptFormat::LegacyV11, base@, limits, old(input)@),
            ),
    {
        Self::decode_with_fields(input, base, limits, ReceiptFormat::LegacyV11)
    }

    pub fn decode_legacy_v15(
        input: &mut Decoder<'_>,
        base: &CausalLedger,
        limits: IntelligenceLimits,
    ) -> (result: Result<Self, ()>)
        requires
            distinct_decisions(base@.receipts),
        ensures
            codec::reads_view(
                result,
                final(input)@,
                parse_delta(ReceiptFormat::LegacyV15, base@, limits, old(input)@),
            ),
    {
        Self::decode_with_fields(input, base, limits, ReceiptFormat::LegacyV15)
    }
}

} // verus!
