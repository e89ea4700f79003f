//! Paired campaigns: what makes two arms comparable, and what is found once both have
//! reported.
use vstd::prelude::*;

use crate::ledger;
use crate::ledger::ShadowsView;
use crate::search;
use crate::shadow;
use crate::shadow::{
    ContextualContrast, ShadowArm, ShadowArmOutcome, ShadowCampaignLifecycle, ShadowCampaignSpec,
    ShadowCampaignState, ShadowInvalidationReason, ShadowUpdate,
};

verus! {

// ---------------------------------------------------------------------------
// What makes arms comparable
// ---------------------------------------------------------------------------
/// An arm took no more of any resource than the campaign allows.
pub open spec fn affordable(specification: ShadowCampaignSpec, outcome: ShadowArmOutcome) -> bool {
    &&& outcome.resources.cpu_time_ns <= specification.resources.cpu_time_ns
    &&& outcome.resources.resident_bytes <= specification.resources.resident_bytes
    &&& outcome.resources.durable_bytes <= specification.resources.durable_bytes
    &&& outcome.resources.elapsed_time_ns <= specification.resources.elapsed_time_ns
    &&& outcome.resources.verification_requests <= specification.resources.verification_requests
}

/// An arm reports on the axes of the campaign, in their order, and on no other.
pub open spec fn on_the_axes(specification: ShadowCampaignSpec, outcome: ShadowArmOutcome) -> bool {
    &&& outcome.outcome_list().len() == specification.axis_list().len()
    &&& forall|k: int|
        0 <= k < specification.axis_list().len() ==> (#[trigger] outcome.outcome_list()[k]).axis
            == specification.axis_list()[k]
}

/// An arm was run under the conditions of the campaign: from its checkpoint, with its
/// random stream, within its resources and on its axes.
pub open spec fn conforms(specification: ShadowCampaignSpec, outcome: ShadowArmOutcome) -> bool {
    &&& outcome.checkpoint == specification.checkpoint
    &&& affordable(specification, outcome)
    &&& outcome.random_stream == specification.random_stream
    &&& on_the_axes(specification, outcome)
}

/// Why an arm does not conform: the first condition that it breaks.
pub open spec fn breaks(
    specification: ShadowCampaignSpec,
    outcome: ShadowArmOutcome,
    reason: ShadowInvalidationReason,
) -> bool {
    if outcome.checkpoint != specification.checkpoint {
        reason is CheckpointMismatch
    } else if !affordable(specification, outcome) {
        reason is ResourceMismatch
    } else if outcome.random_stream != specification.random_stream {
        reason is RandomStreamMismatch
    } else {
        !on_the_axes(specification, outcome) && reason is OutcomeAxesMismatch
    }
}

/// An outcome belongs to a campaign exactly where it was reported under the campaign's
/// conditions; otherwise the first condition that it breaks is named.
pub proof fn law_conditions_decide_what_belongs(
    specification: ShadowCampaignSpec,
    outcome: ShadowArmOutcome,
)
    ensures
        match shadow::mismatch(specification, outcome) {
            None => conforms(specification, outcome),
            Some(reason) => !conforms(specification, outcome) && breaks(
                specification,
                outcome,
                reason,
            ),
        },
{
    let axes = shadow::outcome_axes(outcome.outcome_list());
    if on_the_axes(specification, outcome) {
        assert forall|k: int| 0 <= k < axes.len() implies axes[k]
            == specification.axis_list()[k] by {
            assert(outcome.outcome_list()[k].axis == specification.axis_list()[k]);
        }
        assert(axes =~= specification.axis_list());
    } else if axes == specification.axis_list() {
        assert forall|k: int| 0 <= k < specification.axis_list().len() implies (
        #[trigger] outcome.outcome_list()[k]).axis == specification.axis_list()[k] by {
            assert(axes[k] == specification.axis_list()[k]);
        }
    }
}

// ---------------------------------------------------------------------------
// Completed campaigns
// ---------------------------------------------------------------------------
/// Both arms have reported, each on its own side and under the campaign's conditions.
pub open spec fn both_reported(state: ShadowCampaignState) -> bool {
    &&& state.treatment matches Some(treatment) && treatment.arm is Treatment
        && treatment.campaign == state.specification.id && conforms(
        state.specification,
        treatment,
    )
    &&& state.control matches Some(control) && control.arm is Control && control.campaign
        == state.specification.id && conforms(state.specification, control)
}

/// A contrast sets what the two arms of a completed campaign reported on one axis side
/// by side.
pub open spec fn contrast_of(
    contrast: ContextualContrast,
    state: ShadowCampaignState,
    k: int,
) -> bool {
    &&& state.lifecycle is Completed
    &&& both_reported(state)
    &&& 0 <= k < state.specification.axis_list().len()
    &&& contrast.campaign == state.specification.id
    &&& contrast.subject == state.specification.subject
    &&& contrast.axis == state.specification.axis_list()[k]
    &&& contrast.treatment == state.treatment->Some_0.outcome_list()[k].value
    &&& contrast.control == state.control->Some_0.outcome_list()[k].value
}

proof fn lemma_reported(state: ShadowCampaignState)
    requires
        state.well_formed(),
        state.lifecycle is Completed,
    ensures
        both_reported(state),
{
    law_conditions_decide_what_belongs(state.specification, state.treatment->Some_0);
    law_conditions_decide_what_belongs(state.specification, state.control->Some_0);
}

proof fn lemma_contrast(state: ShadowCampaignState, k: int)
    requires
        state.well_formed(),
        state.lifecycle is Completed,
    ensures
        state.contrasts().len() == state.specification.axis_list().len(),
        0 <= k < state.contrasts().len() ==> contrast_of(state.contrasts()[k], state, k),
{
    lemma_reported(state);
    if 0 <= k < state.contrasts().len() {
        assert(state.treatment->Some_0.outcome_list()[k].axis == state.specification.axis_list()[k]);
    }
}

proof fn lemma_of_campaign_from(
    contrasts: Seq<ContextualContrast>,
    campaign: shadow::ShadowCampaignId,
    j: int,
) -> (k: int)
    requires
        0 <= j < contrasts.len(),
        contrasts[j].campaign == campaign,
    ensures
        0 <= k < ledger::of_campaign(contrasts, campaign).len(),
        ledger::of_campaign(contrasts, campaign)[k] == contrasts[j],
    decreases contrasts.len(),
{
    let front = ledger::of_campaign(contrasts.drop_last(), campaign);
    if j == contrasts.len() - 1 {
        front.len() as int
    } else {
        lemma_of_campaign_from(contrasts.drop_last(), campaign, j)
    }
}

proof fn lemma_of_campaign_in(
    contrasts: Seq<ContextualContrast>,
    campaign: shadow::ShadowCampaignId,
    k: int,
) -> (j: int)
    requires
        0 <= k < ledger::of_campaign(contrasts, campaign).len(),
    ensures
        0 <= j < contrasts.len(),
        contrasts[j] == ledger::of_campaign(contrasts, campaign)[k],
    decreases contrasts.len(),
{
    let front = ledger::of_campaign(contrasts.drop_last(), campaign);
    if k < front.len() {
        lemma_of_campaign_in(contrasts.drop_last(), campaign, k)
    } else {
        contrasts.len() - 1
    }
}

/// Every contrast comes from a completed campaign whose arms both reported under its
/// conditions, and holds what they reported on one of its axes.
pub proof fn law_contrasts_set_arms_side_by_side(view: ShadowsView, j: int) -> (found: (int, int))
    requires
        view.valid(),
        0 <= j < view.contrasts.len(),
    ensures
        0 <= found.0 < view.shadows.len(),
        contrast_of(view.contrasts[j], view.shadows[found.0], found.1),
{
    let contrast = view.contrasts[j];
    search::lemma_first(view.shadows, ledger::runs(contrast.campaign));
    assert(search::first(view.shadows, ledger::runs(view.contrasts[j].campaign)) is Some);
    let i = search::first(view.shadows, ledger::runs(contrast.campaign))->Some_0;
    let state = view.shadows[i];
    assert(state.well_formed());
    let k = lemma_of_campaign_from(view.contrasts, contrast.campaign, j);
    assert(ledger::of_campaign(view.contrasts, view.shadows[i].specification.id)
        == view.shadows[i].contrasts());
    lemma_contrast(state, k);
    (i, k)
}

/// A completed campaign has a contrast for each of its axes.
pub proof fn law_every_axis_has_its_contrast(view: ShadowsView, i: int, k: int) -> (j: int)
    requires
        view.valid(),
        0 <= i < view.shadows.len(),
        view.shadows[i].lifecycle is Completed,
        0 <= k < view.shadows[i].specification.axis_list().len(),
    ensures
        0 <= j < view.contrasts.len(),
        contrast_of(view.contrasts[j], view.shadows[i], k),
{
    let state = view.shadows[i];
    assert(state.well_formed());
    lemma_contrast(state, k);
    assert(ledger::of_campaign(view.contrasts, view.shadows[i].specification.id)
        == view.shadows[i].contrasts());
    lemma_of_campaign_in(view.contrasts, state.specification.id, k)
}

// ---------------------------------------------------------------------------
// Updates
// ---------------------------------------------------------------------------
/// The arm that an outcome reports on.
pub open spec fn arm_of(state: ShadowCampaignState, arm: ShadowArm) -> Option<ShadowArmOutcome> {
    match arm {
        ShadowArm::Treatment => state.treatment,
        ShadowArm::Control => state.control,
    }
}

pub open spec fn other_arm(arm: ShadowArm) -> ShadowArm {
    match arm {
        ShadowArm::Treatment => ShadowArm::Control,
        ShadowArm::Control => ShadowArm::Treatment,
    }
}

/// What a report makes of an open campaign. The first report on an arm that conforms is
/// stored and completes the campaign once the other arm has reported as well; any other
/// invalidates it, for the condition that it breaks or for reporting twice.
pub open spec fn after_report(
    before: ShadowCampaignState,
    outcome: ShadowArmOutcome,
    after: ShadowCampaignState,
) -> bool {
    &&& after.specification == before.specification
    &&& if !conforms(before.specification, outcome) {
        &&& after.lifecycle matches ShadowCampaignLifecycle::Invalidated(reason) && breaks(
            before.specification,
            outcome,
            reason,
        )
        &&& after.treatment == before.treatment && after.control == before.control
    } else if arm_of(before, outcome.arm) is Some {
        &&& after.lifecycle == ShadowCampaignLifecycle::Invalidated(
            ShadowInvalidationReason::DuplicateArm(outcome.arm),
        )
        &&& after.treatment == before.treatment && after.control == before.control
    } else {
        &&& arm_of(after, outcome.arm) == Some(outcome)
        &&& arm_of(after, other_arm(outcome.arm)) == arm_of(before, other_arm(outcome.arm))
        &&& after.lifecycle is Completed <==> arm_of(before, other_arm(outcome.arm)) is Some
        &&& after.lifecycle is Open <==> arm_of(before, other_arm(outcome.arm)) is None
    }
}

/// What an update makes of one campaign that is known. Updates about other campaigns
/// leave it alone, and an invalidated campaign stays as it is. A report on a completed
/// campaign, and its opening a second time, invalidate it; closing an open campaign
/// invalidates it for want of an arm; and an invalidation says why.
pub open spec fn after_update(
    before: ShadowCampaignState,
    update: ShadowUpdate,
    after: ShadowCampaignState,
) -> bool {
    let id = before.specification.id;
    let lost = |reason: ShadowInvalidationReason|
        after.specification == before.specification && after.treatment == before.treatment
            && after.control == before.control && after.lifecycle
            == ShadowCampaignLifecycle::Invalidated(reason);
    if before.lifecycle is Invalidated {
        after == before
    } else {
        match update {
            ShadowUpdate::Open(specification) => if specification.id == id {
                lost(ShadowInvalidationReason::DuplicateOpen)
            } else {
                after == before
            },
            ShadowUpdate::Outcome(outcome) => if outcome.campaign != id {
                after == before
            } else if before.lifecycle is Completed {
                lost(ShadowInvalidationReason::DuplicateArm(outcome.arm))
            } else {
                after_report(before, outcome, after)
            },
            ShadowUpdate::Close(campaign) => if campaign == id && before.lifecycle is Open {
                lost(ShadowInvalidationReason::AsymmetricArms)
            } else {
                after == before
            },
            ShadowUpdate::Invalidate { campaign, reason } => if campaign == id {
                lost(reason)
            } else {
                after == before
            },
        }
    }
}

/// Every update does to each known campaign what it should. A campaign that was not
/// known is opened behind the others, with no arm reported; nothing else adds one.
pub proof fn law_updates_reach_their_campaign(
    view: ShadowsView,
    update: ShadowUpdate,
    limit: nat,
    i: int,
)
    requires
        ledger::distinct_campaigns(view.shadows),
        0 <= i < view.shadows.len(),
    ensures
        view.updated(update, limit) matches Ok(next) ==> {
            &&& after_update(view.shadows[i], update, next.shadows[i])
            &&& next.shadows.len() == view.shadows.len() || next.shadows.len()
                == view.shadows.len() + 1
            &&& next.shadows.len() == view.shadows.len() + 1 ==> {
                let opened = next.shadows.last();
                &&& update matches ShadowUpdate::Open(specification) && opened.specification
                    == specification
                &&& opened.treatment is None && opened.control is None && opened.lifecycle is Open
            }
        },
{
    let campaign = match update {
        ShadowUpdate::Open(specification) => specification.id,
        ShadowUpdate::Outcome(outcome) => outcome.campaign,
        ShadowUpdate::Close(campaign) => campaign,
        ShadowUpdate::Invalidate { campaign, .. } => campaign,
    };
    search::lemma_first(view.shadows, ledger::runs(campaign));
    let found = search::first(view.shadows, ledger::runs(campaign));
    let before = view.shadows[i];
    if before.specification.id == campaign {
        assert(ledger::runs(campaign)(view.shadows[i]));
        if found->Some_0 < i {
            assert(view.shadows[found->Some_0].specification.id
                != view.shadows[i].specification.id);
        }
        assert(found == Some(i));
    } else if found == Some(i) {
        assert(false);
    }
    if let ShadowUpdate::Outcome(outcome) = update {
        law_conditions_decide_what_belongs(before.specification, outcome);
    }
}

/// An update is refused only where it is about a campaign that is not known, or opens
/// one more than are allowed.
pub proof fn law_refused_updates_have_a_reason(view: ShadowsView, update: ShadowUpdate, limit: nat)
    ensures
        view.updated(update, limit) is Err <==> match update {
            ShadowUpdate::Open(specification) => view.shadows.len() == limit && forall|i: int|
                0 <= i < view.shadows.len() ==> (#[trigger] view.shadows[i]).specification.id
                    != specification.id,
            ShadowUpdate::Outcome(outcome) => forall|i: int|
                0 <= i < view.shadows.len() ==> (#[trigger] view.shadows[i]).specification.id
                    != outcome.campaign,
            ShadowUpdate::Close(campaign) => forall|i: int|
                0 <= i < view.shadows.len() ==> (#[trigger] view.shadows[i]).specification.id
                    != campaign,
            ShadowUpdate::Invalidate { campaign, .. } => forall|i: int|
                0 <= i < view.shadows.len() ==> (#[trigger] view.shadows[i]).specification.id
                    != campaign,
        },
{
    let campaign = match update {
        ShadowUpdate::Open(specification) => specification.id,
        ShadowUpdate::Outcome(outcome) => outcome.campaign,
        ShadowUpdate::Close(campaign) => campaign,
        ShadowUpdate::Invalidate { campaign, .. } => campaign,
    };
    let test = ledger::runs(campaign);
    search::lemma_first(view.shadows, test);
    assert forall|i: int| 0 <= i < view.shadows.len() implies test(#[trigger] view.shadows[i])
        == (view.shadows[i].specification.id == campaign) by {}
    if let Some(index) = search::first(view.shadows, test) {
        assert(view.shadows[index].specification.id == campaign);
    } else {
        assert forall|i: int| 0 <= i < view.shadows.len() implies (
        #[trigger] view.shadows[i]).specification.id != campaign by {
            assert(!test(view.shadows[i]));
        }
    }
}

} // verus!
