//! What policies are judged by: the counts and costs that both arms of one completed
//! campaign reported, and nothing else.
use vstd::prelude::*;

use crate::continuity;
use crate::digest;
use crate::evidence;
use crate::evidence::OperationalEvidence;
use crate::forecast;
use crate::forecast::ForecastAxis;
use crate::intelligence::CoreView;
use crate::ledger;
use crate::numbers;
use crate::policy::{ParetoPolicy, PolicyEngine};
use crate::search;
use crate::shadow::{ShadowArmOutcome, ShadowCampaignId, ShadowCampaignState};
use crate::transition::{FrameView, TransitionView};
use crate::types::{IntelligenceError, SubjectId};

verus! {

// ---------------------------------------------------------------------------
// Evidence
// ---------------------------------------------------------------------------
/// The first value that an arm reports on an axis is this count, of at most sixteen
/// bits.
pub open spec fn reports(outcome: ShadowArmOutcome, axis: ForecastAxis, count: u64) -> bool {
    exists|i: int|
        #![trigger outcome.outcome_list()[i]]
        {
            &&& 0 <= i < outcome.outcome_list().len()
            &&& outcome.outcome_list()[i].axis == axis
            &&& forall|j: int| 0 <= j < i ==> (#[trigger] outcome.outcome_list()[j]).axis != axis
            &&& count <= 0xffff
            &&& numbers::scaled(outcome.outcome_list()[i].value) == count
                * vstd::arithmetic::power2::pow2(150)
        }
}

/// The evidence that an arm gives: what it counted on four axes, and what it took of
/// time, of verification requests and of durable bytes.
pub open spec fn given_by(evidence: OperationalEvidence, outcome: ShadowArmOutcome) -> bool {
    &&& reports(outcome, ForecastAxis::KernelAcceptance, evidence.correctness_failures)
    &&& reports(outcome, ForecastAxis::ImmediateImprovement, evidence.verified_discoveries)
    &&& reports(outcome, ForecastAxis::CrossGoalLeverage, evidence.covered_claims)
    &&& reports(outcome, ForecastAxis::UsefulDescendants, evidence.useful_descendants)
    &&& evidence.cpu_time_ns == outcome.resources.cpu_time_ns
    &&& evidence.verification_requests == outcome.resources.verification_requests
    &&& evidence.durable_bytes == outcome.resources.durable_bytes
}

/// A pattern that is read as a count stands for that number; it is one of at most
/// sixteen bits.
pub proof fn law_counts_are_numbers(bits: u32)
    ensures
        evidence::whole(bits) matches Some(count) ==> count <= 0xffff && numbers::scaled(bits)
            == count * vstd::arithmetic::power2::pow2(150),
{
    if let Some(count) = evidence::whole(bits) {
        let number = choose|number: nat|
            number <= 0xffff && #[trigger] evidence::represents(bits, number);
        assert(number <= 0xffff && evidence::represents(bits, number));
        assert(count == number);
        if bits == forecast::NEGATIVE_ZERO_BITS {
            numbers::law_patterns_scale(0);
            vstd::arithmetic::power2::lemma_pow2_pos(150);
            assert(numbers::scaled(bits) == 0);
            assert(0 * vstd::arithmetic::power2::pow2(1) == 0) by (nonlinear_arith);
        }
    }
}

/// A pattern that stands for a number of at most sixteen bits is read as that count.
pub proof fn law_numbers_are_counted(bits: u32, number: nat)
    requires
        number <= 0xffff,
        bits < 0x7f80_0000 || bits == 0x8000_0000,
        numbers::scaled(bits) == number * vstd::arithmetic::power2::pow2(150),
    ensures
        evidence::whole(bits) == Some(number as u64),
{
    if bits == 0x8000_0000 {
        numbers::law_patterns_scale(0);
        assert(numbers::scaled(bits) == 0);
        assert(0 * vstd::arithmetic::power2::pow2(1) == 0) by (nonlinear_arith);
    }
    assert(evidence::represents(bits, number));
    let other = choose|other: nat|
        other <= 0xffff && #[trigger] evidence::represents(bits, other);
    law_counts_are_numbers(bits);
    vstd::arithmetic::power2::lemma_pow2_pos(150);
    let unit = vstd::arithmetic::power2::pow2(150);
    assert(other == number) by (nonlinear_arith)
        requires
            other * unit == number * unit,
            unit > 0,
    ;
}

proof fn lemma_counted(outcome: ShadowArmOutcome, axis: ForecastAxis)
    ensures
        evidence::counted(outcome, axis) matches Some(count) ==> reports(outcome, axis, count),
{
    search::lemma_first(outcome.outcome_list(), evidence::on_axis(axis));
    if let Some(i) = search::first(outcome.outcome_list(), evidence::on_axis(axis)) {
        law_counts_are_numbers(outcome.outcome_list()[i].value);
        assert forall|j: int| 0 <= j < i implies (
        #[trigger] outcome.outcome_list()[j]).axis != axis by {
            assert(!evidence::on_axis(axis)(outcome.outcome_list()[j]));
        }
    }
}

/// The evidence taken from an arm is what the arm reported.
pub proof fn law_evidence_is_what_was_reported(outcome: ShadowArmOutcome)
    ensures
        evidence::arm_evidence(outcome) matches Ok(taken) ==> given_by(taken, outcome),
{
    lemma_counted(outcome, ForecastAxis::KernelAcceptance);
    lemma_counted(outcome, ForecastAxis::ImmediateImprovement);
    lemma_counted(outcome, ForecastAxis::CrossGoalLeverage);
    lemma_counted(outcome, ForecastAxis::UsefulDescendants);
}

proof fn lemma_reported(outcome: ShadowArmOutcome, axis: ForecastAxis, count: u64)
    requires
        outcome.well_formed(),
        reports(outcome, axis, count),
    ensures
        evidence::counted(outcome, axis) == Some(count),
{
    let list = outcome.outcome_list();
    let i = choose|i: int|
        #![trigger list[i]]
        {
            &&& 0 <= i < list.len()
            &&& list[i].axis == axis
            &&& forall|j: int| 0 <= j < i ==> (#[trigger] list[j]).axis != axis
            &&& count <= 0xffff
            &&& numbers::scaled(list[i].value) == count * vstd::arithmetic::power2::pow2(150)
        };
    search::lemma_is_first(list, evidence::on_axis(axis), i);
    let bits = list[i].value;
    assert(forecast::finite(bits));
    if bits > 0x8000_0000 {
        let positive = (bits - 0x8000_0000) as u32;
        numbers::law_patterns_scale(positive);
        numbers::law_patterns_ascend(0, positive);
        assert(count * vstd::arithmetic::power2::pow2(150) >= 0) by (nonlinear_arith);
        assert(false);
    }
    law_numbers_are_counted(bits, count as nat);
}

/// An arm that reports a count on each of the four axes gives evidence, and no other
/// than that.
pub proof fn law_reported_counts_are_evidence(
    outcome: ShadowArmOutcome,
    given: OperationalEvidence,
)
    requires
        outcome.well_formed(),
        given_by(given, outcome),
    ensures
        evidence::arm_evidence(outcome) == Ok::<OperationalEvidence, IntelligenceError>(given),
{
    lemma_reported(outcome, ForecastAxis::KernelAcceptance, given.correctness_failures);
    lemma_reported(outcome, ForecastAxis::ImmediateImprovement, given.verified_discoveries);
    lemma_reported(outcome, ForecastAxis::CrossGoalLeverage, given.covered_claims);
    lemma_reported(outcome, ForecastAxis::UsefulDescendants, given.useful_descendants);
}

/// Arms that took different amounts of time, requests or durable bytes give different
/// evidence.
pub proof fn law_costs_tell_arms_apart(left: ShadowArmOutcome, right: ShadowArmOutcome)
    requires
        evidence::arm_evidence(left) is Ok,
        evidence::arm_evidence(left) == evidence::arm_evidence(right),
    ensures
        left.resources.cpu_time_ns == right.resources.cpu_time_ns,
        left.resources.verification_requests == right.resources.verification_requests,
        left.resources.durable_bytes == right.resources.durable_bytes,
{
    law_evidence_is_what_was_reported(left);
    law_evidence_is_what_was_reported(right);
}

/// The campaign in a place is complete and about the challenger; the evidence is what
/// its control and its treatment reported.
pub open spec fn campaign_gives(
    shadows: Seq<ShadowCampaignState>,
    place: int,
    campaign: ShadowCampaignId,
    challenger: SubjectId,
    incumbent_evidence: OperationalEvidence,
    challenger_evidence: OperationalEvidence,
) -> bool {
    let state = shadows[place];
    &&& 0 <= place < shadows.len()
    &&& state.specification.id == campaign
    &&& state.specification.subject == challenger
    &&& state.lifecycle is Completed
    &&& state.control matches Some(control) && given_by(incumbent_evidence, control)
    &&& state.treatment matches Some(treatment) && given_by(challenger_evidence, treatment)
}

/// Policies are compared on one completed campaign about the challenger: the policy in
/// force by what the control reported, the challenger by what the treatment did.
pub proof fn law_policies_are_compared_on_one_campaign(
    shadows: Seq<ShadowCampaignState>,
    campaign: ShadowCampaignId,
    challenger: SubjectId,
)
    ensures
        evidence::policy_evidence(shadows, campaign, challenger) matches Ok((incumbent, other))
            ==> exists|place: int| #[trigger]
            campaign_gives(shadows, place, campaign, challenger, incumbent, other),
{
    search::lemma_first(shadows, ledger::runs(campaign));
    if let Some(place) = search::first(shadows, ledger::runs(campaign)) {
        if let Ok((incumbent, other)) = evidence::policy_evidence(shadows, campaign, challenger) {
            law_evidence_is_what_was_reported(shadows[place].control->Some_0);
            law_evidence_is_what_was_reported(shadows[place].treatment->Some_0);
            assert(campaign_gives(shadows, place, campaign, challenger, incumbent, other));
        }
    }
}

/// A step that compares policies leads to what the rules make of the evidence of one
/// completed campaign of the ledger that the step leads to. A step that compares none
/// leaves the policy alone.
pub proof fn law_policy_changes_on_evidence_alone<P: PolicyEngine>(
    core: CoreView,
    frame: FrameView,
    step: TransitionView,
)
    requires
        core.staged::<P>(frame) == Ok::<TransitionView, IntelligenceError>(step),
    ensures
        match frame.policy {
            None => step.policy is None && step.decision is None && core.committed(
                step,
            ).components.policy == core.components.policy,
            Some(update) => exists|
                place: int,
                incumbent: OperationalEvidence,
                other: OperationalEvidence,
            | #[trigger]
                campaign_gives(
                    core.committed(step).components.ledger.shadows,
                    place,
                    update.campaign,
                    SubjectId(update.challenger.0),
                    incumbent,
                    other,
                ) && match P::compared(
                    core.components.policy,
                    SubjectId(update.challenger.0),
                    incumbent,
                    other,
                ) {
                    Some((state, decision)) => core.committed(step).components.policy == state
                        && step.decision == Some(decision),
                    None => false,
                },
        },
{
    continuity::lemma_step_policy::<P>(core, frame, step);
    reveal(CoreView::policy_step);
    let shadows = core.components.ledger.committed(step.delta).shadows;
    if let Some(update) = frame.policy {
        law_policies_are_compared_on_one_campaign(
            shadows,
            update.campaign,
            SubjectId(update.challenger.0),
        );
        let challenger = SubjectId(update.challenger.0);
        let (incumbent, other) = evidence::policy_evidence(
            shadows,
            update.campaign,
            challenger,
        )->Ok_0;
        let place = choose|place: int| #[trigger]
            campaign_gives(shadows, place, update.campaign, challenger, incumbent, other);
        assert(core.committed(step).components.ledger.shadows == shadows);
        assert(campaign_gives(
            core.committed(step).components.ledger.shadows,
            place,
            update.campaign,
            challenger,
            incumbent,
            other,
        ));
    }
}

// ---------------------------------------------------------------------------
// Verdicts
// ---------------------------------------------------------------------------
/// Some evidence shows more found, covered or built upon, or less spent, in some way.
pub open spec fn better_somewhere(left: OperationalEvidence, right: OperationalEvidence) -> bool {
    ||| left.verified_discoveries > right.verified_discoveries
    ||| left.covered_claims > right.covered_claims
    ||| left.useful_descendants > right.useful_descendants
    ||| left.cpu_time_ns < right.cpu_time_ns
    ||| left.verification_requests < right.verification_requests
    ||| left.durable_bytes < right.durable_bytes
}

/// The better policy takes over: a challenger that fails no more often and is better
/// somewhere and worse nowhere is put in force. One that is better somewhere and worse
/// somewhere is kept aside. Every other one is rejected, and nothing changes. A policy
/// that is in force already is compared with nothing.
pub proof fn law_better_policy_takes_over(
    state: Seq<u8>,
    challenger: SubjectId,
    incumbent: OperationalEvidence,
    other: OperationalEvidence,
)
    requires
        ParetoPolicy::is_state(state),
    ensures
        ({
            let fails_more = other.correctness_failures > incumbent.correctness_failures;
            let better = better_somewhere(other, incumbent);
            let worse = better_somewhere(incumbent, other);
            match ParetoPolicy::compared(state, challenger, incumbent, other) {
                None => ParetoPolicy::in_force(state).0 == challenger.0,
                Some((next, decision)) => {
                    &&& ParetoPolicy::in_force(state).0 != challenger.0
                    &&& decision is Promote <==> !fails_more && better && !worse
                    &&& decision is RetainSpecialist <==> !fails_more && better && worse
                    &&& decision is Reject <==> fails_more || !better
                    &&& ParetoPolicy::in_force(next).0 == (if decision is Promote {
                        challenger.0
                    } else {
                        ParetoPolicy::in_force(state).0
                    })
                    &&& decision is Reject ==> next == state
                    &&& decision is RetainSpecialist ==> next.take(state.len() as int) == state
                        && next.skip(state.len() as int) == challenger.0.bytes()
                    &&& decision is Promote ==> next.skip(32) == state.skip(32)
                },
            }
        }),
{
    if let Some((next, decision)) = ParetoPolicy::compared(state, challenger, incumbent, other) {
        digest::lemma_digest_len(challenger.0);
        let bytes = challenger.0.bytes();
        if decision is Promote {
            digest::lemma_parse_digest(challenger.0, state.skip(32));
            assert(next.skip(32) =~= state.skip(32));
        } else if decision is RetainSpecialist {
            reveal(digest::parse_digest);
            assert(next.subrange(0, 8) =~= state.subrange(0, 8));
            assert(next.subrange(8, 16) =~= state.subrange(8, 16));
            assert(next.subrange(16, 24) =~= state.subrange(16, 24));
            assert(next.subrange(24, 32) =~= state.subrange(24, 32));
            assert(next.take(state.len() as int) =~= state);
            assert(next.skip(state.len() as int) =~= bytes);
        }
    }
}

} // verus!
