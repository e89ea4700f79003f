//! What a ledger, or a ledger with a step on top of it, is evidence of.
use vstd::prelude::*;

use crate::causal::{ConsequenceEdge, InvestmentOutcome, InvestmentSettlement};
use crate::forecast;
use crate::forecast::ForecastAxis;
use crate::investment::InvestmentTag;
use crate::ledger;
use crate::ledger::{authoritative_verification_pair, CausalDelta, CausalLedger, DeltaView, LedgerView};
use crate::receipt::{DecisionId, InvestmentReceipt};
use crate::search;
use crate::shadow::{
    ContextualContrast, ShadowArm, ShadowArmOutcome, ShadowCampaignId, ShadowCampaignLifecycle,
    ShadowCampaignSpec, ShadowCampaignState, TypedOutcome,
};
use crate::types::{IntelligenceError, SubjectId};

verus! {

// ---------------------------------------------------------------------------
// Whole numbers in single precision
// ---------------------------------------------------------------------------
/// The pattern is that of a whole number: for a positive pattern the significand
/// times two to the exponent field is the number times two to the 150th, which
/// is the bias and the width of the fraction; zero has either sign.
pub open spec fn represents(bits: u32, number: nat) -> bool {
    let pattern = forecast::magnitude(bits);
    let field = (pattern / 0x80_0000) as nat;
    let fraction = (pattern % 0x80_0000) as nat;
    &&& pattern < forecast::NEGATIVE_ZERO_BITS
    &&& if field == 0 {
        fraction * vstd::arithmetic::power2::pow2(1) == number * vstd::arithmetic::power2::pow2(150)
    } else {
        (fraction + 0x80_0000) * vstd::arithmetic::power2::pow2(field) == number
            * vstd::arithmetic::power2::pow2(150)
    }
}

/// The count that a pattern stands for, if it is one of at most sixteen bits.
pub open spec fn whole(bits: u32) -> Option<u64> {
    if exists|number: nat| number <= 0xffff && #[trigger] represents(bits, number) {
        Some((choose|number: nat| number <= 0xffff && #[trigger] represents(bits, number)) as u64)
    } else {
        None
    }
}

proof fn lemma_scaled(significand: nat, field: nat, number: nat)
    requires
        field <= 150,
    ensures
        significand * vstd::arithmetic::power2::pow2(field) == number
            * vstd::arithmetic::power2::pow2(150) <==> significand == number
            * vstd::arithmetic::power2::pow2((150 - field) as nat),
{
    let low = vstd::arithmetic::power2::pow2(field);
    let high = vstd::arithmetic::power2::pow2((150 - field) as nat);
    vstd::arithmetic::power2::lemma_pow2_adds(field, (150 - field) as nat);
    vstd::arithmetic::power2::lemma_pow2_pos(field);
    assert(number * (low * high) == (number * high) * low) by (nonlinear_arith);
    assert(significand * low == (number * high) * low <==> significand == number * high)
        by (nonlinear_arith)
        requires
            low > 0,
    ;
}

proof fn lemma_scaled_up(significand: nat, field: nat, number: nat)
    requires
        field > 150,
    ensures
        significand * vstd::arithmetic::power2::pow2(field) == number
            * vstd::arithmetic::power2::pow2(150) <==> significand
            * vstd::arithmetic::power2::pow2((field - 150) as nat) == number,
{
    let low = vstd::arithmetic::power2::pow2(150);
    let high = vstd::arithmetic::power2::pow2((field - 150) as nat);
    vstd::arithmetic::power2::lemma_pow2_adds(150, (field - 150) as nat);
    vstd::arithmetic::power2::lemma_pow2_pos(150);
    assert(significand * (low * high) == (significand * high) * low) by (nonlinear_arith);
    assert((significand * high) * low == number * low <==> significand * high == number)
        by (nonlinear_arith)
        requires
            low > 0,
    ;
}

proof fn lemma_represents_once(bits: u32, number: nat)
    requires
        represents(bits, number),
        number <= 0xffff,
    ensures
        whole(bits) == Some(number as u64),
{
    let chosen = choose|number: nat| number <= 0xffff && #[trigger] represents(bits, number);
    assert(represents(bits, chosen));
    let scale = vstd::arithmetic::power2::pow2(150);
    vstd::arithmetic::power2::lemma_pow2_pos(150);
    assert(chosen * scale == number * scale);
    assert(chosen == number) by (nonlinear_arith)
        requires
            chosen * scale == number * scale,
            scale > 0,
    ;
}

/// Reads a count of at most sixteen bits out of a pattern.
pub fn whole_number(bits: u32) -> (result: Option<u64>)
    ensures
        result == whole(bits),
{
    let pattern: u32 = if bits == forecast::NEGATIVE_ZERO_BITS {
        0
    } else {
        bits
    };
    if pattern == 0 {
        proof {
            assert(0nat * vstd::arithmetic::power2::pow2(150) == 0) by (nonlinear_arith);
            assert(0nat * vstd::arithmetic::power2::pow2(1) == 0) by (nonlinear_arith);
            lemma_represents_once(bits, 0);
        }
        return Some(0);
    }
    if pattern >= forecast::NEGATIVE_ZERO_BITS {
        return None;
    }
    let field: u32 = pattern / 0x80_0000;
    let fraction: u32 = pattern % 0x80_0000;
    if field < 127 {
        proof {
            assert forall|number: nat| number <= 0xffff implies !#[trigger] represents(bits, number) by {
                lemma_small(field as nat, fraction as nat, number);
            }
        }
        return None;
    }
    if field > 142 {
        proof {
            assert forall|number: nat| number <= 0xffff implies !#[trigger] represents(bits, number) by {
                lemma_large(field as nat, fraction as nat, number);
            }
        }
        return None;
    }
    let significand: u32 = fraction + 0x80_0000;
    let unit: u32 = unit_of(150 - field);
    proof {
        assert forall|number: nat| #[trigger] represents(bits, number) <==> significand == number
            * unit by {
            lemma_scaled(significand as nat, field as nat, number);
        }
    }
    let number: u32 = significand / unit;
    proof {
        vstd::arithmetic::div_mod::lemma_fundamental_div_mod(significand as int, unit as int);
        assert((significand / unit) * unit == unit * (significand / unit)) by (nonlinear_arith);
    }
    if significand % unit != 0 {
        proof {
            assert forall|number: nat| number <= 0xffff implies !#[trigger] represents(bits, number) by {
                if significand == number * unit {
                    vstd::arithmetic::div_mod::lemma_mod_multiples_basic(
                        number as int,
                        unit as int,
                    );
                }
            }
        }
        return None;
    }
    assert(number <= 0xffff) by {
        let quotient = significand / unit;
        assert(quotient <= 0xffff) by (nonlinear_arith)
            requires
                quotient * unit == significand,
                significand < 0x100_0000,
                unit >= 256,
        ;
    }
    proof {
        assert(represents(bits, number as nat));
        lemma_represents_once(bits, number as nat);
    }
    Some(number as u64)
}

proof fn lemma_small(field: nat, fraction: nat, number: nat)
    requires
        field < 127,
        fraction < 0x80_0000,
        field > 0 || fraction > 0,
    ensures
        field == 0 ==> fraction * vstd::arithmetic::power2::pow2(1) != number
            * vstd::arithmetic::power2::pow2(150),
        field > 0 ==> (fraction + 0x80_0000) * vstd::arithmetic::power2::pow2(field) != number
            * vstd::arithmetic::power2::pow2(150),
{
    let shown = if field == 0 {
        1
    } else {
        field
    };
    let significand = if field == 0 {
        fraction
    } else {
        fraction + 0x80_0000
    };
    lemma_scaled(significand, shown, number);
    let unit = vstd::arithmetic::power2::pow2((150 - shown) as nat);
    vstd::arithmetic::power2::lemma2_to64();
    if shown < 126 {
        vstd::arithmetic::power2::lemma_pow2_strictly_increases(24, (150 - shown) as nat);
    }
    assert(unit >= 0x100_0000);
    assert(significand != number * unit) by (nonlinear_arith)
        requires
            0 < significand < 0x100_0000,
            unit >= 0x100_0000,
    ;
}

proof fn lemma_large(field: nat, fraction: nat, number: nat)
    requires
        field > 142,
        number <= 0xffff,
    ensures
        (fraction + 0x80_0000) * vstd::arithmetic::power2::pow2(field) != number
            * vstd::arithmetic::power2::pow2(150),
{
    let significand = fraction + 0x80_0000;
    vstd::arithmetic::power2::lemma2_to64();
    if field <= 150 {
        lemma_scaled(significand, field, number);
        let unit = vstd::arithmetic::power2::pow2((150 - field) as nat);
        if field > 143 {
            vstd::arithmetic::power2::lemma_pow2_strictly_increases((150 - field) as nat, 7);
        }
        assert(unit <= 128);
        assert(number * unit <= 0xffff * 128) by (nonlinear_arith)
            requires
                number <= 0xffff,
                unit <= 128,
        ;
    } else {
        lemma_scaled_up(significand, field, number);
        let factor = vstd::arithmetic::power2::pow2((field - 150) as nat);
        vstd::arithmetic::power2::lemma_pow2_pos((field - 150) as nat);
        assert(significand * factor >= significand) by (nonlinear_arith)
            requires
                factor >= 1,
        ;
    }
}

/// Two to the given power, from the eighth to the twenty-third.
fn unit_of(shift: u32) -> (unit: u32)
    requires
        8 <= shift <= 23,
    ensures
        unit == vstd::arithmetic::power2::pow2(shift as nat),
        256 <= unit <= 0x80_0000,
{
    proof {
        vstd::arithmetic::power2::lemma2_to64();
    }
    let mut unit: u32 = 256;
    let mut power: u32 = 8;
    while power < shift
        invariant
            8 <= power <= shift <= 23,
            unit == vstd::arithmetic::power2::pow2(power as nat),
            256 <= unit,
            unit <= 0x80_0000,
        decreases shift - power,
    {
        proof {
            vstd::arithmetic::power2::lemma_pow2_unfold((power + 1) as nat);
            vstd::arithmetic::power2::lemma2_to64();
            if power + 1 < 23 {
                vstd::arithmetic::power2::lemma_pow2_strictly_increases((power + 1) as nat, 23);
            }
        }
        unit = unit * 2;
        power = power + 1;
    }
    unit
}

// ---------------------------------------------------------------------------
// Operational evidence
// ---------------------------------------------------------------------------
/// What one arm of a runtime policy campaign achieved and what it cost.
#[derive(Clone, Copy, Debug, PartialEq, Eq, Structural)]
pub struct OperationalEvidence {
    pub correctness_failures: u64,
    pub verified_discoveries: u64,
    pub covered_claims: u64,
    pub useful_descendants: u64,
    pub cpu_time_ns: u64,
    pub verification_requests: u64,
    pub durable_bytes: u64,
}

pub open spec fn on_axis(axis: ForecastAxis) -> spec_fn(TypedOutcome) -> bool {
    |outcome: TypedOutcome| outcome.axis == axis
}

/// The count that an arm reports on an axis.
pub open spec fn counted(outcome: ShadowArmOutcome, axis: ForecastAxis) -> Option<u64> {
    match search::first(outcome.outcome_list(), on_axis(axis)) {
        Some(index) => whole(outcome.outcome_list()[index].value),
        None => None,
    }
}

/// The evidence in one arm, if it counts everything that policies are judged by.
pub open spec fn arm_evidence(outcome: ShadowArmOutcome) -> Result<
    OperationalEvidence,
    IntelligenceError,
> {
    match (
        counted(outcome, ForecastAxis::KernelAcceptance),
        counted(outcome, ForecastAxis::ImmediateImprovement),
        counted(outcome, ForecastAxis::CrossGoalLeverage),
        counted(outcome, ForecastAxis::UsefulDescendants),
    ) {
        (
            Some(correctness_failures),
            Some(verified_discoveries),
            Some(covered_claims),
            Some(useful_descendants),
        ) => Ok(
            OperationalEvidence {
                correctness_failures,
                verified_discoveries,
                covered_claims,
                useful_descendants,
                cpu_time_ns: outcome.resources.cpu_time_ns,
                verification_requests: outcome.resources.verification_requests,
                durable_bytes: outcome.resources.durable_bytes,
            },
        ),
        _ => Err(IntelligenceError::InvalidPolicy),
    }
}

fn count_on(outcome: &ShadowArmOutcome, axis: ForecastAxis) -> (count: Option<u64>)
    ensures
        count == counted(*outcome, axis),
{
    let outcomes = outcome.outcomes();
    let mut index: usize = 0;
    while index < outcomes.len()
        invariant
            index <= outcomes@.len(),
            outcomes@ == outcome.outcome_list(),
            forall|i: int| 0 <= i < index ==> !on_axis(axis)(#[trigger] outcomes@[i]),
        decreases outcomes@.len() - index,
    {
        if outcomes[index].axis == axis {
            proof {
                search::lemma_is_first(outcomes@, on_axis(axis), index as int);
            }
            return whole_number(outcomes[index].value);
        }
        index = index + 1;
    }
    proof {
        search::lemma_is_none(outcomes@, on_axis(axis));
    }
    None
}

pub fn operational_evidence_from_shadow(outcome: &ShadowArmOutcome) -> (result: Result<
    OperationalEvidence,
    IntelligenceError,
>)
    ensures
        result == arm_evidence(*outcome),
{
    match (
        count_on(outcome, ForecastAxis::KernelAcceptance),
        count_on(outcome, ForecastAxis::ImmediateImprovement),
        count_on(outcome, ForecastAxis::CrossGoalLeverage),
        count_on(outcome, ForecastAxis::UsefulDescendants),
    ) {
        (
            Some(correctness_failures),
            Some(verified_discoveries),
            Some(covered_claims),
            Some(useful_descendants),
        ) => Ok(
            OperationalEvidence {
                correctness_failures,
                verified_discoveries,
                covered_claims,
                useful_descendants,
                cpu_time_ns: outcome.resources.cpu_time_ns,
                verification_requests: outcome.resources.verification_requests,
                durable_bytes: outcome.resources.durable_bytes,
            },
        ),
        _ => Err(IntelligenceError::InvalidPolicy),
    }
}

/// The evidence of both arms of a completed campaign about a challenger: first
/// the control, then the treatment.
pub open spec fn policy_evidence(
    shadows: Seq<ShadowCampaignState>,
    campaign: ShadowCampaignId,
    challenger: SubjectId,
) -> Result<(OperationalEvidence, OperationalEvidence), IntelligenceError> {
    match search::first(shadows, ledger::runs(campaign)) {
        None => Err(IntelligenceError::InvalidPolicy),
        Some(index) => {
            let state = shadows[index];
            match (state.treatment, state.control) {
                (Some(treatment), Some(control)) => if state.lifecycle is Completed
                    && state.specification.subject == challenger {
                    match (arm_evidence(control), arm_evidence(treatment)) {
                        (Ok(control), Ok(treatment)) => Ok((control, treatment)),
                        _ => Err(IntelligenceError::InvalidPolicy),
                    }
                } else {
                    Err(IntelligenceError::InvalidPolicy)
                },
                _ => Err(IntelligenceError::InvalidPolicy),
            }
        },
    }
}

pub fn runtime_policy_evidence(
    shadows: &[ShadowCampaignState],
    campaign: ShadowCampaignId,
    challenger: SubjectId,
) -> (result: Result<(OperationalEvidence, OperationalEvidence), IntelligenceError>)
    ensures
        result == policy_evidence(shadows@, campaign, challenger),
{
    let index: usize = match ledger::find_campaign(shadows, campaign) {
        Some(index) => index,
        None => return Err(IntelligenceError::InvalidPolicy),
    };
    let state = &shadows[index];
    if state.lifecycle != ShadowCampaignLifecycle::Completed || state.specification.subject
        != challenger {
        return Err(IntelligenceError::InvalidPolicy);
    }
    match (&state.treatment, &state.control) {
        (Some(treatment), Some(control)) => {
            match (
                operational_evidence_from_shadow(control),
                operational_evidence_from_shadow(treatment),
            ) {
                (Ok(control), Ok(treatment)) => Ok((control, treatment)),
                _ => Err(IntelligenceError::InvalidPolicy),
            }
        },
        _ => Err(IntelligenceError::InvalidPolicy),
    }
}

// ---------------------------------------------------------------------------
// Evidence
// ---------------------------------------------------------------------------
/// Something that speaks for a ledger.
pub trait CausalEvidence {
    /// The ledger it speaks for.
    spec fn evidence(&self) -> LedgerView;

    /// It holds what it needs to speak for that ledger.
    spec fn sound(&self) -> bool;

    fn authoritative_verification(&self, decision: DecisionId, obligation: SubjectId) -> (result:
        Result<InvestmentOutcome, IntelligenceError>)
        requires
            self.sound(),
        ensures
            result == self.evidence().authority(decision, obligation),
    ;

    fn contrasts(&self) -> (contrasts: &[ContextualContrast])
        ensures
            contrasts@ == self.evidence().contrasts,
    ;

    fn consequence_slices(&self) -> (slices: (&[ConsequenceEdge], &[ConsequenceEdge]))
        ensures
            slices.0@ + slices.1@ == self.evidence().consequences,
    ;

    fn runtime_policy_evidence(&self, campaign: ShadowCampaignId, challenger: SubjectId) -> (result:
        Result<(OperationalEvidence, OperationalEvidence), IntelligenceError>)
        ensures
            result == policy_evidence(self.evidence().shadows, campaign, challenger),
    ;
}

impl CausalEvidence for CausalLedger {
    open spec fn evidence(&self) -> LedgerView {
        self@
    }

    open spec fn sound(&self) -> bool {
        true
    }

    fn authoritative_verification(&self, decision: DecisionId, obligation: SubjectId) -> (result:
        Result<InvestmentOutcome, IntelligenceError>) {
        CausalLedger::authoritative_verification(self, decision, obligation)
    }

    fn contrasts(&self) -> (contrasts: &[ContextualContrast]) {
        CausalLedger::contrasts(self)
    }

    fn consequence_slices(&self) -> (slices: (&[ConsequenceEdge], &[ConsequenceEdge])) {
        let all = self.consequences();
        let (first, second) = all.split_at(all.len());
        assert(first@ + second@ =~= all@);
        (first, second)
    }

    fn runtime_policy_evidence(&self, campaign: ShadowCampaignId, challenger: SubjectId) -> (result:
        Result<(OperationalEvidence, OperationalEvidence), IntelligenceError>) {
        runtime_policy_evidence(self.shadows(), campaign, challenger)
    }
}

/// A ledger with a prepared step on top.
pub struct CausalOverlay<'a> {
    pub base: &'a CausalLedger,
    pub delta: &'a CausalDelta,
}

/// A step that fits a ledger: settled, and with decisions of its own.
pub open spec fn fits(base: LedgerView, delta: DeltaView) -> bool {
    &&& ledger::settled(base.receipts, base.settlements)
    &&& ledger::settled(delta.receipts, delta.settlements)
    &&& ledger::distinct_decisions(base.receipts + delta.receipts)
}

proof fn lemma_authority_in_base(
    base: LedgerView,
    delta: DeltaView,
    decision: DecisionId,
    obligation: SubjectId,
)
    requires
        fits(base, delta),
        search::first(delta.receipts, ledger::issued(decision)) is None,
    ensures
        base.committed(delta).authority(decision, obligation) == base.authority(
            decision,
            obligation,
        ),
{
    let joined = base.committed(delta);
    search::lemma_first(delta.receipts, ledger::issued(decision));
    search::lemma_first(base.receipts, ledger::issued(decision));
    search::lemma_first(base.settlements, ledger::settles(decision));
    search::lemma_first(joined.receipts, ledger::issued(decision));
    search::lemma_first(joined.settlements, ledger::settles(decision));
    match search::first(base.receipts, ledger::issued(decision)) {
        Some(index) => {
            assert(base.receipts[index].decision == base.settlements[index].decision);
            assert forall|i: int| 0 <= i < index implies !ledger::settles(decision)(
                #[trigger] base.settlements[i],
            ) by {
                assert(!ledger::issued(decision)(base.receipts[i]));
                assert(base.receipts[i].decision == base.settlements[i].decision);
            }
            search::lemma_is_first(base.settlements, ledger::settles(decision), index);
            assert forall|i: int| 0 <= i < index implies !ledger::issued(decision)(
                #[trigger] joined.receipts[i],
            ) by {
                assert(!ledger::issued(decision)(base.receipts[i]));
            }
            search::lemma_is_first(joined.receipts, ledger::issued(decision), index);
            assert forall|i: int| 0 <= i < index implies !ledger::settles(decision)(
                #[trigger] joined.settlements[i],
            ) by {
                assert(!ledger::settles(decision)(base.settlements[i]));
            }
            search::lemma_is_first(joined.settlements, ledger::settles(decision), index);
        },
        None => {
            assert forall|i: int| 0 <= i < joined.receipts.len() implies !ledger::issued(decision)(
                #[trigger] joined.receipts[i],
            ) by {
                if i < base.receipts.len() {
                    assert(!ledger::issued(decision)(base.receipts[i]));
                } else {
                    assert(!ledger::issued(decision)(delta.receipts[i - base.receipts.len()]));
                }
            }
            search::lemma_is_none(joined.receipts, ledger::issued(decision));
        },
    }
}

proof fn lemma_authority_in_delta(
    base: LedgerView,
    delta: DeltaView,
    decision: DecisionId,
    obligation: SubjectId,
    index: int,
)
    requires
        fits(base, delta),
        search::first(delta.receipts, ledger::issued(decision)) == Some(index),
    ensures
        base.committed(delta).authority(decision, obligation) == ledger::authority_of(
            delta.receipts[index],
            delta.settlements[index],
            obligation,
        ),
{
    let joined = base.committed(delta);
    let all = base.receipts + delta.receipts;
    let place = base.receipts.len() + index;
    search::lemma_first(delta.receipts, ledger::issued(decision));
    assert forall|i: int| 0 <= i < place implies !ledger::issued(decision)(
        #[trigger] joined.receipts[i],
    ) by {
        assert(all[i].decision != all[place].decision);
    }
    search::lemma_is_first(joined.receipts, ledger::issued(decision), place);
    assert forall|i: int| 0 <= i < place implies !ledger::settles(decision)(
        #[trigger] joined.settlements[i],
    ) by {
        assert(!ledger::issued(decision)(joined.receipts[i]));
        if i < base.receipts.len() {
            assert(base.receipts[i].decision == base.settlements[i].decision);
        } else {
            let j = i - base.receipts.len();
            assert(delta.receipts[j].decision == delta.settlements[j].decision);
        }
    }
    assert(delta.receipts[index].decision == delta.settlements[index].decision);
    search::lemma_is_first(joined.settlements, ledger::settles(decision), place);
}

/// What holds of the overlay holds of the ledger once the step is committed.
impl<'a> CausalEvidence for CausalOverlay<'a> {
    open spec fn evidence(&self) -> LedgerView {
        self.base@.committed(self.delta@)
    }

    open spec fn sound(&self) -> bool {
        fits(self.base@, self.delta@)
    }

    fn authoritative_verification(&self, decision: DecisionId, obligation: SubjectId) -> (result:
        Result<InvestmentOutcome, IntelligenceError>) {
        let receipts = self.delta.receipts();
        let settlements = self.delta.settlements();
        match ledger::find_receipt(receipts, decision) {
            Some(index) => {
                proof {
                    lemma_authority_in_delta(
                        self.base@,
                        self.delta@,
                        decision,
                        obligation,
                        index as int,
                    );
                }
                authoritative_verification_pair(&receipts[index], &settlements[index], obligation)
            },
            None => {
                proof {
                    lemma_authority_in_base(self.base@, self.delta@, decision, obligation);
                }
                self.base.authoritative_verification(decision, obligation)
            },
        }
    }

    fn contrasts(&self) -> (contrasts: &[ContextualContrast]) {
        match self.delta.proposed() {
            Some(side) => side.contrasts(),
            None => self.base.contrasts(),
        }
    }

    fn consequence_slices(&self) -> (slices: (&[ConsequenceEdge], &[ConsequenceEdge])) {
        (self.base.consequences(), self.delta.consequences())
    }

    fn runtime_policy_evidence(&self, campaign: ShadowCampaignId, challenger: SubjectId) -> (result:
        Result<(OperationalEvidence, OperationalEvidence), IntelligenceError>) {
        match self.delta.proposed() {
            Some(side) => runtime_policy_evidence(side.shadows(), campaign, challenger),
            None => runtime_policy_evidence(self.base.shadows(), campaign, challenger),
        }
    }
}

impl CausalLedger {
    pub fn overlay<'a>(&'a self, delta: &'a CausalDelta) -> (overlay: CausalOverlay<'a>)
        ensures
            overlay.evidence() == self@.committed(delta@),
            fits(self@, delta@) ==> overlay.sound(),
    {
        CausalOverlay { base: self, delta }
    }

    pub fn experience<'a>(&'a self) -> (view: CausalExperienceView<'a>)
        ensures
            view.ledger@ == self@,
    {
        CausalExperienceView { ledger: self }
    }
}

// ---------------------------------------------------------------------------
// Views for readers
// ---------------------------------------------------------------------------
/// One campaign as readers see it.
#[derive(Clone, Copy)]
pub struct ShadowCampaignView<'a> {
    pub state: &'a ShadowCampaignState,
}

impl<'a> ShadowCampaignView<'a> {
    pub fn specification(self) -> (specification: &'a ShadowCampaignSpec)
        ensures
            *specification == self.state.specification,
    {
        &self.state.specification
    }

    pub fn lifecycle(self) -> (lifecycle: ShadowCampaignLifecycle)
        ensures
            lifecycle == self.state.lifecycle,
    {
        self.state.lifecycle
    }

    pub fn has_outcome(self, arm: ShadowArm) -> (result: bool)
        ensures
            result == match arm {
                ShadowArm::Treatment => self.state.treatment is Some,
                ShadowArm::Control => self.state.control is Some,
            },
    {
        match arm {
            ShadowArm::Treatment => self.state.treatment.is_some(),
            ShadowArm::Control => self.state.control.is_some(),
        }
    }
}

/// A ledger as readers see it.
#[derive(Clone, Copy)]
pub struct CausalExperienceView<'a> {
    pub ledger: &'a CausalLedger,
}

/// A settled verification that accepted a subject.
pub open spec fn accepts(
    receipt: InvestmentReceipt,
    settlement: InvestmentSettlement,
    subject: SubjectId,
) -> bool {
    &&& receipt.tag is Verify
    &&& settlement.decision == receipt.decision
    &&& settlement.outcome == (InvestmentOutcome::VerifiedAccepted { verification_record: subject })
}

impl<'a> CausalExperienceView<'a> {
    pub fn receipts(self) -> (receipts: &'a [InvestmentReceipt])
        ensures
            receipts@ == self.ledger@.receipts,
    {
        self.ledger.receipts()
    }

    pub fn settlements(self) -> (settlements: &'a [InvestmentSettlement])
        ensures
            settlements@ == self.ledger@.settlements,
    {
        self.ledger.settlements()
    }

    pub fn consequences(self) -> (consequences: &'a [ConsequenceEdge])
        ensures
            consequences@ == self.ledger@.consequences,
    {
        self.ledger.consequences()
    }

    pub fn contrasts(self) -> (contrasts: &'a [ContextualContrast])
        ensures
            contrasts@ == self.ledger@.contrasts,
    {
        self.ledger.contrasts()
    }

    pub fn shadow_campaign(self, campaign: ShadowCampaignId) -> (result: Option<
        ShadowCampaignView<'a>,
    >)
        ensures
            match search::first(self.ledger@.shadows, ledger::runs(campaign)) {
                Some(index) => result matches Some(view) && *view.state
                    == self.ledger@.shadows[index],
                None => result is None,
            },
    {
        let shadows = self.ledger.shadows();
        match ledger::find_campaign(shadows, campaign) {
            Some(index) => Some(ShadowCampaignView { state: &shadows[index] }),
            None => None,
        }
    }

    pub fn shadow_campaigns(self) -> (views: Vec<ShadowCampaignView<'a>>)
        ensures
            views@.len() == self.ledger@.shadows.len(),
            forall|i: int|
                0 <= i < views@.len() ==> *(#[trigger] views@[i]).state == self.ledger@.shadows[i],
    {
        let shadows = self.ledger.shadows();
        let mut views: Vec<ShadowCampaignView<'a>> = Vec::new();
        let mut index: usize = 0;
        while index < shadows.len()
            invariant
                index <= shadows@.len(),
                views@.len() == index,
                forall|i: int| 0 <= i < index ==> *(#[trigger] views@[i]).state == shadows@[i],
            decreases shadows@.len() - index,
        {
            views.push(ShadowCampaignView { state: &shadows[index] });
            index = index + 1;
        }
        views
    }

    /// The last decision whose verification accepted the subject.
    pub fn authoritative_verification_decision(self, subject: SubjectId) -> (result: Option<
        DecisionId,
    >)
        requires
            self.ledger@.receipts.len() == self.ledger@.settlements.len(),
        ensures
            match result {
                Some(decision) => exists|i: int|
                    0 <= i < self.ledger@.receipts.len() && (
                    #[trigger] self.ledger@.receipts[i]).decision == decision && accepts(
                        self.ledger@.receipts[i],
                        self.ledger@.settlements[i],
                        subject,
                    ) && forall|j: int|
                        i < j < self.ledger@.receipts.len() ==> !accepts(
                            #[trigger] self.ledger@.receipts[j],
                            self.ledger@.settlements[j],
                            subject,
                        ),
                None => forall|j: int|
                    0 <= j < self.ledger@.receipts.len() ==> !accepts(
                        #[trigger] self.ledger@.receipts[j],
                        self.ledger@.settlements[j],
                        subject,
                    ),
            },
    {
        let receipts = self.ledger.receipts();
        let settlements = self.ledger.settlements();
        let mut index: usize = receipts.len();
        while index > 0
            invariant
                index <= receipts@.len(),
                receipts@.len() == settlements@.len(),
                receipts@ == self.ledger@.receipts,
                settlements@ == self.ledger@.settlements,
                forall|j: int|
                    index <= j < receipts@.len() ==> !accepts(
                        #[trigger] receipts@[j],
                        settlements@[j],
                        subject,
                    ),
            decreases index,
        {
            index = index - 1;
            let accepted = InvestmentOutcome::VerifiedAccepted { verification_record: subject };
            if receipts[index].tag == InvestmentTag::Verify && settlements[index].decision
                == receipts[index].decision && settlements[index].outcome == accepted {
                assert(accepts(receipts@[index as int], settlements@[index as int], subject));
                return Some(receipts[index].decision);
            }
        }
        None
    }

    pub fn authoritative_verification_outcome(self, decision: DecisionId, subject: SubjectId) -> (result:
        Result<InvestmentOutcome, IntelligenceError>)
        ensures
            result == self.ledger@.authority(decision, subject),
    {
        self.ledger.authoritative_verification(decision, subject)
    }
}

} // verus!
