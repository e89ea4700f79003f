//! What is demanded of the values that the library works on, in terms of the numbers
//! that they stand for.
use vstd::prelude::*;

use crate::arena::OpportunitySpec;
use crate::challenger;
use crate::challenger::{ChallengerView, ContextualRequirement, ProductView};
use crate::compiler::RecordView;
use crate::ecology::MandateView;
use crate::forecast;
use crate::forecast::{Forecast, ForecastAxis};
use crate::inspection;
use crate::investment::InvestmentSpec;
use crate::knowledge;
use crate::ledger::LedgerView;
use crate::market;
use crate::market::{MarketView, OpportunityView};
use crate::model::{HeadView, ModelView};
use crate::numbers;
use crate::pairing;
use crate::receipt;
use crate::shadow;
use crate::shadow::{ShadowCampaignId, ShadowCampaignState, TypedOutcome};
use crate::standing;
use crate::types::{IntelligenceError, IntelligenceLimits, SubjectId};

verus! {

// ---------------------------------------------------------------------------
// Numbers
// ---------------------------------------------------------------------------
/// The number one, in the scale in which numbers are stated.
pub open spec fn unit() -> int {
    vstd::arithmetic::power2::pow2(150) as int
}

/// The pattern stands for a number from zero to one.
pub open spec fn portion(bits: u32) -> bool {
    forecast::finite(bits) && 0 <= numbers::scaled(bits) <= unit()
}

proof fn lemma_one()
    ensures
        numbers::scaled(0x3f80_0000) == unit(),
        unit() > 0,
{
    vstd::arithmetic::power2::lemma_pow2_adds(23, 127);
    vstd::arithmetic::power2::lemma2_to64();
    vstd::arithmetic::power2::lemma_pow2_pos(150);
    assert(numbers::significand(0x3f80_0000) == 0x80_0000);
    assert(numbers::exponent(0x3f80_0000) == 127);
}

/// The patterns of finite numbers are those below infinity, with either sign; one of
/// them stands for a number below zero exactly where its sign is set and it is not zero.
pub proof fn law_finite_patterns(bits: u32)
    ensures
        forecast::finite(bits) <==> bits < 0x7f80_0000 || 0x8000_0000 <= bits < 0xff80_0000,
        forecast::finite(bits) ==> (numbers::scaled(bits) < 0 <==> bits > 0x8000_0000),
        forecast::finite(bits) ==> (numbers::scaled(bits) == 0 <==> bits == 0 || bits
            == 0x8000_0000),
        forecast::finite(bits) ==> (numbers::scaled(bits) > 0 <==> 0 < bits < 0x8000_0000),
{
    if bits < 0x7f80_0000 {
        numbers::law_patterns_scale(0);
        if bits > 0 {
            numbers::law_patterns_ascend(0, bits);
        }
    } else if 0x8000_0000 <= bits < 0xff80_0000 {
        let plain = (bits - 0x8000_0000) as u32;
        numbers::law_patterns_scale(plain);
        if plain > 0 {
            numbers::law_patterns_ascend(0, plain);
        }
    }
}

/// The unit interval is that of the numbers from zero to one.
pub proof fn law_unit_interval(bits: u32)
    ensures
        forecast::in_unit_interval(bits) <==> portion(bits),
{
    law_finite_patterns(bits);
    lemma_one();
    if bits < 0x3f80_0000 {
        numbers::law_patterns_ascend(bits, 0x3f80_0000);
    } else if 0x3f80_0000 < bits < 0x7f80_0000 {
        numbers::law_patterns_ascend(0x3f80_0000, bits);
    }
}

/// Two finite patterns state the same number exactly where they stand for it.
pub proof fn law_same_number(left: u32, right: u32)
    requires
        forecast::finite(left),
        forecast::finite(right),
    ensures
        forecast::same_number(left, right) <==> numbers::scaled(left) == numbers::scaled(right),
{
    law_finite_patterns(left);
    law_finite_patterns(right);
    if left < 0x7f80_0000 && right < 0x7f80_0000 {
        if left < right {
            numbers::law_patterns_ascend(left, right);
        } else if right < left {
            numbers::law_patterns_ascend(right, left);
        }
    } else if left > 0x8000_0000 && right > 0x8000_0000 {
        let a = (left - 0x8000_0000) as u32;
        let b = (right - 0x8000_0000) as u32;
        numbers::law_patterns_scale(a);
        numbers::law_patterns_scale(b);
        if a < b {
            numbers::law_patterns_ascend(a, b);
        } else if b < a {
            numbers::law_patterns_ascend(b, a);
        }
    }
}

/// A forecast is valid exactly where its estimate, its error and its uncertainty are
/// numbers from zero to one, and it is at least as uncertain as it errs.
pub proof fn law_valid_forecasts(value: Forecast)
    ensures
        value.valid() <==> {
            &&& portion(value.estimate)
            &&& portion(value.calibration_error)
            &&& portion(value.uncertainty)
            &&& numbers::scaled(value.calibration_error) <= numbers::scaled(value.uncertainty)
        },
{
    law_unit_interval(value.estimate);
    law_unit_interval(value.calibration_error);
    law_unit_interval(value.uncertainty);
    law_finite_patterns(value.calibration_error);
    law_finite_patterns(value.uncertainty);
    let error = value.calibration_error;
    let doubt = value.uncertainty;
    if portion(error) && portion(doubt) && error < 0x7f80_0000 && doubt < 0x7f80_0000 {
        if error < doubt {
            numbers::law_patterns_ascend(error, doubt);
        } else if doubt < error {
            numbers::law_patterns_ascend(doubt, error);
        }
    }
}

/// More is better on every axis but those of risk and cost.
pub proof fn law_growth_is_rewarded(axis: ForecastAxis)
    ensures
        axis.rewards_growth() <==> match axis {
            ForecastAxis::DeadEndRisk => false,
            ForecastAxis::VerificationCost => false,
            ForecastAxis::KernelAcceptance => true,
            ForecastAxis::ImmediateImprovement => true,
            ForecastAxis::UsefulDescendants => true,
            ForecastAxis::CrossGoalLeverage => true,
            ForecastAxis::CompressionValue => true,
            ForecastAxis::InformationValue => true,
            ForecastAxis::Novelty => true,
        },
{
}

// ---------------------------------------------------------------------------
// Gates
// ---------------------------------------------------------------------------
/// The requirement asks for a gain, above zero, of what others can build on.
pub open spec fn asks_for_a_gain(requirement: ContextualRequirement) -> bool {
    &&& numbers::scaled(requirement.minimum_advantage) > 0
    &&& requirement.axis is UsefulDescendants || requirement.axis is CrossGoalLeverage
}

/// A requirement is valid exactly where its minimum is a number that is not negative.
pub proof fn law_valid_requirements(requirement: ContextualRequirement)
    ensures
        requirement.valid() <==> forecast::finite(requirement.minimum_advantage)
            && numbers::scaled(requirement.minimum_advantage) >= 0,
{
    law_finite_patterns(requirement.minimum_advantage);
}

/// A gate consists of requirements on axes of their own, and one of them asks for a
/// gain that others can build on.
pub proof fn law_valid_gates(requirements: Seq<ContextualRequirement>)
    requires
        challenger::requirements_valid(requirements),
    ensures
        challenger::valid_gate(requirements) <==> {
            &&& forall|i: int, j: int|
                0 <= i < requirements.len() && 0 <= j < requirements.len() && (
                #[trigger] requirements[i]).axis == (#[trigger] requirements[j]).axis ==> i == j
            &&& exists|i: int|
                0 <= i < requirements.len() && asks_for_a_gain(#[trigger] requirements[i])
        },
{
    let axes = challenger::requirement_axes(requirements);
    assert forall|i: int| 0 <= i < requirements.len() implies (asks_for_a_gain(
        #[trigger] requirements[i],
    ) <==> requirements[i].downstream()) by {
        assert(requirements[i].valid());
        law_finite_patterns(requirements[i].minimum_advantage);
    }
    if challenger::valid_gate(requirements) {
        assert forall|i: int, j: int|
            0 <= i < requirements.len() && 0 <= j < requirements.len() && (
            #[trigger] requirements[i]).axis == (#[trigger] requirements[j]).axis implies i == j by {
            assert(axes[i] == axes[j]);
        }
        let i = choose|i: int|
            0 <= i < requirements.len() && (#[trigger] requirements[i]).downstream();
        assert(asks_for_a_gain(requirements[i]));
    }
    if (forall|i: int, j: int|
        0 <= i < requirements.len() && 0 <= j < requirements.len() && (
        #[trigger] requirements[i]).axis == (#[trigger] requirements[j]).axis ==> i == j) && (
    exists|i: int| 0 <= i < requirements.len() && asks_for_a_gain(#[trigger] requirements[i])) {
        let i = choose|i: int|
            0 <= i < requirements.len() && asks_for_a_gain(#[trigger] requirements[i]);
        assert(requirements[i].downstream());
        assert forall|i: int, j: int| 0 <= i < j < axes.len() implies #[trigger] axes[i]
            != #[trigger] axes[j] by {
            assert(axes[i] == requirements[i].axis && axes[j] == requirements[j].axis);
        }
        assert(forecast::distinct_axes(axes));
    }
}

/// Both arms of a campaign that was completed about the subject reported on the axis, and
/// the treatment improved on the control by the minimum.
pub open spec fn measured(
    state: ShadowCampaignState,
    campaign: ShadowCampaignId,
    subject: SubjectId,
    requirement: ContextualRequirement,
    k: int,
) -> bool {
    &&& state.lifecycle is Completed
    &&& pairing::both_reported(state)
    &&& state.specification.id == campaign
    &&& state.specification.subject == subject
    &&& 0 <= k < state.specification.axis_list().len()
    &&& state.specification.axis_list()[k] == requirement.axis
    &&& standing::improved_by(
        requirement.axis,
        state.treatment->Some_0.outcome_list()[k].value,
        state.control->Some_0.outcome_list()[k].value,
        requirement.minimum_advantage,
    )
}

/// What carries a promotion was measured: for each requirement, the campaign that the
/// record names is in the ledger and was completed, and both of its arms reported what
/// meets it.
pub proof fn law_promotions_were_measured(
    ledger: LedgerView,
    record: RecordView,
    i: int,
) -> (found: (int, int))
    requires
        ledger.valid(),
        standing::promotion_carried(record, ledger),
        0 <= i < record.challenger.promotion.len(),
    ensures
        0 <= found.0 < ledger.shadows.len(),
        measured(
            ledger.shadows[found.0],
            record.promoted_by->Some_0,
            record.challenger.product.subject,
            record.challenger.promotion[i],
            found.1,
        ),
{
    let campaign = record.promoted_by->Some_0;
    let subject = record.challenger.product.subject;
    let requirement = record.challenger.promotion[i];
    assert(standing::shown(ledger.contrasts, campaign, subject, requirement));
    let j = choose|j: int|
        0 <= j < ledger.contrasts.len() && standing::shown_by(
            #[trigger] ledger.contrasts[j],
            campaign,
            subject,
            requirement,
        );
    pairing::law_contrasts_set_arms_side_by_side(ledger.shadow_side(), j)
}

/// Nothing valid is promoted without a gain that others can build on: on some axis of
/// useful descendants or leverage, the treatment did better than the control.
pub proof fn law_promotions_are_gains(ledger: LedgerView, record: RecordView) -> (j: int)
    requires
        record.challenger.valid(),
        standing::promotion_carried(record, ledger),
    ensures
        0 <= j < ledger.contrasts.len(),
        ledger.contrasts[j].campaign == record.promoted_by->Some_0,
        ledger.contrasts[j].subject == record.challenger.product.subject,
        ledger.contrasts[j].axis is UsefulDescendants || ledger.contrasts[j].axis
            is CrossGoalLeverage,
        numbers::scaled(ledger.contrasts[j].treatment) > numbers::scaled(
            ledger.contrasts[j].control,
        ),
{
    let requirements = record.challenger.promotion;
    law_valid_gates(requirements);
    let i = choose|i: int|
        0 <= i < requirements.len() && asks_for_a_gain(#[trigger] requirements[i]);
    let requirement = requirements[i];
    assert(requirement.valid());
    law_finite_patterns(requirement.minimum_advantage);
    assert(standing::shown(
        ledger.contrasts,
        record.promoted_by->Some_0,
        record.challenger.product.subject,
        requirement,
    ));
    choose|j: int|
        0 <= j < ledger.contrasts.len() && standing::shown_by(
            #[trigger] ledger.contrasts[j],
            record.promoted_by->Some_0,
            record.challenger.product.subject,
            requirement,
        )
}

/// Some members, at most sixty-four, and none twice.
pub open spec fn membership(members: Seq<SubjectId>) -> bool {
    &&& 0 < members.len() <= challenger::MAXIMUM_RECIPE_MEMBERS
    &&& forall|i: int, j: int|
        0 <= i < members.len() && 0 <= j < members.len() && #[trigger] members[i]
            == #[trigger] members[j] ==> i == j
}

/// A challenger has sources; and it has obligations, unless its product is an index
/// that means nothing beyond the payload that it carries.
pub proof fn law_challengers_have_obligations(value: ChallengerView)
    requires
        value.acceptable(),
    ensures
        membership(value.sources),
        value.obligations.len() > 0 ==> membership(value.obligations),
        value.obligations.len() == 0 ==> value.product.kind is KnowledgeIndex
            && value.product.meaning is NonSemanticIndex && value.product.bytes is Some,
{
}

/// A challenger with sources and obligations is acceptable.
pub proof fn law_obligations_suffice(value: ChallengerView)
    requires
        membership(value.sources),
        membership(value.obligations),
    ensures
        value.acceptable(),
{
}

/// A product without meaning is an index with a payload, and a payload is never empty.
pub proof fn law_valid_products(value: ProductView)
    ensures
        value.valid() <==> {
            &&& value.bytes matches Some(bytes) ==> 0 < bytes.len()
                <= challenger::MAXIMUM_KNOWLEDGE_PRODUCT_BYTES
            &&& value.meaning is NonSemanticIndex ==> value.kind is KnowledgeIndex
            &&& value.bytes is None ==> !(value.meaning is NonSemanticIndex)
        },
{
}

// ---------------------------------------------------------------------------
// Models and mandates
// ---------------------------------------------------------------------------
/// The numbers of a head are finite, its error is a portion, and it has a weight for
/// each feature that the model looks at.
pub open spec fn sound_head(head: HeadView, features: Option<u8>) -> bool {
    &&& forecast::finite(head.intercept)
    &&& forall|i: int|
        0 <= i < head.weights.len() ==> forecast::finite(#[trigger] head.weights[i])
    &&& portion(head.calibration_error)
    &&& features is None ==> head.weights.len() == 0
    &&& features matches Some(count) ==> head.weights.len() == count
}

/// A model has a sound head or more, each on an axis of its own.
pub proof fn law_valid_models(value: ModelView)
    requires
        value.valid(),
    ensures
        value.heads.len() > 0,
        value.features matches Some(count) ==> count <= 64,
        forall|i: int|
            0 <= i < value.heads.len() ==> sound_head(#[trigger] value.heads[i], value.features),
        forall|i: int, j: int|
            0 <= i < value.heads.len() && 0 <= j < value.heads.len() && (
            #[trigger] value.heads[i]).axis == (#[trigger] value.heads[j]).axis ==> i == j,
{
    let axes = crate::model::head_axes(value.heads);
    assert forall|i: int| 0 <= i < value.heads.len() implies sound_head(
        #[trigger] value.heads[i],
        value.features,
    ) by {
        assert(value.heads[i].valid(value.features));
        law_unit_interval(value.heads[i].calibration_error);
    }
    assert forall|i: int, j: int|
        0 <= i < value.heads.len() && 0 <= j < value.heads.len() && (
        #[trigger] value.heads[i]).axis == (#[trigger] value.heads[j]).axis implies i == j by {
        assert(axes[i] == axes[j]);
    }
}

/// A mandate names axes, kinds and schemas, at most sixteen of each but the axes, and
/// nothing twice; it may name no family.
pub proof fn law_acceptable_mandates(value: MandateView)
    requires
        value.acceptable(),
    ensures
        value.axes.len() > 0,
        0 < value.opportunity_kinds.len() <= 16,
        0 < value.feature_schemas.len() <= 16,
        value.routing_families.len() <= 16,
        value.axes.no_duplicates(),
        value.opportunity_kinds.no_duplicates(),
        value.feature_schemas.no_duplicates(),
        value.routing_families.no_duplicates(),
{
}

/// Such a mandate is acceptable.
pub proof fn law_mandates_suffice(value: MandateView)
    requires
        value.axes.len() > 0,
        0 < value.opportunity_kinds.len() <= 16,
        0 < value.feature_schemas.len() <= 16,
        value.routing_families.len() <= 16,
        value.axes.no_duplicates(),
        value.opportunity_kinds.no_duplicates(),
        value.feature_schemas.no_duplicates(),
        value.routing_families.no_duplicates(),
    ensures
        value.acceptable(),
{
}

// ---------------------------------------------------------------------------
// Markets
// ---------------------------------------------------------------------------
/// An opportunity is offered as it is, behind the others: while there is room, with few
/// features, all of them finite.
pub proof fn law_opportunities_are_offered(
    value: MarketView,
    specification: OpportunitySpec,
    features: Seq<u32>,
)
    requires
        value.valid(),
        market::feature_total(value.opportunities) <= u32::MAX,
        value.opportunities.len() <= u32::MAX,
    ensures
        match value.with_opportunity(specification, features) {
            Ok(next) => {
                &&& next.opportunities == value.opportunities.push(
                    OpportunityView { specification, features },
                )
                &&& next.investments == value.investments
                &&& next.limits == value.limits
                &&& next.opportunities.len() <= value.limits.maximum_opportunities
                &&& features.len() <= 64
                &&& forall|i: int|
                    0 <= i < features.len() ==> forecast::finite(#[trigger] features[i])
            },
            Err(IntelligenceError::InvalidFeature) => exists|i: int|
                0 <= i < features.len() && !forecast::finite(#[trigger] features[i]),
            Err(IntelligenceError::CapacityExceeded) => value.opportunities.len()
                >= value.limits.maximum_opportunities || features.len() > 64,
            Err(_) => false,
        },
{
}

/// An investment is offered as it is, behind the others: while there is room, in an
/// opportunity that is on offer.
pub proof fn law_investments_are_offered(value: MarketView, specification: InvestmentSpec)
    requires
        value.valid(),
        value.investments.len() <= u32::MAX,
    ensures
        match value.with_investment(specification) {
            Ok(next) => {
                &&& next.investments == value.investments.push(specification)
                &&& next.opportunities == value.opportunities
                &&& next.limits == value.limits
                &&& next.investments.len() <= value.limits.maximum_investments
                &&& specification.opportunity.0 < value.opportunities.len()
            },
            Err(IntelligenceError::InvalidReference) => specification.opportunity.0
                >= value.opportunities.len(),
            Err(IntelligenceError::CapacityExceeded) => value.investments.len()
                >= value.limits.maximum_investments,
            Err(_) => false,
        },
{
}

/// No valid limit is zero, and no route is wider than the society.
pub proof fn law_valid_limits(limits: IntelligenceLimits)
    ensures
        limits.valid() <==> {
            &&& limits.maximum_opportunities != 0
            &&& limits.maximum_investments != 0
            &&& limits.maximum_bids != 0
            &&& limits.maximum_forecast_cells != 0
            &&& limits.maximum_specialists != 0
            &&& limits.maximum_model_bytes != 0
            &&& limits.maximum_specialists_per_route != 0
            &&& limits.maximum_specialists_per_route <= limits.maximum_specialists
        },
{
}

// ---------------------------------------------------------------------------
// Statistics
// ---------------------------------------------------------------------------
/// How many of some records pass a test.
pub open spec fn how_many(records: Seq<RecordView>, test: spec_fn(RecordView) -> bool) -> nat
    decreases records.len(),
{
    if records.len() == 0 {
        0
    } else if test(records.last()) {
        how_many(records.drop_last(), test) + 1
    } else {
        how_many(records.drop_last(), test)
    }
}

/// The statistics count each standing by itself; what was refuted counts as
/// provisional.
pub proof fn law_each_standing_is_counted(records: Seq<RecordView>)
    ensures
        inspection::standing(records).0 == how_many(
            records,
            |record: RecordView| record.status is Provisional || record.status is Refuted,
        ),
        inspection::standing(records).1 == how_many(
            records,
            |record: RecordView| record.status is Verified,
        ),
        inspection::standing(records).2 == how_many(
            records,
            |record: RecordView| record.status is Promoted,
        ),
        inspection::standing(records).3 == how_many(
            records,
            |record: RecordView| record.status is Invalidated,
        ),
    decreases records.len(),
{
    if records.len() > 0 {
        law_each_standing_is_counted(records.drop_last());
    }
}

// ---------------------------------------------------------------------------
// Lists
// ---------------------------------------------------------------------------
/// Some features are valid where they are few and stand for finite numbers.
pub proof fn law_valid_features(features: Seq<u32>)
    ensures
        receipt::valid_features(features) <==> features.len() <= 64 && forall|i: int|
            0 <= i < features.len() ==> #[trigger] features[i] < 0x7f80_0000 || 0x8000_0000
                <= features[i] < 0xff80_0000,
{
    assert forall|i: int| 0 <= i < features.len() implies (forecast::finite(#[trigger] features[i])
        <==> features[i] < 0x7f80_0000 || 0x8000_0000 <= features[i] < 0xff80_0000) by {
        law_finite_patterns(features[i]);
    }
}

/// A list of forecasts has at most one on each of the nine axes.
pub proof fn law_valid_forecast_lists(forecasts: Seq<Forecast>)
    ensures
        receipt::valid_forecast_list(forecasts) <==> forecasts.len() <= 9 && forall|
            i: int,
            j: int,
        |
            0 <= i < forecasts.len() && 0 <= j < forecasts.len() && (#[trigger] forecasts[i]).axis
                == (#[trigger] forecasts[j]).axis ==> i == j,
{
    let axes = receipt::axes_of(forecasts);
    if receipt::valid_forecast_list(forecasts) {
        assert forall|i: int, j: int|
            0 <= i < forecasts.len() && 0 <= j < forecasts.len() && (#[trigger] forecasts[i]).axis
                == (#[trigger] forecasts[j]).axis implies i == j by {
            assert(axes[i] == axes[j]);
        }
    }
    if forall|i: int, j: int|
        0 <= i < forecasts.len() && 0 <= j < forecasts.len() && (#[trigger] forecasts[i]).axis == (
        #[trigger] forecasts[j]).axis ==> i == j {
        assert forall|i: int, j: int| 0 <= i < j < axes.len() implies (#[trigger] axes[i]) != (
        #[trigger] axes[j]) by {
            assert(axes[i] == forecasts[i].axis && axes[j] == forecasts[j].axis);
        }
    }
}

/// An arm reports something, and on no axis twice.
pub proof fn law_valid_outcomes(outcomes: Seq<TypedOutcome>)
    requires
        shadow::valid_outcomes(outcomes),
    ensures
        outcomes.len() > 0,
        forall|i: int, j: int|
            0 <= i < outcomes.len() && 0 <= j < outcomes.len() && (#[trigger] outcomes[i]).axis == (
            #[trigger] outcomes[j]).axis ==> i == j,
{
    let axes = shadow::outcome_axes(outcomes);
    assert forall|i: int, j: int|
        0 <= i < outcomes.len() && 0 <= j < outcomes.len() && (#[trigger] outcomes[i]).axis == (
        #[trigger] outcomes[j]).axis implies i == j by {
        assert(axes[i] == axes[j]);
    }
}

/// The support of a model is that of its head with the least: no head has less, and one
/// has just that.
pub proof fn law_least_support(heads: Seq<HeadView>)
    ensures
        forall|i: int|
            0 <= i < heads.len() ==> crate::model::least_support(heads) <= (
            #[trigger] heads[i]).support,
        heads.len() > 0 ==> exists|i: int|
            0 <= i < heads.len() && (#[trigger] heads[i]).support == crate::model::least_support(
                heads,
            ),
    decreases heads.len(),
{
    if heads.len() > 0 {
        let front = heads.drop_last();
        law_least_support(front);
        let last = heads.len() - 1;
        assert(heads[last] == heads.last());
        assert forall|i: int| 0 <= i < heads.len() implies crate::model::least_support(heads) <= (
        #[trigger] heads[i]).support by {
            if i < last {
                assert(front[i] == heads[i]);
            }
        }
        if heads.last().support >= crate::model::least_support(front) {
            if front.len() > 0 {
                let i = choose|i: int|
                    0 <= i < front.len() && (#[trigger] front[i]).support
                        == crate::model::least_support(front);
                assert(heads[i] == front[i]);
            }
        }
    }
}

/// The gain in useful descendants that a derived operator has to show is one hundredth,
/// as nearly as it can be written.
pub proof fn lemma_least_descendant_gain()
    ensures
        100 * numbers::scaled(knowledge::LEAST_DESCENDANT_GAIN) <= unit(),
        unit() - 100 * numbers::scaled(knowledge::LEAST_DESCENDANT_GAIN) <= numbers::scaled(
            knowledge::LEAST_DESCENDANT_GAIN,
        ) / 400_000,
{
    let power = vstd::arithmetic::power2::pow2(120) as int;
    vstd::arithmetic::power2::lemma_pow2_adds(30, 120);
    vstd::arithmetic::power2::lemma2_to64();
    vstd::arithmetic::power2::lemma_pow2_pos(120);
    assert(numbers::significand(0x3c23_d70a) == 10_737_418);
    assert(numbers::exponent(0x3c23_d70a) == 120);
    assert(unit() == 1_073_741_824 * power);
    assert(numbers::scaled(0x3c23_d70a) == 10_737_418 * power);
}

} // verus!
