//! Who bids for an investment, and which bid is heard first.
use vstd::prelude::*;

use crate::arena::OpportunitySpec;
use crate::ecology;
use crate::ecology::RevisionView;
use crate::forecast;
use crate::forecast::{ForecastAxis, Precedence, ScoredForecast};
use crate::market::MarketView;
use crate::numbers;
use crate::portfolio;
use crate::portfolio::BidView;
use crate::types::{IntelligenceError, IntelligenceLimits};

verus! {

// ---------------------------------------------------------------------------
// Routes
// ---------------------------------------------------------------------------
/// A specialist is in service and its mandate and its model cover an opportunity with
/// so many features. A mandate without families covers them all, and a model that looks
/// at no feature takes any number of them.
pub open spec fn covers(
    specialist: RevisionView,
    opportunity: OpportunitySpec,
    feature_count: nat,
) -> bool {
    &&& specialist.status is Active
    &&& specialist.mandate.opportunity_kinds.contains(opportunity.kind)
    &&& specialist.mandate.feature_schemas.contains(opportunity.feature_schema)
    &&& specialist.mandate.routing_families.len() > 0
        ==> specialist.mandate.routing_families.contains(opportunity.routing_family)
    &&& specialist.model.features matches Some(count) ==> count == feature_count
}

/// The place is on the route.
pub open spec fn on_route(route: Seq<usize>, place: int) -> bool {
    exists|k: int| 0 <= k < route.len() && #[trigger] route[k] == place
}

/// A route leads to every specialist that covers the opportunity, to no other, and to
/// none twice; the earlier ones come first.
pub proof fn law_routes_lead_to_who_covers(
    specialists: Seq<RevisionView>,
    opportunity: OpportunitySpec,
    feature_count: nat,
)
    requires
        specialists.len() <= usize::MAX,
    ensures
        ({
            let route = ecology::routed_to(specialists, opportunity, feature_count);
            &&& forall|place: int|
                0 <= place < specialists.len() ==> (#[trigger] on_route(route, place) <==> covers(
                    specialists[place],
                    opportunity,
                    feature_count,
                ))
            &&& forall|k: int|
                0 <= k < route.len() ==> 0 <= (#[trigger] route[k]) < specialists.len()
            &&& forall|i: int, j: int|
                0 <= i < j < route.len() ==> #[trigger] route[i] < #[trigger] route[j]
        }),
    decreases specialists.len(),
{
    if specialists.len() > 0 {
        let front = specialists.drop_last();
        law_routes_lead_to_who_covers(front, opportunity, feature_count);
        let shorter = ecology::routed_to(front, opportunity, feature_count);
        let route = ecology::routed_to(specialists, opportunity, feature_count);
        let last = specialists.len() - 1;
        assert forall|place: int| 0 <= place < specialists.len() implies (
        #[trigger] on_route(route, place) <==> covers(
            specialists[place],
            opportunity,
            feature_count,
        )) by {
            if place < last {
                assert(front[place] == specialists[place]);
                assert(on_route(shorter, place) <==> covers(
                    front[place],
                    opportunity,
                    feature_count,
                ));
                if on_route(shorter, place) {
                    let k = choose|k: int|
                        0 <= k < shorter.len() && #[trigger] shorter[k] == place;
                    assert(route[k] == place);
                }
                if on_route(route, place) {
                    let k = choose|k: int| 0 <= k < route.len() && #[trigger] route[k] == place;
                    assert(k < shorter.len());
                    assert(shorter[k] == place);
                }
            } else {
                if covers(specialists[place], opportunity, feature_count) {
                    assert(route[shorter.len() as int] == place);
                }
                if on_route(route, place) {
                    let k = choose|k: int| 0 <= k < route.len() && #[trigger] route[k] == place;
                    if k < shorter.len() {
                        assert(shorter[k] < front.len());
                    }
                }
            }
        }
        assert forall|i: int, j: int| 0 <= i < j < route.len() implies #[trigger] route[i]
            < #[trigger] route[j] by {
            if j < shorter.len() {
                assert(shorter[i] < shorter[j]);
            } else {
                assert(shorter[i] < front.len());
            }
        }
        assert forall|k: int| 0 <= k < route.len() implies 0 <= (#[trigger] route[k])
            < specialists.len() by {
            if k < shorter.len() {
                assert(shorter[k] < front.len());
            }
        }
    }
}

// ---------------------------------------------------------------------------
// Bids
// ---------------------------------------------------------------------------
/// A bid is made for an investment by a specialist that covers its opportunity; its
/// forecasts are those that were evaluated in its turn, one from each head of the model,
/// and all of them on axes of the mandate.
pub open spec fn bid_made(
    market: MarketView,
    specialists: Seq<RevisionView>,
    evaluations: Seq<Seq<ScoredForecast>>,
    bids: Seq<BidView>,
    k: int,
    place: int,
) -> bool {
    let bid = bids[k];
    let specialist = specialists[place];
    let opportunity =
        market.opportunities[market.investments[bid.investment].opportunity.0 as int];
    &&& 0 <= bid.investment < market.investments.len()
    &&& 0 <= place < specialists.len()
    &&& bid.specialist == specialist.id
    &&& covers(specialist, opportunity.specification, opportunity.features.len())
    &&& k < evaluations.len() && bid.forecasts == evaluations[k]
    &&& bid.forecasts.len() == specialist.model.heads.len()
    &&& forall|i: int|
        0 <= i < bid.forecasts.len() ==> specialist.mandate.axes.contains(
            (#[trigger] bid.forecasts[i]).forecast.axis,
        )
}

/// Some specialist made the bid.
pub open spec fn bid_sound(
    market: MarketView,
    specialists: Seq<RevisionView>,
    evaluations: Seq<Seq<ScoredForecast>>,
    bids: Seq<BidView>,
    k: int,
) -> bool {
    exists|place: int| #[trigger] bid_made(market, specialists, evaluations, bids, k, place)
}

/// The specialist in a place has bid for the investment.
pub open spec fn has_bid(
    specialists: Seq<RevisionView>,
    bids: Seq<BidView>,
    investment: int,
    place: int,
) -> bool {
    exists|k: int|
        0 <= k < bids.len() && (#[trigger] bids[k]).investment == investment && bids[k].specialist
            == specialists[place].id
}

proof fn lemma_bid_kept(
    market: MarketView,
    specialists: Seq<RevisionView>,
    evaluations: Seq<Seq<ScoredForecast>>,
    bids: Seq<BidView>,
    bid: BidView,
    k: int,
)
    requires
        0 <= k < bids.len(),
        bid_sound(market, specialists, evaluations, bids, k),
    ensures
        bid_sound(market, specialists, evaluations, bids.push(bid), k),
{
    let place = choose|place: int| #[trigger]
        bid_made(market, specialists, evaluations, bids, k, place);
    assert(bid_made(market, specialists, evaluations, bids.push(bid), k, place));
}

proof fn lemma_route_bids(
    bids: Seq<BidView>,
    market: MarketView,
    investment: int,
    specialists: Seq<RevisionView>,
    route: Seq<usize>,
    limits: IntelligenceLimits,
    evaluations: Seq<Seq<ScoredForecast>>,
    next: Seq<BidView>,
)
    requires
        portfolio::route_bidding(bids, investment, specialists, route, limits, evaluations)
            == Ok::<Seq<BidView>, IntelligenceError>(next),
        0 <= investment < market.investments.len(),
        forall|k: int|
            0 <= k < route.len() ==> 0 <= (#[trigger] route[k]) < specialists.len() && covers(
                specialists[route[k] as int],
                market.opportunities[market.investments[investment].opportunity.0 as int].specification,
                market.opportunities[market.investments[investment].opportunity.0 as int].features.len(),
            ),
        forall|k: int|
            0 <= k < bids.len() ==> #[trigger] bid_sound(
                market,
                specialists,
                evaluations,
                bids,
                k,
            ),
    ensures
        next.len() == bids.len() + route.len(),
        forall|k: int| 0 <= k < bids.len() ==> #[trigger] next[k] == bids[k],
        forall|k: int|
            0 <= k < next.len() ==> #[trigger] bid_sound(
                market,
                specialists,
                evaluations,
                next,
                k,
            ),
        forall|k: int|
            0 <= k < route.len() ==> (#[trigger] next[bids.len() + k]).investment == investment
                && next[bids.len() + k].specialist == specialists[route[k] as int].id,
    decreases route.len(),
{
    if route.len() > 0 {
        let front = route.drop_last();
        let middle = portfolio::route_bidding(
            bids,
            investment,
            specialists,
            front,
            limits,
            evaluations,
        )->Ok_0;
        assert forall|k: int| 0 <= k < front.len() implies 0 <= (#[trigger] front[k])
            < specialists.len() && covers(
            specialists[front[k] as int],
            market.opportunities[market.investments[investment].opportunity.0 as int].specification,
            market.opportunities[market.investments[investment].opportunity.0 as int].features.len(),
        ) by {
            assert(front[k] == route[k]);
        }
        lemma_route_bids(
            bids,
            market,
            investment,
            specialists,
            front,
            limits,
            evaluations,
            middle,
        );
        let last = route[route.len() - 1] as int;
        let bid = next.last();
        assert(next == middle.push(bid));
        assert forall|k: int| 0 <= k < next.len() implies #[trigger] bid_sound(
            market,
            specialists,
            evaluations,
            next,
            k,
        ) by {
            if k < middle.len() {
                assert(bid_sound(market, specialists, evaluations, middle, k));
                lemma_bid_kept(market, specialists, evaluations, middle, bid, k);
            } else {
                assert(bid_made(market, specialists, evaluations, next, k, last));
            }
        }
        assert forall|k: int| 0 <= k < route.len() implies (
        #[trigger] next[bids.len() + k]).investment == investment && next[bids.len()
            + k].specialist == specialists[route[k] as int].id by {
            if k < front.len() {
                assert(next[bids.len() + k] == middle[bids.len() + k]);
                assert(front[k] == route[k]);
            }
        }
    } else {
        assert(next == bids);
    }
}

/// Every bid is made by a specialist that covers the opportunity, with the forecasts
/// that were evaluated in its turn; and every specialist that covers the opportunity of
/// an investment has bid for it.
pub proof fn law_who_covers_bids(
    market: MarketView,
    specialists: Seq<RevisionView>,
    limits: IntelligenceLimits,
    evaluations: Seq<Seq<ScoredForecast>>,
    count: nat,
    bids: Seq<BidView>,
)
    requires
        specialists.len() <= usize::MAX,
        count <= market.investments.len(),
        portfolio::bids_for(market, specialists, limits, evaluations, count) == Ok::<
            Seq<BidView>,
            IntelligenceError,
        >(bids),
    ensures
        forall|k: int|
            0 <= k < bids.len() ==> #[trigger] bid_sound(
                market,
                specialists,
                evaluations,
                bids,
                k,
            ),
        forall|investment: int, place: int|
            0 <= investment < count && 0 <= place < specialists.len() && covers(
                specialists[place],
                market.opportunities[market.investments[investment].opportunity.0 as int].specification,
                market.opportunities[market.investments[investment].opportunity.0 as int].features.len(),
            ) ==> #[trigger] has_bid(specialists, bids, investment, place),
    decreases count,
{
    if count > 0 {
        let middle = portfolio::bids_for(
            market,
            specialists,
            limits,
            evaluations,
            (count - 1) as nat,
        )->Ok_0;
        law_who_covers_bids(
            market,
            specialists,
            limits,
            evaluations,
            (count - 1) as nat,
            middle,
        );
        let last = count - 1;
        let opportunity =
            market.opportunities[market.investments[last].opportunity.0 as int];
        let route = portfolio::route_of(market, last, specialists);
        law_routes_lead_to_who_covers(
            specialists,
            opportunity.specification,
            opportunity.features.len(),
        );
        assert forall|k: int| 0 <= k < route.len() implies 0 <= (#[trigger] route[k])
            < specialists.len() && covers(
            specialists[route[k] as int],
            opportunity.specification,
            opportunity.features.len(),
        ) by {
            assert(on_route(route, route[k] as int));
        }
        lemma_route_bids(
            middle,
            market,
            last,
            specialists,
            route,
            limits,
            evaluations,
            bids,
        );
        assert forall|investment: int, place: int|
            0 <= investment < count && 0 <= place < specialists.len() && covers(
                specialists[place],
                market.opportunities[market.investments[investment].opportunity.0 as int].specification,
                market.opportunities[market.investments[investment].opportunity.0 as int].features.len(),
            ) implies #[trigger] has_bid(specialists, bids, investment, place) by {
            if investment < last {
                assert(has_bid(specialists, middle, investment, place));
                let k = choose|k: int|
                    0 <= k < middle.len() && (#[trigger] middle[k]).investment == investment
                        && middle[k].specialist == specialists[place].id;
                assert(bids[k] == middle[k]);
            } else {
                assert(on_route(route, place));
                let k = choose|k: int| 0 <= k < route.len() && #[trigger] route[k] == place;
                assert(bids[middle.len() + k].specialist == specialists[place].id);
            }
        }
    }
}

// ---------------------------------------------------------------------------
// Forecasts
// ---------------------------------------------------------------------------
/// In which order axes are looked at.
pub open spec fn turn_of(axis: ForecastAxis) -> int {
    match axis {
        ForecastAxis::ImmediateImprovement => 0,
        ForecastAxis::UsefulDescendants => 1,
        ForecastAxis::CrossGoalLeverage => 2,
        ForecastAxis::CompressionValue => 3,
        ForecastAxis::InformationValue => 4,
        ForecastAxis::Novelty => 5,
        ForecastAxis::KernelAcceptance => 6,
        ForecastAxis::DeadEndRisk => 7,
        ForecastAxis::VerificationCost => 8,
    }
}

/// The forecasts stand in the order in which axes are looked at, one on each.
pub open spec fn in_turn(forecasts: Seq<ScoredForecast>) -> bool {
    forall|i: int, j: int|
        0 <= i < j < forecasts.len() ==> turn_of((#[trigger] forecasts[i]).forecast.axis) < turn_of(
            (#[trigger] forecasts[j]).forecast.axis,
        )
}

/// Two forecasts on one axis.
pub open spec fn shared(
    left: Seq<ScoredForecast>,
    right: Seq<ScoredForecast>,
    i: int,
    j: int,
) -> bool {
    &&& 0 <= i < left.len()
    &&& 0 <= j < right.len()
    &&& left[i].forecast.axis == right[j].forecast.axis
}

/// One finite number is larger than another.
pub open spec fn larger(left: u32, right: u32) -> bool {
    &&& forecast::finite(left)
    &&& forecast::finite(right)
    &&& numbers::scaled(left) > numbers::scaled(right)
}

/// Of two finite numbers the larger has the higher rank.
pub proof fn law_ranks_follow_numbers(left: u32, right: u32)
    requires
        larger(left, right),
    ensures
        forecast::total_rank(left) > forecast::total_rank(right),
{
    if left < 0x8000_0000 && right < 0x8000_0000 {
        if left < right {
            numbers::law_patterns_ascend(left, right);
        }
    } else if left >= 0x8000_0000 && right >= 0x8000_0000 {
        let a = (left - 0x8000_0000) as u32;
        let b = (right - 0x8000_0000) as u32;
        numbers::law_patterns_scale(a);
        numbers::law_patterns_scale(b);
        if b < a {
            numbers::law_patterns_ascend(b, a);
        }
    } else if left >= 0x8000_0000 {
        let a = (left - 0x8000_0000) as u32;
        numbers::law_patterns_scale(a);
        if a > 0 {
            numbers::law_patterns_ascend(0, a);
        }
        if right > 0 {
            numbers::law_patterns_ascend(0, right);
        }
    }
}

proof fn lemma_matched_shared(left: Seq<ScoredForecast>, right: Seq<ScoredForecast>, k: int) -> (at: (
    int,
    int,
))
    requires
        0 <= k < forecast::matched(left, right).len(),
    ensures
        shared(left, right, at.0, at.1),
        forecast::matched(left, right)[k] == (left[at.0], right[at.1]),
    decreases left.len() + right.len(),
{
    let a = left[0].forecast.axis.tier();
    let b = right[0].forecast.axis.tier();
    if a < b {
        let (i, j) = lemma_matched_shared(left.skip(1), right, k);
        (i + 1, j)
    } else if a > b {
        let (i, j) = lemma_matched_shared(left, right.skip(1), k);
        (i, j + 1)
    } else if k == 0 {
        (0, 0)
    } else {
        let (i, j) = lemma_matched_shared(left.skip(1), right.skip(1), k - 1);
        (i + 1, j + 1)
    }
}

proof fn lemma_skipped_in_turn(forecasts: Seq<ScoredForecast>)
    requires
        in_turn(forecasts),
        forecasts.len() > 0,
    ensures
        in_turn(forecasts.skip(1)),
{
    let rest = forecasts.skip(1);
    assert forall|i: int, j: int| 0 <= i < j < rest.len() implies turn_of(
        (#[trigger] rest[i]).forecast.axis,
    ) < turn_of((#[trigger] rest[j]).forecast.axis) by {
        assert(rest[i] == forecasts[i + 1] && rest[j] == forecasts[j + 1]);
    }
}

/// Shared forecasts are matched, those on earlier axes first.
proof fn lemma_shared_matched(
    left: Seq<ScoredForecast>,
    right: Seq<ScoredForecast>,
    i: int,
    j: int,
) -> (k: int)
    requires
        in_turn(left),
        in_turn(right),
        shared(left, right, i, j),
    ensures
        0 <= k < forecast::matched(left, right).len(),
        forecast::matched(left, right)[k] == (left[i], right[j]),
        forall|m: int|
            0 <= m < k ==> turn_of((#[trigger] forecast::matched(left, right)[m]).0.forecast.axis)
                < turn_of(left[i].forecast.axis),
    decreases left.len() + right.len(),
{
    let a = left[0].forecast.axis.tier();
    let b = right[0].forecast.axis.tier();
    lemma_skipped_in_turn(left);
    lemma_skipped_in_turn(right);
    assert(a == turn_of(left[0].forecast.axis) && b == turn_of(right[0].forecast.axis));
    if i > 0 {
        assert(turn_of(left[0].forecast.axis) < turn_of(left[i].forecast.axis));
    }
    if j > 0 {
        assert(turn_of(right[0].forecast.axis) < turn_of(right[j].forecast.axis));
    }
    if a < b {
        assert(i > 0);
        lemma_shared_matched(left.skip(1), right, i - 1, j)
    } else if a > b {
        assert(j > 0);
        lemma_shared_matched(left, right.skip(1), i, j - 1)
    } else if i == 0 || j == 0 {
        assert(i == 0 && j == 0);
        0
    } else {
        let k = lemma_shared_matched(left.skip(1), right.skip(1), i - 1, j - 1);
        let rest = forecast::matched(left.skip(1), right.skip(1));
        let all = forecast::matched(left, right);
        assert(all == seq![(left[0], right[0])] + rest);
        assert forall|m: int| 0 <= m < k + 1 implies turn_of((#[trigger] all[m]).0.forecast.axis)
            < turn_of(left[i].forecast.axis) by {
            if m > 0 {
                assert(all[m] == rest[m - 1]);
            }
        }
        k + 1
    }
}

/// Forecasts that promise more on some shared axis, and are as good on every other,
/// come first.
pub proof fn law_dominating_forecasts_come_first(
    left: Seq<ScoredForecast>,
    right: Seq<ScoredForecast>,
    i: int,
    j: int,
)
    requires
        in_turn(left),
        in_turn(right),
        shared(left, right, i, j),
        larger(left[i].conservative_value, right[j].conservative_value),
        forall|a: int, b: int| #[trigger]
            shared(left, right, a, b) ==> left[a].conservative_value == right[b].conservative_value
                || larger(left[a].conservative_value, right[b].conservative_value),
    ensures
        forecast::vector_order(left, right) is Before,
        forecast::vector_order(right, left) is After,
{
    let pairs = forecast::matched(left, right);
    let k = lemma_shared_matched(left, right, i, j);
    law_ranks_follow_numbers(left[i].conservative_value, right[j].conservative_value);
    assert(forecast::total_rank(pairs[k].0.conservative_value) > forecast::total_rank(
        pairs[k].1.conservative_value,
    ));
    assert forall|m: int| 0 <= m < pairs.len() implies forecast::total_rank(
        (#[trigger] pairs[m]).0.conservative_value,
    ) >= forecast::total_rank(pairs[m].1.conservative_value) by {
        let (a, b) = lemma_matched_shared(left, right, m);
        assert(shared(left, right, a, b));
        if larger(left[a].conservative_value, right[b].conservative_value) {
            law_ranks_follow_numbers(left[a].conservative_value, right[b].conservative_value);
        }
    }
    forecast::law_vector_order_is_antisymmetric(left, right);
}

proof fn lemma_first_difference(pairs: Seq<(ScoredForecast, ScoredForecast)>, k: int)
    requires
        0 <= k < pairs.len(),
        forall|m: int| 0 <= m < k ==> (#[trigger] pairs[m]).0 == pairs[m].1,
        forecast::compatible_order(pairs[k].0, pairs[k].1) is Before,
    ensures
        forecast::first_difference(pairs) is Before,
    decreases pairs.len(),
{
    let front = pairs.drop_last();
    if k < front.len() {
        assert forall|m: int| 0 <= m < k implies (#[trigger] front[m]).0 == front[m].1 by {
            assert(front[m] == pairs[m]);
        }
        lemma_first_difference(front, k);
    } else {
        lemma_no_difference(front);
    }
}

proof fn lemma_no_difference(pairs: Seq<(ScoredForecast, ScoredForecast)>)
    requires
        forall|m: int| 0 <= m < pairs.len() ==> (#[trigger] pairs[m]).0 == pairs[m].1,
    ensures
        forecast::first_difference(pairs) is Tied,
    decreases pairs.len(),
{
    if pairs.len() > 0 {
        lemma_no_difference(pairs.drop_last());
    }
}

/// Of two forecasts on one axis the first is better: it promises more; or as much with
/// a smaller error; or with as small an error and less uncertainty; or with more
/// support, all else being the same.
pub open spec fn better_on_axis(left: ScoredForecast, right: ScoredForecast) -> bool {
    let a = left.forecast;
    let b = right.forecast;
    if left.conservative_value != right.conservative_value {
        larger(left.conservative_value, right.conservative_value)
    } else if a.calibration_error != b.calibration_error {
        larger(b.calibration_error, a.calibration_error)
    } else if a.uncertainty != b.uncertainty {
        larger(b.uncertainty, a.uncertainty)
    } else {
        a.support > b.support
    }
}

/// Where the first shared axis on which two bids differ tells them apart, and the other
/// side promises more nowhere or the first promises more there, the first axis decides.
pub proof fn law_first_difference_decides(
    left: Seq<ScoredForecast>,
    right: Seq<ScoredForecast>,
    i: int,
    j: int,
)
    requires
        in_turn(left),
        in_turn(right),
        shared(left, right, i, j),
        better_on_axis(left[i], right[j]),
        forall|a: int, b: int| #[trigger]
            shared(left, right, a, b) && a < i ==> left[a] == right[b],
        left[i].conservative_value != right[j].conservative_value || forall|a: int, b: int|
            #[trigger]
            shared(left, right, a, b) ==> left[a].conservative_value
                == right[b].conservative_value || larger(
                left[a].conservative_value,
                right[b].conservative_value,
            ),
    ensures
        forecast::vector_order(left, right) is Before,
        forecast::vector_order(right, left) is After,
{
    let pairs = forecast::matched(left, right);
    let k = lemma_shared_matched(left, right, i, j);
    let a = left[i];
    let b = right[j];
    if larger(a.conservative_value, b.conservative_value) {
        law_ranks_follow_numbers(a.conservative_value, b.conservative_value);
    } else if larger(b.forecast.calibration_error, a.forecast.calibration_error) {
        law_ranks_follow_numbers(b.forecast.calibration_error, a.forecast.calibration_error);
    } else if larger(b.forecast.uncertainty, a.forecast.uncertainty) {
        law_ranks_follow_numbers(b.forecast.uncertainty, a.forecast.uncertainty);
    }
    assert(forecast::compatible_order(a, b) is Before);
    assert forall|m: int| 0 <= m < k implies (#[trigger] pairs[m]).0 == pairs[m].1 by {
        let (p, q) = lemma_matched_shared(left, right, m);
        assert(shared(left, right, p, q));
        if p > i {
            assert(turn_of(left[i].forecast.axis) < turn_of(left[p].forecast.axis));
        }
        assert(p != i);
    }
    lemma_first_difference(pairs, k);
    if a.conservative_value != b.conservative_value {
        assert(forecast::total_rank(pairs[k].0.conservative_value) > forecast::total_rank(
            pairs[k].1.conservative_value,
        ));
    } else {
        assert forall|m: int| 0 <= m < pairs.len() implies forecast::total_rank(
            (#[trigger] pairs[m]).0.conservative_value,
        ) >= forecast::total_rank(pairs[m].1.conservative_value) by {
            let (p, q) = lemma_matched_shared(left, right, m);
            assert(shared(left, right, p, q));
            if larger(left[p].conservative_value, right[q].conservative_value) {
                law_ranks_follow_numbers(left[p].conservative_value, right[q].conservative_value);
            }
        }
    }
    forecast::law_vector_order_is_antisymmetric(left, right);
}

// ---------------------------------------------------------------------------
// Ranking
// ---------------------------------------------------------------------------
/// How early the investment of a bid is preferred; less comes first.
pub open spec fn preference(market: MarketView, bid: BidView) -> u32 {
    market.investments[bid.investment].preference_priority
}

/// No bid stands before one whose investment is preferred.
pub open spec fn by_preference(market: MarketView, bids: Seq<BidView>) -> bool {
    forall|i: int, j: int|
        0 <= i < j < bids.len() ==> preference(market, #[trigger] bids[i]) <= preference(
            market,
            #[trigger] bids[j],
        )
}

proof fn lemma_order_by_preference(market: MarketView, left: BidView, right: BidView)
    ensures
        portfolio::bid_order(market, left, right) == Precedence::Before ==> preference(market, left)
            <= preference(market, right),
        portfolio::bid_order(market, left, right) != Precedence::Before ==> preference(
            market,
            right,
        ) <= preference(market, left),
{
    reveal(portfolio::bid_order);
}

proof fn lemma_inserted_by_preference(
    market: MarketView,
    list: Seq<BidView>,
    bid: BidView,
    place: int,
)
    requires
        by_preference(market, list),
        0 <= place <= list.len(),
        forall|i: int|
            0 <= i < place ==> preference(market, #[trigger] list[i]) <= preference(market, bid),
        place < list.len() ==> preference(market, bid) <= preference(market, list[place]),
    ensures
        by_preference(market, list.insert(place, bid)),
{
    let next = list.insert(place, bid);
    assert forall|i: int, j: int| 0 <= i < j < next.len() implies preference(
        market,
        #[trigger] next[i],
    ) <= preference(market, #[trigger] next[j]) by {
        if j < place {
            assert(next[i] == list[i] && next[j] == list[j]);
        } else if j == place {
            assert(next[i] == list[i]);
        } else if i == place {
            assert(next[j] == list[j - 1]);
            if place < j - 1 {
                assert(preference(market, list[place]) <= preference(market, list[j - 1]));
            }
        } else if i < place {
            assert(next[i] == list[i] && next[j] == list[j - 1]);
        } else {
            assert(next[i] == list[i - 1] && next[j] == list[j - 1]);
        }
    }
}

/// Whatever specialists forecast, no bid stands before one whose investment is
/// preferred.
pub proof fn law_bids_are_ranked_by_preference(market: MarketView, bids: Seq<BidView>)
    ensures
        by_preference(market, portfolio::ranked(market, bids)),
    decreases bids.len(),
{
    if bids.len() > 0 {
        let bid = bids.last();
        let list = portfolio::ranked(market, bids.drop_last());
        law_bids_are_ranked_by_preference(market, bids.drop_last());
        portfolio::lemma_bid_place(market, list, bid);
        let place = portfolio::bid_place(market, list, bid);
        assert forall|i: int| 0 <= i < place implies preference(market, #[trigger] list[i])
            <= preference(market, bid) by {
            lemma_order_by_preference(market, bid, list[i]);
        }
        if place < list.len() {
            lemma_order_by_preference(market, bid, list[place]);
        }
        lemma_inserted_by_preference(market, list, bid, place);
    }
}

/// Of two bids for equally preferred investments the one with the better forecasts
/// stands first, wherever the order of all bids is consistent.
pub proof fn law_better_bids_stand_first(
    market: MarketView,
    bids: Seq<BidView>,
    i: int,
    j: int,
)
    requires
        portfolio::consistent(market, bids),
        0 <= i < portfolio::ranked(market, bids).len(),
        0 <= j < portfolio::ranked(market, bids).len(),
        ({
            let left = portfolio::ranked(market, bids)[i];
            let right = portfolio::ranked(market, bids)[j];
            &&& market.investments[left.investment].preference_priority
                == market.investments[right.investment].preference_priority
            &&& forecast::vector_order(left.forecasts, right.forecasts) is Before
        }),
    ensures
        i < j,
{
    let ranked = portfolio::ranked(market, bids);
    portfolio::law_consistent_bids_are_sorted(market, bids);
    reveal(portfolio::bid_order);
    forecast::law_vector_order_is_antisymmetric(ranked[i].forecasts, ranked[j].forecasts);
    if j < i {
        assert(portfolio::bid_order(market, ranked[j], ranked[i]) != Precedence::After);
    }
}

/// Of two bids for equally preferred investments, with forecasts that do not tell them
/// apart, the one for the investment that takes less stands first: the first resource in
/// which they differ decides. Where they take the same, the investment that was offered
/// first does.
pub proof fn law_cheaper_bids_stand_first(
    market: MarketView,
    bids: Seq<BidView>,
    i: int,
    j: int,
)
    requires
        portfolio::consistent(market, bids),
        0 <= i < portfolio::ranked(market, bids).len(),
        0 <= j < portfolio::ranked(market, bids).len(),
        ({
            let left = portfolio::ranked(market, bids)[i];
            let right = portfolio::ranked(market, bids)[j];
            let a = market.investments[left.investment].resources.upper;
            let b = market.investments[right.investment].resources.upper;
            &&& preference(market, left) == preference(market, right)
            &&& forecast::vector_order(left.forecasts, right.forecasts) is Tied
            &&& a.cpu_time_ns <= b.cpu_time_ns
            &&& a.cpu_time_ns == b.cpu_time_ns ==> a.resident_bytes <= b.resident_bytes
            &&& a.cpu_time_ns == b.cpu_time_ns && a.resident_bytes == b.resident_bytes
                ==> a.durable_bytes <= b.durable_bytes
            &&& a.cpu_time_ns == b.cpu_time_ns && a.resident_bytes == b.resident_bytes
                && a.durable_bytes == b.durable_bytes ==> a.elapsed_time_ns <= b.elapsed_time_ns
            &&& a.cpu_time_ns == b.cpu_time_ns && a.resident_bytes == b.resident_bytes
                && a.durable_bytes == b.durable_bytes && a.elapsed_time_ns == b.elapsed_time_ns
                ==> a.verification_requests <= b.verification_requests
            &&& a == b ==> left.investment < right.investment
        }),
    ensures
        i < j,
{
    let ranked = portfolio::ranked(market, bids);
    portfolio::law_consistent_bids_are_sorted(market, bids);
    reveal(portfolio::bid_order);
    forecast::law_vector_order_is_antisymmetric(ranked[i].forecasts, ranked[j].forecasts);
    if j < i {
        assert(portfolio::bid_order(market, ranked[j], ranked[i]) != Precedence::After);
    }
}

// ---------------------------------------------------------------------------
// Room
// ---------------------------------------------------------------------------
/// How many forecasts some bids hold.
pub open spec fn held(bids: Seq<BidView>) -> int
    decreases bids.len(),
{
    if bids.len() == 0 {
        0
    } else {
        held(bids.drop_last()) + bids.last().forecasts.len()
    }
}

proof fn lemma_held(bids: Seq<BidView>)
    ensures
        portfolio::cells(bids) == held(bids),
    decreases bids.len(),
{
    if bids.len() > 0 {
        lemma_held(bids.drop_last());
    }
}

proof fn lemma_route_within(
    bids: Seq<BidView>,
    investment: int,
    specialists: Seq<RevisionView>,
    route: Seq<usize>,
    limits: IntelligenceLimits,
    evaluations: Seq<Seq<ScoredForecast>>,
    next: Seq<BidView>,
)
    requires
        portfolio::route_bidding(bids, investment, specialists, route, limits, evaluations)
            == Ok::<Seq<BidView>, IntelligenceError>(next),
        bids.len() <= limits.maximum_bids,
        held(bids) <= limits.maximum_forecast_cells,
    ensures
        next.len() == bids.len() + route.len(),
        next.len() <= limits.maximum_bids,
        held(next) <= limits.maximum_forecast_cells,
    decreases route.len(),
{
    if route.len() > 0 {
        let middle = portfolio::route_bidding(
            bids,
            investment,
            specialists,
            route.drop_last(),
            limits,
            evaluations,
        )->Ok_0;
        lemma_route_within(
            bids,
            investment,
            specialists,
            route.drop_last(),
            limits,
            evaluations,
            middle,
        );
        lemma_held(middle);
        assert(next.drop_last() =~= middle);
    }
}

/// There are no more bids, and no more forecasts in them, than the limits let be; and no
/// more bids than as many for each investment as one route may have.
pub proof fn law_bids_are_few(
    market: MarketView,
    specialists: Seq<RevisionView>,
    limits: IntelligenceLimits,
    evaluations: Seq<Seq<ScoredForecast>>,
    count: nat,
    bids: Seq<BidView>,
)
    requires
        portfolio::bids_for(market, specialists, limits, evaluations, count) == Ok::<
            Seq<BidView>,
            IntelligenceError,
        >(bids),
        market.valid(),
        count <= market.investments.len(),
        ecology::fanout_within(specialists, limits.maximum_specialists_per_route as nat),
    ensures
        bids.len() <= limits.maximum_bids,
        held(bids) <= limits.maximum_forecast_cells,
        bids.len() <= count * limits.maximum_specialists_per_route,
    decreases count,
{
    if count > 0 {
        let middle = portfolio::bids_for(
            market,
            specialists,
            limits,
            evaluations,
            (count - 1) as nat,
        )->Ok_0;
        law_bids_are_few(market, specialists, limits, evaluations, (count - 1) as nat, middle);
        let last = count - 1;
        let route = portfolio::route_of(market, last, specialists);
        lemma_route_within(middle, last, specialists, route, limits, evaluations, bids);
        let opportunity = market.opportunities[market.investments[last].opportunity.0 as int];
        ecology::lemma_routed_len(
            specialists,
            opportunity.specification,
            opportunity.features.len(),
        );
        let width = limits.maximum_specialists_per_route as int;
        assert(last * width + width == count * width) by (nonlinear_arith)
            requires
                last == count - 1,
        ;
    } else {
        assert(count * limits.maximum_specialists_per_route == 0) by (nonlinear_arith)
            requires
                count == 0,
        ;
    }
}

/// The room that is laid out for bids is enough for those on a market within the limits.
pub proof fn law_room_for_bids_is_enough(
    market: MarketView,
    specialists: Seq<RevisionView>,
    limits: IntelligenceLimits,
    evaluations: Seq<Seq<ScoredForecast>>,
    bids: Seq<BidView>,
)
    requires
        portfolio::bids_for(
            market,
            specialists,
            limits,
            evaluations,
            market.investments.len(),
        ) == Ok::<Seq<BidView>, IntelligenceError>(bids),
        market.valid(),
        market.limits == limits,
        ecology::fanout_within(specialists, limits.maximum_specialists_per_route as nat),
    ensures
        limits.bids_counted() matches Ok(room) ==> bids.len() <= room,
{
    law_bids_are_few(
        market,
        specialists,
        limits,
        evaluations,
        market.investments.len(),
        bids,
    );
    let offered = market.investments.len() as int;
    let most = limits.maximum_investments as int;
    let width = limits.maximum_specialists_per_route as int;
    assert(offered * width <= most * width) by (nonlinear_arith)
        requires
            offered <= most,
            width >= 0,
    ;
}

} // verus!
