//! How a portfolio is chosen from a market: one investment by bootstrap
//! priority, then those that specialists bid for, then the rest by preference.
use vstd::prelude::*;

use crate::ecology;
use crate::ecology::RevisionView;
use crate::forecast;
use crate::forecast::{Forecast, Precedence, ScoredForecast};
use crate::investment;
use crate::market::MarketView;
use crate::order;
use crate::order::Ranked;
use crate::search;
use crate::types::{
    AllocationSource, IntelligenceError, IntelligenceLimits, ResourceVector, SpecialistRevisionId,
};

verus! {

// ---------------------------------------------------------------------------
// Choices
// ---------------------------------------------------------------------------
/// An investment that somebody asks for, with the forecasts that speak for it.
#[verifier::ext_equal]
pub struct OfferView {
    pub investment: int,
    pub source: AllocationSource,
    pub forecasts: Seq<Forecast>,
}

/// An investment that was chosen.
#[verifier::ext_equal]
pub struct AllocationView {
    pub investment: int,
    pub source: AllocationSource,
    pub bootstrap_priority: u32,
    pub resources: ResourceVector,
    pub forecasts: Seq<Forecast>,
}

/// What has been chosen so far, and what that takes.
#[verifier::ext_equal]
pub struct ChoiceView {
    pub allocations: Seq<AllocationView>,
    pub reserved: ResourceVector,
}

/// Some allocation is of this investment.
pub open spec fn chosen(allocations: Seq<AllocationView>, investment: int) -> bool {
    exists|i: int|
        0 <= i < allocations.len() && (#[trigger] allocations[i]).investment == investment
}

impl ChoiceView {
    pub open spec fn nothing() -> ChoiceView {
        ChoiceView { allocations: Seq::empty(), reserved: ResourceVector::zero() }
    }

    /// The choice once an offer has been considered. An offer is passed over where
    /// there is no room, where its investment was chosen already, or where it would
    /// take more than is allowed.
    pub open spec fn considering(
        self,
        market: MarketView,
        offer: OfferView,
        allowance: ResourceVector,
        limit: nat,
    ) -> Result<ChoiceView, IntelligenceError> {
        let specification = market.investments[offer.investment];
        if self.allocations.len() >= limit || chosen(self.allocations, offer.investment) {
            Ok(self)
        } else {
            match self.reserved.sum(specification.resources.upper) {
                None => Err(IntelligenceError::ResourceOverflow),
                Some(reserved) => if !reserved.within(allowance) {
                    Ok(self)
                } else {
                    Ok(
                        ChoiceView {
                            allocations: self.allocations.push(
                                AllocationView {
                                    investment: offer.investment,
                                    source: offer.source,
                                    bootstrap_priority: specification.bootstrap_priority,
                                    resources: specification.resources.upper,
                                    forecasts: offer.forecasts,
                                },
                            ),
                            reserved,
                        },
                    )
                },
            }
        }
    }

    /// The choice once some offers have been considered in order.
    pub open spec fn considering_all(
        self,
        market: MarketView,
        offers: Seq<OfferView>,
        allowance: ResourceVector,
        limit: nat,
    ) -> Result<ChoiceView, IntelligenceError>
        decreases offers.len(),
    {
        if offers.len() == 0 {
            Ok(self)
        } else {
            match self.considering_all(market, offers.drop_last(), allowance, limit) {
                Err(error) => Err(error),
                Ok(choice) => choice.considering(market, offers.last(), allowance, limit),
            }
        }
    }
}

/// What some allocations take together.
pub open spec fn taken_by(allocations: Seq<AllocationView>) -> Option<ResourceVector>
    decreases allocations.len(),
{
    if allocations.len() == 0 {
        Some(ResourceVector::zero())
    } else {
        match taken_by(allocations.drop_last()) {
            None => None,
            Some(total) => total.sum(allocations.last().resources),
        }
    }
}

/// No investment is chosen twice.
pub open spec fn chosen_once(allocations: Seq<AllocationView>) -> bool {
    forall|i: int, j: int|
        0 <= i < j < allocations.len() ==> (#[trigger] allocations[i]).investment != (
        #[trigger] allocations[j]).investment
}

/// A choice that keeps what was promised: no more than the limit, nothing twice,
/// and what it takes is counted and allowed.
pub open spec fn sound_choice(choice: ChoiceView, allowance: ResourceVector, limit: nat) -> bool {
    &&& choice.allocations.len() <= limit
    &&& chosen_once(choice.allocations)
    &&& taken_by(choice.allocations) == Some(choice.reserved)
    &&& choice.allocations.len() > 0 ==> choice.reserved.within(allowance)
}

/// Considering offers keeps a choice sound.
pub proof fn law_choices_stay_sound(
    choice: ChoiceView,
    market: MarketView,
    offers: Seq<OfferView>,
    allowance: ResourceVector,
    limit: nat,
)
    requires
        sound_choice(choice, allowance, limit),
    ensures
        choice.considering_all(market, offers, allowance, limit) matches Ok(next) ==> sound_choice(
            next,
            allowance,
            limit,
        ),
    decreases offers.len(),
{
    if offers.len() > 0 {
        law_choices_stay_sound(choice, market, offers.drop_last(), allowance, limit);
        match choice.considering_all(market, offers.drop_last(), allowance, limit) {
            Err(_) => {},
            Ok(before) => {
                let offer = offers.last();
                match before.considering(market, offer, allowance, limit) {
                    Err(_) => {},
                    Ok(next) => {
                        if next.allocations.len() > before.allocations.len() {
                            assert(next.allocations.drop_last() =~= before.allocations);
                            assert forall|i: int, j: int|
                                0 <= i < j < next.allocations.len() implies (
                            #[trigger] next.allocations[i]).investment != (
                            #[trigger] next.allocations[j]).investment by {
                                if j == before.allocations.len() {
                                    assert(before.allocations[i] == next.allocations[i]);
                                } else {
                                    assert(before.allocations[i] == next.allocations[i]);
                                    assert(before.allocations[j] == next.allocations[j]);
                                }
                            }
                        }
                    },
                }
            },
        }
    }
}

/// What was chosen before stays chosen, in its place.
pub proof fn law_choices_are_kept(
    choice: ChoiceView,
    market: MarketView,
    offers: Seq<OfferView>,
    allowance: ResourceVector,
    limit: nat,
)
    ensures
        choice.considering_all(market, offers, allowance, limit) matches Ok(next)
            ==> choice.allocations.len() <= next.allocations.len() && next.allocations.take(
            choice.allocations.len() as int,
        ) == choice.allocations,
    decreases offers.len(),
{
    if offers.len() > 0 {
        law_choices_are_kept(choice, market, offers.drop_last(), allowance, limit);
        match choice.considering_all(market, offers.drop_last(), allowance, limit) {
            Err(_) => {},
            Ok(before) => match before.considering(market, offers.last(), allowance, limit) {
                Err(_) => {},
                Ok(next) => {
                    assert(next.allocations.take(choice.allocations.len() as int)
                        =~= before.allocations.take(choice.allocations.len() as int));
                },
            },
        }
    } else {
        assert(choice.allocations.take(choice.allocations.len() as int) =~= choice.allocations);
    }
}

/// What is taken already leaves no room for this as well.
pub open spec fn exceeds(
    taken: ResourceVector,
    more: ResourceVector,
    allowance: ResourceVector,
) -> bool {
    match taken.sum(more) {
        Some(total) => !total.within(allowance),
        None => true,
    }
}

/// What has no room beside some resources has none beside more of them.
proof fn lemma_still_exceeds(
    taken: ResourceVector,
    added: ResourceVector,
    more: ResourceVector,
    allowance: ResourceVector,
)
    requires
        exceeds(taken, more, allowance),
        taken.sum(added) is Some,
    ensures
        exceeds(taken.sum(added)->Some_0, more, allowance),
{
}

/// An offer was heard: its investment is chosen, or there is no room for it.
pub open spec fn heard(
    choice: ChoiceView,
    market: MarketView,
    investment: int,
    allowance: ResourceVector,
) -> bool {
    chosen(choice.allocations, investment) || exceeds(
        choice.reserved,
        market.investments[investment].resources.upper,
        allowance,
    )
}

proof fn lemma_stays_heard(
    before: ChoiceView,
    market: MarketView,
    offer: OfferView,
    allowance: ResourceVector,
    limit: nat,
    investment: int,
)
    requires
        before.considering(market, offer, allowance, limit) is Ok,
        heard(before, market, investment, allowance),
    ensures
        heard(
            before.considering(market, offer, allowance, limit)->Ok_0,
            market,
            investment,
            allowance,
        ),
{
    let next = before.considering(market, offer, allowance, limit)->Ok_0;
    if next.allocations.len() > before.allocations.len() {
        if chosen(before.allocations, investment) {
            let i = choose|i: int|
                0 <= i < before.allocations.len() && (#[trigger] before.allocations[i]).investment
                    == investment;
            assert(next.allocations[i].investment == investment);
        } else {
            lemma_still_exceeds(
                before.reserved,
                market.investments[offer.investment].resources.upper,
                market.investments[investment].resources.upper,
                allowance,
            );
        }
    }
}

/// A choice that is shorter than it may be has every offered investment for which
/// there is room.
pub proof fn law_short_choice_is_maximal(
    choice: ChoiceView,
    market: MarketView,
    offers: Seq<OfferView>,
    allowance: ResourceVector,
    limit: nat,
)
    ensures
        choice.considering_all(market, offers, allowance, limit) matches Ok(next)
            ==> next.allocations.len() < limit ==> forall|k: int|
            0 <= k < offers.len() ==> heard(
                next,
                market,
                (#[trigger] offers[k]).investment,
                allowance,
            ),
    decreases offers.len(),
{
    if offers.len() > 0 {
        let front = offers.drop_last();
        let offer = offers.last();
        law_short_choice_is_maximal(choice, market, front, allowance, limit);
        if let Ok(before) = choice.considering_all(market, front, allowance, limit) {
            if let Ok(next) = before.considering(market, offer, allowance, limit) {
                if next.allocations.len() < limit {
                    assert forall|k: int| 0 <= k < offers.len() implies heard(
                        next,
                        market,
                        (#[trigger] offers[k]).investment,
                        allowance,
                    ) by {
                        if k < front.len() {
                            assert(front[k] == offers[k]);
                            lemma_stays_heard(
                                before,
                                market,
                                offer,
                                allowance,
                                limit,
                                offers[k].investment,
                            );
                        } else if next.allocations.len() > before.allocations.len() {
                            assert(next.allocations.last().investment == offer.investment);
                        }
                    }
                }
            }
        }
    }
}

pub proof fn lemma_considering_fails(
    choice: ChoiceView,
    market: MarketView,
    offers: Seq<OfferView>,
    allowance: ResourceVector,
    limit: nat,
    count: int,
)
    requires
        0 <= count <= offers.len(),
        choice.considering_all(market, offers.take(count), allowance, limit) is Err,
    ensures
        choice.considering_all(market, offers, allowance, limit) == choice.considering_all(
            market,
            offers.take(count),
            allowance,
            limit,
        ),
    decreases offers.len() - count,
{
    if count < offers.len() {
        assert(offers.take(count + 1).drop_last() =~= offers.take(count));
        lemma_considering_fails(choice, market, offers, allowance, limit, count + 1);
    } else {
        assert(offers.take(count) =~= offers);
    }
}

// ---------------------------------------------------------------------------
// Orders
// ---------------------------------------------------------------------------
/// By what the first investment is chosen: its bootstrap priority, then its place.
#[derive(Clone, Copy, Debug, PartialEq, Eq, Structural)]
pub struct BootstrapKey {
    pub priority: u32,
    pub index: usize,
}

impl Ranked for BootstrapKey {
    open spec fn before(self, other: Self) -> bool {
        self.priority < other.priority || self.priority == other.priority && self.index
            < other.index
    }

    proof fn lemma_ranked(left: Self, middle: Self, right: Self) {
    }

    fn precedes(self, other: Self) -> (result: bool) {
        self.priority < other.priority || self.priority == other.priority && self.index
            < other.index
    }

    fn same(self, other: Self) -> (result: bool) {
        self == other
    }
}

/// Whether one amount is smaller than another: the first component that differs
/// decides.
pub open spec fn smaller(left: ResourceVector, right: ResourceVector) -> bool {
    if left.cpu_time_ns != right.cpu_time_ns {
        left.cpu_time_ns < right.cpu_time_ns
    } else if left.resident_bytes != right.resident_bytes {
        left.resident_bytes < right.resident_bytes
    } else if left.durable_bytes != right.durable_bytes {
        left.durable_bytes < right.durable_bytes
    } else if left.elapsed_time_ns != right.elapsed_time_ns {
        left.elapsed_time_ns < right.elapsed_time_ns
    } else {
        left.verification_requests < right.verification_requests
    }
}

pub fn is_smaller(left: ResourceVector, right: ResourceVector) -> (result: bool)
    ensures
        result == smaller(left, right),
{
    if left.cpu_time_ns != right.cpu_time_ns {
        left.cpu_time_ns < right.cpu_time_ns
    } else if left.resident_bytes != right.resident_bytes {
        left.resident_bytes < right.resident_bytes
    } else if left.durable_bytes != right.durable_bytes {
        left.durable_bytes < right.durable_bytes
    } else if left.elapsed_time_ns != right.elapsed_time_ns {
        left.elapsed_time_ns < right.elapsed_time_ns
    } else {
        left.verification_requests < right.verification_requests
    }
}

/// By what the remaining investments are chosen: the preference, what they take,
/// the bootstrap priority and their place.
#[derive(Clone, Copy, Debug, PartialEq, Eq, Structural)]
pub struct PreferenceKey {
    pub preference: u32,
    pub resources: ResourceVector,
    pub bootstrap: u32,
    pub index: usize,
}

impl Ranked for PreferenceKey {
    open spec fn before(self, other: Self) -> bool {
        if self.preference != other.preference {
            self.preference < other.preference
        } else if self.resources != other.resources {
            smaller(self.resources, other.resources)
        } else if self.bootstrap != other.bootstrap {
            self.bootstrap < other.bootstrap
        } else {
            self.index < other.index
        }
    }

    proof fn lemma_ranked(left: Self, middle: Self, right: Self) {
    }

    fn precedes(self, other: Self) -> (result: bool) {
        if self.preference != other.preference {
            self.preference < other.preference
        } else if self.resources != other.resources {
            is_smaller(self.resources, other.resources)
        } else if self.bootstrap != other.bootstrap {
            self.bootstrap < other.bootstrap
        } else {
            self.index < other.index
        }
    }

    fn same(self, other: Self) -> (result: bool) {
        self == other
    }
}

/// The bootstrap key of an investment.
pub open spec fn bootstrap_key(market: MarketView, index: int) -> BootstrapKey {
    BootstrapKey { priority: market.investments[index].bootstrap_priority, index: index as usize }
}

/// The preference key of an investment.
pub open spec fn preference_key(market: MarketView, index: int) -> PreferenceKey {
    PreferenceKey {
        preference: market.investments[index].preference_priority,
        resources: market.investments[index].resources.upper,
        bootstrap: market.investments[index].bootstrap_priority,
        index: index as usize,
    }
}

/// The investments in the order of their bootstrap priorities.
pub open spec fn bootstrap_order(market: MarketView) -> Seq<BootstrapKey> {
    order::sorted(Seq::new(market.investments.len(), |i: int| bootstrap_key(market, i)))
}

/// The investments in the order of preference.
pub open spec fn preference_order(market: MarketView) -> Seq<PreferenceKey> {
    order::sorted(Seq::new(market.investments.len(), |i: int| preference_key(market, i)))
}

/// An investment that nobody forecasts.
pub open spec fn unforecast(investment: int) -> OfferView {
    OfferView { investment, source: AllocationSource::Bootstrap, forecasts: Seq::empty() }
}

/// The offers in the order of their bootstrap priorities.
pub open spec fn bootstrap_offers(market: MarketView) -> Seq<OfferView> {
    let keys = bootstrap_order(market);
    Seq::new(keys.len(), |i: int| unforecast(keys[i].index as int))
}

/// The offers in the order of preference.
pub open spec fn preference_offers(market: MarketView) -> Seq<OfferView> {
    let keys = preference_order(market);
    Seq::new(keys.len(), |i: int| unforecast(keys[i].index as int))
}

pub proof fn lemma_bootstrap_order(market: MarketView)
    requires
        market.investments.len() <= usize::MAX,
    ensures
        bootstrap_order(market).len() == market.investments.len(),
        order::ascending(bootstrap_order(market)),
        forall|i: int|
            0 <= i < bootstrap_order(market).len() ==> (#[trigger] bootstrap_order(market)[i]).index
                < market.investments.len() && bootstrap_order(market)[i].priority
                == market.investments[bootstrap_order(market)[i].index as int].bootstrap_priority,
        forall|k: int|
            0 <= k < market.investments.len() ==> bootstrap_order(market).contains(
                #[trigger] bootstrap_key(market, k),
            ),
{
    let keys = Seq::new(market.investments.len(), |i: int| bootstrap_key(market, i));
    order::lemma_sorted_permutes(keys);
    assert(order::distinct(keys));
    order::lemma_sorted_ascends(keys);
    let sorted = order::sorted(keys);
    assert forall|i: int| 0 <= i < sorted.len() implies (#[trigger] sorted[i]).index
        < market.investments.len() && sorted[i].priority
        == market.investments[sorted[i].index as int].bootstrap_priority by {
        order::lemma_sorted_contains(keys, sorted[i]);
        assert(sorted.contains(sorted[i]));
        let k = choose|k: int| 0 <= k < keys.len() && keys[k] == sorted[i];
        assert(keys[k].index == k);
    }
    assert forall|k: int| 0 <= k < market.investments.len() implies sorted.contains(
        #[trigger] bootstrap_key(market, k),
    ) by {
        order::lemma_sorted_contains(keys, keys[k]);
        assert(keys.contains(keys[k]));
    }
}

pub proof fn lemma_preference_order(market: MarketView)
    requires
        market.investments.len() <= usize::MAX,
    ensures
        preference_order(market).len() == market.investments.len(),
        forall|i: int|
            0 <= i < preference_order(market).len() ==> (
            #[trigger] preference_order(market)[i]).index < market.investments.len(),
        forall|k: int|
            0 <= k < market.investments.len() ==> preference_order(market).contains(
                #[trigger] preference_key(market, k),
            ),
{
    let keys = Seq::new(market.investments.len(), |i: int| preference_key(market, i));
    order::lemma_sorted_permutes(keys);
    let sorted = order::sorted(keys);
    assert forall|i: int| 0 <= i < sorted.len() implies (#[trigger] sorted[i]).index
        < market.investments.len() by {
        order::lemma_sorted_contains(keys, sorted[i]);
        assert(sorted.contains(sorted[i]));
        let k = choose|k: int| 0 <= k < keys.len() && keys[k] == sorted[i];
        assert(keys[k].index == k);
    }
    assert forall|k: int| 0 <= k < market.investments.len() implies sorted.contains(
        #[trigger] preference_key(market, k),
    ) by {
        order::lemma_sorted_contains(keys, keys[k]);
        assert(keys.contains(keys[k]));
    }
}

/// The first choice falls on the investment with the lowest bootstrap priority
/// among those that are allowed by themselves, the earliest of them where several
/// have it. There is such a choice wherever some investment is allowed and
/// something may be chosen at all.
pub proof fn law_bootstrap_comes_first(
    market: MarketView,
    allowance: ResourceVector,
    limit: nat,
    best: int,
)
    requires
        limit > 0,
        market.investments.len() <= usize::MAX,
        0 <= best < market.investments.len(),
        market.investments[best].resources.upper.within(allowance),
        forall|i: int|
            0 <= i < market.investments.len() && i != best && (
            #[trigger] market.investments[i]).resources.upper.within(allowance) ==> bootstrap_key(
                market,
                best,
            ).before(bootstrap_key(market, i)),
    ensures
        ChoiceView::nothing().considering_all(
            market,
            bootstrap_offers(market),
            allowance,
            1,
        ) matches Ok(choice) && choice.allocations.len() == 1 && choice.allocations[0].investment
            == best && choice.allocations[0].source is Bootstrap,
{
    lemma_bootstrap_order(market);
    let keys = bootstrap_order(market);
    let key = bootstrap_key(market, best);
    assert(keys.contains(key));
    let place = choose|p: int| 0 <= p < keys.len() && keys[p] == key;
    let offers = bootstrap_offers(market);
    assert forall|i: int| 0 <= i < place implies !market.investments[(
    #[trigger] offers[i]).investment].resources.upper.within(allowance) by {
        let other = keys[i].index as int;
        assert(keys[i].before(keys[place]));
        BootstrapKey::lemma_ranked(keys[i], keys[place], keys[i]);
        if market.investments[other].resources.upper.within(allowance) {
            assert(other != best);
            assert(key.before(keys[i]));
        }
    }
    lemma_passed_over(market, offers, allowance, place);
    lemma_settled(market, offers, allowance, place);
}

/// Offers that are not allowed leave the choice empty.
proof fn lemma_passed_over(
    market: MarketView,
    offers: Seq<OfferView>,
    allowance: ResourceVector,
    count: int,
)
    requires
        0 <= count <= offers.len(),
        forall|i: int|
            0 <= i < count ==> !market.investments[(
            #[trigger] offers[i]).investment].resources.upper.within(allowance),
    ensures
        ChoiceView::nothing().considering_all(market, offers.take(count), allowance, 1) == Ok::<
            ChoiceView,
            IntelligenceError,
        >(ChoiceView::nothing()),
    decreases count,
{
    if count > 0 {
        lemma_passed_over(market, offers, allowance, count - 1);
        assert(offers.take(count).drop_last() =~= offers.take(count - 1));
        let offer = offers[count - 1];
        assert(offers.take(count).last() == offer);
        let upper = market.investments[offer.investment].resources.upper;
        assert(ResourceVector::zero().sum(upper) == Some(upper));
    }
}

/// Once one allowed offer has been taken, nothing more is.
proof fn lemma_settled(
    market: MarketView,
    offers: Seq<OfferView>,
    allowance: ResourceVector,
    place: int,
)
    requires
        0 <= place < offers.len(),
        market.investments[offers[place].investment].resources.upper.within(allowance),
        ChoiceView::nothing().considering_all(market, offers.take(place), allowance, 1) == Ok::<
            ChoiceView,
            IntelligenceError,
        >(ChoiceView::nothing()),
    ensures
        ChoiceView::nothing().considering_all(market, offers, allowance, 1) matches Ok(choice)
            && choice.allocations.len() == 1 && choice.allocations[0].investment
            == offers[place].investment && choice.allocations[0].source == offers[place].source,
{
    let upper = market.investments[offers[place].investment].resources.upper;
    assert(ResourceVector::zero().sum(upper) == Some(upper));
    assert(offers.take(place + 1).drop_last() =~= offers.take(place));
    assert(offers.take(place + 1).last() == offers[place]);
    let choice = ChoiceView::nothing().considering_all(
        market,
        offers.take(place + 1),
        allowance,
        1,
    )->Ok_0;
    lemma_full(market, offers, allowance, place + 1, choice);
}

proof fn lemma_full(
    market: MarketView,
    offers: Seq<OfferView>,
    allowance: ResourceVector,
    count: int,
    choice: ChoiceView,
)
    requires
        0 <= count <= offers.len(),
        choice.allocations.len() == 1,
        ChoiceView::nothing().considering_all(market, offers.take(count), allowance, 1) == Ok::<
            ChoiceView,
            IntelligenceError,
        >(choice),
    ensures
        ChoiceView::nothing().considering_all(market, offers, allowance, 1) == Ok::<
            ChoiceView,
            IntelligenceError,
        >(choice),
    decreases offers.len() - count,
{
    if count < offers.len() {
        assert(offers.take(count + 1).drop_last() =~= offers.take(count));
        lemma_full(market, offers, allowance, count + 1, choice);
    } else {
        assert(offers.take(count) =~= offers);
    }
}

// ---------------------------------------------------------------------------
// Bids
// ---------------------------------------------------------------------------
/// What a specialist expects of an investment.
#[verifier::ext_equal]
pub struct BidView {
    pub investment: int,
    pub specialist: SpecialistRevisionId,
    pub forecasts: Seq<ScoredForecast>,
}

/// How many forecasts some bids hold.
pub open spec fn cells(bids: Seq<BidView>) -> nat
    decreases bids.len(),
{
    if bids.len() == 0 {
        0
    } else {
        cells(bids.drop_last()) + bids.last().forecasts.len()
    }
}

/// Every forecast is on an axis of the mandate.
pub open spec fn within_mandate(
    axes: Seq<forecast::ForecastAxis>,
    forecasts: Seq<ScoredForecast>,
) -> bool {
    forall|i: int|
        0 <= i < forecasts.len() ==> axes.contains((#[trigger] forecasts[i]).forecast.axis)
}

/// The bids with that of one specialist more. Its forecasts are the next that were
/// evaluated.
pub open spec fn bidding(
    bids: Seq<BidView>,
    investment: int,
    specialist: RevisionView,
    limits: IntelligenceLimits,
    evaluations: Seq<Seq<ScoredForecast>>,
) -> Result<Seq<BidView>, IntelligenceError> {
    let end = cells(bids) + specialist.model.heads.len();
    if bids.len() >= limits.maximum_bids {
        Err(IntelligenceError::CapacityExceeded)
    } else if end > usize::MAX {
        Err(IntelligenceError::ResourceOverflow)
    } else if end > limits.maximum_forecast_cells {
        Err(IntelligenceError::CapacityExceeded)
    } else if bids.len() >= evaluations.len() || evaluations[bids.len() as int].len()
        != specialist.model.heads.len() {
        Err(IntelligenceError::InvalidModel)
    } else if !within_mandate(specialist.mandate.axes, evaluations[bids.len() as int]) {
        Err(IntelligenceError::InvalidMandate)
    } else {
        Ok(
            bids.push(
                BidView {
                    investment,
                    specialist: specialist.id,
                    forecasts: evaluations[bids.len() as int],
                },
            ),
        )
    }
}

/// The bids with those of a whole route more.
pub open spec fn route_bidding(
    bids: Seq<BidView>,
    investment: int,
    specialists: Seq<RevisionView>,
    route: Seq<usize>,
    limits: IntelligenceLimits,
    evaluations: Seq<Seq<ScoredForecast>>,
) -> Result<Seq<BidView>, IntelligenceError>
    decreases route.len(),
{
    if route.len() == 0 {
        Ok(bids)
    } else {
        match route_bidding(
            bids,
            investment,
            specialists,
            route.drop_last(),
            limits,
            evaluations,
        ) {
            Err(error) => Err(error),
            Ok(bids) => bidding(
                bids,
                investment,
                specialists[route.last() as int],
                limits,
                evaluations,
            ),
        }
    }
}

/// The specialists that an investment is routed to.
pub open spec fn route_of(market: MarketView, investment: int, specialists: Seq<RevisionView>) -> Seq<
    usize,
> {
    let opportunity = market.opportunities[market.investments[investment].opportunity.0 as int];
    ecology::routed_to(specialists, opportunity.specification, opportunity.features.len())
}

/// The bids for the first `count` investments.
pub open spec fn bids_for(
    market: MarketView,
    specialists: Seq<RevisionView>,
    limits: IntelligenceLimits,
    evaluations: Seq<Seq<ScoredForecast>>,
    count: nat,
) -> Result<Seq<BidView>, IntelligenceError>
    decreases count,
{
    if count == 0 {
        Ok(Seq::empty())
    } else {
        match bids_for(market, specialists, limits, evaluations, (count - 1) as nat) {
            Err(error) => Err(error),
            Ok(bids) => route_bidding(
                bids,
                count - 1,
                specialists,
                route_of(market, count - 1, specialists),
                limits,
                evaluations,
            ),
        }
    }
}

pub proof fn lemma_route_bidding_fails(
    bids: Seq<BidView>,
    investment: int,
    specialists: Seq<RevisionView>,
    route: Seq<usize>,
    limits: IntelligenceLimits,
    evaluations: Seq<Seq<ScoredForecast>>,
    count: int,
)
    requires
        0 <= count <= route.len(),
        route_bidding(
            bids,
            investment,
            specialists,
            route.take(count),
            limits,
            evaluations,
        ) is Err,
    ensures
        route_bidding(bids, investment, specialists, route, limits, evaluations) == route_bidding(
            bids,
            investment,
            specialists,
            route.take(count),
            limits,
            evaluations,
        ),
    decreases route.len() - count,
{
    if count < route.len() {
        assert(route.take(count + 1).drop_last() =~= route.take(count));
        lemma_route_bidding_fails(
            bids,
            investment,
            specialists,
            route,
            limits,
            evaluations,
            count + 1,
        );
    } else {
        assert(route.take(count) =~= route);
    }
}

pub proof fn lemma_bids_fail(
    market: MarketView,
    specialists: Seq<RevisionView>,
    limits: IntelligenceLimits,
    evaluations: Seq<Seq<ScoredForecast>>,
    count: nat,
    whole: nat,
)
    requires
        count <= whole,
        bids_for(market, specialists, limits, evaluations, count) is Err,
    ensures
        bids_for(market, specialists, limits, evaluations, whole) == bids_for(
            market,
            specialists,
            limits,
            evaluations,
            count,
        ),
    decreases whole - count,
{
    if count < whole {
        lemma_bids_fail(market, specialists, limits, evaluations, count, (whole - 1) as nat);
    }
}

/// Which of two amounts comes first.
pub open spec fn resource_order(left: ResourceVector, right: ResourceVector) -> Precedence {
    if smaller(left, right) {
        Precedence::Before
    } else if smaller(right, left) {
        Precedence::After
    } else {
        Precedence::Tied
    }
}

/// Which of two specialists comes first.
pub open spec fn specialist_order(
    left: SpecialistRevisionId,
    right: SpecialistRevisionId,
) -> Precedence {
    if left.before(right) {
        Precedence::Before
    } else if right.before(left) {
        Precedence::After
    } else {
        Precedence::Tied
    }
}

/// Which of two bids comes first: by preference, by forecasts, by what the
/// investments take, by their places and by the specialists.
#[verifier::opaque]
pub open spec fn bid_order(market: MarketView, left: BidView, right: BidView) -> Precedence {
    let left_spec = market.investments[left.investment];
    let right_spec = market.investments[right.investment];
    forecast::otherwise(
        forecast::rising(
            left_spec.preference_priority as int,
            right_spec.preference_priority as int,
        ),
        forecast::otherwise(
            forecast::vector_order(left.forecasts, right.forecasts),
            forecast::otherwise(
                resource_order(left_spec.resources.upper, right_spec.resources.upper),
                forecast::otherwise(
                    forecast::rising(left.investment, right.investment),
                    specialist_order(left.specialist, right.specialist),
                ),
            ),
        ),
    )
}

/// Bids that come after this one.
pub open spec fn behind(market: MarketView, bid: BidView) -> spec_fn(BidView) -> bool {
    |other: BidView| bid_order(market, bid, other) == Precedence::Before
}

/// Where a bid belongs in an ordered list.
pub open spec fn bid_place(market: MarketView, list: Seq<BidView>, bid: BidView) -> int {
    match search::first(list, behind(market, bid)) {
        Some(index) => index,
        None => list.len() as int,
    }
}

/// The bids in order. Where the order of forecasts does not decide consistently
/// between three bids, each is placed before the first that it precedes.
pub open spec fn ranked(market: MarketView, bids: Seq<BidView>) -> Seq<BidView>
    decreases bids.len(),
{
    if bids.len() == 0 {
        Seq::empty()
    } else {
        let list = ranked(market, bids.drop_last());
        list.insert(bid_place(market, list, bids.last()), bids.last())
    }
}

/// The forecasts without their scores.
pub open spec fn unscored(forecasts: Seq<ScoredForecast>) -> Seq<Forecast> {
    Seq::new(forecasts.len(), |i: int| forecasts[i].forecast)
}

/// A bid as an offer.
pub open spec fn bid_offer(bid: BidView) -> OfferView {
    OfferView {
        investment: bid.investment,
        source: AllocationSource::Specialist(bid.specialist),
        forecasts: unscored(bid.forecasts),
    }
}

/// Bids as offers, in their order.
pub open spec fn bid_offers(bids: Seq<BidView>) -> Seq<OfferView> {
    Seq::new(bids.len(), |i: int| bid_offer(bids[i]))
}

pub proof fn lemma_bid_place(market: MarketView, list: Seq<BidView>, bid: BidView)
    ensures
        0 <= bid_place(market, list, bid) <= list.len(),
        forall|i: int|
            0 <= i < bid_place(market, list, bid) ==> bid_order(market, bid, #[trigger] list[i])
                != Precedence::Before,
        bid_place(market, list, bid) < list.len() ==> bid_order(
            market,
            bid,
            list[bid_place(market, list, bid)],
        ) == Precedence::Before,
{
    search::lemma_first(list, behind(market, bid));
    assert forall|i: int| 0 <= i < bid_place(market, list, bid) implies bid_order(
        market,
        bid,
        #[trigger] list[i],
    ) != Precedence::Before by {
        assert(!behind(market, bid)(list[i]));
    }
}

/// Every bid that was made stands among the ranked ones, and no other does.
pub proof fn law_ranking_keeps_the_bids(market: MarketView, bids: Seq<BidView>)
    ensures
        ranked(market, bids).len() == bids.len(),
        ranked(market, bids).to_multiset() == bids.to_multiset(),
    decreases bids.len(),
{
    broadcast use vstd::seq_lib::group_to_multiset_ensures;

    if bids.len() > 0 {
        let front = bids.drop_last();
        law_ranking_keeps_the_bids(market, front);
        let list = ranked(market, front);
        lemma_bid_place(market, list, bids.last());
        let place = bid_place(market, list, bids.last());
        list.insert_ensures(place, bids.last());
        vstd::seq_lib::to_multiset_insert(list, place, bids.last());
        assert(front.push(bids.last()) =~= bids);
    } else {
        assert(bids =~= Seq::empty());
    }
}

proof fn lemma_bid_order_reverses(market: MarketView, left: BidView, right: BidView)
    ensures
        bid_order(market, right, left) == forecast::reversed(bid_order(market, left, right)),
{
    reveal(bid_order);
    forecast::law_vector_order_is_antisymmetric(left.forecasts, right.forecasts);
    SpecialistRevisionId::lemma_ranked(left.specialist, right.specialist, left.specialist);
}

/// The order of these bids is consistent: what does not come after a second bid
/// that does not come after a third does not come after the third.
pub open spec fn consistent(market: MarketView, bids: Seq<BidView>) -> bool {
    forall|i: int, j: int, k: int|
        0 <= i < bids.len() && 0 <= j < bids.len() && 0 <= k < bids.len() && bid_order(
            market,
            #[trigger] bids[i],
            #[trigger] bids[j],
        ) != Precedence::After && bid_order(market, bids[j], #[trigger] bids[k])
            != Precedence::After ==> bid_order(market, bids[i], bids[k]) != Precedence::After
}

/// Wherever the order of the bids is consistent, no ranked bid comes after a later
/// one.
pub proof fn law_consistent_bids_are_sorted(market: MarketView, bids: Seq<BidView>)
    requires
        consistent(market, bids),
    ensures
        forall|i: int, j: int|
            0 <= i < j < ranked(market, bids).len() ==> bid_order(
                market,
                #[trigger] ranked(market, bids)[i],
                #[trigger] ranked(market, bids)[j],
            ) != Precedence::After,
        forall|i: int|
            0 <= i < ranked(market, bids).len() ==> bids.contains(
                #[trigger] ranked(market, bids)[i],
            ),
    decreases bids.len(),
{
    if bids.len() > 0 {
        let front = bids.drop_last();
        let bid = bids.last();
        assert(consistent(market, front)) by {
            assert forall|i: int, j: int, k: int|
                0 <= i < front.len() && 0 <= j < front.len() && 0 <= k < front.len() && bid_order(
                    market,
                    #[trigger] front[i],
                    #[trigger] front[j],
                ) != Precedence::After && bid_order(market, front[j], #[trigger] front[k])
                    != Precedence::After implies bid_order(market, front[i], front[k])
                != Precedence::After by {
                assert(front[i] == bids[i] && front[j] == bids[j] && front[k] == bids[k]);
            }
        }
        law_consistent_bids_are_sorted(market, front);
        let list = ranked(market, front);
        let place = bid_place(market, list, bid);
        let next = ranked(market, bids);
        lemma_bid_place(market, list, bid);
        assert forall|i: int| 0 <= i < list.len() implies bids.contains(#[trigger] list[i]) by {
            assert(front.contains(list[i]));
            let k = choose|k: int| 0 <= k < front.len() && front[k] == list[i];
            assert(bids[k] == list[i]);
        }
        assert(bids[bids.len() - 1] == bid);
        assert forall|i: int| 0 <= i < next.len() implies bids.contains(#[trigger] next[i]) by {
            if i < place {
                assert(next[i] == list[i]);
            } else if i > place {
                assert(next[i] == list[i - 1]);
            }
        }
        assert forall|i: int, j: int| 0 <= i < j < next.len() implies bid_order(
            market,
            #[trigger] next[i],
            #[trigger] next[j],
        ) != Precedence::After by {
            if j < place {
                assert(next[i] == list[i] && next[j] == list[j]);
            } else if j == place {
                assert(next[i] == list[i]);
                lemma_bid_order_reverses(market, list[i], bid);
            } else if i == place {
                assert(next[j] == list[j - 1]);
                if place < j - 1 {
                    assert(bid_order(market, list[place], list[j - 1]) != Precedence::After);
                    let a = choose|a: int| 0 <= a < bids.len() && bids[a] == list[place];
                    let b = choose|b: int| 0 <= b < bids.len() && bids[b] == list[j - 1];
                    assert(bids.contains(list[place]) && bids.contains(list[j - 1]));
                    assert(bid_order(market, bids[bids.len() - 1], bids[a])
                        != Precedence::After);
                    assert(bid_order(market, bids[a], bids[b]) != Precedence::After);
                }
            } else if i < place {
                assert(next[i] == list[i] && next[j] == list[j - 1]);
            } else {
                assert(next[i] == list[i - 1] && next[j] == list[j - 1]);
            }
        }
    }
}

} // verus!
