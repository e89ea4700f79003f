//! The portfolio that is chosen from a market, and the receipts of the choice.
use vstd::prelude::*;

use crate::arena::{OpportunitySpec, MAXIMUM_FEATURES_PER_OPPORTUNITY};
use crate::codec;
use crate::digest::Digest;
use crate::ecology;
use crate::ecology::{ModelEcology, SpecialistRevision};
use crate::forecast;
use crate::forecast::{compare_forecast_vectors, Forecast, Precedence, ScoredForecast};
use crate::investment;
use crate::investment::investment_digest;
use crate::ledger::copied;
use crate::market::{InvestmentRecord, MarketArena, MarketFrame, MarketView, OpportunityRecord};
use crate::model::MAXIMUM_MODEL_HEADS;
use crate::order::{sort, Ranked};
use crate::portfolio;
use crate::portfolio::{
    is_smaller, AllocationView, BidView, BootstrapKey, ChoiceView, OfferView, PreferenceKey,
};
use crate::receipt;
use crate::receipt::{decision_id, InvestmentReceipt};
use crate::resident;
use crate::resident::{bytes_for, capacity_of, reserved, resident_u64};
use crate::types::{
    AllocationSource, IntelligenceError, IntelligenceLimits, InvestmentId, ResourceVector,
    SpecialistRevisionId,
};

verus! {

// ---------------------------------------------------------------------------
// What is handed out
// ---------------------------------------------------------------------------
/// An investment that was chosen.
#[derive(Clone, Debug, PartialEq, Eq)]
pub struct Allocation {
    investment: InvestmentId,
    source: AllocationSource,
    bootstrap_priority: u32,
    resources: ResourceVector,
    forecasts: Vec<Forecast>,
}

impl View for Allocation {
    type V = AllocationView;

    closed spec fn view(&self) -> AllocationView {
        AllocationView {
            investment: self.investment.0 as int,
            source: self.source,
            bootstrap_priority: self.bootstrap_priority,
            resources: self.resources,
            forecasts: self.forecasts@,
        }
    }
}

impl Allocation {
    pub fn investment_id(&self) -> (investment: InvestmentId)
        ensures
            investment.0 == self@.investment,
    {
        self.investment
    }

    pub fn source(&self) -> (source: AllocationSource)
        ensures
            source == self@.source,
    {
        self.source
    }

    pub fn bootstrap_priority(&self) -> (priority: u32)
        ensures
            priority == self@.bootstrap_priority,
    {
        self.bootstrap_priority
    }

    /// The forecast that stands for all of them, the first.
    pub fn forecast(&self) -> (result: Option<Forecast>)
        ensures
            result == (if self@.forecasts.len() == 0 {
                None::<Forecast>
            } else {
                Some(self@.forecasts[0])
            }),
    {
        if self.forecasts.len() == 0 {
            None
        } else {
            Some(self.forecasts[0])
        }
    }

    pub fn forecasts(&self) -> (forecasts: &[Forecast])
        ensures
            forecasts@ == self@.forecasts,
    {
        self.forecasts.as_slice()
    }
}

/// A specialist's bid for an investment. Its forecasts stand among those of all bids.
#[derive(Clone, Copy, Debug)]
pub struct BidRecord {
    investment: InvestmentId,
    specialist: SpecialistRevisionId,
    forecast_start: usize,
    forecast_end: usize,
}

impl BidRecord {
    /// The bid, where all forecasts are given.
    pub closed spec fn seen(self, forecasts: Seq<ScoredForecast>) -> BidView {
        BidView {
            investment: self.investment.0 as int,
            specialist: self.specialist,
            forecasts: forecasts.subrange(self.forecast_start as int, self.forecast_end as int),
        }
    }

    fn forecasts<'a>(&self, forecasts: &'a [ScoredForecast]) -> (list: &'a [ScoredForecast])
        requires
            self.forecast_start <= self.forecast_end <= forecasts@.len(),
        ensures
            list@ == self.seen(forecasts@).forecasts,
    {
        vstd::slice::slice_subrange(forecasts, self.forecast_start, self.forecast_end)
    }
}

/// Some bids, where all forecasts are given.
spec fn bids_seen(bids: Seq<BidRecord>, forecasts: Seq<ScoredForecast>) -> Seq<BidView> {
    Seq::new(bids.len(), |i: int| bids[i].seen(forecasts))
}

/// The forecasts of every bid are there, and there are no others.
spec fn forecasts_held(bids: Seq<BidRecord>, forecasts: Seq<ScoredForecast>) -> bool {
    &&& forecasts.len() == portfolio::cells(bids_seen(bids, forecasts))
    &&& forall|i: int|
        0 <= i < bids.len() ==> (#[trigger] bids[i]).forecast_start <= bids[i].forecast_end
            <= forecasts.len()
}

proof fn lemma_bid_entered(
    bids: Seq<BidRecord>,
    forecasts: Seq<ScoredForecast>,
    bid: BidRecord,
    list: Seq<ScoredForecast>,
)
    requires
        forecasts_held(bids, forecasts),
        bid.forecast_start == forecasts.len(),
        bid.forecast_end == forecasts.len() + list.len(),
    ensures
        forecasts_held(bids.push(bid), forecasts + list),
        bids_seen(bids.push(bid), forecasts + list) == bids_seen(bids, forecasts).push(
            BidView {
                investment: bid.investment.0 as int,
                specialist: bid.specialist,
                forecasts: list,
            },
        ),
{
    let before = bids_seen(bids, forecasts);
    let after = bids_seen(bids.push(bid), forecasts + list);
    let entered = BidView {
        investment: bid.investment.0 as int,
        specialist: bid.specialist,
        forecasts: list,
    };
    assert forall|i: int| 0 <= i < after.len() implies after[i] == before.push(entered)[i] by {
        if i < bids.len() {
            let old_bid = bids[i];
            assert(bids.push(bid)[i] == old_bid);
            assert(old_bid.seen(forecasts + list).forecasts =~= old_bid.seen(forecasts).forecasts);
        } else {
            assert(bid.seen(forecasts + list).forecasts =~= list);
        }
    }
    assert(after =~= before.push(entered));
    assert(after.drop_last() =~= before);
}

// ---------------------------------------------------------------------------
// Bids
// ---------------------------------------------------------------------------
fn permits_all(specialist: &SpecialistRevision, forecasts: &[ScoredForecast]) -> (result: bool)
    ensures
        result == portfolio::within_mandate(specialist@.mandate.axes, forecasts@),
{
    let mut index: usize = 0;
    while index < forecasts.len()
        invariant
            index <= forecasts@.len(),
            forall|i: int|
                0 <= i < index ==> specialist@.mandate.axes.contains(
                    (#[trigger] forecasts@[i]).forecast.axis,
                ),
        decreases forecasts@.len() - index,
    {
        if !specialist.permits(forecasts[index].forecast.axis) {
            assert(!specialist@.mandate.axes.contains(forecasts@[index as int].forecast.axis));
            return false;
        }
        index = index + 1;
    }
    true
}

fn enter_bid(
    bids: &mut Vec<BidRecord>,
    forecasts: &mut Vec<ScoredForecast>,
    investment: InvestmentId,
    specialist: &SpecialistRevision,
    limits: IntelligenceLimits,
    evaluations: &[Vec<ScoredForecast>],
) -> (result: Result<(), IntelligenceError>)
    requires
        forecasts_held(old(bids)@, old(forecasts)@),
    ensures
        match result {
            Ok(_) => portfolio::bidding(
                bids_seen(old(bids)@, old(forecasts)@),
                investment.0 as int,
                specialist@,
                limits,
                codec::views(evaluations@),
            ) == Ok::<Seq<BidView>, IntelligenceError>(bids_seen(final(bids)@, final(forecasts)@))
                && forecasts_held(final(bids)@, final(forecasts)@),
            Err(error) => portfolio::bidding(
                bids_seen(old(bids)@, old(forecasts)@),
                investment.0 as int,
                specialist@,
                limits,
                codec::views(evaluations@),
            ) == Err::<Seq<BidView>, IntelligenceError>(error),
        },
{
    if bids.len() >= limits.maximum_bids {
        return Err(IntelligenceError::CapacityExceeded);
    }
    let heads: usize = specialist.model().forecast_count();
    let start: usize = forecasts.len();
    let end: usize = match start.checked_add(heads) {
        Some(end) => end,
        None => return Err(IntelligenceError::ResourceOverflow),
    };
    if end > limits.maximum_forecast_cells {
        return Err(IntelligenceError::CapacityExceeded);
    }
    let place: usize = bids.len();
    if place >= evaluations.len() || evaluations[place].len() != heads {
        return Err(IntelligenceError::InvalidModel);
    }
    let mut list = copied(evaluations[place].as_slice());
    assert(codec::views(evaluations@)[place as int] == evaluations@[place as int]@);
    if !permits_all(specialist, list.as_slice()) {
        return Err(IntelligenceError::InvalidMandate);
    }
    let bid = BidRecord {
        investment,
        specialist: specialist.id(),
        forecast_start: start,
        forecast_end: end,
    };
    proof {
        lemma_bid_entered(bids@, forecasts@, bid, list@);
    }
    forecasts.append(&mut list);
    bids.push(bid);
    Ok(())
}

fn enter_route(
    bids: &mut Vec<BidRecord>,
    forecasts: &mut Vec<ScoredForecast>,
    investment: InvestmentId,
    specialists: &[SpecialistRevision],
    route: &[usize],
    limits: IntelligenceLimits,
    evaluations: &[Vec<ScoredForecast>],
) -> (result: Result<(), IntelligenceError>)
    requires
        forecasts_held(old(bids)@, old(forecasts)@),
        forall|i: int| 0 <= i < route@.len() ==> (#[trigger] route@[i]) < specialists@.len(),
    ensures
        match result {
            Ok(_) => portfolio::route_bidding(
                bids_seen(old(bids)@, old(forecasts)@),
                investment.0 as int,
                codec::views(specialists@),
                route@,
                limits,
                codec::views(evaluations@),
            ) == Ok::<Seq<BidView>, IntelligenceError>(bids_seen(final(bids)@, final(forecasts)@))
                && forecasts_held(final(bids)@, final(forecasts)@),
            Err(error) => portfolio::route_bidding(
                bids_seen(old(bids)@, old(forecasts)@),
                investment.0 as int,
                codec::views(specialists@),
                route@,
                limits,
                codec::views(evaluations@),
            ) == Err::<Seq<BidView>, IntelligenceError>(error),
        },
{
    let ghost start = bids_seen(bids@, forecasts@);
    let ghost views = codec::views(specialists@);
    let ghost scores = codec::views(evaluations@);
    let mut index: usize = 0;
    assert(route@.take(0) =~= Seq::empty());
    while index < route.len()
        invariant
            index <= route@.len(),
            start == bids_seen(old(bids)@, old(forecasts)@),
            views == codec::views(specialists@),
            scores == codec::views(evaluations@),
            forall|i: int| 0 <= i < route@.len() ==> (#[trigger] route@[i]) < specialists@.len(),
            forecasts_held(bids@, forecasts@),
            portfolio::route_bidding(
                start,
                investment.0 as int,
                views,
                route@.take(index as int),
                limits,
                scores,
            ) == Ok::<Seq<BidView>, IntelligenceError>(bids_seen(bids@, forecasts@)),
        decreases route@.len() - index,
    {
        assert(route@.take(index + 1).drop_last() =~= route@.take(index as int));
        assert(route@.take(index + 1).last() == route@[index as int]);
        assert(views[route@[index as int] as int] == specialists@[route@[index as int] as int]@);
        match enter_bid(
            bids,
            forecasts,
            investment,
            &specialists[route[index]],
            limits,
            evaluations,
        ) {
            Ok(_) => {},
            Err(error) => {
                proof {
                    portfolio::lemma_route_bidding_fails(
                        start,
                        investment.0 as int,
                        views,
                        route@,
                        limits,
                        scores,
                        index + 1,
                    );
                }
                return Err(error);
            },
        }
        index = index + 1;
    }
    assert(route@.take(route@.len() as int) =~= route@);
    Ok(())
}

proof fn lemma_routed_places(
    specialists: Seq<ecology::RevisionView>,
    opportunity: OpportunitySpec,
    feature_count: nat,
)
    requires
        specialists.len() <= usize::MAX,
    ensures
        forall|i: int|
            0 <= i < ecology::routed_to(specialists, opportunity, feature_count).len() ==> (
            #[trigger] ecology::routed_to(specialists, opportunity, feature_count)[i])
                < specialists.len(),
    decreases specialists.len(),
{
    if specialists.len() > 0 {
        let front = ecology::routed_to(specialists.drop_last(), opportunity, feature_count);
        lemma_routed_places(specialists.drop_last(), opportunity, feature_count);
        let whole = ecology::routed_to(specialists, opportunity, feature_count);
        assert forall|i: int| 0 <= i < whole.len() implies (#[trigger] whole[i])
            < specialists.len() by {
            if i < front.len() {
                assert(whole[i] == front[i]);
            }
        }
    }
}

fn gather_bids(
    bids: &mut Vec<BidRecord>,
    forecasts: &mut Vec<ScoredForecast>,
    market: &MarketArena,
    ecology: &ModelEcology,
    limits: IntelligenceLimits,
    evaluations: &[Vec<ScoredForecast>],
) -> (result: Result<(), IntelligenceError>)
    requires
        old(bids)@.len() == 0,
        old(forecasts)@.len() == 0,
        market.well_formed(),
    ensures
        match result {
            Ok(_) => portfolio::bids_for(
                market@,
                ecology@.specialists,
                limits,
                codec::views(evaluations@),
                market@.investments.len(),
            ) == Ok::<Seq<BidView>, IntelligenceError>(bids_seen(final(bids)@, final(forecasts)@)),
            Err(error) => portfolio::bids_for(
                market@,
                ecology@.specialists,
                limits,
                codec::views(evaluations@),
                market@.investments.len(),
            ) == Err::<Seq<BidView>, IntelligenceError>(error),
        },
        result is Ok ==> forecasts_held(final(bids)@, final(forecasts)@),
        result is Ok ==> forall|i: int|
            0 <= i < final(bids)@.len() ==> 0 <= (
            #[trigger] bids_seen(final(bids)@, final(forecasts)@)[i]).investment
                < market@.investments.len(),
{
    let specialists = ecology.specialists();
    let ghost views = codec::views(specialists@);
    let ghost scores = codec::views(evaluations@);
    let count: usize = market.investment_count();
    proof {
        market.lemma_valid();
    }
    let mut index: usize = 0;
    assert(bids_seen(bids@, forecasts@) =~= Seq::empty());
    while index < count
        invariant
            index <= count,
            count == market@.investments.len(),
            market.well_formed(),
            market@.valid(),
            views == codec::views(specialists@),
            views == ecology@.specialists,
            scores == codec::views(evaluations@),
            forecasts_held(bids@, forecasts@),
            portfolio::bids_for(market@, views, limits, scores, index as nat) == Ok::<
                Seq<BidView>,
                IntelligenceError,
            >(bids_seen(bids@, forecasts@)),
            forall|i: int|
                0 <= i < bids@.len() ==> 0 <= (#[trigger] bids_seen(bids@, forecasts@)[i]).investment
                    < index,
        decreases count - index,
    {
        let investment = InvestmentId(index as u32);
        let specification = match market.investment(investment) {
            Some(specification) => specification,
            None => return Err(IntelligenceError::InvalidReference),
        };
        let opportunity = match market.opportunity(specification.opportunity) {
            Some(opportunity) => opportunity,
            None => return Err(IntelligenceError::InvalidReference),
        };
        let features = market.features(specification.opportunity);
        let route = ecology.routed(opportunity, features.len());
        let ghost before = bids_seen(bids@, forecasts@);
        proof {
            lemma_routed_places(views, opportunity, features@.len());
            lemma_route_names(
                before,
                index as int,
                views,
                route@,
                limits,
                scores,
            );
        }
        match enter_route(
            bids,
            forecasts,
            investment,
            specialists,
            route.as_slice(),
            limits,
            evaluations,
        ) {
            Ok(_) => {},
            Err(error) => {
                proof {
                    portfolio::lemma_bids_fail(
                        market@,
                        views,
                        limits,
                        scores,
                        (index + 1) as nat,
                        count as nat,
                    );
                }
                return Err(error);
            },
        }
        index = index + 1;
    }
    Ok(())
}

/// The bids of a route are those there were, followed by bids for its investment.
proof fn lemma_route_names(
    bids: Seq<BidView>,
    investment: int,
    specialists: Seq<ecology::RevisionView>,
    route: Seq<usize>,
    limits: IntelligenceLimits,
    evaluations: Seq<Seq<ScoredForecast>>,
)
    ensures
        portfolio::route_bidding(
            bids,
            investment,
            specialists,
            route,
            limits,
            evaluations,
        ) matches Ok(next) ==> next.len() >= bids.len() && forall|i: int|
            0 <= i < next.len() ==> (#[trigger] next[i]).investment == investment || i < bids.len()
                && next[i] == bids[i],
    decreases route.len(),
{
    if route.len() > 0 {
        lemma_route_names(bids, investment, specialists, route.drop_last(), limits, evaluations);
    }
}

fn bid_precedence(
    market: &MarketArena,
    forecasts: &[ScoredForecast],
    left: &BidRecord,
    right: &BidRecord,
) -> (order: Precedence)
    requires
        left.investment.0 < market@.investments.len(),
        right.investment.0 < market@.investments.len(),
        left.forecast_start <= left.forecast_end <= forecasts@.len(),
        right.forecast_start <= right.forecast_end <= forecasts@.len(),
    ensures
        order == portfolio::bid_order(market@, left.seen(forecasts@), right.seen(forecasts@)),
{
    proof {
        reveal(portfolio::bid_order);
    }
    let left_spec = match market.investment(left.investment) {
        Some(specification) => specification,
        None => return Precedence::Tied,
    };
    let right_spec = match market.investment(right.investment) {
        Some(specification) => specification,
        None => return Precedence::Tied,
    };
    if left_spec.preference_priority < right_spec.preference_priority {
        return Precedence::Before;
    }
    if left_spec.preference_priority > right_spec.preference_priority {
        return Precedence::After;
    }
    let order = compare_forecast_vectors(left.forecasts(forecasts), right.forecasts(forecasts));
    match order {
        Precedence::Tied => {},
        _ => return order,
    }
    if is_smaller(left_spec.resources.upper, right_spec.resources.upper) {
        return Precedence::Before;
    }
    if is_smaller(right_spec.resources.upper, left_spec.resources.upper) {
        return Precedence::After;
    }
    if left.investment.0 < right.investment.0 {
        return Precedence::Before;
    }
    if left.investment.0 > right.investment.0 {
        return Precedence::After;
    }
    if left.specialist.precedes(right.specialist) {
        Precedence::Before
    } else if right.specialist.precedes(left.specialist) {
        Precedence::After
    } else {
        Precedence::Tied
    }
}

spec fn at(bids: Seq<BidView>, order: Seq<usize>) -> Seq<BidView> {
    Seq::new(order.len(), |i: int| bids[order[i] as int])
}

/// The places of the bids, in the order in which they are considered.
fn rank_bids(
    market: &MarketArena,
    bids: &[BidRecord],
    forecasts: &[ScoredForecast],
    order: &mut Vec<usize>,
)
    requires
        old(order)@.len() == 0,
        forecasts_held(bids@, forecasts@),
        forall|i: int|
            0 <= i < bids@.len() ==> 0 <= (#[trigger] bids_seen(bids@, forecasts@)[i]).investment
                < market@.investments.len(),
    ensures
        at(bids_seen(bids@, forecasts@), final(order)@) == portfolio::ranked(
            market@,
            bids_seen(bids@, forecasts@),
        ),
        forall|i: int|
            0 <= i < final(order)@.len() ==> (#[trigger] final(order)@[i]) < bids@.len(),
{
    let ghost views = bids_seen(bids@, forecasts@);
    let mut index: usize = 0;
    assert(views.take(0) =~= Seq::empty());
    assert(at(views, order@) =~= Seq::empty());
    while index < bids.len()
        invariant
            index <= bids@.len(),
            views == bids_seen(bids@, forecasts@),
            forecasts_held(bids@, forecasts@),
            forall|i: int|
                0 <= i < bids@.len() ==> 0 <= (#[trigger] views[i]).investment
                    < market@.investments.len(),
            forall|i: int| 0 <= i < order@.len() ==> (#[trigger] order@[i]) < bids@.len(),
            at(views, order@) == portfolio::ranked(market@, views.take(index as int)),
        decreases bids@.len() - index,
    {
        let ghost list = at(views, order@);
        let ghost bid = views[index as int];
        let mut place: usize = 0;
        let mut searching = true;
        while searching && place < order.len()
            invariant
                index < bids@.len(),
                place <= order@.len(),
                views == bids_seen(bids@, forecasts@),
                forecasts_held(bids@, forecasts@),
                bid == views[index as int],
                list == at(views, order@),
                forall|i: int|
                    0 <= i < bids@.len() ==> 0 <= (#[trigger] views[i]).investment
                        < market@.investments.len(),
                forall|i: int| 0 <= i < order@.len() ==> (#[trigger] order@[i]) < bids@.len(),
                forall|i: int|
                    0 <= i < place ==> portfolio::bid_order(market@, bid, #[trigger] list[i])
                        != Precedence::Before,
                !searching ==> place < order@.len() && portfolio::bid_order(
                    market@,
                    bid,
                    list[place as int],
                ) == Precedence::Before,
            decreases (if searching { 1int } else { 0 }), order@.len() - place,
        {
            proof {
                let other = order@[place as int] as int;
                assert(views[other] == bids@[other].seen(forecasts@));
                assert(views[index as int] == bids@[index as int].seen(forecasts@));
            }
            match bid_precedence(market, forecasts, &bids[index], &bids[order[place]]) {
                Precedence::Before => {
                    searching = false;
                },
                _ => {
                    place = place + 1;
                },
            }
        }
        proof {
            portfolio::lemma_bid_place(market@, list, bid);
            assert(portfolio::bid_place(market@, list, bid) == place) by {
                let expected = portfolio::bid_place(market@, list, bid);
                if expected < place {
                    assert(portfolio::bid_order(market@, bid, list[expected])
                        != Precedence::Before);
                } else if place < expected {
                    assert(portfolio::bid_order(market@, bid, list[place as int])
                        != Precedence::Before);
                }
            }
            assert(views.take(index + 1).drop_last() =~= views.take(index as int));
            assert(views.take(index + 1).last() == bid);
        }
        let ghost before = order@;
        order.insert(place, index);
        assert(at(views, order@) =~= list.insert(place as int, bid));
        index = index + 1;
    }
    assert(views.take(views.len() as int) =~= views);
}

// ---------------------------------------------------------------------------
// Choosing
// ---------------------------------------------------------------------------
struct Choice {
    allocations: Vec<Allocation>,
    selected: Vec<bool>,
    reserved: ResourceVector,
}

impl View for Choice {
    type V = ChoiceView;

    closed spec fn view(&self) -> ChoiceView {
        ChoiceView { allocations: codec::views(self.allocations@), reserved: self.reserved }
    }
}

fn without_scores(forecasts: &[ScoredForecast]) -> (list: Vec<Forecast>)
    ensures
        list@ == portfolio::unscored(forecasts@),
{
    let mut list: Vec<Forecast> = Vec::new();
    let mut index: usize = 0;
    while index < forecasts.len()
        invariant
            index <= forecasts@.len(),
            list@ == portfolio::unscored(forecasts@).take(index as int),
        decreases forecasts@.len() - index,
    {
        list.push(forecasts[index].forecast);
        assert(list@ =~= portfolio::unscored(forecasts@).take(index + 1));
        index = index + 1;
    }
    assert(list@ =~= portfolio::unscored(forecasts@));
    list
}

impl Choice {
    spec fn marks(self, count: nat) -> bool {
        &&& self.selected@.len() == count
        &&& forall|i: int|
            0 <= i < count ==> (#[trigger] self.selected@[i]) == portfolio::chosen(
                self@.allocations,
                i,
            )
        &&& forall|i: int|
            0 <= i < self@.allocations.len() ==> 0 <= (
            #[trigger] self@.allocations[i]).investment < count
    }

    /// Nothing is chosen yet; the lists are filled anew.
    fn nothing(count: usize, mut allocations: Vec<Allocation>, mut selected: Vec<bool>) -> (choice:
        Self)
        ensures
            choice@ == ChoiceView::nothing(),
            choice.marks(count as nat),
    {
        allocations.clear();
        selected.clear();
        let mut index: usize = 0;
        while index < count
            invariant
                index <= count,
                selected@.len() == index,
                forall|i: int| 0 <= i < index ==> !(#[trigger] selected@[i]),
            decreases count - index,
        {
            selected.push(false);
            index = index + 1;
        }
        let choice = Self { allocations, selected, reserved: ResourceVector::default() };
        assert(choice@ =~= ChoiceView::nothing());
        choice
    }

    fn consider(
        &mut self,
        market: &MarketArena,
        investment: usize,
        source: AllocationSource,
        forecasts: &[ScoredForecast],
        allowance: ResourceVector,
        limit: usize,
    ) -> (result: Result<(), IntelligenceError>)
        requires
            market.well_formed(),
            investment < market@.investments.len(),
            old(self).marks(market@.investments.len()),
        ensures
            match result {
                Ok(_) => old(self)@.considering(
                    market@,
                    (OfferView {
                        investment: investment as int,
                        source,
                        forecasts: portfolio::unscored(forecasts@),
                    }),
                    allowance,
                    limit as nat,
                ) == Ok::<ChoiceView, IntelligenceError>(final(self)@) && final(self).marks(
                    market@.investments.len(),
                ),
                Err(error) => old(self)@.considering(
                    market@,
                    (OfferView {
                        investment: investment as int,
                        source,
                        forecasts: portfolio::unscored(forecasts@),
                    }),
                    allowance,
                    limit as nat,
                ) == Err::<ChoiceView, IntelligenceError>(error),
            },
    {
        proof {
            market.lemma_valid();
        }
        if self.allocations.len() >= limit || self.selected[investment] {
            return Ok(());
        }
        let id = InvestmentId(investment as u32);
        let specification = match market.investment(id) {
            Some(specification) => specification,
            None => return Err(IntelligenceError::InvalidReference),
        };
        let upper = specification.resources.upper;
        let prospective = match self.reserved.checked_add(upper) {
            Some(prospective) => prospective,
            None => return Err(IntelligenceError::ResourceOverflow),
        };
        if !prospective.fits_within(allowance) {
            return Ok(());
        }
        let allocation = Allocation {
            investment: id,
            source,
            bootstrap_priority: specification.bootstrap_priority,
            resources: upper,
            forecasts: without_scores(forecasts),
        };
        let ghost before = self@.allocations;
        self.allocations.push(allocation);
        self.selected.set(investment, true);
        self.reserved = prospective;
        proof {
            let after = self@.allocations;
            assert(after =~= before.push(allocation@));
            assert forall|i: int| 0 <= i < self.selected@.len() implies (
            #[trigger] self.selected@[i]) == portfolio::chosen(after, i) by {
                if i == investment {
                    assert(after[before.len() as int].investment == i);
                } else if portfolio::chosen(before, i) {
                    let k = choose|k: int|
                        0 <= k < before.len() && (#[trigger] before[k]).investment == i;
                    assert(after[k].investment == i);
                } else if portfolio::chosen(after, i) {
                    let k = choose|k: int|
                        0 <= k < after.len() && (#[trigger] after[k]).investment == i;
                    if k < before.len() {
                        assert(before[k].investment == i);
                    }
                }
            }
            assert forall|i: int| 0 <= i < after.len() implies 0 <= (
            #[trigger] after[i]).investment < market@.investments.len() by {
                if i < before.len() {
                    assert(after[i] == before[i]);
                }
            }
        }
        Ok(())
    }
}

fn bootstrap_places(market: &MarketArena) -> (order: Vec<BootstrapKey>)
    requires
        market.well_formed(),
    ensures
        order@ == portfolio::bootstrap_order(market@),
{
    let mut keys: Vec<BootstrapKey> = Vec::new();
    let count: usize = market.investment_count();
    let ghost expected = Seq::new(
        market@.investments.len(),
        |i: int| portfolio::bootstrap_key(market@, i),
    );
    proof {
        market.lemma_valid();
    }
    let mut index: usize = 0;
    while index < count
        invariant
            index <= count,
            count == market@.investments.len(),
            count <= u32::MAX + 1,
            expected == Seq::new(
                market@.investments.len(),
                |i: int| portfolio::bootstrap_key(market@, i),
            ),
            keys@ == expected.take(index as int),
        decreases count - index,
    {
        match market.investment(InvestmentId(index as u32)) {
            Some(specification) => {
                keys.push(
                    BootstrapKey { priority: specification.bootstrap_priority, index },
                );
            },
            None => {},
        }
        assert(keys@ =~= expected.take(index + 1));
        index = index + 1;
    }
    assert(keys@ =~= expected);
    sort(keys.as_slice())
}

fn preference_places(market: &MarketArena) -> (order: Vec<PreferenceKey>)
    requires
        market.well_formed(),
    ensures
        order@ == portfolio::preference_order(market@),
{
    let mut keys: Vec<PreferenceKey> = Vec::new();
    let count: usize = market.investment_count();
    let ghost expected = Seq::new(
        market@.investments.len(),
        |i: int| portfolio::preference_key(market@, i),
    );
    proof {
        market.lemma_valid();
    }
    let mut index: usize = 0;
    while index < count
        invariant
            index <= count,
            count == market@.investments.len(),
            count <= u32::MAX + 1,
            expected == Seq::new(
                market@.investments.len(),
                |i: int| portfolio::preference_key(market@, i),
            ),
            keys@ == expected.take(index as int),
        decreases count - index,
    {
        match market.investment(InvestmentId(index as u32)) {
            Some(specification) => {
                keys.push(
                    PreferenceKey {
                        preference: specification.preference_priority,
                        resources: specification.resources.upper,
                        bootstrap: specification.bootstrap_priority,
                        index,
                    },
                );
            },
            None => {},
        }
        assert(keys@ =~= expected.take(index + 1));
        index = index + 1;
    }
    assert(keys@ =~= expected);
    sort(keys.as_slice())
}

fn consider_bootstrap(
    choice: &mut Choice,
    market: &MarketArena,
    allowance: ResourceVector,
    limit: usize,
) -> (result: Result<(), IntelligenceError>)
    requires
        market.well_formed(),
        old(choice).marks(market@.investments.len()),
    ensures
        match result {
            Ok(_) => old(choice)@.considering_all(
                market@,
                portfolio::bootstrap_offers(market@),
                allowance,
                limit as nat,
            ) == Ok::<ChoiceView, IntelligenceError>(final(choice)@) && final(choice).marks(
                market@.investments.len(),
            ),
            Err(error) => old(choice)@.considering_all(
                market@,
                portfolio::bootstrap_offers(market@),
                allowance,
                limit as nat,
            ) == Err::<ChoiceView, IntelligenceError>(error),
        },
{
    let order = bootstrap_places(market);
    let ghost start = choice@;
    let ghost offers = portfolio::bootstrap_offers(market@);
    proof {
        market.lemma_valid();
        portfolio::lemma_bootstrap_order(market@);
        assert(offers.take(0) =~= Seq::empty());
    }
    let nobody: Vec<ScoredForecast> = Vec::new();
    assert(portfolio::unscored(nobody@) =~= Seq::empty());
    let mut index: usize = 0;
    while index < order.len()
        invariant
            index <= order@.len(),
            market.well_formed(),
            start == old(choice)@,
            order@ == portfolio::bootstrap_order(market@),
            offers == portfolio::bootstrap_offers(market@),
            nobody@.len() == 0,
            portfolio::unscored(nobody@) == Seq::<Forecast>::empty(),
            forall|i: int|
                0 <= i < order@.len() ==> (#[trigger] order@[i]).index < market@.investments.len(),
            choice.marks(market@.investments.len()),
            start.considering_all(market@, offers.take(index as int), allowance, limit as nat)
                == Ok::<ChoiceView, IntelligenceError>(choice@),
        decreases order@.len() - index,
    {
        proof {
            assert(offers.take(index + 1).drop_last() =~= offers.take(index as int));
            assert(offers.take(index + 1).last() == portfolio::unforecast(
                order@[index as int].index as int,
            ));
        }
        match choice.consider(
            market,
            order[index].index,
            AllocationSource::Bootstrap,
            nobody.as_slice(),
            allowance,
            limit,
        ) {
            Ok(_) => {},
            Err(error) => {
                proof {
                    portfolio::lemma_considering_fails(
                        start,
                        market@,
                        offers,
                        allowance,
                        limit as nat,
                        index + 1,
                    );
                }
                return Err(error);
            },
        }
        index = index + 1;
    }
    assert(offers.take(offers.len() as int) =~= offers);
    Ok(())
}

fn consider_preferred(
    choice: &mut Choice,
    market: &MarketArena,
    allowance: ResourceVector,
    limit: usize,
) -> (result: Result<(), IntelligenceError>)
    requires
        market.well_formed(),
        old(choice).marks(market@.investments.len()),
    ensures
        match result {
            Ok(_) => old(choice)@.considering_all(
                market@,
                portfolio::preference_offers(market@),
                allowance,
                limit as nat,
            ) == Ok::<ChoiceView, IntelligenceError>(final(choice)@) && final(choice).marks(
                market@.investments.len(),
            ),
            Err(error) => old(choice)@.considering_all(
                market@,
                portfolio::preference_offers(market@),
                allowance,
                limit as nat,
            ) == Err::<ChoiceView, IntelligenceError>(error),
        },
{
    let order = preference_places(market);
    let ghost start = choice@;
    let ghost offers = portfolio::preference_offers(market@);
    proof {
        market.lemma_valid();
        portfolio::lemma_preference_order(market@);
        assert(offers.take(0) =~= Seq::empty());
    }
    let nobody: Vec<ScoredForecast> = Vec::new();
    assert(portfolio::unscored(nobody@) =~= Seq::empty());
    let mut index: usize = 0;
    while index < order.len()
        invariant
            index <= order@.len(),
            market.well_formed(),
            start == old(choice)@,
            order@ == portfolio::preference_order(market@),
            offers == portfolio::preference_offers(market@),
            nobody@.len() == 0,
            portfolio::unscored(nobody@) == Seq::<Forecast>::empty(),
            forall|i: int|
                0 <= i < order@.len() ==> (#[trigger] order@[i]).index < market@.investments.len(),
            choice.marks(market@.investments.len()),
            start.considering_all(market@, offers.take(index as int), allowance, limit as nat)
                == Ok::<ChoiceView, IntelligenceError>(choice@),
        decreases order@.len() - index,
    {
        proof {
            assert(offers.take(index + 1).drop_last() =~= offers.take(index as int));
            assert(offers.take(index + 1).last() == portfolio::unforecast(
                order@[index as int].index as int,
            ));
        }
        match choice.consider(
            market,
            order[index].index,
            AllocationSource::Bootstrap,
            nobody.as_slice(),
            allowance,
            limit,
        ) {
            Ok(_) => {},
            Err(error) => {
                proof {
                    portfolio::lemma_considering_fails(
                        start,
                        market@,
                        offers,
                        allowance,
                        limit as nat,
                        index + 1,
                    );
                }
                return Err(error);
            },
        }
        index = index + 1;
    }
    assert(offers.take(offers.len() as int) =~= offers);
    Ok(())
}

fn consider_bids(
    choice: &mut Choice,
    market: &MarketArena,
    bids: &[BidRecord],
    forecasts: &[ScoredForecast],
    order: &mut Vec<usize>,
    allowance: ResourceVector,
    limit: usize,
) -> (result: Result<(), IntelligenceError>)
    requires
        market.well_formed(),
        old(order)@.len() == 0,
        forecasts_held(bids@, forecasts@),
        old(choice).marks(market@.investments.len()),
        forall|i: int|
            0 <= i < bids@.len() ==> 0 <= (#[trigger] bids_seen(bids@, forecasts@)[i]).investment
                < market@.investments.len(),
    ensures
        match result {
            Ok(_) => old(choice)@.considering_all(
                market@,
                portfolio::bid_offers(
                    portfolio::ranked(market@, bids_seen(bids@, forecasts@)),
                ),
                allowance,
                limit as nat,
            ) == Ok::<ChoiceView, IntelligenceError>(final(choice)@) && final(choice).marks(
                market@.investments.len(),
            ),
            Err(error) => old(choice)@.considering_all(
                market@,
                portfolio::bid_offers(
                    portfolio::ranked(market@, bids_seen(bids@, forecasts@)),
                ),
                allowance,
                limit as nat,
            ) == Err::<ChoiceView, IntelligenceError>(error),
        },
{
    rank_bids(market, bids, forecasts, order);
    let ghost views = bids_seen(bids@, forecasts@);
    let ghost start = choice@;
    let ghost offers = portfolio::bid_offers(portfolio::ranked(market@, views));
    assert(offers.take(0) =~= Seq::empty());
    let mut index: usize = 0;
    while index < order.len()
        invariant
            index <= order@.len(),
            market.well_formed(),
            start == old(choice)@,
            views == bids_seen(bids@, forecasts@),
            forecasts_held(bids@, forecasts@),
            at(views, order@) == portfolio::ranked(market@, views),
            offers == portfolio::bid_offers(portfolio::ranked(market@, views)),
            forall|i: int| 0 <= i < order@.len() ==> (#[trigger] order@[i]) < bids@.len(),
            forall|i: int|
                0 <= i < bids@.len() ==> 0 <= (#[trigger] views[i]).investment
                    < market@.investments.len(),
            choice.marks(market@.investments.len()),
            start.considering_all(market@, offers.take(index as int), allowance, limit as nat)
                == Ok::<ChoiceView, IntelligenceError>(choice@),
        decreases order@.len() - index,
    {
        let bid = &bids[order[index]];
        proof {
            assert(views[order@[index as int] as int] == bid.seen(forecasts@));
            assert(at(views, order@)[index as int] == bid.seen(forecasts@));
            assert(offers.take(index + 1).drop_last() =~= offers.take(index as int));
            assert(offers.take(index + 1).last() == portfolio::bid_offer(bid.seen(forecasts@)));
        }
        match choice.consider(
            market,
            bid.investment.0 as usize,
            AllocationSource::Specialist(bid.specialist),
            bid.forecasts(forecasts),
            allowance,
            limit,
        ) {
            Ok(_) => {},
            Err(error) => {
                proof {
                    portfolio::lemma_considering_fails(
                        start,
                        market@,
                        offers,
                        allowance,
                        limit as nat,
                        index + 1,
                    );
                }
                return Err(error);
            },
        }
        index = index + 1;
    }
    assert(offers.take(offers.len() as int) =~= offers);
    Ok(())
}

// ---------------------------------------------------------------------------
// Receipts
// ---------------------------------------------------------------------------
/// The receipt of an allocation.
pub open spec fn receipt_for(
    revision: Digest,
    epoch: u64,
    market: MarketView,
    allocation: AllocationView,
    rank: nat,
) -> Result<InvestmentReceipt, IntelligenceError> {
    let specification = market.investments[allocation.investment];
    let opportunity = market.opportunities[specification.opportunity.0 as int];
    let identity = investment::investment_identity(
        specification,
        opportunity.specification,
        opportunity.features,
    );
    if rank > u32::MAX {
        Err(IntelligenceError::CapacityExceeded)
    } else if !receipt::valid_features(opportunity.features) {
        Err(IntelligenceError::InvalidFeature)
    } else if !receipt::valid_forecast_list(allocation.forecasts) {
        Err(IntelligenceError::InvalidForecast)
    } else {
        Ok(
            InvestmentReceipt::of(
                receipt::decision_id_spec(
                    revision,
                    epoch,
                    rank as u32,
                    identity,
                    allocation.source,
                ),
                epoch,
                identity,
                opportunity.specification.identity,
                opportunity.specification.corpus_key,
                opportunity.specification.kind,
                opportunity.specification.feature_schema,
                opportunity.specification.routing_family,
                opportunity.features,
                specification.kind.tag_spec(),
                allocation.source,
                revision,
                rank as u32,
                specification.preference_priority,
                allocation.bootstrap_priority,
                allocation.forecasts,
                allocation.resources,
            ),
        )
    }
}

/// The receipts of some allocations, in order.
pub open spec fn receipts_for(
    revision: Digest,
    epoch: u64,
    market: MarketView,
    allocations: Seq<AllocationView>,
) -> Result<Seq<InvestmentReceipt>, IntelligenceError>
    decreases allocations.len(),
{
    if allocations.len() == 0 {
        Ok(Seq::empty())
    } else {
        match receipts_for(revision, epoch, market, allocations.drop_last()) {
            Err(error) => Err(error),
            Ok(front) => match receipt_for(
                revision,
                epoch,
                market,
                allocations.last(),
                (allocations.len() - 1) as nat,
            ) {
                Err(error) => Err(error),
                Ok(receipt) => Ok(front.push(receipt)),
            },
        }
    }
}

proof fn lemma_receipts_fail(
    revision: Digest,
    epoch: u64,
    market: MarketView,
    allocations: Seq<AllocationView>,
    count: int,
)
    requires
        0 <= count <= allocations.len(),
        receipts_for(revision, epoch, market, allocations.take(count)) is Err,
    ensures
        receipts_for(revision, epoch, market, allocations) == receipts_for(
            revision,
            epoch,
            market,
            allocations.take(count),
        ),
    decreases allocations.len() - count,
{
    if count < allocations.len() {
        assert(allocations.take(count + 1).drop_last() =~= allocations.take(count));
        lemma_receipts_fail(revision, epoch, market, allocations, count + 1);
    } else {
        assert(allocations.take(count) =~= allocations);
    }
}

fn write_receipt(
    revision: Digest,
    epoch: u64,
    market: &MarketArena,
    allocation: &Allocation,
    rank: usize,
) -> (result: Result<InvestmentReceipt, IntelligenceError>)
    requires
        market.well_formed(),
        allocation@.investment < market@.investments.len(),
    ensures
        result == receipt_for(revision, epoch, market@, allocation@, rank as nat),
{
    proof {
        market.lemma_valid();
    }
    if rank > u32::MAX as usize {
        return Err(IntelligenceError::CapacityExceeded);
    }
    let policy_rank: u32 = rank as u32;
    let specification = match market.investment(allocation.investment) {
        Some(specification) => specification,
        None => return Err(IntelligenceError::InvalidReference),
    };
    let opportunity = match market.opportunity(specification.opportunity) {
        Some(opportunity) => opportunity,
        None => return Err(IntelligenceError::InvalidReference),
    };
    let features = market.features(specification.opportunity);
    let identity = investment_digest(specification, opportunity, features);
    InvestmentReceipt::new(
        decision_id(revision, epoch, policy_rank, identity, allocation.source),
        epoch,
        identity,
        opportunity.identity,
        opportunity.corpus_key,
        opportunity.kind,
        opportunity.feature_schema,
        opportunity.routing_family,
        features,
        specification.tag(),
        allocation.source,
        revision,
        policy_rank,
        specification.preference_priority,
        allocation.bootstrap_priority,
        allocation.forecasts.as_slice(),
        allocation.resources,
    )
}

fn write_receipts(
    receipts: &mut Vec<InvestmentReceipt>,
    revision: Digest,
    epoch: u64,
    market: &MarketArena,
    allocations: &[Allocation],
) -> (result: Result<(), IntelligenceError>)
    requires
        market.well_formed(),
        old(receipts)@.len() == 0,
        forall|i: int|
            0 <= i < allocations@.len() ==> (#[trigger] codec::views(allocations@)[i]).investment
                < market@.investments.len(),
    ensures
        match result {
            Ok(_) => receipts_for(revision, epoch, market@, codec::views(allocations@)) == Ok::<
                Seq<InvestmentReceipt>,
                IntelligenceError,
            >(final(receipts)@),
            Err(error) => receipts_for(revision, epoch, market@, codec::views(allocations@))
                == Err::<Seq<InvestmentReceipt>, IntelligenceError>(error),
        },
{
    let ghost views = codec::views(allocations@);
    let mut index: usize = 0;
    assert(views.take(0) =~= Seq::empty());
    assert(receipts@ =~= Seq::empty());
    while index < allocations.len()
        invariant
            index <= allocations@.len(),
            market.well_formed(),
            views == codec::views(allocations@),
            forall|i: int|
                0 <= i < allocations@.len() ==> (#[trigger] views[i]).investment
                    < market@.investments.len(),
            receipts_for(revision, epoch, market@, views.take(index as int)) == Ok::<
                Seq<InvestmentReceipt>,
                IntelligenceError,
            >(receipts@),
        decreases allocations@.len() - index,
    {
        proof {
            assert(views[index as int] == allocations@[index as int]@);
            assert(views.take(index + 1).drop_last() =~= views.take(index as int));
            assert(views.take(index + 1).last() == views[index as int]);
        }
        match write_receipt(revision, epoch, market, &allocations[index], index) {
            Ok(receipt) => {
                receipts.push(receipt);
            },
            Err(error) => {
                proof {
                    lemma_receipts_fail(revision, epoch, market@, views, index + 1);
                }
                return Err(error);
            },
        }
        index = index + 1;
    }
    assert(views.take(views.len() as int) =~= views);
    Ok(())
}

// ---------------------------------------------------------------------------
// The whole choice
// ---------------------------------------------------------------------------
/// What was chosen and how it is recorded.
#[verifier::ext_equal]
pub struct PortfolioView {
    pub allocations: Seq<AllocationView>,
    pub receipts: Seq<InvestmentReceipt>,
}

/// The choice once bootstrap priorities, bids and preferences have been heard in
/// turn.
pub open spec fn choice_of(
    limits: IntelligenceLimits,
    specialists: Seq<ecology::RevisionView>,
    market: MarketView,
    allowance: ResourceVector,
    limit: nat,
    evaluations: Seq<Seq<ScoredForecast>>,
) -> Result<ChoiceView, IntelligenceError> {
    let first_limit: nat = if limit < 1 {
        limit
    } else {
        1
    };
    match ChoiceView::nothing().considering_all(
        market,
        portfolio::bootstrap_offers(market),
        allowance,
        first_limit,
    ) {
        Err(error) => Err(error),
        Ok(first) => match portfolio::bids_for(
            market,
            specialists,
            limits,
            evaluations,
            market.investments.len(),
        ) {
            Err(error) => Err(error),
            Ok(bids) => match first.considering_all(
                market,
                portfolio::bid_offers(portfolio::ranked(market, bids)),
                allowance,
                limit,
            ) {
                Err(error) => Err(error),
                Ok(second) => second.considering_all(
                    market,
                    portfolio::preference_offers(market),
                    allowance,
                    limit,
                ),
            },
        },
    }
}

/// The portfolio that is chosen from a market.
pub open spec fn portfolio_of(
    revision: Digest,
    limits: IntelligenceLimits,
    specialists: Seq<ecology::RevisionView>,
    market: MarketView,
    allowance: ResourceVector,
    epoch: u64,
    limit: nat,
    evaluations: Seq<Seq<ScoredForecast>>,
) -> Result<PortfolioView, IntelligenceError> {
    match choice_of(limits, specialists, market, allowance, limit, evaluations) {
        Err(error) => Err(error),
        Ok(choice) => match receipts_for(revision, epoch, market, choice.allocations) {
            Err(error) => Err(error),
            Ok(receipts) => Ok(PortfolioView { allocations: choice.allocations, receipts }),
        },
    }
}

/// What is chosen from a market is sound.
proof fn lemma_choice_is_sound(
    limits: IntelligenceLimits,
    specialists: Seq<ecology::RevisionView>,
    market: MarketView,
    allowance: ResourceVector,
    limit: nat,
    evaluations: Seq<Seq<ScoredForecast>>,
)
    ensures
        choice_of(limits, specialists, market, allowance, limit, evaluations) matches Ok(choice)
            ==> portfolio::sound_choice(choice, allowance, limit),
{
    let first_limit: nat = if limit < 1 {
        limit
    } else {
        1
    };
    let nothing = ChoiceView::nothing();
    portfolio::law_choices_stay_sound(
        nothing,
        market,
        portfolio::bootstrap_offers(market),
        allowance,
        first_limit,
    );
    match nothing.considering_all(
        market,
        portfolio::bootstrap_offers(market),
        allowance,
        first_limit,
    ) {
        Err(_) => {},
        Ok(first) => match portfolio::bids_for(
            market,
            specialists,
            limits,
            evaluations,
            market.investments.len(),
        ) {
            Err(_) => {},
            Ok(bids) => {
                let offers = portfolio::bid_offers(portfolio::ranked(market, bids));
                portfolio::law_choices_stay_sound(first, market, offers, allowance, limit);
                match first.considering_all(market, offers, allowance, limit) {
                    Err(_) => {},
                    Ok(second) => {
                        portfolio::law_choices_stay_sound(
                            second,
                            market,
                            portfolio::preference_offers(market),
                            allowance,
                            limit,
                        );
                    },
                }
            },
        },
    }
}

/// No portfolio holds more than was asked for, chooses an investment twice or takes
/// more than is allowed.
pub proof fn law_portfolios_are_sound(
    revision: Digest,
    limits: IntelligenceLimits,
    specialists: Seq<ecology::RevisionView>,
    market: MarketView,
    allowance: ResourceVector,
    epoch: u64,
    limit: nat,
    evaluations: Seq<Seq<ScoredForecast>>,
)
    ensures
        portfolio_of(
            revision,
            limits,
            specialists,
            market,
            allowance,
            epoch,
            limit,
            evaluations,
        ) matches Ok(chosen) ==> chosen.allocations.len() <= limit && portfolio::chosen_once(
            chosen.allocations,
        ) && match portfolio::taken_by(chosen.allocations) {
            Some(taken) => taken.within(allowance),
            None => false,
        },
{
    lemma_choice_is_sound(limits, specialists, market, allowance, limit, evaluations);
}

/// A portfolio that holds fewer investments than were asked for leaves out none that
/// is allowed beside those that it holds.
pub proof fn law_short_portfolio_is_maximal(
    revision: Digest,
    limits: IntelligenceLimits,
    specialists: Seq<ecology::RevisionView>,
    market: MarketView,
    allowance: ResourceVector,
    epoch: u64,
    limit: nat,
    evaluations: Seq<Seq<ScoredForecast>>,
)
    requires
        market.investments.len() <= usize::MAX,
    ensures
        portfolio_of(
            revision,
            limits,
            specialists,
            market,
            allowance,
            epoch,
            limit,
            evaluations,
        ) matches Ok(short) ==> short.allocations.len() < limit ==> match portfolio::taken_by(
            short.allocations,
        ) {
            Some(taken) => forall|i: int|
                0 <= i < market.investments.len() ==> portfolio::chosen(short.allocations, i)
                    || portfolio::exceeds(
                    taken,
                    (#[trigger] market.investments[i]).resources.upper,
                    allowance,
                ),
            None => false,
        },
{
    let offers = portfolio::preference_offers(market);
    let keys = portfolio::preference_order(market);
    lemma_choice_is_sound(limits, specialists, market, allowance, limit, evaluations);
    portfolio::lemma_preference_order(market);
    if let Ok(choice) = choice_of(limits, specialists, market, allowance, limit, evaluations) {
        let second = second_choice(limits, specialists, market, allowance, limit, evaluations);
        portfolio::law_short_choice_is_maximal(second, market, offers, allowance, limit);
        if choice.allocations.len() < limit {
            assert forall|i: int| 0 <= i < market.investments.len() implies portfolio::chosen(
                choice.allocations,
                i,
            ) || portfolio::exceeds(
                choice.reserved,
                (#[trigger] market.investments[i]).resources.upper,
                allowance,
            ) by {
                let key = portfolio::preference_key(market, i);
                assert(keys.contains(key));
                let place = choose|p: int| 0 <= p < keys.len() && keys[p] == key;
                assert(offers[place].investment == i);
                assert(portfolio::heard(choice, market, offers[place].investment, allowance));
            }
        }
    }
}

/// The choice before preferences are heard.
spec fn second_choice(
    limits: IntelligenceLimits,
    specialists: Seq<ecology::RevisionView>,
    market: MarketView,
    allowance: ResourceVector,
    limit: nat,
    evaluations: Seq<Seq<ScoredForecast>>,
) -> ChoiceView {
    let first = ChoiceView::nothing().considering_all(
        market,
        portfolio::bootstrap_offers(market),
        allowance,
        if limit < 1 {
            limit
        } else {
            1
        },
    )->Ok_0;
    let bids = portfolio::bids_for(
        market,
        specialists,
        limits,
        evaluations,
        market.investments.len(),
    )->Ok_0;
    first.considering_all(
        market,
        portfolio::bid_offers(portfolio::ranked(market, bids)),
        allowance,
        limit,
    )->Ok_0
}

// ---------------------------------------------------------------------------
// The buffer
// ---------------------------------------------------------------------------
/// Room for a portfolio and for what choosing it takes.
#[derive(Debug)]
pub struct PortfolioBuffer {
    allocations: Vec<Allocation>,
    order: Vec<usize>,
    bids: Vec<BidRecord>,
    forecasts: Vec<ScoredForecast>,
    selected: Vec<bool>,
    receipts: Vec<InvestmentReceipt>,
    specialists_evaluated: usize,
}

impl View for PortfolioBuffer {
    type V = PortfolioView;

    closed spec fn view(&self) -> PortfolioView {
        PortfolioView { allocations: codec::views(self.allocations@), receipts: self.receipts@ }
    }
}

/// A portfolio as readers see it.
#[derive(Clone, Copy)]
pub struct PortfolioReceipt<'a> {
    allocations: &'a [Allocation],
    receipts: &'a [InvestmentReceipt],
}

impl<'a> View for PortfolioReceipt<'a> {
    type V = PortfolioView;

    closed spec fn view(&self) -> PortfolioView {
        PortfolioView { allocations: codec::views(self.allocations@), receipts: self.receipts@ }
    }
}

impl<'a> PortfolioReceipt<'a> {
    pub fn allocations(&self) -> (allocations: &'a [Allocation])
        ensures
            codec::views(allocations@) == self@.allocations,
    {
        self.allocations
    }

    pub fn receipts(&self) -> (receipts: &'a [InvestmentReceipt])
        ensures
            receipts@ == self@.receipts,
    {
        self.receipts
    }

    /// The investments that were chosen.
    pub fn investment_ids(&self) -> (ids: Vec<InvestmentId>)
        ensures
            ids@.len() == self@.allocations.len(),
            forall|i: int|
                0 <= i < ids@.len() ==> (#[trigger] ids@[i]).0 == self@.allocations[i].investment,
    {
        let mut ids: Vec<InvestmentId> = Vec::new();
        let mut index: usize = 0;
        while index < self.allocations.len()
            invariant
                index <= self.allocations@.len(),
                ids@.len() == index,
                self@.allocations == codec::views(self.allocations@),
                forall|i: int|
                    0 <= i < index ==> (#[trigger] ids@[i]).0 == self@.allocations[i].investment,
            decreases self.allocations@.len() - index,
        {
            ids.push(self.allocations[index].investment);
            index = index + 1;
        }
        ids
    }

    /// What everything that was chosen takes together. The sum has to be counted in
    /// 64 bits, as it is for every portfolio within an allowance.
    pub fn resources(&self) -> (total: ResourceVector)
        requires
            portfolio::taken_by(self@.allocations) is Some,
        ensures
            portfolio::taken_by(self@.allocations) == Some(total),
    {
        let ghost all = self@.allocations;
        let mut total = ResourceVector::default();
        let mut index: usize = 0;
        assert(all.take(0) =~= Seq::empty());
        while index < self.allocations.len()
            invariant
                index <= self.allocations@.len(),
                all == codec::views(self.allocations@),
                portfolio::taken_by(all) is Some,
                portfolio::taken_by(all.take(index as int)) == Some(total),
            decreases self.allocations@.len() - index,
        {
            proof {
                lemma_parts_are_counted(all, index + 1);
                assert(all.take(index + 1).drop_last() =~= all.take(index as int));
                assert(all.take(index + 1).last() == self.allocations@[index as int]@);
            }
            match total.checked_add(self.allocations[index].resources) {
                Some(sum) => {
                    total = sum;
                },
                None => {},
            }
            index = index + 1;
        }
        assert(all.take(all.len() as int) =~= all);
        total
    }
}

proof fn lemma_parts_are_counted(allocations: Seq<AllocationView>, count: int)
    requires
        portfolio::taken_by(allocations) is Some,
        0 <= count <= allocations.len(),
    ensures
        portfolio::taken_by(allocations.take(count)) is Some,
    decreases allocations.len(),
{
    if count < allocations.len() {
        assert(allocations.drop_last().take(count) =~= allocations.take(count));
        lemma_parts_are_counted(allocations.drop_last(), count);
    } else {
        assert(allocations.take(count) =~= allocations);
    }
}

/// Room that the lists of a buffer may have that hold so much each.
pub open spec fn buffer_rooms(held: Seq<nat>, rooms: Seq<usize>) -> bool {
    rooms.len() == 6 && forall|i: int| 0 <= i < 6 ==> #[trigger] rooms[i] >= held[i]
}

/// The memory that a buffer takes which has room for so many allocations, places,
/// bids, forecasts, investments and receipts.
pub open spec fn buffer_memory(rooms: Seq<usize>) -> nat {
    resident::capped_sum(
        resident::capped_sum(
            resident::capped_sum(
                resident::capped_sum(
                    resident::capped_sum(
                        resident::capped_sum(
                            vstd::layout::size_of::<PortfolioBuffer>(),
                            resident::room::<Allocation>(rooms[0] as nat),
                        ),
                        resident::room::<usize>(rooms[1] as nat),
                    ),
                    resident::room::<BidRecord>(rooms[2] as nat),
                ),
                resident::room::<ScoredForecast>(rooms[3] as nat),
            ),
            resident::room::<bool>(rooms[4] as nat),
        ),
        resident::room::<InvestmentReceipt>(rooms[5] as nat),
    )
}

pub fn buffer_bytes(rooms: [usize; 6]) -> (bytes: u64)
    ensures
        bytes == buffer_memory(rooms@),
{
    resident_u64(
        core::mem::size_of::<PortfolioBuffer>().saturating_add(
            bytes_for::<Allocation>(rooms[0]),
        ).saturating_add(bytes_for::<usize>(rooms[1])).saturating_add(
            bytes_for::<BidRecord>(rooms[2]),
        ).saturating_add(bytes_for::<ScoredForecast>(rooms[3])).saturating_add(
            bytes_for::<bool>(rooms[4]),
        ).saturating_add(bytes_for::<InvestmentReceipt>(rooms[5])),
    )
}

/// Nothing was chosen.
pub open spec fn no_portfolio() -> PortfolioView {
    PortfolioView { allocations: Seq::empty(), receipts: Seq::empty() }
}

impl PortfolioBuffer {
    /// How many allocations, places, bids, forecasts, investments and receipts are
    /// held.
    pub closed spec fn held(&self) -> Seq<nat> {
        seq![
            self.allocations@.len(),
            self.order@.len(),
            self.bids@.len(),
            self.forecasts@.len(),
            self.selected@.len(),
            self.receipts@.len(),
        ]
    }

    /// How many specialists were asked for forecasts.
    pub closed spec fn evaluated(self) -> usize {
        self.specialists_evaluated
    }

    /// An empty buffer with room for any portfolio within the limits. It is refused
    /// where the limits are invalid, where the room cannot be counted, or where
    /// there is none.
    pub fn try_with_capacity(limits: IntelligenceLimits) -> (result: Result<
        Self,
        IntelligenceError,
    >)
        ensures
            match result {
                Ok(buffer) => limits.valid() && limits.bids_counted() is Ok
                    && limits.forecasts_counted() is Ok && buffer@ == no_portfolio()
                    && buffer.evaluated() == 0,
                Err(error) => if !limits.valid() {
                    error is InvalidLimits
                } else if limits.bids_counted() is Err || limits.forecasts_counted() is Err {
                    error is ResourceOverflow
                } else {
                    error is CapacityExceeded
                },
            },
    {
        let limits = limits.validated()?;
        let bid_capacity: usize = limits.routed_bid_capacity()?;
        let forecast_capacity: usize = limits.routed_forecast_capacity()?;
        let order_capacity: usize = if limits.maximum_investments < bid_capacity {
            bid_capacity
        } else {
            limits.maximum_investments
        };
        let buffer = Self {
            allocations: reserved(limits.maximum_investments)?,
            order: reserved(order_capacity)?,
            bids: reserved(bid_capacity)?,
            forecasts: reserved(forecast_capacity)?,
            selected: reserved(limits.maximum_investments)?,
            receipts: reserved(limits.maximum_investments)?,
            specialists_evaluated: 0,
        };
        assert(buffer@ =~= no_portfolio());
        Ok(buffer)
    }

    pub fn clear(&mut self)
        ensures
            final(self)@ == no_portfolio(),
            final(self).evaluated() == 0,
    {
        self.allocations.clear();
        self.order.clear();
        self.bids.clear();
        self.forecasts.clear();
        self.selected.clear();
        self.receipts.clear();
        self.specialists_evaluated = 0;
        assert(self@ =~= no_portfolio());
    }

    pub fn specialists_evaluated(&self) -> (count: usize)
        ensures
            count == self.evaluated(),
    {
        self.specialists_evaluated
    }

    pub fn portfolio(&self) -> (portfolio: PortfolioReceipt<'_>)
        ensures
            portfolio@ == self@,
    {
        PortfolioReceipt {
            allocations: self.allocations.as_slice(),
            receipts: self.receipts.as_slice(),
        }
    }

    /// For how many allocations, places, bids, forecasts, investments and receipts
    /// there is room.
    pub fn capacities(&self) -> (capacities: [usize; 6])
        ensures
            forall|i: int| 0 <= i < 6 ==> #[trigger] capacities@[i] >= self.held()[i],
            self.held()[0] == self@.allocations.len(),
            self.held()[5] == self@.receipts.len(),
    {
        [
            capacity_of(&self.allocations),
            capacity_of(&self.order),
            capacity_of(&self.bids),
            capacity_of(&self.forecasts),
            capacity_of(&self.selected),
            capacity_of(&self.receipts),
        ]
    }

    /// The memory that the buffer's lists take with all their room.
    pub fn resident_bytes(&self) -> (bytes: u64)
        ensures
            exists|rooms: Seq<usize>| #[trigger]
                buffer_rooms(self.held(), rooms) && bytes == buffer_memory(rooms),
    {
        let rooms: [usize; 6] = self.capacities();
        assert(buffer_rooms(self.held(), rooms@));
        buffer_bytes(rooms)
    }

    fn choose_from(
        &mut self,
        ecology: &ModelEcology,
        limits: IntelligenceLimits,
        market: &MarketArena,
        allowance: ResourceVector,
        limit: usize,
        evaluations: &[Vec<ScoredForecast>],
    ) -> (result: Result<(), IntelligenceError>)
        requires
            market.well_formed(),
            old(self)@ == no_portfolio(),
        ensures
            match result {
                Ok(_) => match (
                    choice_of(
                        limits,
                        ecology@.specialists,
                        market@,
                        allowance,
                        limit as nat,
                        codec::views(evaluations@),
                    ),
                    portfolio::bids_for(
                        market@,
                        ecology@.specialists,
                        limits,
                        codec::views(evaluations@),
                        market@.investments.len(),
                    ),
                ) {
                    (Ok(choice), Ok(bids)) => final(self)@.allocations == choice.allocations
                        && final(self).evaluated() == bids.len(),
                    _ => false,
                },
                Err(error) => choice_of(
                    limits,
                    ecology@.specialists,
                    market@,
                    allowance,
                    limit as nat,
                    codec::views(evaluations@),
                ) == Err::<ChoiceView, IntelligenceError>(error),
            },
            result is Ok ==> forall|i: int|
                0 <= i < final(self)@.allocations.len() ==> 0 <= (
                #[trigger] final(self)@.allocations[i]).investment < market@.investments.len(),
            final(self)@.receipts == old(self)@.receipts,
    {
        let mut allocations: Vec<Allocation> = Vec::new();
        let mut selected: Vec<bool> = Vec::new();
        core::mem::swap(&mut allocations, &mut self.allocations);
        core::mem::swap(&mut selected, &mut self.selected);
        let mut choice = Choice::nothing(market.investment_count(), allocations, selected);
        let first_limit: usize = if limit < 1 {
            limit
        } else {
            1
        };
        consider_bootstrap(&mut choice, market, allowance, first_limit)?;
        self.order.clear();
        self.bids.clear();
        self.forecasts.clear();
        gather_bids(&mut self.bids, &mut self.forecasts, market, ecology, limits, evaluations)?;
        self.specialists_evaluated = self.bids.len();
        consider_bids(
            &mut choice,
            market,
            self.bids.as_slice(),
            self.forecasts.as_slice(),
            &mut self.order,
            allowance,
            limit,
        )?;
        consider_preferred(&mut choice, market, allowance, limit)?;
        self.allocations = choice.allocations;
        self.selected = choice.selected;
        Ok(())
    }

    /// Chooses a portfolio from a market: the first investment by bootstrap
    /// priority, then those that specialists bid for, then the rest by preference,
    /// while there is room and allowance. The forecasts of the specialists are
    /// given, in the order in which the investments are routed to them.
    pub fn allocate(
        &mut self,
        revision: Digest,
        limits: IntelligenceLimits,
        ecology: &ModelEcology,
        frame: MarketFrame<'_>,
        limit: usize,
        evaluations: &[Vec<ScoredForecast>],
    ) -> (result: Result<(), IntelligenceError>)
        requires
            frame.market.well_formed(),
        ensures
            match result {
                Ok(_) => portfolio_of(
                    revision,
                    limits,
                    ecology@.specialists,
                    frame.market@,
                    frame.allowance,
                    frame.epoch,
                    limit as nat,
                    codec::views(evaluations@),
                ) == Ok::<PortfolioView, IntelligenceError>(final(self)@) && match
                    portfolio::bids_for(
                    frame.market@,
                    ecology@.specialists,
                    limits,
                    codec::views(evaluations@),
                    frame.market@.investments.len(),
                ) {
                    Ok(bids) => final(self).evaluated() == bids.len(),
                    Err(_) => false,
                },
                Err(error) => portfolio_of(
                    revision,
                    limits,
                    ecology@.specialists,
                    frame.market@,
                    frame.allowance,
                    frame.epoch,
                    limit as nat,
                    codec::views(evaluations@),
                ) == Err::<PortfolioView, IntelligenceError>(error) && final(self)@
                    == no_portfolio(),
            },
    {
        self.clear();
        match self.choose_from(
            ecology,
            limits,
            frame.market,
            frame.allowance,
            limit,
            evaluations,
        ) {
            Ok(_) => {},
            Err(error) => {
                self.clear();
                return Err(error);
            },
        }
        match write_receipts(
            &mut self.receipts,
            revision,
            frame.epoch,
            frame.market,
            self.allocations.as_slice(),
        ) {
            Ok(_) => Ok(()),
            Err(error) => {
                self.clear();
                Err(error)
            },
        }
    }
}

// ---------------------------------------------------------------------------
// Layout
// ---------------------------------------------------------------------------
/// The bytes that markets and portfolios within some limits take.
#[derive(Clone, Copy, Debug, PartialEq, Eq, Structural)]
pub struct IntelligenceScratchLayout {
    pub market: u64,
    pub portfolio: u64,
}

impl IntelligenceScratchLayout {
    pub fn market_bytes(self) -> (bytes: u64)
        ensures
            bytes == self.market,
    {
        self.market
    }

    pub fn portfolio_bytes(self) -> (bytes: u64)
        ensures
            bytes == self.portfolio,
    {
        self.portfolio
    }

    /// Both together, or the largest count.
    pub fn total_bytes(self) -> (bytes: u64)
        ensures
            bytes == (if self.market + self.portfolio > u64::MAX {
                u64::MAX as int
            } else {
                self.market + self.portfolio
            }),
    {
        self.market.saturating_add(self.portfolio)
    }
}

/// What some lists take, each with so many items of so many bytes.
pub open spec fn layout_total(inline: nat, allocations: Seq<(usize, usize)>) -> nat
    decreases allocations.len(),
{
    if allocations.len() == 0 {
        inline
    } else {
        layout_total(inline, allocations.drop_last()) + (allocations.last().0 as nat)
            * (allocations.last().1 as nat)
    }
}

proof fn lemma_layout_grows(inline: nat, allocations: Seq<(usize, usize)>, count: int)
    requires
        0 <= count <= allocations.len(),
    ensures
        layout_total(inline, allocations.take(count)) <= layout_total(inline, allocations),
    decreases allocations.len() - count,
{
    if count < allocations.len() {
        let next = allocations.take(count + 1);
        assert(next.drop_last() =~= allocations.take(count));
        assert((next.last().0 as nat) * (next.last().1 as nat) >= 0) by (nonlinear_arith);
        lemma_layout_grows(inline, allocations, count + 1);
    } else {
        assert(allocations.take(count) =~= allocations);
    }
}

/// The bytes of a value with the lists it owns, or a refusal where they cannot be
/// counted.
pub fn checked_layout_bytes(inline: usize, allocations: &[(usize, usize)]) -> (result: Result<
    u64,
    IntelligenceError,
>)
    ensures
        result == (if layout_total(inline as nat, allocations@) > usize::MAX {
            Err::<u64, IntelligenceError>(IntelligenceError::ResourceOverflow)
        } else {
            Ok(layout_total(inline as nat, allocations@) as u64)
        }),
{
    let mut bytes: usize = inline;
    let mut index: usize = 0;
    assert(allocations@.take(0) =~= Seq::empty());
    while index < allocations.len()
        invariant
            index <= allocations@.len(),
            bytes == layout_total(inline as nat, allocations@.take(index as int)),
        decreases allocations@.len() - index,
    {
        let (count, width): (usize, usize) = allocations[index];
        proof {
            let next = allocations@.take(index + 1);
            assert(next.drop_last() =~= allocations@.take(index as int));
            assert(next.last() == (count, width));
            assert((count as nat) * (width as nat) >= 0) by (nonlinear_arith);
            lemma_layout_grows(inline as nat, allocations@, index + 1);
        }
        let product: usize = match count.checked_mul(width) {
            Some(product) => product,
            None => return Err(IntelligenceError::ResourceOverflow),
        };
        bytes =
        match bytes.checked_add(product) {
            Some(total) => total,
            None => return Err(IntelligenceError::ResourceOverflow),
        };
        index = index + 1;
    }
    assert(allocations@.take(allocations@.len() as int) =~= allocations@);
    Ok(bytes as u64)
}

impl IntelligenceLimits {
    /// How many bids there can be.
    pub open spec fn bids_counted(self) -> Result<usize, IntelligenceError> {
        let routed = (self.maximum_investments as nat) * (
        self.maximum_specialists_per_route as nat);
        if routed > usize::MAX {
            Err(IntelligenceError::ResourceOverflow)
        } else if routed < self.maximum_bids {
            Ok(routed as usize)
        } else {
            Ok(self.maximum_bids)
        }
    }

    /// How many forecasts there can be.
    pub open spec fn forecasts_counted(self) -> Result<usize, IntelligenceError> {
        match self.bids_counted() {
            Err(error) => Err(error),
            Ok(bids) => if bids * MAXIMUM_MODEL_HEADS > usize::MAX {
                Err(IntelligenceError::ResourceOverflow)
            } else if bids * MAXIMUM_MODEL_HEADS < self.maximum_forecast_cells {
                Ok((bids * MAXIMUM_MODEL_HEADS) as usize)
            } else {
                Ok(self.maximum_forecast_cells)
            },
        }
    }

    pub fn routed_bid_capacity(self) -> (result: Result<usize, IntelligenceError>)
        ensures
            result == self.bids_counted(),
    {
        match self.maximum_investments.checked_mul(self.maximum_specialists_per_route) {
            None => Err(IntelligenceError::ResourceOverflow),
            Some(routed) => if routed < self.maximum_bids {
                Ok(routed)
            } else {
                Ok(self.maximum_bids)
            },
        }
    }

    pub fn routed_forecast_capacity(self) -> (result: Result<usize, IntelligenceError>)
        ensures
            result == self.forecasts_counted(),
    {
        let bids: usize = self.routed_bid_capacity()?;
        match bids.checked_mul(MAXIMUM_MODEL_HEADS) {
            None => Err(IntelligenceError::ResourceOverflow),
            Some(cells) => if cells < self.maximum_forecast_cells {
                Ok(cells)
            } else {
                Ok(self.maximum_forecast_cells)
            },
        }
    }

    /// The lists of a market within the limits.
    pub open spec fn market_room(self) -> Seq<(usize, usize)> {
        seq![
            (self.maximum_opportunities, vstd::layout::size_of::<OpportunityRecord>() as usize),
            (self.maximum_investments, vstd::layout::size_of::<InvestmentRecord>() as usize),
            (
                (self.maximum_opportunities * MAXIMUM_FEATURES_PER_OPPORTUNITY) as usize,
                vstd::layout::size_of::<u32>() as usize,
            ),
        ]
    }

    /// The lists of a portfolio within the limits, with the forecasts of its bids
    /// and the order in which they are considered.
    pub open spec fn portfolio_room(self, bids: usize, forecasts: usize) -> Seq<(usize, usize)> {
        let order: usize = if self.maximum_investments < bids {
            bids
        } else {
            self.maximum_investments
        };
        seq![
            (self.maximum_investments, vstd::layout::size_of::<Allocation>() as usize),
            (order, vstd::layout::size_of::<usize>() as usize),
            (bids, vstd::layout::size_of::<BidRecord>() as usize),
            (forecasts, vstd::layout::size_of::<ScoredForecast>() as usize),
            (self.maximum_investments, vstd::layout::size_of::<bool>() as usize),
            (self.maximum_investments, vstd::layout::size_of::<InvestmentReceipt>() as usize),
        ]
    }

    /// What markets and portfolios within the limits take.
    pub open spec fn layout_spec(self) -> Result<IntelligenceScratchLayout, IntelligenceError> {
        let market = layout_total(vstd::layout::size_of::<MarketArena>(), self.market_room());
        if !self.valid() {
            Err(IntelligenceError::InvalidLimits)
        } else if self.maximum_opportunities * MAXIMUM_FEATURES_PER_OPPORTUNITY > usize::MAX
            || market > usize::MAX {
            Err(IntelligenceError::ResourceOverflow)
        } else {
            match (self.bids_counted(), self.forecasts_counted()) {
                (Ok(bids), Ok(forecasts)) => {
                    let portfolio = layout_total(
                        vstd::layout::size_of::<PortfolioBuffer>(),
                        self.portfolio_room(bids, forecasts),
                    );
                    if portfolio > usize::MAX {
                        Err(IntelligenceError::ResourceOverflow)
                    } else {
                        Ok(
                            IntelligenceScratchLayout {
                                market: market as u64,
                                portfolio: portfolio as u64,
                            },
                        )
                    }
                },
                _ => Err(IntelligenceError::ResourceOverflow),
            }
        }
    }

    pub fn scratch_layout(self) -> (result: Result<IntelligenceScratchLayout, IntelligenceError>)
        ensures
            result == self.layout_spec(),
    {
        let this = self.validated()?;
        let features: usize = match this.maximum_opportunities.checked_mul(
            MAXIMUM_FEATURES_PER_OPPORTUNITY,
        ) {
            Some(features) => features,
            None => return Err(IntelligenceError::ResourceOverflow),
        };
        let market_lists: [(usize, usize); 3] = [
            (this.maximum_opportunities, core::mem::size_of::<OpportunityRecord>()),
            (this.maximum_investments, core::mem::size_of::<InvestmentRecord>()),
            (features, core::mem::size_of::<u32>()),
        ];
        assert(market_lists@ =~= self.market_room());
        let market: u64 = checked_layout_bytes(
            core::mem::size_of::<MarketArena>(),
            market_lists.as_slice(),
        )?;
        let bids: usize = this.routed_bid_capacity()?;
        let forecasts: usize = this.routed_forecast_capacity()?;
        let order: usize = if this.maximum_investments < bids {
            bids
        } else {
            this.maximum_investments
        };
        let portfolio_lists: [(usize, usize); 6] = [
            (this.maximum_investments, core::mem::size_of::<Allocation>()),
            (order, core::mem::size_of::<usize>()),
            (bids, core::mem::size_of::<BidRecord>()),
            (forecasts, core::mem::size_of::<ScoredForecast>()),
            (this.maximum_investments, core::mem::size_of::<bool>()),
            (this.maximum_investments, core::mem::size_of::<InvestmentReceipt>()),
        ];
        assert(portfolio_lists@ =~= self.portfolio_room(bids, forecasts));
        let portfolio: u64 = checked_layout_bytes(
            core::mem::size_of::<PortfolioBuffer>(),
            portfolio_lists.as_slice(),
        )?;
        Ok(IntelligenceScratchLayout { market, portfolio })
    }
}

} // verus!
