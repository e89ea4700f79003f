//! In which order investments are chosen, and what a portfolio may spend.
use vstd::prelude::*;

use crate::allocation;
use crate::allocation::PortfolioView;
use crate::digest::Digest;
use crate::ecology::RevisionView;
use crate::forecast::ScoredForecast;
use crate::market::MarketView;
use crate::order;
use crate::order::Ranked;
use crate::portfolio;
use crate::portfolio::{AllocationView, BidView, ChoiceView, OfferView};
use crate::types::{IntelligenceError, IntelligenceLimits, ResourceVector};

verus! {

// ---------------------------------------------------------------------------
// Spending
// ---------------------------------------------------------------------------
/// An amount of every resource, without bounds.
#[verifier::ext_equal]
pub struct Amount {
    pub cpu_time_ns: int,
    pub resident_bytes: int,
    pub durable_bytes: int,
    pub elapsed_time_ns: int,
    pub verification_requests: int,
}

/// What some allocations take together, resource by resource.
pub open spec fn spent(allocations: Seq<AllocationView>) -> Amount
    decreases allocations.len(),
{
    if allocations.len() == 0 {
        Amount {
            cpu_time_ns: 0,
            resident_bytes: 0,
            durable_bytes: 0,
            elapsed_time_ns: 0,
            verification_requests: 0,
        }
    } else {
        let before = spent(allocations.drop_last());
        let last = allocations.last().resources;
        Amount {
            cpu_time_ns: before.cpu_time_ns + last.cpu_time_ns,
            resident_bytes: before.resident_bytes + last.resident_bytes,
            durable_bytes: before.durable_bytes + last.durable_bytes,
            elapsed_time_ns: before.elapsed_time_ns + last.elapsed_time_ns,
            verification_requests: before.verification_requests + last.verification_requests,
        }
    }
}

/// No more of any resource is taken than is allowed.
pub open spec fn allowed(amount: Amount, allowance: ResourceVector) -> bool {
    &&& amount.cpu_time_ns <= allowance.cpu_time_ns
    &&& amount.resident_bytes <= allowance.resident_bytes
    &&& amount.durable_bytes <= allowance.durable_bytes
    &&& amount.elapsed_time_ns <= allowance.elapsed_time_ns
    &&& amount.verification_requests <= allowance.verification_requests
}

/// There is room for this beside some allocations.
pub open spec fn room_beside(
    allocations: Seq<AllocationView>,
    more: ResourceVector,
    allowance: ResourceVector,
) -> bool {
    let before = spent(allocations);
    allowed(
        Amount {
            cpu_time_ns: before.cpu_time_ns + more.cpu_time_ns,
            resident_bytes: before.resident_bytes + more.resident_bytes,
            durable_bytes: before.durable_bytes + more.durable_bytes,
            elapsed_time_ns: before.elapsed_time_ns + more.elapsed_time_ns,
            verification_requests: before.verification_requests + more.verification_requests,
        },
        allowance,
    )
}

/// The investment is among the first allocations.
pub open spec fn among_first(allocations: Seq<AllocationView>, count: int, investment: int) -> bool {
    exists|i: int|
        0 <= i < count && (#[trigger] allocations[i]).investment == investment
}

proof fn lemma_spent(allocations: Seq<AllocationView>)
    ensures
        portfolio::taken_by(allocations) matches Some(total) ==> spent(allocations) == (Amount {
            cpu_time_ns: total.cpu_time_ns as int,
            resident_bytes: total.resident_bytes as int,
            durable_bytes: total.durable_bytes as int,
            elapsed_time_ns: total.elapsed_time_ns as int,
            verification_requests: total.verification_requests as int,
        }),
    decreases allocations.len(),
{
    if allocations.len() > 0 {
        lemma_spent(allocations.drop_last());
    }
}

proof fn lemma_exceeds(
    allocations: Seq<AllocationView>,
    taken: ResourceVector,
    more: ResourceVector,
    allowance: ResourceVector,
)
    requires
        portfolio::taken_by(allocations) == Some(taken),
    ensures
        portfolio::exceeds(taken, more, allowance) <==> !room_beside(allocations, more, allowance),
{
    lemma_spent(allocations);
}

// ---------------------------------------------------------------------------
// Turns
// ---------------------------------------------------------------------------
/// An investment was passed over before an allocation was made: it is one of those
/// made before, or there was no room for it beside them.
pub open spec fn passed_over(
    market: MarketView,
    allocations: Seq<AllocationView>,
    count: int,
    investment: int,
    allowance: ResourceVector,
) -> bool {
    among_first(allocations, count, investment) || !room_beside(
        allocations.take(count),
        market.investments[investment].resources.upper,
        allowance,
    )
}

/// An allocation is what an offer asked for, and every earlier offer was passed over.
spec fn taken_in_turn(
    market: MarketView,
    offers: Seq<OfferView>,
    allocations: Seq<AllocationView>,
    count: int,
    place: int,
    allowance: ResourceVector,
) -> bool {
    &&& 0 <= place < offers.len()
    &&& allocations[count].investment == offers[place].investment
    &&& allocations[count].source == offers[place].source
    &&& allocations[count].forecasts == offers[place].forecasts
    &&& allocations[count].resources
        == market.investments[offers[place].investment].resources.upper
    &&& allocations[count].bootstrap_priority
        == market.investments[offers[place].investment].bootstrap_priority
    &&& forall|q: int|
        0 <= q < place ==> passed_over(
            market,
            allocations,
            count,
            (#[trigger] offers[q]).investment,
            allowance,
        )
}

proof fn lemma_passed_over_kept(
    market: MarketView,
    before: Seq<AllocationView>,
    after: Seq<AllocationView>,
    count: int,
    investment: int,
    allowance: ResourceVector,
)
    requires
        0 <= count <= before.len() <= after.len(),
        after.take(before.len() as int) == before,
        passed_over(market, before, count, investment, allowance),
    ensures
        passed_over(market, after, count, investment, allowance),
{
    assert forall|i: int| 0 <= i < before.len() implies #[trigger] after[i] == before[i] by {
        assert(after.take(before.len() as int)[i] == after[i]);
    }
    assert(after.take(count) =~= before.take(count));
    if among_first(before, count, investment) {
        let i = choose|i: int|
            0 <= i < count && (#[trigger] before[i]).investment == investment;
        assert(after[i].investment == investment);
    }
}

proof fn lemma_turns(
    choice: ChoiceView,
    market: MarketView,
    offers: Seq<OfferView>,
    allowance: ResourceVector,
    limit: nat,
    next: ChoiceView,
    count: int,
) -> (place: int)
    requires
        portfolio::sound_choice(choice, allowance, limit),
        choice.considering_all(market, offers, allowance, limit) == Ok::<
            ChoiceView,
            IntelligenceError,
        >(next),
        choice.allocations.len() <= count < next.allocations.len(),
    ensures
        taken_in_turn(market, offers, next.allocations, count, place, allowance),
    decreases offers.len(),
{
    let front = offers.drop_last();
    let offer = offers.last();
    let before = choice.considering_all(market, front, allowance, limit)->Ok_0;
    portfolio::law_choices_stay_sound(choice, market, front, allowance, limit);
    assert(before.considering(market, offer, allowance, limit) == Ok::<
        ChoiceView,
        IntelligenceError,
    >(next));
    assert(next.allocations.take(before.allocations.len() as int) =~= before.allocations);
    if count < before.allocations.len() {
        let place = lemma_turns(choice, market, front, allowance, limit, before, count);
        assert(next.allocations[count] == before.allocations[count]);
        assert forall|q: int| 0 <= q < place implies passed_over(
            market,
            next.allocations,
            count,
            (#[trigger] offers[q]).investment,
            allowance,
        ) by {
            assert(front[q] == offers[q]);
            lemma_passed_over_kept(
                market,
                before.allocations,
                next.allocations,
                count,
                offers[q].investment,
                allowance,
            );
        }
        place
    } else {
        let place = offers.len() - 1;
        portfolio::law_short_choice_is_maximal(choice, market, front, allowance, limit);
        assert forall|q: int| 0 <= q < place implies passed_over(
            market,
            next.allocations,
            count,
            (#[trigger] offers[q]).investment,
            allowance,
        ) by {
            let investment = offers[q].investment;
            assert(front[q] == offers[q]);
            assert(portfolio::heard(before, market, investment, allowance));
            lemma_exceeds(
                before.allocations,
                before.reserved,
                market.investments[investment].resources.upper,
                allowance,
            );
            if portfolio::chosen(before.allocations, investment) {
                let i = choose|i: int|
                    0 <= i < before.allocations.len() && (
                    #[trigger] before.allocations[i]).investment == investment;
                assert(next.allocations[i].investment == investment);
            }
        }
        place
    }
}

// ---------------------------------------------------------------------------
// Phases
// ---------------------------------------------------------------------------
spec fn one_at_most(limit: nat) -> nat {
    if limit < 1 {
        limit
    } else {
        1
    }
}

spec fn opening(market: MarketView, allowance: ResourceVector, limit: nat) -> ChoiceView {
    ChoiceView::nothing().considering_all(
        market,
        portfolio::bootstrap_offers(market),
        allowance,
        one_at_most(limit),
    )->Ok_0
}

spec fn bids_of(
    limits: IntelligenceLimits,
    specialists: Seq<RevisionView>,
    market: MarketView,
    evaluations: Seq<Seq<ScoredForecast>>,
) -> Seq<BidView> {
    portfolio::bids_for(
        market,
        specialists,
        limits,
        evaluations,
        market.investments.len(),
    )->Ok_0
}

spec fn ranked_of(
    limits: IntelligenceLimits,
    specialists: Seq<RevisionView>,
    market: MarketView,
    evaluations: Seq<Seq<ScoredForecast>>,
) -> Seq<BidView> {
    portfolio::ranked(market, bids_of(limits, specialists, market, evaluations))
}

spec fn bidden(
    limits: IntelligenceLimits,
    specialists: Seq<RevisionView>,
    market: MarketView,
    allowance: ResourceVector,
    limit: nat,
    evaluations: Seq<Seq<ScoredForecast>>,
) -> ChoiceView {
    opening(market, allowance, limit).considering_all(
        market,
        portfolio::bid_offers(ranked_of(limits, specialists, market, evaluations)),
        allowance,
        limit,
    )->Ok_0
}

proof fn lemma_phases(
    limits: IntelligenceLimits,
    specialists: Seq<RevisionView>,
    market: MarketView,
    allowance: ResourceVector,
    limit: nat,
    evaluations: Seq<Seq<ScoredForecast>>,
    choice: ChoiceView,
)
    requires
        allocation::choice_of(limits, specialists, market, allowance, limit, evaluations) == Ok::<
            ChoiceView,
            IntelligenceError,
        >(choice),
    ensures
        ({
            let first = opening(market, allowance, limit);
            let second = bidden(limits, specialists, market, allowance, limit, evaluations);
            &&& ChoiceView::nothing().considering_all(
                market,
                portfolio::bootstrap_offers(market),
                allowance,
                one_at_most(limit),
            ) == Ok::<ChoiceView, IntelligenceError>(first)
            &&& portfolio::bids_for(
                market,
                specialists,
                limits,
                evaluations,
                market.investments.len(),
            ) is Ok
            &&& first.considering_all(
                market,
                portfolio::bid_offers(ranked_of(limits, specialists, market, evaluations)),
                allowance,
                limit,
            ) == Ok::<ChoiceView, IntelligenceError>(second)
            &&& second.considering_all(
                market,
                portfolio::preference_offers(market),
                allowance,
                limit,
            ) == Ok::<ChoiceView, IntelligenceError>(choice)
            &&& portfolio::sound_choice(first, allowance, limit)
            &&& portfolio::sound_choice(second, allowance, limit)
            &&& portfolio::sound_choice(choice, allowance, limit)
            &&& first.allocations.len() <= 1
            &&& first.allocations.len() <= second.allocations.len() <= choice.allocations.len()
            &&& choice.allocations.take(second.allocations.len() as int) == second.allocations
            &&& second.allocations.take(first.allocations.len() as int) == first.allocations
        }),
{
    let nothing = ChoiceView::nothing();
    let first = opening(market, allowance, limit);
    let second = bidden(limits, specialists, market, allowance, limit, evaluations);
    let offers = portfolio::bid_offers(ranked_of(limits, specialists, market, evaluations));
    portfolio::law_choices_stay_sound(
        nothing,
        market,
        portfolio::bootstrap_offers(market),
        allowance,
        one_at_most(limit),
    );
    portfolio::law_choices_stay_sound(first, market, offers, allowance, limit);
    portfolio::law_choices_stay_sound(
        second,
        market,
        portfolio::preference_offers(market),
        allowance,
        limit,
    );
    portfolio::law_choices_are_kept(first, market, offers, allowance, limit);
    portfolio::law_choices_are_kept(
        second,
        market,
        portfolio::preference_offers(market),
        allowance,
        limit,
    );
}

/// The choice that a portfolio is made of.
proof fn lemma_choice_behind(
    revision: Digest,
    limits: IntelligenceLimits,
    specialists: Seq<RevisionView>,
    market: MarketView,
    allowance: ResourceVector,
    epoch: u64,
    limit: nat,
    evaluations: Seq<Seq<ScoredForecast>>,
    made: PortfolioView,
) -> (choice: ChoiceView)
    requires
        allocation::portfolio_of(
            revision,
            limits,
            specialists,
            market,
            allowance,
            epoch,
            limit,
            evaluations,
        ) == Ok::<PortfolioView, IntelligenceError>(made),
    ensures
        allocation::choice_of(limits, specialists, market, allowance, limit, evaluations) == Ok::<
            ChoiceView,
            IntelligenceError,
        >(choice),
        made.allocations == choice.allocations,
{
    allocation::choice_of(limits, specialists, market, allowance, limit, evaluations)->Ok_0
}

// ---------------------------------------------------------------------------
// Preference
// ---------------------------------------------------------------------------
/// One investment is preferred to another: by its preference, of which less is better;
/// then by what it takes, the first resource that differs deciding; then by its
/// bootstrap priority; then by its place.
pub open spec fn preferred_to(market: MarketView, left: int, right: int) -> bool {
    let a = market.investments[left];
    let b = market.investments[right];
    let p = a.resources.upper;
    let q = b.resources.upper;
    if a.preference_priority != b.preference_priority {
        a.preference_priority < b.preference_priority
    } else if p.cpu_time_ns != q.cpu_time_ns {
        p.cpu_time_ns < q.cpu_time_ns
    } else if p.resident_bytes != q.resident_bytes {
        p.resident_bytes < q.resident_bytes
    } else if p.durable_bytes != q.durable_bytes {
        p.durable_bytes < q.durable_bytes
    } else if p.elapsed_time_ns != q.elapsed_time_ns {
        p.elapsed_time_ns < q.elapsed_time_ns
    } else if p.verification_requests != q.verification_requests {
        p.verification_requests < q.verification_requests
    } else if a.bootstrap_priority != b.bootstrap_priority {
        a.bootstrap_priority < b.bootstrap_priority
    } else {
        left < right
    }
}

/// Some offer is of the investment.
pub open spec fn has_a_turn(offers: Seq<OfferView>, investment: int) -> bool {
    exists|i: int| 0 <= i < offers.len() && (#[trigger] offers[i]).investment == investment
}

/// Without forecasts, investments are heard in the order of preference: every
/// investment has its turn, and none before one that is preferred to it.
pub proof fn law_preference_decides_the_turn(market: MarketView)
    requires
        market.investments.len() <= usize::MAX,
    ensures
        ({
            let offers = portfolio::preference_offers(market);
            &&& offers.len() == market.investments.len()
            &&& forall|i: int|
                0 <= i < offers.len() ==> 0 <= (#[trigger] offers[i]).investment
                    < market.investments.len() && offers[i].source is Bootstrap
                    && offers[i].forecasts.len() == 0
            &&& forall|i: int, j: int|
                0 <= i < j < offers.len() ==> preferred_to(
                    market,
                    (#[trigger] offers[i]).investment,
                    (#[trigger] offers[j]).investment,
                )
            &&& forall|x: int|
                0 <= x < market.investments.len() ==> #[trigger] has_a_turn(offers, x)
        }),
{
    let offers = portfolio::preference_offers(market);
    let keys = Seq::new(
        market.investments.len(),
        |i: int| portfolio::preference_key(market, i),
    );
    let sorted = portfolio::preference_order(market);
    portfolio::lemma_preference_order(market);
    assert(order::distinct(keys));
    order::lemma_sorted_ascends(keys);
    assert forall|i: int| 0 <= i < sorted.len() implies (#[trigger] sorted[i]).index
        < market.investments.len() && sorted[i] == portfolio::preference_key(
        market,
        sorted[i].index as int,
    ) by {
        order::lemma_sorted_contains(keys, sorted[i]);
        assert(sorted.contains(sorted[i]));
        let k = choose|k: int| 0 <= k < keys.len() && keys[k] == sorted[i];
        assert(keys[k].index == k);
    }
    assert forall|i: int, j: int| 0 <= i < j < offers.len() implies preferred_to(
        market,
        (#[trigger] offers[i]).investment,
        (#[trigger] offers[j]).investment,
    ) by {
        assert(sorted[i].before(sorted[j]));
    }
    assert forall|x: int| 0 <= x < market.investments.len() implies #[trigger] has_a_turn(
        offers,
        x,
    ) by {
        let key = portfolio::preference_key(market, x);
        assert(sorted.contains(key));
        let i = choose|i: int| 0 <= i < sorted.len() && sorted[i] == key;
        assert(offers[i].investment == x);
    }
}

/// Of the investments that nobody bid for, none is chosen before one that is preferred
/// to it, unless that was chosen already or there was no room for it then. So those
/// that are chosen behind the first come in the order of preference.
pub proof fn law_the_rest_is_chosen_by_preference(
    revision: Digest,
    limits: IntelligenceLimits,
    specialists: Seq<RevisionView>,
    market: MarketView,
    allowance: ResourceVector,
    epoch: u64,
    limit: nat,
    evaluations: Seq<Seq<ScoredForecast>>,
    made: PortfolioView,
    count: int,
)
    requires
        market.investments.len() <= usize::MAX,
        allocation::portfolio_of(
            revision,
            limits,
            specialists,
            market,
            allowance,
            epoch,
            limit,
            evaluations,
        ) == Ok::<PortfolioView, IntelligenceError>(made),
        1 <= count < made.allocations.len(),
        made.allocations[count].source is Bootstrap,
    ensures
        0 <= made.allocations[count].investment < market.investments.len(),
        forall|x: int|
            0 <= x < market.investments.len() && #[trigger] preferred_to(
                market,
                x,
                made.allocations[count].investment,
            ) ==> passed_over(market, made.allocations, count, x, allowance),
        forall|later: int|
            count < later < made.allocations.len() ==> (
            #[trigger] made.allocations[later]).source is Bootstrap && preferred_to(
                market,
                made.allocations[count].investment,
                made.allocations[later].investment,
            ),
{
    let choice = lemma_choice_behind(
        revision,
        limits,
        specialists,
        market,
        allowance,
        epoch,
        limit,
        evaluations,
        made,
    );
    lemma_phases(limits, specialists, market, allowance, limit, evaluations, choice);
    law_preference_decides_the_turn(market);
    let offers = portfolio::preference_offers(market);
    let second = bidden(limits, specialists, market, allowance, limit, evaluations);
    lemma_bids_are_from_specialists(
        limits,
        specialists,
        market,
        allowance,
        limit,
        evaluations,
        choice,
        count,
    );
    let place = lemma_turns(second, market, offers, allowance, limit, choice, count);
    assert forall|x: int|
        0 <= x < market.investments.len() && #[trigger] preferred_to(
            market,
            x,
            made.allocations[count].investment,
        ) implies passed_over(market, made.allocations, count, x, allowance) by {
        assert(has_a_turn(offers, x));
        let q = choose|q: int| 0 <= q < offers.len() && (#[trigger] offers[q]).investment == x;
        if q > place {
            assert(preferred_to(market, offers[place].investment, offers[q].investment));
        }
        assert(q != place);
        assert(passed_over(market, choice.allocations, count, offers[q].investment, allowance));
    }
    assert forall|later: int|
        count < later < made.allocations.len() implies (
    #[trigger] made.allocations[later]).source is Bootstrap && preferred_to(
        market,
        made.allocations[count].investment,
        made.allocations[later].investment,
    ) by {
        let after = lemma_turns(second, market, offers, allowance, limit, choice, later);
        assert(choice.allocations[count].investment != choice.allocations[later].investment);
        if after < place {
            let x = offers[after].investment;
            assert(passed_over(market, choice.allocations, count, x, allowance));
            if among_first(choice.allocations, count, x) {
                let i = choose|i: int|
                    0 <= i < count && (#[trigger] choice.allocations[i]).investment == x;
                assert(choice.allocations[i].investment != choice.allocations[later].investment);
            }
            lemma_room_was_there(
                choice,
                allowance,
                limit,
                later,
                market.investments[x].resources.upper,
            );
            lemma_room_shrinks(
                choice.allocations,
                count,
                later,
                market.investments[x].resources.upper,
                allowance,
            );
        }
        assert(after != place);
        assert(preferred_to(market, offers[place].investment, offers[after].investment));
    }
}

/// What is allocated later leaves less room.
proof fn lemma_room_shrinks(
    allocations: Seq<AllocationView>,
    count: int,
    later: int,
    more: ResourceVector,
    allowance: ResourceVector,
)
    requires
        0 <= count <= later <= allocations.len(),
        room_beside(allocations.take(later), more, allowance),
    ensures
        room_beside(allocations.take(count), more, allowance),
    decreases later - count,
{
    if count < later {
        assert(allocations.take(later).drop_last() =~= allocations.take(later - 1));
        lemma_room_shrinks(allocations, count, later - 1, more, allowance);
    }
}

/// Whatever was allocated had room beside what was allocated before.
proof fn lemma_room_was_there(
    choice: ChoiceView,
    allowance: ResourceVector,
    limit: nat,
    later: int,
    taken: ResourceVector,
)
    requires
        portfolio::sound_choice(choice, allowance, limit),
        0 <= later < choice.allocations.len(),
        choice.allocations[later].resources == taken,
    ensures
        room_beside(choice.allocations.take(later), taken, allowance),
{
    lemma_spent(choice.allocations);
    lemma_spent_grows(choice.allocations, later + 1);
    assert(choice.allocations.take(later + 1).drop_last() =~= choice.allocations.take(later));
}

proof fn lemma_spent_grows(allocations: Seq<AllocationView>, count: int)
    requires
        0 <= count <= allocations.len(),
    ensures
        ({
            let part = spent(allocations.take(count));
            let all = spent(allocations);
            &&& part.cpu_time_ns <= all.cpu_time_ns
            &&& part.resident_bytes <= all.resident_bytes
            &&& part.durable_bytes <= all.durable_bytes
            &&& part.elapsed_time_ns <= all.elapsed_time_ns
            &&& part.verification_requests <= all.verification_requests
        }),
    decreases allocations.len(),
{
    if count < allocations.len() {
        assert(allocations.drop_last().take(count) =~= allocations.take(count));
        lemma_spent_grows(allocations.drop_last(), count);
    } else {
        assert(allocations.take(count) =~= allocations);
    }
}

/// An allocation behind the first that nobody bid for was made once all bids had been
/// heard.
proof fn lemma_bids_are_from_specialists(
    limits: IntelligenceLimits,
    specialists: Seq<RevisionView>,
    market: MarketView,
    allowance: ResourceVector,
    limit: nat,
    evaluations: Seq<Seq<ScoredForecast>>,
    choice: ChoiceView,
    count: int,
)
    requires
        allocation::choice_of(limits, specialists, market, allowance, limit, evaluations) == Ok::<
            ChoiceView,
            IntelligenceError,
        >(choice),
        1 <= count < choice.allocations.len(),
        choice.allocations[count].source is Bootstrap,
    ensures
        bidden(limits, specialists, market, allowance, limit, evaluations).allocations.len()
            <= count,
{
    lemma_phases(limits, specialists, market, allowance, limit, evaluations, choice);
    let first = opening(market, allowance, limit);
    let second = bidden(limits, specialists, market, allowance, limit, evaluations);
    if count < second.allocations.len() {
        let offers = portfolio::bid_offers(ranked_of(limits, specialists, market, evaluations));
        let place = lemma_turns(first, market, offers, allowance, limit, second, count);
        assert(choice.allocations.take(second.allocations.len() as int)[count]
            == second.allocations[count]);
    }
}

// ---------------------------------------------------------------------------
// The first choice
// ---------------------------------------------------------------------------
/// A portfolio begins with the investment of the lowest bootstrap priority among those
/// that are allowed by themselves, the earliest of them where several have it; and there
/// is one wherever some investment is allowed and something is asked for. No specialist
/// is heard on it.
pub proof fn law_portfolio_begins_with_the_bootstrap(
    revision: Digest,
    limits: IntelligenceLimits,
    specialists: Seq<RevisionView>,
    market: MarketView,
    allowance: ResourceVector,
    epoch: u64,
    limit: nat,
    evaluations: Seq<Seq<ScoredForecast>>,
    made: PortfolioView,
    investment: int,
)
    requires
        market.investments.len() <= usize::MAX,
        allocation::portfolio_of(
            revision,
            limits,
            specialists,
            market,
            allowance,
            epoch,
            limit,
            evaluations,
        ) == Ok::<PortfolioView, IntelligenceError>(made),
        0 <= investment < market.investments.len(),
        room_beside(Seq::empty(), market.investments[investment].resources.upper, allowance),
        limit > 0,
    ensures
        made.allocations.len() > 0,
        made.allocations[0].source is Bootstrap,
        made.allocations[0].forecasts.len() == 0,
        ({
            let first = made.allocations[0].investment;
            &&& 0 <= first < market.investments.len()
            &&& market.investments[first].bootstrap_priority
                < market.investments[investment].bootstrap_priority
                || market.investments[first].bootstrap_priority
                == market.investments[investment].bootstrap_priority && first <= investment
        }),
{
    let choice = lemma_choice_behind(
        revision,
        limits,
        specialists,
        market,
        allowance,
        epoch,
        limit,
        evaluations,
        made,
    );
    lemma_phases(limits, specialists, market, allowance, limit, evaluations, choice);
    let first = opening(market, allowance, limit);
    let second = bidden(limits, specialists, market, allowance, limit, evaluations);
    let nothing = ChoiceView::nothing();
    let offers = portfolio::bootstrap_offers(market);
    let keys = portfolio::bootstrap_order(market);
    let key = portfolio::bootstrap_key(market, investment);
    portfolio::lemma_bootstrap_order(market);
    assert(keys.contains(key));
    let q = choose|q: int| 0 <= q < keys.len() && keys[q] == key;
    assert(offers[q].investment == investment);
    let none = Seq::<AllocationView>::empty();
    lemma_exceeds(
        none,
        ResourceVector::zero(),
        market.investments[investment].resources.upper,
        allowance,
    );
    if first.allocations.len() == 0 {
        portfolio::law_short_choice_is_maximal(nothing, market, offers, allowance, 1);
        assert(portfolio::heard(first, market, offers[q].investment, allowance));
        assert(first.allocations =~= none);
        assert(portfolio::taken_by(first.allocations) == Some(first.reserved));
        assert(false);
    }
    let place = lemma_turns(nothing, market, offers, allowance, 1, first, 0);
    assert(first.allocations[0] == choice.allocations[0]) by {
        assert(second.allocations.take(first.allocations.len() as int)[0]
            == second.allocations[0]);
        assert(choice.allocations.take(second.allocations.len() as int)[0]
            == choice.allocations[0]);
    }
    if q < place {
        assert(passed_over(market, first.allocations, 0, offers[q].investment, allowance));
        assert(first.allocations.take(0) =~= none);
    } else if place < q {
        assert(keys[place].before(keys[q]));
    }
}

// ---------------------------------------------------------------------------
// The whole portfolio
// ---------------------------------------------------------------------------
/// What a portfolio takes is allowed, resource by resource; nothing is chosen twice;
/// no more is chosen than was asked for; and each allocation takes what its investment
/// declares at most.
pub proof fn law_portfolio_keeps_within_its_allowance(
    revision: Digest,
    limits: IntelligenceLimits,
    specialists: Seq<RevisionView>,
    market: MarketView,
    allowance: ResourceVector,
    epoch: u64,
    limit: nat,
    evaluations: Seq<Seq<ScoredForecast>>,
    made: PortfolioView,
)
    requires
        market.investments.len() <= usize::MAX,
        allocation::portfolio_of(
            revision,
            limits,
            specialists,
            market,
            allowance,
            epoch,
            limit,
            evaluations,
        ) == Ok::<PortfolioView, IntelligenceError>(made),
    ensures
        allowed(spent(made.allocations), allowance),
        made.allocations.len() <= limit,
        forall|i: int, j: int|
            0 <= i < j < made.allocations.len() ==> (#[trigger] made.allocations[i]).investment
                != (#[trigger] made.allocations[j]).investment,
        forall|i: int|
            0 <= i < made.allocations.len() ==> (#[trigger] made.allocations[i]).resources
                == market.investments[made.allocations[i].investment].resources.upper
                && made.allocations[i].bootstrap_priority
                == market.investments[made.allocations[i].investment].bootstrap_priority,
{
    let choice = lemma_choice_behind(
        revision,
        limits,
        specialists,
        market,
        allowance,
        epoch,
        limit,
        evaluations,
        made,
    );
    lemma_phases(limits, specialists, market, allowance, limit, evaluations, choice);
    lemma_spent(choice.allocations);
    let nothing = ChoiceView::nothing();
    let first = opening(market, allowance, limit);
    let second = bidden(limits, specialists, market, allowance, limit, evaluations);
    let bids = portfolio::bid_offers(ranked_of(limits, specialists, market, evaluations));
    assert forall|i: int| 0 <= i < made.allocations.len() implies (
    #[trigger] made.allocations[i]).resources
        == market.investments[made.allocations[i].investment].resources.upper
        && made.allocations[i].bootstrap_priority
        == market.investments[made.allocations[i].investment].bootstrap_priority by {
        if i < first.allocations.len() {
            let place = lemma_turns(
                nothing,
                market,
                portfolio::bootstrap_offers(market),
                allowance,
                one_at_most(limit),
                first,
                i,
            );
            assert(second.allocations.take(first.allocations.len() as int)[i]
                == second.allocations[i]);
            assert(choice.allocations.take(second.allocations.len() as int)[i]
                == choice.allocations[i]);
        } else if i < second.allocations.len() {
            let place = lemma_turns(first, market, bids, allowance, limit, second, i);
            assert(choice.allocations.take(second.allocations.len() as int)[i]
                == choice.allocations[i]);
        } else {
            let place = lemma_turns(
                second,
                market,
                portfolio::preference_offers(market),
                allowance,
                limit,
                choice,
                i,
            );
        }
    }
}

} // verus!
