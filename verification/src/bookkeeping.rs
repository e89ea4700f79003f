//! What is put on record of a portfolio, of a product and of what remains to be verified.
use vstd::prelude::*;

use crate::allocation;
use crate::allocation::PortfolioView;
use crate::challenger::ChallengerView;
use crate::compilation;
use crate::compilation::{CompilationRoots, OperationalAction};
use crate::compiler::CompilerView;
use crate::consolidation;
use crate::consolidation::{ConsolidationView, OperatorView, StateView};
use crate::demands;
use crate::digest::Digest;
use crate::ecology::RevisionView;
use crate::forecast::ScoredForecast;
use crate::intelligence::CoreView;
use crate::investment::{InvestmentKind, InvestmentTag};
use crate::knowledge;
use crate::knowledge::{WorkItemView, WorkView};
use crate::market::MarketView;
use crate::numbers;
use crate::order;
use crate::portfolio;
use crate::portfolio::{AllocationView, BidView, ChoiceView, OfferView};
use crate::receipt::InvestmentReceipt;
use crate::recovery;
use crate::recovery::{ManifestView, SourceView};
use crate::types::{
    AllocationSource, IntelligenceError, IntelligenceLimits, ResourceVector, SubjectId,
};

verus! {

// ---------------------------------------------------------------------------
// Receipts
// ---------------------------------------------------------------------------
/// The word for what an investment does.
pub open spec fn word_for(kind: InvestmentKind) -> InvestmentTag {
    match kind {
        InvestmentKind::Generate { .. } => InvestmentTag::Generate,
        InvestmentKind::Verify => InvestmentTag::Verify,
        InvestmentKind::Repair { .. } => InvestmentTag::Repair,
        InvestmentKind::Explore => InvestmentTag::Explore,
        InvestmentKind::TrainSpecialist { .. } => InvestmentTag::TrainSpecialist,
        InvestmentKind::CompareRevision { .. } => InvestmentTag::CompareRevision,
        InvestmentKind::Consolidate { .. } => InvestmentTag::Consolidate,
        InvestmentKind::RunShadowCampaign { .. } => InvestmentTag::RunShadowCampaign,
        InvestmentKind::ProposeRuntimePolicy { .. } => InvestmentTag::ProposeRuntimePolicy,
    }
}

/// The receipt says what was chosen, in which place, for which opportunity, on whose
/// word, for how much, and under which revision.
pub open spec fn says_what_was_chosen(
    receipt: InvestmentReceipt,
    revision: Digest,
    epoch: u64,
    market: MarketView,
    allocation: AllocationView,
    place: int,
) -> bool {
    let investment = market.investments[allocation.investment];
    let opportunity = market.opportunities[investment.opportunity.0 as int];
    &&& receipt.epoch == epoch
    &&& receipt.active_revision == revision
    &&& receipt.policy_rank == place
    &&& receipt.opportunity == opportunity.specification.identity
    &&& receipt.corpus_key == opportunity.specification.corpus_key
    &&& receipt.opportunity_kind == opportunity.specification.kind
    &&& receipt.feature_schema == opportunity.specification.feature_schema
    &&& receipt.routing_family == opportunity.specification.routing_family
    &&& receipt.feature_count == opportunity.features.len()
    &&& receipt.tag == word_for(investment.kind)
    &&& receipt.preference_priority == investment.preference_priority
    &&& receipt.bootstrap_priority == allocation.bootstrap_priority
    &&& receipt.source == allocation.source
    &&& receipt.resources == allocation.resources
    &&& receipt.forecast_count == allocation.forecasts.len()
}

proof fn lemma_receipts(
    revision: Digest,
    epoch: u64,
    market: MarketView,
    allocations: Seq<AllocationView>,
    receipts: Seq<InvestmentReceipt>,
)
    requires
        allocation::receipts_for(revision, epoch, market, allocations) == Ok::<
            Seq<InvestmentReceipt>,
            IntelligenceError,
        >(receipts),
    ensures
        receipts.len() == allocations.len(),
        forall|i: int|
            0 <= i < receipts.len() ==> says_what_was_chosen(
                #[trigger] receipts[i],
                revision,
                epoch,
                market,
                allocations[i],
                i,
            ),
    decreases allocations.len(),
{
    if allocations.len() > 0 {
        let front = allocations.drop_last();
        let earlier = allocation::receipts_for(revision, epoch, market, front)->Ok_0;
        lemma_receipts(revision, epoch, market, front, earlier);
        assert forall|i: int| 0 <= i < receipts.len() implies says_what_was_chosen(
            #[trigger] receipts[i],
            revision,
            epoch,
            market,
            allocations[i],
            i,
        ) by {
            if i < earlier.len() {
                assert(receipts[i] == earlier[i]);
                assert(front[i] == allocations[i]);
            } else {
                let last = allocations.last();
                let investment = market.investments[last.investment];
                assert(investment.kind.tag_spec() == word_for(investment.kind));
            }
        }
    }
}

/// A portfolio has one receipt for each allocation, in their order, and each says what
/// was chosen.
pub proof fn law_receipts_say_what_was_chosen(
    revision: Digest,
    limits: IntelligenceLimits,
    specialists: Seq<RevisionView>,
    market: MarketView,
    allowance: ResourceVector,
    epoch: u64,
    limit: nat,
    evaluations: Seq<Seq<ScoredForecast>>,
    made: PortfolioView,
)
    requires
        allocation::portfolio_of(
            revision,
            limits,
            specialists,
            market,
            allowance,
            epoch,
            limit,
            evaluations,
        ) == Ok::<PortfolioView, IntelligenceError>(made),
    ensures
        made.receipts.len() == made.allocations.len(),
        forall|i: int|
            0 <= i < made.receipts.len() ==> says_what_was_chosen(
                #[trigger] made.receipts[i],
                revision,
                epoch,
                market,
                made.allocations[i],
                i,
            ),
{
    lemma_receipts(revision, epoch, market, made.allocations, made.receipts);
}

// ---------------------------------------------------------------------------
// On whose word
// ---------------------------------------------------------------------------
/// Somebody asked for the allocation as it stands.
pub open spec fn asked_for(allocation: AllocationView, offers: Seq<OfferView>) -> bool {
    exists|k: int|
        0 <= k < offers.len() && (#[trigger] offers[k]).investment == allocation.investment
            && offers[k].source == allocation.source && offers[k].forecasts == allocation.forecasts
}

proof fn lemma_asked_for(
    choice: ChoiceView,
    market: MarketView,
    offers: Seq<OfferView>,
    allowance: ResourceVector,
    limit: nat,
    next: ChoiceView,
)
    requires
        choice.considering_all(market, offers, allowance, limit) == Ok::<
            ChoiceView,
            IntelligenceError,
        >(next),
    ensures
        choice.allocations.len() <= next.allocations.len(),
        forall|i: int|
            0 <= i < choice.allocations.len() ==> #[trigger] next.allocations[i]
                == choice.allocations[i],
        forall|i: int|
            choice.allocations.len() <= i < next.allocations.len() ==> asked_for(
                #[trigger] next.allocations[i],
                offers,
            ) && next.allocations[i].bootstrap_priority
                == market.investments[next.allocations[i].investment].bootstrap_priority,
    decreases offers.len(),
{
    if offers.len() > 0 {
        let front = offers.drop_last();
        let middle = choice.considering_all(market, front, allowance, limit)->Ok_0;
        lemma_asked_for(choice, market, front, allowance, limit, middle);
        assert forall|i: int|
            choice.allocations.len() <= i < next.allocations.len() implies asked_for(
            #[trigger] next.allocations[i],
            offers,
        ) && next.allocations[i].bootstrap_priority
            == market.investments[next.allocations[i].investment].bootstrap_priority by {
            if i < middle.allocations.len() {
                assert(next.allocations[i] == middle.allocations[i]);
                assert(asked_for(middle.allocations[i], front));
                let k = choose|k: int|
                    0 <= k < front.len() && (#[trigger] front[k]).investment
                        == middle.allocations[i].investment && front[k].source
                        == middle.allocations[i].source && front[k].forecasts
                        == middle.allocations[i].forecasts;
                assert(offers[k] == front[k]);
            } else {
                assert(offers[offers.len() - 1] == offers.last());
            }
        }
    }
}

/// The specialist bid for the investment with these forecasts.
pub open spec fn was_bid(bids: Seq<BidView>, allocation: AllocationView) -> bool {
    exists|k: int|
        0 <= k < bids.len() && (#[trigger] bids[k]).investment == allocation.investment
            && allocation.source == AllocationSource::Specialist(bids[k].specialist)
            && allocation.forecasts.len() == bids[k].forecasts.len() && forall|i: int|
            0 <= i < allocation.forecasts.len() ==> #[trigger] allocation.forecasts[i]
                == bids[k].forecasts[i].forecast
}

proof fn lemma_kept(bids: Seq<BidView>, ranked: Seq<BidView>, k: int)
    requires
        0 <= k < ranked.len(),
        ranked.to_multiset() == bids.to_multiset(),
    ensures
        bids.contains(ranked[k]),
{
    broadcast use vstd::seq_lib::group_to_multiset_ensures;

    assert(ranked.contains(ranked[k]));
    assert(ranked.to_multiset().count(ranked[k]) > 0);
    assert(bids.to_multiset().count(ranked[k]) > 0);
}

/// What is allocated on a specialist's word is what it bid for, with its forecasts; and
/// what is allocated on nobody's word has no forecasts.
pub proof fn law_allocations_are_asked_for(
    revision: Digest,
    limits: IntelligenceLimits,
    specialists: Seq<RevisionView>,
    market: MarketView,
    allowance: ResourceVector,
    epoch: u64,
    limit: nat,
    evaluations: Seq<Seq<ScoredForecast>>,
    made: PortfolioView,
    i: int,
)
    requires
        allocation::portfolio_of(
            revision,
            limits,
            specialists,
            market,
            allowance,
            epoch,
            limit,
            evaluations,
        ) == Ok::<PortfolioView, IntelligenceError>(made),
        0 <= i < made.allocations.len(),
    ensures
        made.allocations[i].bootstrap_priority
            == market.investments[made.allocations[i].investment].bootstrap_priority,
        match made.allocations[i].source {
            AllocationSource::Bootstrap => made.allocations[i].forecasts.len() == 0,
            AllocationSource::Specialist(_) => portfolio::bids_for(
                market,
                specialists,
                limits,
                evaluations,
                market.investments.len(),
            ) matches Ok(bids) && was_bid(bids, made.allocations[i]),
        },
{
    let first_limit: nat = if limit < 1 {
        limit
    } else {
        1
    };
    let nothing = ChoiceView::nothing();
    let a = portfolio::bootstrap_offers(market);
    let first = nothing.considering_all(market, a, allowance, first_limit)->Ok_0;
    let bids = portfolio::bids_for(
        market,
        specialists,
        limits,
        evaluations,
        market.investments.len(),
    )->Ok_0;
    let ranked = portfolio::ranked(market, bids);
    let b = portfolio::bid_offers(ranked);
    let second = first.considering_all(market, b, allowance, limit)->Ok_0;
    let c = portfolio::preference_offers(market);
    let last = second.considering_all(market, c, allowance, limit)->Ok_0;
    lemma_asked_for(nothing, market, a, allowance, first_limit, first);
    lemma_asked_for(first, market, b, allowance, limit, second);
    lemma_asked_for(second, market, c, allowance, limit, last);
    let chosen = made.allocations[i];
    assert(last.allocations == made.allocations);
    if i < first.allocations.len() {
        assert(second.allocations[i] == first.allocations[i]);
        assert(asked_for(first.allocations[i], a));
    } else if i < second.allocations.len() {
        assert(last.allocations[i] == second.allocations[i]);
        assert(asked_for(second.allocations[i], b));
        let k = choose|k: int|
            0 <= k < b.len() && (#[trigger] b[k]).investment == chosen.investment && b[k].source
                == chosen.source && b[k].forecasts == chosen.forecasts;
        assert(b[k] == portfolio::bid_offer(ranked[k]));
        portfolio::law_ranking_keeps_the_bids(market, bids);
        lemma_kept(bids, ranked, k);
        let m = choose|m: int| 0 <= m < bids.len() && bids[m] == ranked[k];
        assert(bids[m].investment == chosen.investment);
    } else {
        assert(asked_for(last.allocations[i], c));
    }
}

// ---------------------------------------------------------------------------
// Work
// ---------------------------------------------------------------------------
/// The item asks for the verification of the operator, step by step, with the attempts
/// that speak for it.
pub open spec fn asks_about(item: WorkItemView, operator: OperatorView) -> bool {
    &&& item.steps == operator.steps
    &&& item.attempts == operator.support
}

/// The work on a consolidation has an item for each of its operators, in order, and an
/// obligation of its challenger for each item; the challenger stands for the product,
/// names where it comes from, and has to gain one hundredth in useful descendants,
/// as nearly as that can be written, without losing in compression.
pub proof fn law_work_covers_every_operator(
    base_revision: Digest,
    consolidation: ConsolidationView,
    work: WorkView,
)
    requires
        knowledge::work_for(base_revision, consolidation) == Ok::<WorkView, IntelligenceError>(
            work,
        ),
    ensures
        work.base_revision == base_revision,
        work.obligations.len() == consolidation.operators.len(),
        work.challenger.obligations.len() == consolidation.operators.len(),
        forall|i: int|
            0 <= i < work.obligations.len() ==> asks_about(
                #[trigger] work.obligations[i],
                consolidation.operators[i],
            ) && work.challenger.obligations[i] == work.obligations[i].subject,
        work.challenger.product.subject == SubjectId(consolidation.product),
        forall|member: SubjectId| #[trigger]
            work.challenger.sources.contains(member) <==> member == SubjectId(consolidation.source)
                || member == SubjectId(consolidation.support),
        work.challenger.promotion.len() == 2,
        work.challenger.promotion[0].axis is UsefulDescendants,
        numbers::scaled(work.challenger.promotion[0].minimum_advantage) > 0,
        0 <= demands::unit() - 100 * numbers::scaled(
            work.challenger.promotion[0].minimum_advantage,
        ) <= numbers::scaled(work.challenger.promotion[0].minimum_advantage) / 400_000,
        work.challenger.promotion[1].axis is CompressionValue,
        numbers::scaled(work.challenger.promotion[1].minimum_advantage) == 0,
{
    let source = SubjectId(consolidation.source);
    let support = SubjectId(consolidation.support);
    let both = seq![source, support];
    numbers::law_patterns_scale(0);
    numbers::law_patterns_ascend(0, knowledge::LEAST_DESCENDANT_GAIN);
    demands::lemma_least_descendant_gain();
    assert forall|member: SubjectId| #[trigger] work.challenger.sources.contains(member)
        <==> member == source || member == support by {
        if source == support {
            assert(work.challenger.sources =~= seq![source]);
            assert(seq![source][0] == source);
        } else {
            order::lemma_sorted_contains(both, member);
            assert(both[0] == source && both[1] == support);
        }
    }
}

/// Recipes are good for the revision that they were offered under. The broad one starts
/// from every root, the focused one from those that no other dominates, and there is no
/// third.
pub proof fn law_recipes_pick_their_roots(core: CoreView, base_revision: Digest, compiler: SubjectId)
    ensures
        match compilation::roots_of_recipe(core, base_revision, compiler) {
            Ok(CompilationRoots::Every) => base_revision == core.revision && compiler
                == compilation::broad_recipe(),
            Ok(CompilationRoots::Undominated) => base_revision == core.revision && compiler
                == compilation::focused_recipe(),
            Err(IntelligenceError::StaleTransition) => base_revision != core.revision,
            Err(IntelligenceError::InvalidReference) => base_revision == core.revision && compiler
                != compilation::broad_recipe() && compiler != compilation::focused_recipe(),
            Err(_) => false,
        },
{
}

/// What is kept of a compilation has an operator to verify, and is what was compiled.
pub proof fn law_nothing_empty_is_kept(challenger: Option<ConsolidationView>)
    ensures
        compilation::kept(challenger) matches Some(kept) ==> challenger == Some(kept)
            && kept.operators.len() > 0,
        compilation::kept(challenger) is None ==> challenger is None
            || challenger->Some_0.operators.len() == 0,
{
}

// ---------------------------------------------------------------------------
// Active products
// ---------------------------------------------------------------------------
/// A product takes over from the very product that it builds on, and keeps everything
/// behind it; and only the product in force can be withdrawn, which puts the one before
/// it back in force. Each change counts.
pub proof fn law_products_follow_each_other(
    state: StateView,
    challenger: ConsolidationView,
    product: Digest,
)
    requires
        state.valid(),
    ensures
        state.activated(challenger) matches Ok(next) ==> {
            &&& state.revisions[state.revisions.len() - 1].product == challenger.base_product
            &&& challenger.product != challenger.base_product
            &&& next.revisions.len() == state.revisions.len() + 1
            &&& next.revisions[state.revisions.len() as int].product == challenger.product
            &&& next.revisions[state.revisions.len() as int].operators == challenger.operators
            &&& forall|i: int|
                0 <= i < state.revisions.len() ==> #[trigger] next.revisions[i]
                    == state.revisions[i]
            &&& next.generation == state.generation + 1
        },
        state.activated(challenger) is Err ==> state.revisions[state.revisions.len() - 1].product
            != challenger.base_product || challenger.product == challenger.base_product
            || state.generation == u64::MAX,
        state.rolled_back(product) matches Ok(next) ==> {
            &&& state.revisions[state.revisions.len() - 1].product == product
            &&& next.revisions.len() == state.revisions.len() - 1
            &&& next.revisions.len() > 0
            &&& forall|i: int|
                0 <= i < next.revisions.len() ==> #[trigger] next.revisions[i]
                    == state.revisions[i]
            &&& next.generation == state.generation + 1
        },
        state.rolled_back(product) is Err ==> state.revisions[state.revisions.len() - 1].product
            != product || state.revisions.len() == 1 || state.generation == u64::MAX,
{
}

// ---------------------------------------------------------------------------
// Recovery
// ---------------------------------------------------------------------------
/// The record in this place stands verified or promoted, and gave this consolidation.
pub open spec fn rests_on(
    value: CompilerView,
    record: int,
    consolidation: ConsolidationView,
) -> bool {
    &&& 0 <= record < value.records.len()
    &&& value.records[record].status is Verified || value.records[record].status is Promoted
    &&& knowledge::consolidation_of(value.records[record].challenger) == Some(consolidation)
}

/// A record that is relied on vouches for the product.
pub open spec fn vouched_for(value: CompilerView, product: Digest) -> bool {
    exists|record: int, consolidation: ConsolidationView| #[trigger]
        rests_on(value, record, consolidation) && consolidation.product == product
}

/// The manifest asks about the operator.
pub open spec fn asked_about(manifest: ManifestView, operator: OperatorView) -> bool {
    exists|i: int|
        0 <= i < manifest.obligations.len() && asks_about(
            (#[trigger] manifest.obligations[i]).work,
            operator,
        )
}

/// The operator is one that something rests on: of a record that stands verified or
/// promoted, or of a retained product that no such record vouches for.
pub open spec fn rested_on(value: CompilerView, operator: OperatorView) -> bool {
    ||| exists|record: int, consolidation: ConsolidationView, k: int|
        #![trigger rests_on(value, record, consolidation), consolidation.operators[k]]
        rests_on(value, record, consolidation) && 0 <= k < consolidation.operators.len()
            && consolidation.operators[k] == operator
    ||| exists|r: int, k: int|
        #![trigger value.active.revisions[r].operators[k]]
        0 <= r < value.active.revisions.len() && 0 <= k
            < value.active.revisions[r].operators.len() && value.active.revisions[r].operators[k]
            == operator && !vouched_for(value, value.active.revisions[r].product)
}

proof fn lemma_vouched(value: CompilerView, product: Digest)
    ensures
        recovery::covered(value.records, product) <==> vouched_for(value, product),
{
    if recovery::covered(value.records, product) {
        let i = choose|i: int|
            0 <= i < value.records.len() && recovery::gave(product)(#[trigger] value.records[i]);
        let consolidation = knowledge::consolidation_of(value.records[i].challenger)->Some_0;
        assert(rests_on(value, i, consolidation));
    }
    if vouched_for(value, product) {
        let (record, consolidation) = choose|record: int, consolidation: ConsolidationView|
            #[trigger]
            rests_on(value, record, consolidation) && consolidation.product == product;
        assert(recovery::gave(product)(value.records[record]));
    }
}

proof fn lemma_record_sources(value: CompilerView, count: nat)
    requires
        count <= value.records.len(),
    ensures
        forall|record: int, consolidation: ConsolidationView, k: int|
            #![trigger rests_on(value, record, consolidation), consolidation.operators[k]]
            record < count && rests_on(value, record, consolidation) && 0 <= k
                < consolidation.operators.len() ==> sourced(
                recovery::record_sources(value.records, count),
                consolidation.operators[k],
            ),
        forall|i: int|
            0 <= i < recovery::record_sources(value.records, count).len() ==> stems(
                value,
                (#[trigger] recovery::record_sources(value.records, count)[i]).item,
            ),
    decreases count,
{
    if count > 0 {
        let before = (count - 1) as nat;
        lemma_record_sources(value, before);
        let front = recovery::record_sources(value.records, before);
        let tail = recovery::record_source(value.records, count - 1);
        let all = recovery::record_sources(value.records, count);
        assert(all == front + tail);
        assert forall|record: int, consolidation: ConsolidationView, k: int|
            #![trigger rests_on(value, record, consolidation), consolidation.operators[k]]
            record < count && rests_on(value, record, consolidation) && 0 <= k
                < consolidation.operators.len() implies sourced(
            all,
            consolidation.operators[k],
        ) by {
            if record < before {
                assert(sourced(front, consolidation.operators[k]));
                let i = choose|i: int|
                    0 <= i < front.len() && asks_about(
                        (#[trigger] front[i]).item,
                        consolidation.operators[k],
                    );
                assert(all[i] == front[i]);
            } else {
                assert(asks_about(tail[k].item, consolidation.operators[k]));
                assert(all[front.len() + k] == tail[k]);
            }
        }
        assert forall|i: int| 0 <= i < all.len() implies stems(
            value,
            (#[trigger] all[i]).item,
        ) by {
            if i < front.len() {
                assert(all[i] == front[i]);
            } else {
                let k = i - front.len();
                assert(all[i] == tail[k]);
                let consolidation = knowledge::consolidation_of(
                    value.records[before as int].challenger,
                )->Some_0;
                assert(rests_on(value, before as int, consolidation));
                let operator = consolidation.operators[k];
                assert(rested_on(value, operator));
                assert(asks_about(all[i].item, operator));
            }
        }
    }
}

/// Some source asks about the operator.
spec fn sourced(sources: Seq<SourceView>, operator: OperatorView) -> bool {
    exists|i: int|
        0 <= i < sources.len() && asks_about((#[trigger] sources[i]).item, operator)
}

/// The item is about an operator that something rests on.
pub open spec fn stems(value: CompilerView, item: WorkItemView) -> bool {
    exists|operator: OperatorView| #[trigger]
        asks_about(item, operator) && rested_on(value, operator)
}

proof fn lemma_revision_sources(value: CompilerView, count: nat)
    requires
        count <= value.active.revisions.len(),
    ensures
        forall|r: int, k: int|
            #![trigger value.active.revisions[r].operators[k]]
            0 <= r < count && 0 <= k < value.active.revisions[r].operators.len() && !vouched_for(
                value,
                value.active.revisions[r].product,
            ) ==> sourced(
                recovery::revision_sources(value, count),
                value.active.revisions[r].operators[k],
            ),
        forall|i: int|
            0 <= i < recovery::revision_sources(value, count).len() ==> stems(
                value,
                (#[trigger] recovery::revision_sources(value, count)[i]).item,
            ),
    decreases count,
{
    if count > 0 {
        let before = (count - 1) as nat;
        lemma_revision_sources(value, before);
        let front = recovery::revision_sources(value, before);
        let tail = recovery::revision_source(value, count - 1);
        let all = recovery::revision_sources(value, count);
        let last = value.active.revisions[count - 1];
        lemma_vouched(value, last.product);
        assert(all == front + tail);
        assert forall|r: int, k: int|
            #![trigger value.active.revisions[r].operators[k]]
            0 <= r < count && 0 <= k < value.active.revisions[r].operators.len() && !vouched_for(
                value,
                value.active.revisions[r].product,
            ) implies sourced(all, value.active.revisions[r].operators[k]) by {
            if r < before {
                assert(sourced(front, value.active.revisions[r].operators[k]));
                let i = choose|i: int|
                    0 <= i < front.len() && asks_about(
                        (#[trigger] front[i]).item,
                        value.active.revisions[r].operators[k],
                    );
                assert(all[i] == front[i]);
            } else {
                assert(asks_about(tail[k].item, last.operators[k]));
                assert(all[front.len() + k] == tail[k]);
            }
        }
        assert forall|i: int| 0 <= i < all.len() implies stems(
            value,
            (#[trigger] all[i]).item,
        ) by {
            if i < front.len() {
                assert(all[i] == front[i]);
            } else {
                let k = i - front.len();
                assert(all[i] == tail[k]);
                let operator = value.active.revisions[before as int].operators[k];
                assert(rested_on(value, operator));
                assert(asks_about(all[i].item, operator));
            }
        }
    }
}

/// A manifest asks about every operator that something rests on, and about no other;
/// and it is about the revision and the knowledge that it was drawn up for.
pub proof fn law_manifest_asks_about_what_is_rested_on(
    value: CompilerView,
    core_revision: Digest,
    knowledge_root: Digest,
    limits: IntelligenceLimits,
    manifest: ManifestView,
)
    requires
        recovery::manifest_of(value, core_revision, knowledge_root, limits) == Ok::<
            ManifestView,
            IntelligenceError,
        >(manifest),
    ensures
        manifest.core_revision == core_revision,
        manifest.knowledge_root == knowledge_root,
        manifest.obligations.len() <= limits.maximum_opportunities * 1024,
        forall|operator: OperatorView| #[trigger]
            rested_on(value, operator) ==> asked_about(manifest, operator),
        forall|i: int|
            0 <= i < manifest.obligations.len() ==> stems(
                value,
                (#[trigger] manifest.obligations[i]).work,
            ),
{
    let a = recovery::record_sources(value.records, value.records.len());
    let b = recovery::revision_sources(value, value.active.revisions.len());
    let all = recovery::sources(value);
    assert(all == a + b);
    lemma_record_sources(value, value.records.len());
    lemma_revision_sources(value, value.active.revisions.len());
    assert forall|i: int| 0 <= i < manifest.obligations.len() implies stems(
        value,
        (#[trigger] manifest.obligations[i]).work,
    ) by {
        assert(manifest.obligations[i].work == all[i].item);
        if i < a.len() {
            assert(all[i] == a[i]);
        } else {
            assert(all[i] == b[i - a.len()]);
        }
    }
    assert forall|operator: OperatorView| #[trigger] rested_on(
        value,
        operator,
    ) implies asked_about(manifest, operator) by {
        if sourced(a, operator) {
            let i = choose|i: int|
                0 <= i < a.len() && asks_about((#[trigger] a[i]).item, operator);
            assert(all[i] == a[i]);
            assert(manifest.obligations[i].work == all[i].item);
        } else {
            assert(sourced(b, operator));
            let i = choose|i: int|
                0 <= i < b.len() && asks_about((#[trigger] b[i]).item, operator);
            assert(all[a.len() + i] == b[i]);
            assert(manifest.obligations[a.len() + i].work == all[a.len() + i].item);
        }
    }
}

// ---------------------------------------------------------------------------
// Payloads
// ---------------------------------------------------------------------------
/// The consolidation of a challenger is what its payload holds: the product is a derived
/// operator with meaning, and it is the one that the challenger stands for.
pub proof fn law_consolidations_are_carried(value: ChallengerView, found: ConsolidationView)
    requires
        knowledge::consolidation_of(value) == Some(found),
    ensures
        value.product.kind is DerivedOperator,
        value.product.meaning is Semantic,
        value.product.subject == SubjectId(found.product),
        value.product.bytes matches Some(bytes) && consolidation::consolidation_in(bytes) == Some(
            found,
        ),
{
}

/// The work on a challenger is that on the consolidation which it carries, and is owed
/// what it owes.
pub proof fn law_work_is_on_what_is_carried(
    base_revision: Digest,
    value: ChallengerView,
    work: WorkView,
)
    requires
        knowledge::work_from(base_revision, value) == Ok::<WorkView, IntelligenceError>(work),
    ensures
        work.base_revision == base_revision,
        work.challenger.id == value.id,
        work.challenger.obligations == value.obligations,
        work.challenger.product == value.product,
        work.obligations.len() == value.obligations.len(),
        forall|i: int|
            0 <= i < work.obligations.len() ==> (#[trigger] work.obligations[i]).subject
                == value.obligations[i],
{
    let carried = knowledge::carried_consolidation(value)->Ok_0;
    law_work_covers_every_operator(base_revision, carried, work);
}

/// Where a manifest can be drawn up, every record that is relied on owes what follows
/// from its operators: one obligation for each, named after the product and it.
pub proof fn law_manifest_finds_obligations_in_order(
    value: CompilerView,
    core_revision: Digest,
    knowledge_root: Digest,
    limits: IntelligenceLimits,
    record: int,
    found: ConsolidationView,
)
    requires
        recovery::manifest_of(value, core_revision, knowledge_root, limits) is Ok,
        rests_on(value, record, found),
    ensures
        value.records[record].challenger.obligations.len() == found.operators.len(),
        forall|i: int|
            0 <= i < found.operators.len() ==> (
            #[trigger] value.records[record].challenger.obligations[i])
                == consolidation::obligation_identity(found.product, found.operators[i].id),
{
    assert(recovery::obligations_match(value.records[record]));
    let subjects = knowledge::item_subjects(knowledge::items_for(found));
    assert(subjects == value.records[record].challenger.obligations);
    assert forall|i: int| 0 <= i < found.operators.len() implies (
    #[trigger] value.records[record].challenger.obligations[i])
        == consolidation::obligation_identity(found.product, found.operators[i].id) by {
        assert(subjects[i] == knowledge::items_for(found)[i].subject);
    }
}

/// Two recipes are offered, for the same price; where nothing else decides, the broad
/// one comes before the focused one.
pub proof fn law_broad_recipe_comes_first(resources: ResourceVector)
    ensures
        compilation::recipe_actions(resources).len() == 2,
        compilation::recipe_actions(resources)[0].action == (OperationalAction::Consolidate {
            compiler: compilation::broad_recipe(),
        }),
        compilation::recipe_actions(resources)[1].action == (OperationalAction::Consolidate {
            compiler: compilation::focused_recipe(),
        }),
        compilation::recipe_actions(resources)[0].resources == resources,
        compilation::recipe_actions(resources)[1].resources == resources,
        compilation::recipe_actions(resources)[0].bootstrap_priority < compilation::recipe_actions(
            resources,
        )[1].bootstrap_priority,
{
}

} // verus!
