//! What can be invested in, and how much room the market and its portfolios
//! take.
use vstd::prelude::*;

use crate::arena::{OpportunitySpec, MAXIMUM_FEATURES_PER_OPPORTUNITY};
use crate::forecast;
use crate::forecast::is_finite;
use crate::investment::InvestmentSpec;
use crate::resident;
use crate::resident::{bytes_for, capacity_of, reserved, resident_u64};
use crate::types::{
    IntelligenceError, IntelligenceLimits, InvestmentId, OpportunityId, ResourceVector,
};

verus! {

/// An opportunity and its features, which are bit patterns.
#[verifier::ext_equal]
pub struct OpportunityView {
    pub specification: OpportunitySpec,
    pub features: Seq<u32>,
}

/// Everything on offer.
#[verifier::ext_equal]
pub struct MarketView {
    pub limits: IntelligenceLimits,
    pub opportunities: Seq<OpportunityView>,
    pub investments: Seq<InvestmentSpec>,
}

/// How many features some opportunities have together.
pub open spec fn feature_total(opportunities: Seq<OpportunityView>) -> nat
    decreases opportunities.len(),
{
    if opportunities.len() == 0 {
        0
    } else {
        feature_total(opportunities.drop_last()) + opportunities.last().features.len()
    }
}

/// Every feature is a finite number.
pub open spec fn all_finite(features: Seq<u32>) -> bool {
    forall|i: int| 0 <= i < features.len() ==> forecast::finite(#[trigger] features[i])
}

impl MarketView {
    pub open spec fn empty(limits: IntelligenceLimits) -> MarketView {
        MarketView { limits, opportunities: Seq::empty(), investments: Seq::empty() }
    }

    /// The market stays within its limits, its features are few and finite, and
    /// every investment is in an opportunity on offer.
    pub open spec fn valid(self) -> bool {
        &&& self.opportunities.len() <= self.limits.maximum_opportunities
        &&& self.investments.len() <= self.limits.maximum_investments
        &&& self.investments.len() <= u32::MAX + 1
        &&& forall|i: int|
            0 <= i < self.opportunities.len() ==> (#[trigger] self.opportunities[i]).features.len()
                <= MAXIMUM_FEATURES_PER_OPPORTUNITY && all_finite(self.opportunities[i].features)
        &&& forall|i: int|
            0 <= i < self.investments.len() ==> (#[trigger] self.investments[i]).opportunity.0
                < self.opportunities.len()
    }

    /// The market with one opportunity more.
    pub open spec fn with_opportunity(
        self,
        specification: OpportunitySpec,
        features: Seq<u32>,
    ) -> Result<MarketView, IntelligenceError> {
        if self.opportunities.len() == self.limits.maximum_opportunities || features.len()
            > MAXIMUM_FEATURES_PER_OPPORTUNITY {
            Err(IntelligenceError::CapacityExceeded)
        } else if !all_finite(features) {
            Err(IntelligenceError::InvalidFeature)
        } else if feature_total(self.opportunities) > u32::MAX || self.opportunities.len()
            > u32::MAX {
            Err(IntelligenceError::CapacityExceeded)
        } else {
            Ok(
                MarketView {
                    opportunities: self.opportunities.push(
                        OpportunityView { specification, features },
                    ),
                    ..self
                },
            )
        }
    }

    /// The market with one investment more.
    pub open spec fn with_investment(self, specification: InvestmentSpec) -> Result<
        MarketView,
        IntelligenceError,
    > {
        if self.investments.len() == self.limits.maximum_investments {
            Err(IntelligenceError::CapacityExceeded)
        } else if specification.opportunity.0 >= self.opportunities.len() {
            Err(IntelligenceError::InvalidReference)
        } else if self.investments.len() > u32::MAX {
            Err(IntelligenceError::CapacityExceeded)
        } else {
            Ok(MarketView { investments: self.investments.push(specification), ..self })
        }
    }
}

#[derive(Clone, Copy, Debug)]
pub struct OpportunityRecord {
    specification: OpportunitySpec,
    feature_start: u32,
    feature_count: u8,
}

#[derive(Clone, Copy, Debug)]
pub struct InvestmentRecord {
    specification: InvestmentSpec,
}

/// The market that portfolios are chosen from.
#[derive(Debug)]
pub struct MarketArena {
    limits: IntelligenceLimits,
    opportunities: Vec<OpportunityRecord>,
    investments: Vec<InvestmentRecord>,
    features: Vec<u32>,
}

spec fn record_view(record: OpportunityRecord, features: Seq<u32>) -> OpportunityView {
    OpportunityView {
        specification: record.specification,
        features: features.subrange(
            record.feature_start as int,
            record.feature_start + record.feature_count,
        ),
    }
}

spec fn record_views(records: Seq<OpportunityRecord>, features: Seq<u32>) -> Seq<OpportunityView> {
    Seq::new(records.len(), |i: int| record_view(records[i], features))
}

impl View for MarketArena {
    type V = MarketView;

    closed spec fn view(&self) -> MarketView {
        MarketView {
            limits: self.limits,
            opportunities: record_views(self.opportunities@, self.features@),
            investments: Seq::new(
                self.investments@.len(),
                |i: int| self.investments@[i].specification,
            ),
        }
    }
}

impl MarketArena {
    /// Every record speaks of features that are there, and nothing lies between.
    pub closed spec fn well_formed(self) -> bool {
        &&& forall|i: int|
            0 <= i < self.opportunities@.len() ==> (#[trigger] self.opportunities@[i]).feature_start
                + self.opportunities@[i].feature_count <= self.features@.len()
        &&& self.features@.len() == feature_total(self@.opportunities)
        &&& self@.valid()
    }

    pub proof fn lemma_valid(self)
        requires
            self.well_formed(),
        ensures
            self@.valid(),
    {
    }

    /// An empty market with all the room that it may need; refused where there is
    /// none.
    pub fn try_with_capacity(limits: IntelligenceLimits) -> (result: Result<
        Self,
        IntelligenceError,
    >)
        ensures
            match result {
                Ok(market) => limits.valid() && market.well_formed() && market@
                    == MarketView::empty(limits),
                Err(error) => {
                    &&& !limits.valid() <==> error is InvalidLimits
                    &&& limits.valid() ==> (error is ResourceOverflow
                        <==> limits.maximum_opportunities * 64 > usize::MAX)
                    &&& limits.valid() && limits.maximum_opportunities * 64 <= usize::MAX
                        ==> error is CapacityExceeded
                },
            },
    {
        let limits = match limits.validated() {
            Ok(limits) => limits,
            Err(error) => return Err(error),
        };
        let feature_capacity: usize = match limits.maximum_opportunities.checked_mul(
            MAXIMUM_FEATURES_PER_OPPORTUNITY,
        ) {
            Some(capacity) => capacity,
            None => return Err(IntelligenceError::ResourceOverflow),
        };
        let opportunities: Vec<OpportunityRecord> = match reserved(limits.maximum_opportunities) {
            Ok(list) => list,
            Err(error) => return Err(error),
        };
        let investments: Vec<InvestmentRecord> = match reserved(limits.maximum_investments) {
            Ok(list) => list,
            Err(error) => return Err(error),
        };
        let features: Vec<u32> = match reserved(feature_capacity) {
            Ok(list) => list,
            Err(error) => return Err(error),
        };
        let market = Self { limits, opportunities, investments, features };
        assert(market@ =~= MarketView::empty(limits));
        Ok(market)
    }

    /// Takes everything off the market.
    pub fn clear(&mut self)
        ensures
            final(self).well_formed(),
            final(self)@ == MarketView::empty(old(self)@.limits),
    {
        self.opportunities.clear();
        self.investments.clear();
        self.features.clear();
        assert(self@ =~= MarketView::empty(old(self)@.limits));
    }

    /// For how many opportunities, investments and features there is room.
    pub fn capacities(&self) -> (capacities: (usize, usize, usize))
        requires
            self.well_formed(),
        ensures
            capacities.0 >= self@.opportunities.len(),
            capacities.1 >= self@.investments.len(),
            capacities.2 >= feature_total(self@.opportunities),
    {
        (
            capacity_of(&self.opportunities),
            capacity_of(&self.investments),
            capacity_of(&self.features),
        )
    }

    /// The memory that the market takes with all its room.
    pub fn resident_bytes(&self) -> (bytes: u64)
        requires
            self.well_formed(),
        ensures
            exists|a: usize, b: usize, c: usize| #[trigger]
                market_rooms(self@, a, b, c) && bytes == market_memory(a as nat, b as nat, c as nat),
    {
        let (a, b, c) = self.capacities();
        assert(market_rooms(self@, a, b, c));
        market_bytes(a, b, c)
    }

    /// Puts an opportunity on the market; a refusal changes nothing.
    pub fn push_opportunity(&mut self, specification: OpportunitySpec, features: &[u32]) -> (result:
        Result<OpportunityId, IntelligenceError>)
        requires
            old(self).well_formed(),
        ensures
            final(self).well_formed(),
            match result {
                Ok(id) => id.0 == old(self)@.opportunities.len() && old(self)@.with_opportunity(
                    specification,
                    features@,
                ) == Ok::<MarketView, IntelligenceError>(final(self)@),
                Err(error) => old(self)@.with_opportunity(specification, features@) == Err::<
                    MarketView,
                    IntelligenceError,
                >(error) && final(self)@ == old(self)@,
            },
    {
        if self.opportunities.len() == self.limits.maximum_opportunities || features.len()
            > MAXIMUM_FEATURES_PER_OPPORTUNITY {
            return Err(IntelligenceError::CapacityExceeded);
        }
        if !features_finite(features) {
            return Err(IntelligenceError::InvalidFeature);
        }
        if self.features.len() > u32::MAX as usize || self.opportunities.len() > u32::MAX as usize {
            return Err(IntelligenceError::CapacityExceeded);
        }
        let feature_start: u32 = self.features.len() as u32;
        let feature_count: u8 = features.len() as u8;
        let index: u32 = self.opportunities.len() as u32;
        let ghost before = self.features@;
        let ghost records = self.opportunities@;
        self.features.extend_from_slice(features);
        assert(self.features@ =~= before + features@);
        let record = OpportunityRecord { specification, feature_start, feature_count };
        self.opportunities.push(record);
        proof {
            let added = OpportunityView { specification, features: features@ };
            assert forall|i: int| 0 <= i < records.len() implies record_view(
                #[trigger] records[i],
                self.features@,
            ) == record_view(records[i], before) by {
                assert(record_view(records[i], self.features@).features =~= record_view(
                    records[i],
                    before,
                ).features);
            }
            assert(record_view(record, self.features@).features =~= features@);
            let next = self@.opportunities;
            assert(next =~= old(self)@.opportunities.push(added)) by {
                assert forall|i: int| 0 <= i < next.len() implies next[i]
                    == old(self)@.opportunities.push(added)[i] by {
                    if i < records.len() {
                        assert(self.opportunities@[i] == records[i]);
                        assert(next[i] == record_view(records[i], self.features@));
                    }
                }
            }
            assert(next.drop_last() =~= old(self)@.opportunities);
            assert(self@.investments =~= old(self)@.investments);
            assert forall|i: int| 0 <= i < self.opportunities@.len() implies (
            #[trigger] self.opportunities@[i]).feature_start + self.opportunities@[i].feature_count
                <= self.features@.len() by {
                if i < records.len() {
                    assert(self.opportunities@[i] == records[i]);
                }
            }
            assert forall|i: int| 0 <= i < next.len() implies (#[trigger] next[i]).features.len()
                <= MAXIMUM_FEATURES_PER_OPPORTUNITY && all_finite(next[i].features) by {
                if i < records.len() {
                    assert(next[i] == old(self)@.opportunities[i]);
                }
            }
        }
        Ok(OpportunityId(index))
    }

    /// Puts an investment on the market; a refusal changes nothing.
    pub fn push_investment(&mut self, specification: InvestmentSpec) -> (result: Result<
        InvestmentId,
        IntelligenceError,
    >)
        requires
            old(self).well_formed(),
        ensures
            final(self).well_formed(),
            match result {
                Ok(id) => id.0 == old(self)@.investments.len() && old(self)@.with_investment(
                    specification,
                ) == Ok::<MarketView, IntelligenceError>(final(self)@),
                Err(error) => old(self)@.with_investment(specification) == Err::<
                    MarketView,
                    IntelligenceError,
                >(error) && final(self)@ == old(self)@,
            },
    {
        if self.investments.len() == self.limits.maximum_investments {
            return Err(IntelligenceError::CapacityExceeded);
        }
        if specification.opportunity.0 as usize >= self.opportunities.len() {
            return Err(IntelligenceError::InvalidReference);
        }
        if self.investments.len() > u32::MAX as usize {
            return Err(IntelligenceError::CapacityExceeded);
        }
        let index: u32 = self.investments.len() as u32;
        self.investments.push(InvestmentRecord { specification });
        proof {
            assert(self@.investments =~= old(self)@.investments.push(specification));
            assert(self@.opportunities =~= old(self)@.opportunities);
        }
        Ok(InvestmentId(index))
    }

    pub fn opportunity_count(&self) -> (count: usize)
        ensures
            count == self@.opportunities.len(),
    {
        self.opportunities.len()
    }

    pub fn investment_count(&self) -> (count: usize)
        ensures
            count == self@.investments.len(),
    {
        self.investments.len()
    }

    /// The opportunity with this name.
    pub fn opportunity(&self, id: OpportunityId) -> (result: Option<OpportunitySpec>)
        ensures
            result == (if id.0 < self@.opportunities.len() {
                Some(self@.opportunities[id.0 as int].specification)
            } else {
                None
            }),
    {
        let index: usize = id.0 as usize;
        if index < self.opportunities.len() {
            Some(self.opportunities[index].specification)
        } else {
            None
        }
    }

    /// The investment with this name.
    pub fn investment(&self, id: InvestmentId) -> (result: Option<InvestmentSpec>)
        ensures
            result == (if id.0 < self@.investments.len() {
                Some(self@.investments[id.0 as int])
            } else {
                None
            }),
    {
        let index: usize = id.0 as usize;
        if index < self.investments.len() {
            Some(self.investments[index].specification)
        } else {
            None
        }
    }

    /// The features of an opportunity.
    pub fn features(&self, id: OpportunityId) -> (features: &[u32])
        requires
            self.well_formed(),
            id.0 < self@.opportunities.len(),
        ensures
            features@ == self@.opportunities[id.0 as int].features,
    {
        let record = self.opportunities[id.0 as usize];
        let start: usize = record.feature_start as usize;
        let total: usize = self.features.len();
        assert(self.opportunities@[id.0 as int].feature_start + record.feature_count <= total);
        let end: usize = start + record.feature_count as usize;
        assert(self@.opportunities[id.0 as int] == record_view(record, self.features@));
        let features = vstd::slice::slice_subrange(self.features.as_slice(), start, end);
        features
    }
}

/// Room that the lists of a market may have: enough for what each holds.
pub open spec fn market_rooms(market: MarketView, a: usize, b: usize, c: usize) -> bool {
    &&& a >= market.opportunities.len()
    &&& b >= market.investments.len()
    &&& c >= feature_total(market.opportunities)
}

/// The memory that a market takes which has room for so many opportunities,
/// investments and features.
pub open spec fn market_memory(opportunities: nat, investments: nat, features: nat) -> nat {
    resident::capped_sum(
        resident::capped_sum(
            resident::capped_sum(
                vstd::layout::size_of::<MarketArena>(),
                resident::room::<OpportunityRecord>(opportunities),
            ),
            resident::room::<InvestmentRecord>(investments),
        ),
        resident::room::<u32>(features),
    )
}

pub fn market_bytes(opportunities: usize, investments: usize, features: usize) -> (bytes: u64)
    ensures
        bytes == market_memory(opportunities as nat, investments as nat, features as nat),
{
    resident_u64(
        core::mem::size_of::<MarketArena>().saturating_add(
            bytes_for::<OpportunityRecord>(opportunities),
        ).saturating_add(bytes_for::<InvestmentRecord>(investments)).saturating_add(
            bytes_for::<u32>(features),
        ),
    )
}

fn features_finite(features: &[u32]) -> (result: bool)
    ensures
        result == all_finite(features@),
{
    let mut index: usize = 0;
    while index < features.len()
        invariant
            index <= features@.len(),
            forall|i: int| 0 <= i < index ==> forecast::finite(#[trigger] features@[i]),
        decreases features@.len() - index,
    {
        if !is_finite(features[index]) {
            assert(!forecast::finite(features@[index as int]));
            return false;
        }
        index = index + 1;
    }
    true
}

/// A market, what may be spent in it, and when.
#[derive(Clone, Copy)]
pub struct MarketFrame<'a> {
    pub market: &'a MarketArena,
    pub allowance: ResourceVector,
    pub epoch: u64,
}

impl<'a> MarketFrame<'a> {
    pub fn new(market: &'a MarketArena, allowance: ResourceVector) -> (frame: Self)
        ensures
            frame.market == market,
            frame.allowance == allowance,
            frame.epoch == 0,
    {
        Self { market, allowance, epoch: 0 }
    }

    pub fn at_epoch(self, epoch: u64) -> (frame: Self)
        ensures
            frame.market == self.market,
            frame.allowance == self.allowance,
            frame.epoch == epoch,
    {
        Self { market: self.market, allowance: self.allowance, epoch }
    }
}

} // verus!
