//! Receipts of allocation decisions and the settlements that answer them.
use vstd::prelude::*;

use crate::arena::{OpportunityKind, MAXIMUM_FEATURES_PER_OPPORTUNITY};
use crate::codec;
use crate::codec::{Decoder, Wire};
use crate::digest;
use crate::digest::{hash_labelled, write_digest, Digest};
use crate::forecast;
use crate::forecast::{Forecast, ForecastAxis, MAXIMUM_TYPED_FORECASTS};
use crate::investment::InvestmentTag;
use crate::padded;
use crate::types;
use crate::types::{
    decode_resources, decode_source, encode_resources, encode_source, AllocationSource,
    FeatureSchemaId, IntelligenceError, ResourceVector, RoutingFamilyId,
};

verus! {

/// One allocation decision.
#[derive(Clone, Copy, Debug, PartialEq, Eq, Hash, Structural)]
pub struct DecisionId(pub Digest);

impl DecisionId {
    pub fn from_identity(identity: [u8; 32]) -> (id: Self)
        ensures
            id.0.bytes() == identity@,
            id.0 == digest::digest_of(identity@),
    {
        Self(Digest::new(identity))
    }

    pub fn identity(self) -> (identity: [u8; 32])
        ensures
            identity@ == self.0.bytes(),
    {
        self.0.to_bytes()
    }
}

/// The bytes that a decision is named after.
pub open spec fn decision_bytes(
    active_revision: Digest,
    epoch: u64,
    policy_rank: u32,
    investment: Digest,
    source: AllocationSource,
) -> Seq<u8> {
    active_revision.bytes() + (codec::put_u64(epoch) + (codec::put_u32(policy_rank) + (
    investment.bytes() + types::put_source(source))))
}

/// The name of a decision.
pub open spec fn decision_id_spec(
    active_revision: Digest,
    epoch: u64,
    policy_rank: u32,
    investment: Digest,
    source: AllocationSource,
) -> DecisionId {
    DecisionId(
        digest::labelled(
            "reflex-investment-decision-v1\0",
            decision_bytes(active_revision, epoch, policy_rank, investment, source),
        ),
    )
}

pub fn decision_id(
    active_revision: Digest,
    epoch: u64,
    policy_rank: u32,
    investment: Digest,
    source: AllocationSource,
) -> (decision: DecisionId)
    ensures
        decision == decision_id_spec(active_revision, epoch, policy_rank, investment, source),
{
    broadcast use digest::group_digest;

    let mut content: Vec<u8> = Vec::new();
    write_digest(active_revision, &mut content);
    codec::write_u64(epoch, &mut content);
    codec::write_u32(policy_rank, &mut content);
    write_digest(investment, &mut content);
    encode_source(source, &mut content);
    assert(content@ =~= decision_bytes(active_revision, epoch, policy_rank, investment, source));
    DecisionId(hash_labelled("reflex-investment-decision-v1\0", content.as_slice()))
}

/// The historical shapes of a receipt on the wire.
#[derive(Clone, Copy, Debug, PartialEq, Eq, Structural)]
pub enum ReceiptFormat {
    /// Every field.
    Current,
    /// Without the corpus key, which is then the opportunity.
    LegacyV15,
    /// Without corpus key and preference, which is then neutral.
    LegacyV11,
}

impl ReceiptFormat {
    pub open spec fn holds_preference(self) -> bool {
        !(self is LegacyV11)
    }

    pub open spec fn holds_corpus_key(self) -> bool {
        self is Current
    }
}

/// Why an investment was made: everything known when it was allocated.
#[derive(Clone, Copy, Debug, PartialEq, Eq)]
pub struct InvestmentReceipt {
    pub decision: DecisionId,
    pub epoch: u64,
    pub investment: Digest,
    pub opportunity: Digest,
    pub corpus_key: Digest,
    pub opportunity_kind: OpportunityKind,
    pub feature_schema: FeatureSchemaId,
    pub routing_family: RoutingFamilyId,
    pub feature_count: u8,
    pub features: [u32; 64],
    pub tag: InvestmentTag,
    pub source: AllocationSource,
    pub active_revision: Digest,
    pub policy_rank: u32,
    pub preference_priority: u32,
    pub bootstrap_priority: u32,
    pub forecast_count: u8,
    pub forecasts: [Forecast; 9],
    pub resources: ResourceVector,
}

impl View for InvestmentReceipt {
    type V = InvestmentReceipt;

    open spec fn view(&self) -> InvestmentReceipt {
        *self
    }
}

/// The axes of some forecasts, in order.
pub open spec fn axes_of(forecasts: Seq<Forecast>) -> Seq<ForecastAxis> {
    Seq::new(forecasts.len(), |i: int| forecasts[i].axis)
}

/// Every pattern is a finite number.
pub open spec fn all_finite(features: Seq<u32>) -> bool {
    forall|i: int| 0 <= i < features.len() ==> forecast::finite(#[trigger] features[i])
}

pub open spec fn valid_features(features: Seq<u32>) -> bool {
    features.len() <= 64 && all_finite(features)
}

pub open spec fn valid_forecast_list(forecasts: Seq<Forecast>) -> bool {
    forecasts.len() <= 9 && forecast::distinct_axes(axes_of(forecasts))
}

pub fn features_are_finite(features: &[u32]) -> (result: bool)
    ensures
        result == all_finite(features@),
{
    let mut index: usize = 0;
    while index < features.len()
        invariant
            index <= features@.len(),
            forall|i: int| 0 <= i < index ==> forecast::finite(#[trigger] features@[i]),
        decreases features@.len() - index,
    {
        if !forecast::is_finite(features[index]) {
            return false;
        }
        index = index + 1;
    }
    true
}

fn forecast_axes(forecasts: &[Forecast]) -> (axes: Vec<ForecastAxis>)
    ensures
        axes@ == axes_of(forecasts@),
{
    let mut axes: Vec<ForecastAxis> = Vec::new();
    let mut index: usize = 0;
    while index < forecasts.len()
        invariant
            index <= forecasts@.len(),
            axes@.len() == index,
            forall|i: int| 0 <= i < index ==> axes@[i] == forecasts@[i].axis,
        decreases forecasts@.len() - index,
    {
        axes.push(forecasts[index].axis);
        index = index + 1;
    }
    assert(axes@ =~= axes_of(forecasts@));
    axes
}

impl InvestmentReceipt {
    pub open spec fn feature_list(self) -> Seq<u32> {
        padded::listed(self.features, self.feature_count)
    }

    pub open spec fn forecast_list(self) -> Seq<Forecast> {
        padded::listed(self.forecasts, self.forecast_count)
    }

    /// Within its bounds, with nothing but padding in unused slots.
    pub open spec fn well_formed(self) -> bool {
        &&& self.feature_count <= 64
        &&& self.forecast_count <= 9
        &&& padded::holds(self.features, self.feature_list(), 0)
        &&& padded::holds(self.forecasts, self.forecast_list(), Forecast::placeholder())
        &&& valid_features(self.feature_list())
        &&& valid_forecast_list(self.forecast_list())
    }

    /// Named after what it records.
    pub open spec fn authentic(self) -> bool {
        self.decision == decision_id_spec(
            self.active_revision,
            self.epoch,
            self.policy_rank,
            self.investment,
            self.source,
        )
    }

    pub open spec fn all_forecasts_valid(self) -> bool {
        forall|i: int|
            0 <= i < self.forecast_list().len() ==> (#[trigger] self.forecast_list()[i]).valid()
    }

    /// The receipt with the given facts.
    pub open spec fn of(
        decision: DecisionId,
        epoch: u64,
        investment: Digest,
        opportunity: Digest,
        corpus_key: Digest,
        opportunity_kind: OpportunityKind,
        feature_schema: FeatureSchemaId,
        routing_family: RoutingFamilyId,
        features: Seq<u32>,
        tag: InvestmentTag,
        source: AllocationSource,
        active_revision: Digest,
        policy_rank: u32,
        preference_priority: u32,
        bootstrap_priority: u32,
        forecasts: Seq<Forecast>,
        resources: ResourceVector,
    ) -> InvestmentReceipt {
        InvestmentReceipt {
            decision,
            epoch,
            investment,
            opportunity,
            corpus_key,
            opportunity_kind,
            feature_schema,
            routing_family,
            feature_count: features.len() as u8,
            features: padded::padded::<u32, 64>(features, 0),
            tag,
            source,
            active_revision,
            policy_rank,
            preference_priority,
            bootstrap_priority,
            forecast_count: forecasts.len() as u8,
            forecasts: padded::padded::<Forecast, 9>(forecasts, Forecast::placeholder()),
            resources,
        }
    }

    /// Records a decision; features must be few and finite, forecasts few and on
    /// distinct axes.
    pub fn new(
        decision: DecisionId,
        epoch: u64,
        investment: Digest,
        opportunity: Digest,
        corpus_key: Digest,
        opportunity_kind: OpportunityKind,
        feature_schema: FeatureSchemaId,
        routing_family: RoutingFamilyId,
        features: &[u32],
        tag: InvestmentTag,
        source: AllocationSource,
        active_revision: Digest,
        policy_rank: u32,
        preference_priority: u32,
        bootstrap_priority: u32,
        forecasts: &[Forecast],
        resources: ResourceVector,
    ) -> (result: Result<Self, IntelligenceError>)
        ensures
            result == (if !valid_features(features@) {
                Err::<Self, IntelligenceError>(IntelligenceError::InvalidFeature)
            } else if !valid_forecast_list(forecasts@) {
                Err(IntelligenceError::InvalidForecast)
            } else {
                Ok(
                    Self::of(
                        decision,
                        epoch,
                        investment,
                        opportunity,
                        corpus_key,
                        opportunity_kind,
                        feature_schema,
                        routing_family,
                        features@,
                        tag,
                        source,
                        active_revision,
                        policy_rank,
                        preference_priority,
                        bootstrap_priority,
                        forecasts@,
                        resources,
                    ),
                )
            }),
            result matches Ok(receipt) ==> receipt.well_formed() && receipt.feature_list()
                == features@ && receipt.forecast_list() == forecasts@,
    {
        if features.len() > MAXIMUM_FEATURES_PER_OPPORTUNITY || !features_are_finite(features) {
            return Err(IntelligenceError::InvalidFeature);
        }
        if forecasts.len() > MAXIMUM_TYPED_FORECASTS {
            return Err(IntelligenceError::InvalidForecast);
        }
        let axes = forecast_axes(forecasts);
        if !forecast::axes_are_distinct(axes.as_slice()) {
            return Err(IntelligenceError::InvalidForecast);
        }
        let receipt = Self {
            decision,
            epoch,
            investment,
            opportunity,
            corpus_key,
            opportunity_kind,
            feature_schema,
            routing_family,
            feature_count: features.len() as u8,
            features: padded::pad_list::<u32, 64>(features, 0),
            tag,
            source,
            active_revision,
            policy_rank,
            preference_priority,
            bootstrap_priority,
            forecast_count: forecasts.len() as u8,
            forecasts: padded::pad_list::<Forecast, 9>(forecasts, Forecast::storage_placeholder()),
            resources,
        };
        assert(receipt.feature_list() =~= features@);
        assert(receipt.forecast_list() =~= forecasts@);
        Ok(receipt)
    }

    pub fn decision(self) -> (decision: DecisionId)
        ensures
            decision == self.decision,
    {
        self.decision
    }

    pub fn epoch(self) -> (epoch: u64)
        ensures
            epoch == self.epoch,
    {
        self.epoch
    }

    pub fn opportunity_kind(self) -> (kind: OpportunityKind)
        ensures
            kind == self.opportunity_kind,
    {
        self.opportunity_kind
    }

    pub fn opportunity_identity(self) -> (identity: Digest)
        ensures
            identity == self.opportunity,
    {
        self.opportunity
    }

    pub fn corpus_key(self) -> (key: Digest)
        ensures
            key == self.corpus_key,
    {
        self.corpus_key
    }

    pub fn feature_schema(self) -> (schema: FeatureSchemaId)
        ensures
            schema == self.feature_schema,
    {
        self.feature_schema
    }

    pub fn routing_family(self) -> (family: RoutingFamilyId)
        ensures
            family == self.routing_family,
    {
        self.routing_family
    }

    pub fn features(&self) -> (features: &[u32])
        ensures
            features@ == self.feature_list(),
    {
        padded::used(&self.features, self.feature_count)
    }

    pub fn forecasts(&self) -> (forecasts: &[Forecast])
        ensures
            forecasts@ == self.forecast_list(),
    {
        padded::used(&self.forecasts, self.forecast_count)
    }

    pub fn resources(self) -> (resources: ResourceVector)
        ensures
            resources == self.resources,
    {
        self.resources
    }

    pub fn preference_priority(self) -> (priority: u32)
        ensures
            priority == self.preference_priority,
    {
        self.preference_priority
    }

    pub fn tag(self) -> (tag: InvestmentTag)
        ensures
            tag == self.tag,
    {
        self.tag
    }

    pub fn issued_under(self) -> (revision: Digest)
        ensures
            revision == self.active_revision,
    {
        self.active_revision
    }
}

/// Patterns that stand for the same numbers, place by place.
pub open spec fn same_features(left: [u32; 64], right: [u32; 64]) -> bool {
    forall|i: int| 0 <= i < 64 ==> forecast::same_number(#[trigger] left@[i], right@[i])
}

/// Forecasts that state the same, place by place.
pub open spec fn same_forecasts(left: [Forecast; 9], right: [Forecast; 9]) -> bool {
    forall|i: int| 0 <= i < 9 ==> (#[trigger] left@[i]).agrees(right@[i])
}

fn features_agree(left: &[u32; 64], right: &[u32; 64]) -> (result: bool)
    ensures
        result == same_features(*left, *right),
{
    let mut index: usize = 0;
    while index < 64
        invariant
            index <= 64,
            forall|i: int| 0 <= i < index ==> forecast::same_number(#[trigger] left@[i], right@[i]),
        decreases 64 - index,
    {
        if !forecast::is_same_number(left[index], right[index]) {
            assert(!forecast::same_number(left@[index as int], right@[index as int]));
            return false;
        }
        index = index + 1;
    }
    true
}

fn forecasts_agree(left: &[Forecast; 9], right: &[Forecast; 9]) -> (result: bool)
    ensures
        result == same_forecasts(*left, *right),
{
    let mut index: usize = 0;
    while index < 9
        invariant
            index <= 9,
            forall|i: int| 0 <= i < index ==> (#[trigger] left@[i]).agrees(right@[i]),
        decreases 9 - index,
    {
        if !left[index].agrees_with(right[index]) {
            assert(!left@[index as int].agrees(right@[index as int]));
            return false;
        }
        index = index + 1;
    }
    true
}

impl InvestmentReceipt {
    /// Two receipts that state the same.
    pub open spec fn agrees(self, other: InvestmentReceipt) -> bool {
        &&& self.decision == other.decision
        &&& self.epoch == other.epoch
        &&& self.investment == other.investment
        &&& self.opportunity == other.opportunity
        &&& self.corpus_key == other.corpus_key
        &&& self.opportunity_kind == other.opportunity_kind
        &&& self.feature_schema == other.feature_schema
        &&& self.routing_family == other.routing_family
        &&& self.feature_count == other.feature_count
        &&& same_features(self.features, other.features)
        &&& self.tag == other.tag
        &&& self.source == other.source
        &&& self.active_revision == other.active_revision
        &&& self.policy_rank == other.policy_rank
        &&& self.preference_priority == other.preference_priority
        &&& self.bootstrap_priority == other.bootstrap_priority
        &&& self.forecast_count == other.forecast_count
        &&& same_forecasts(self.forecasts, other.forecasts)
        &&& self.resources == other.resources
    }

    /// Whether two receipts state the same.
    pub fn agrees_with(&self, other: &Self) -> (result: bool)
        ensures
            result == self.agrees(*other),
    {
        self.decision == other.decision && self.epoch == other.epoch && self.investment
            == other.investment && self.opportunity == other.opportunity && self.corpus_key
            == other.corpus_key && self.opportunity_kind == other.opportunity_kind
            && self.feature_schema == other.feature_schema && self.routing_family
            == other.routing_family && self.feature_count == other.feature_count
            && features_agree(&self.features, &other.features) && self.tag == other.tag
            && self.source == other.source && self.active_revision == other.active_revision
            && self.policy_rank == other.policy_rank && self.preference_priority
            == other.preference_priority && self.bootstrap_priority == other.bootstrap_priority
            && self.forecast_count == other.forecast_count && forecasts_agree(
            &self.forecasts,
            &other.forecasts,
        ) && self.resources == other.resources
    }

    pub fn canonical_identity(self) -> (identity: Digest)
        ensures
            identity == digest::labelled(
                "reflex-investment-receipt-v1\0",
                Self::wire(ReceiptFormat::Current, self),
            ),
    {
        let mut encoded: Vec<u8> = Vec::new();
        self.encode_canonical(&mut encoded);
        assert(encoded@ =~= Self::wire(ReceiptFormat::Current, self));
        hash_labelled("reflex-investment-receipt-v1\0", encoded.as_slice())
    }

    pub fn encode_canonical(self, output: &mut Vec<u8>)
        ensures
            final(output)@ == old(output)@ + Self::wire(ReceiptFormat::Current, self),
    {
        self.write(&ReceiptFormat::Current, output);
    }

    pub fn encode_legacy_v11(self, output: &mut Vec<u8>)
        ensures
            final(output)@ == old(output)@ + Self::wire(ReceiptFormat::LegacyV11, self),
    {
        self.write(&ReceiptFormat::LegacyV11, output);
    }

    pub fn encode_legacy_v15(self, output: &mut Vec<u8>)
        ensures
            final(output)@ == old(output)@ + Self::wire(ReceiptFormat::LegacyV15, self),
    {
        self.write(&ReceiptFormat::LegacyV15, output);
    }

    pub fn decode_canonical(input: &mut Decoder<'_>) -> (result: Result<Self, ()>)
        ensures
            codec::reads(result, final(input)@, Self::parse(ReceiptFormat::Current, old(input)@)),
    {
        Self::read(&ReceiptFormat::Current, input)
    }

    pub fn decode_legacy_v11(input: &mut Decoder<'_>) -> (result: Result<Self, ()>)
        ensures
            codec::reads(result, final(input)@, Self::parse(ReceiptFormat::LegacyV11, old(input)@)),
    {
        Self::read(&ReceiptFormat::LegacyV11, input)
    }

    pub fn decode_legacy_v15(input: &mut Decoder<'_>) -> (result: Result<Self, ()>)
        ensures
            codec::reads(result, final(input)@, Self::parse(ReceiptFormat::LegacyV15, old(input)@)),
    {
        Self::read(&ReceiptFormat::LegacyV15, input)
    }

    /// How long the canonical byte form is.
    pub fn canonical_encoded_len(&self) -> (length: usize)
        requires
            self.well_formed(),
        ensures
            length == Self::wire(ReceiptFormat::Current, *self).len(),
    {
        proof {
            lemma_canonical_len(*self);
        }
        let source_bytes: usize = match self.source {
            AllocationSource::Bootstrap => 1,
            AllocationSource::Specialist(_) => 33,
        };
        288 + source_bytes + self.features().len() * 4 + self.forecasts().len() * 17
    }
}

proof fn lemma_canonical_len(receipt: InvestmentReceipt)
    requires
        receipt.well_formed(),
    ensures
        InvestmentReceipt::wire(ReceiptFormat::Current, receipt).len() == 288 + types::put_source(
            receipt.source,
        ).len() + receipt.feature_count * 4 + receipt.forecast_count * 17,
        types::put_source(receipt.source).len() == match receipt.source {
            AllocationSource::Bootstrap => 1nat,
            AllocationSource::Specialist(_) => 33nat,
        },
{
    broadcast use digest::group_digest;
    broadcast use types::lemma_resources_len;

    codec::lemma_all_fixed_width::<(), u32>((), receipt.feature_list(), 4);
    codec::lemma_all_fixed_width::<(), Forecast>((), receipt.forecast_list(), 17);
    assert(receipt_head(ReceiptFormat::Current, receipt).len() == 201);
    assert(receipt_middle(ReceiptFormat::Current, receipt).len() == 45 + types::put_source(
        receipt.source,
    ).len());
}

/// Receipts that state the same, place by place.
pub open spec fn receipts_agree(
    left: Seq<InvestmentReceipt>,
    right: Seq<InvestmentReceipt>,
) -> bool {
    &&& left.len() == right.len()
    &&& forall|i: int| 0 <= i < left.len() ==> (#[trigger] left[i]).agrees(right[i])
}

/// Whether two lists of receipts state the same.
pub fn same_receipts(left: &[InvestmentReceipt], right: &[InvestmentReceipt]) -> (result: bool)
    ensures
        result == receipts_agree(left@, right@),
{
    if left.len() != right.len() {
        return false;
    }
    let mut index: usize = 0;
    while index < left.len()
        invariant
            index <= left@.len(),
            left@.len() == right@.len(),
            forall|i: int| 0 <= i < index ==> (#[trigger] left@[i]).agrees(right@[i]),
        decreases left@.len() - index,
    {
        if !left[index].agrees_with(&right[index]) {
            assert(!left@[index as int].agrees(right@[index as int]));
            return false;
        }
        index = index + 1;
    }
    true
}

// ---------------------------------------------------------------------------
// Receipts on the wire
// ---------------------------------------------------------------------------
/// What stands before the features.
pub open spec fn receipt_head(format: ReceiptFormat, receipt: InvestmentReceipt) -> Seq<u8> {
    receipt.decision.0.bytes() + (codec::put_u64(receipt.epoch) + (receipt.investment.bytes() + (
    receipt.opportunity.bytes() + ((if format.holds_corpus_key() {
        receipt.corpus_key.bytes()
    } else {
        Seq::empty()
    }) + (codec::put_u8(receipt.opportunity_kind.tag_spec()) + (receipt.feature_schema.0.bytes()
        + receipt.routing_family.0.bytes()))))))
}

/// What stands between the features and the forecasts.
pub open spec fn receipt_middle(format: ReceiptFormat, receipt: InvestmentReceipt) -> Seq<u8> {
    codec::put_u8(receipt.tag.tag_spec()) + (types::put_source(receipt.source) + (
    receipt.active_revision.bytes() + (codec::put_u32(receipt.policy_rank) + ((
    if format.holds_preference() {
        codec::put_u32(receipt.preference_priority)
    } else {
        Seq::empty()
    }) + codec::put_u32(receipt.bootstrap_priority)))))
}

/// The facts before the features.
pub struct ReceiptHead {
    pub decision: DecisionId,
    pub epoch: u64,
    pub investment: Digest,
    pub opportunity: Digest,
    pub corpus_key: Digest,
    pub opportunity_kind: OpportunityKind,
    pub feature_schema: FeatureSchemaId,
    pub routing_family: RoutingFamilyId,
}

/// The facts between features and forecasts.
pub struct ReceiptMiddle {
    pub tag: InvestmentTag,
    pub source: AllocationSource,
    pub active_revision: Digest,
    pub policy_rank: u32,
    pub preference_priority: u32,
    pub bootstrap_priority: u32,
}

pub open spec fn parse_receipt_head(format: ReceiptFormat, input: Seq<u8>) -> Option<
    (ReceiptHead, Seq<u8>),
> {
    match digest::parse_digest(input) {
        None => None,
        Some((decision, rest)) => match codec::parse_u64(rest) {
            None => None,
            Some((epoch, rest)) => match digest::parse_digest(rest) {
                None => None,
                Some((investment, rest)) => match digest::parse_digest(rest) {
                    None => None,
                    Some((opportunity, rest)) => match (if format.holds_corpus_key() {
                        digest::parse_digest(rest)
                    } else {
                        Some((opportunity, rest))
                    }) {
                        None => None,
                        Some((corpus_key, rest)) => match OpportunityKind::parse((), rest) {
                            None => None,
                            Some((opportunity_kind, rest)) => match digest::parse_digest(rest) {
                                None => None,
                                Some((schema, rest)) => match digest::parse_digest(rest) {
                                    None => None,
                                    Some((family, rest)) => Some(
                                        (
                                            ReceiptHead {
                                                decision: DecisionId(decision),
                                                epoch,
                                                investment,
                                                opportunity,
                                                corpus_key,
                                                opportunity_kind,
                                                feature_schema: FeatureSchemaId(schema),
                                                routing_family: RoutingFamilyId(family),
                                            },
                                            rest,
                                        ),
                                    ),
                                },
                            },
                        },
                    },
                },
            },
        },
    }
}

pub open spec fn parse_tag(input: Seq<u8>) -> Option<(InvestmentTag, Seq<u8>)> {
    match codec::parse_u8(input) {
        None => None,
        Some((tag, rest)) => match InvestmentTag::decode_spec(tag) {
            None => None,
            Some(tag) => Some((tag, rest)),
        },
    }
}

pub open spec fn parse_receipt_middle(format: ReceiptFormat, input: Seq<u8>) -> Option<
    (ReceiptMiddle, Seq<u8>),
> {
    match parse_tag(input) {
        None => None,
        Some((tag, rest)) => match types::parse_source(rest) {
            None => None,
            Some((source, rest)) => match digest::parse_digest(rest) {
                None => None,
                Some((active_revision, rest)) => match codec::parse_u32(rest) {
                    None => None,
                    Some((policy_rank, rest)) => match (if format.holds_preference() {
                        codec::parse_u32(rest)
                    } else {
                        Some((0u32, rest))
                    }) {
                        None => None,
                        Some((preference_priority, rest)) => match codec::parse_u32(rest) {
                            None => None,
                            Some((bootstrap_priority, rest)) => Some(
                                (
                                    ReceiptMiddle {
                                        tag,
                                        source,
                                        active_revision,
                                        policy_rank,
                                        preference_priority,
                                        bootstrap_priority,
                                    },
                                    rest,
                                ),
                            ),
                        },
                    },
                },
            },
        },
    }
}

/// A list behind a one-byte length.
pub open spec fn parse_short_list<T: Wire<()>>(input: Seq<u8>) -> Option<(Seq<T::V>, Seq<u8>)> {
    match codec::parse_u8(input) {
        None => None,
        Some((count, rest)) => codec::parse_all::<(), T>((), rest, count as nat),
    }
}

pub open spec fn assembled(
    head: ReceiptHead,
    features: Seq<u32>,
    middle: ReceiptMiddle,
    forecasts: Seq<Forecast>,
    resources: ResourceVector,
) -> InvestmentReceipt {
    InvestmentReceipt::of(
        head.decision,
        head.epoch,
        head.investment,
        head.opportunity,
        head.corpus_key,
        head.opportunity_kind,
        head.feature_schema,
        head.routing_family,
        features,
        middle.tag,
        middle.source,
        middle.active_revision,
        middle.policy_rank,
        middle.preference_priority,
        middle.bootstrap_priority,
        forecasts,
        resources,
    )
}

impl Wire<ReceiptFormat> for InvestmentReceipt {
    open spec fn wire(format: ReceiptFormat, value: InvestmentReceipt) -> Seq<u8> {
        receipt_head(format, value) + (codec::put_u8(value.feature_count) + (codec::wire_all::<
            (),
            u32,
        >((), value.feature_list()) + (receipt_middle(format, value) + (codec::put_u8(
            value.forecast_count,
        ) + (codec::wire_all::<(), Forecast>((), value.forecast_list()) + types::put_resources(
            value.resources,
        ))))))
    }

    open spec fn parse(format: ReceiptFormat, input: Seq<u8>) -> Option<
        (InvestmentReceipt, Seq<u8>),
    > {
        match parse_receipt_head(format, input) {
            None => None,
            Some((head, rest)) => match parse_short_list::<u32>(rest) {
                None => None,
                Some((features, rest)) => match parse_receipt_middle(format, rest) {
                    None => None,
                    Some((middle, rest)) => match parse_short_list::<Forecast>(rest) {
                        None => None,
                        Some((forecasts, rest)) => match types::parse_resources(rest) {
                            None => None,
                            Some((resources, rest)) => {
                                let receipt = assembled(
                                    head,
                                    features,
                                    middle,
                                    forecasts,
                                    resources,
                                );
                                if valid_features(features) && valid_forecast_list(forecasts)
                                    && receipt.authentic() {
                                    Some((receipt, rest))
                                } else {
                                    None
                                }
                            },
                        },
                    },
                },
            },
        }
    }

    open spec fn admissible(format: ReceiptFormat, value: InvestmentReceipt) -> bool {
        &&& value.well_formed()
        &&& value.authentic()
        &&& value.all_forecasts_valid()
        &&& format.holds_corpus_key() || value.corpus_key == value.opportunity
        &&& format.holds_preference() || value.preference_priority == 0
    }

    open spec fn least_bytes(format: ReceiptFormat) -> nat {
        221
    }

    proof fn lemma_round_trip(format: ReceiptFormat, value: InvestmentReceipt, rest: Seq<u8>) {
        broadcast use digest::group_digest;
        broadcast use types::lemma_source_round_trip;
        broadcast use types::lemma_resources_round_trip;

        let resources_rest = types::put_resources(value.resources) + rest;
        let forecasts_rest = codec::put_u8(value.forecast_count) + (codec::wire_all::<(), Forecast>(
            (),
            value.forecast_list(),
        ) + resources_rest);
        let middle_rest = receipt_middle(format, value) + forecasts_rest;
        let features_rest = codec::put_u8(value.feature_count) + (codec::wire_all::<(), u32>(
            (),
            value.feature_list(),
        ) + middle_rest);
        assert(Self::wire(format, value) + rest == receipt_head(format, value) + features_rest);
        assert(value.feature_list().len() == value.feature_count);
        assert(value.forecast_list().len() == value.forecast_count);
        codec::lemma_all_round_trip::<(), u32>((), value.feature_list(), middle_rest);
        assert forall|i: int| 0 <= i < value.forecast_list().len() implies Forecast::admissible(
            (),
            #[trigger] value.forecast_list()[i],
        ) by {
            assert(value.forecast_list()[i].valid());
        }
        codec::lemma_all_round_trip::<(), Forecast>((), value.forecast_list(), resources_rest);
        padded::lemma_padded::<u32, 64>(value.features, value.feature_list(), 0);
        padded::lemma_padded::<Forecast, 9>(
            value.forecasts,
            value.forecast_list(),
            Forecast::placeholder(),
        );
        lemma_receipt_head(format, value, features_rest);
        lemma_receipt_middle(format, value, forecasts_rest);
    }

    proof fn lemma_least_bytes(format: ReceiptFormat, value: InvestmentReceipt) {
        broadcast use digest::group_digest;
        broadcast use types::lemma_resources_len;

    }

    fn write(&self, format: &ReceiptFormat, output: &mut Vec<u8>) {
        let ghost features = codec::wire_all::<(), u32>((), self.feature_list());
        let ghost forecasts = codec::wire_all::<(), Forecast>((), self.forecast_list());
        assert(codec::views(self.feature_list()) =~= self.feature_list());
        assert(codec::views(self.forecast_list()) =~= self.forecast_list());
        write_receipt_head(format, self, output);
        codec::write_u8(self.feature_count, output);
        write_prefix::<u32, 64>(&self.features, self.feature_count, output);
        write_receipt_middle(format, self, output);
        codec::write_u8(self.forecast_count, output);
        write_prefix::<Forecast, 9>(&self.forecasts, self.forecast_count, output);
        encode_resources(self.resources, output);
        proof {
            lemma_seven_parts(
                old(output)@,
                receipt_head(*format, *self),
                codec::put_u8(self.feature_count),
                features,
                receipt_middle(*format, *self),
                codec::put_u8(self.forecast_count),
                forecasts,
                types::put_resources(self.resources),
            );
        }
    }

    fn read(format: &ReceiptFormat, input: &mut Decoder<'_>) -> (result: Result<Self, ()>) {
        let head = match read_receipt_head(format, input) {
            Ok(head) => head,
            Err(_) => return Err(()),
        };
        let features = match read_short_list::<u32>(input) {
            Ok(features) => features,
            Err(_) => return Err(()),
        };
        let middle = match read_receipt_middle(format, input) {
            Ok(middle) => middle,
            Err(_) => return Err(()),
        };
        let forecasts = match read_short_list::<Forecast>(input) {
            Ok(forecasts) => forecasts,
            Err(_) => return Err(()),
        };
        let resources = match decode_resources(input) {
            Ok(resources) => resources,
            Err(_) => return Err(()),
        };
        assert(codec::views(features@) =~= features@);
        assert(codec::views(forecasts@) =~= forecasts@);
        let receipt = match InvestmentReceipt::new(
            head.decision,
            head.epoch,
            head.investment,
            head.opportunity,
            head.corpus_key,
            head.opportunity_kind,
            head.feature_schema,
            head.routing_family,
            features.as_slice(),
            middle.tag,
            middle.source,
            middle.active_revision,
            middle.policy_rank,
            middle.preference_priority,
            middle.bootstrap_priority,
            forecasts.as_slice(),
            resources,
        ) {
            Ok(receipt) => receipt,
            Err(_) => return Err(()),
        };
        if decision_id(
            receipt.active_revision,
            receipt.epoch,
            receipt.policy_rank,
            receipt.investment,
            receipt.source,
        ) != receipt.decision {
            return Err(());
        }
        Ok(receipt)
    }
}

proof fn lemma_seven_parts(
    start: Seq<u8>,
    a: Seq<u8>,
    b: Seq<u8>,
    c: Seq<u8>,
    d: Seq<u8>,
    e: Seq<u8>,
    f: Seq<u8>,
    g: Seq<u8>,
)
    ensures
        start + a + b + c + d + e + f + g == start + (a + (b + (c + (d + (e + (f + g)))))),
{
    assert(start + a + b + c + d + e + f + g =~= start + (a + (b + (c + (d + (e + (f + g)))))));
}

proof fn lemma_receipt_head(format: ReceiptFormat, value: InvestmentReceipt, rest: Seq<u8>)
    requires
        format.holds_corpus_key() || value.corpus_key == value.opportunity,
    ensures
        parse_receipt_head(format, receipt_head(format, value) + rest) == Some(
            (
                ReceiptHead {
                    decision: value.decision,
                    epoch: value.epoch,
                    investment: value.investment,
                    opportunity: value.opportunity,
                    corpus_key: value.corpus_key,
                    opportunity_kind: value.opportunity_kind,
                    feature_schema: value.feature_schema,
                    routing_family: value.routing_family,
                },
                rest,
            ),
        ),
{
    broadcast use digest::group_digest;

    if !format.holds_corpus_key() {
        assert forall|tail: Seq<u8>| #[trigger] (Seq::<u8>::empty() + tail) == tail by {
            assert(Seq::<u8>::empty() + tail =~= tail);
        }
    }
}

proof fn lemma_receipt_middle(format: ReceiptFormat, value: InvestmentReceipt, rest: Seq<u8>)
    requires
        format.holds_preference() || value.preference_priority == 0,
    ensures
        parse_receipt_middle(format, receipt_middle(format, value) + rest) == Some(
            (
                ReceiptMiddle {
                    tag: value.tag,
                    source: value.source,
                    active_revision: value.active_revision,
                    policy_rank: value.policy_rank,
                    preference_priority: value.preference_priority,
                    bootstrap_priority: value.bootstrap_priority,
                },
                rest,
            ),
        ),
{
    broadcast use digest::group_digest;
    broadcast use types::lemma_source_round_trip;

    if !format.holds_preference() {
        assert forall|tail: Seq<u8>| #[trigger] (Seq::<u8>::empty() + tail) == tail by {
            assert(Seq::<u8>::empty() + tail =~= tail);
        }
    }
}

fn write_receipt_head(format: &ReceiptFormat, receipt: &InvestmentReceipt, output: &mut Vec<u8>)
    ensures
        final(output)@ == old(output)@ + receipt_head(*format, *receipt),
{
    broadcast use digest::group_digest;

    write_digest(receipt.decision.0, output);
    codec::write_u64(receipt.epoch, output);
    write_digest(receipt.investment, output);
    write_digest(receipt.opportunity, output);
    match format {
        ReceiptFormat::Current => write_digest(receipt.corpus_key, output),
        _ => {},
    }
    codec::write_u8(receipt.opportunity_kind.tag(), output);
    write_digest(receipt.feature_schema.0, output);
    write_digest(receipt.routing_family.0, output);
    assert(output@ =~= old(output)@ + receipt_head(*format, *receipt));
}

fn write_receipt_middle(format: &ReceiptFormat, receipt: &InvestmentReceipt, output: &mut Vec<u8>)
    ensures
        final(output)@ == old(output)@ + receipt_middle(*format, *receipt),
{
    broadcast use digest::group_digest;

    codec::write_u8(receipt.tag.tag(), output);
    encode_source(receipt.source, output);
    write_digest(receipt.active_revision, output);
    codec::write_u32(receipt.policy_rank, output);
    match format {
        ReceiptFormat::LegacyV11 => {},
        _ => codec::write_u32(receipt.preference_priority, output),
    }
    codec::write_u32(receipt.bootstrap_priority, output);
    assert(output@ =~= old(output)@ + receipt_middle(*format, *receipt));
}

fn read_receipt_head(format: &ReceiptFormat, input: &mut Decoder<'_>) -> (result: Result<
    ReceiptHead,
    (),
>)
    ensures
        codec::reads(result, final(input)@, parse_receipt_head(*format, old(input)@)),
{
    let decision = input.read_digest()?;
    let epoch: u64 = input.read_u64()?;
    let investment = input.read_digest()?;
    let opportunity = input.read_digest()?;
    let corpus_key = match format {
        ReceiptFormat::Current => input.read_digest()?,
        _ => opportunity,
    };
    let kind_tag: u8 = input.read_u8()?;
    let opportunity_kind = OpportunityKind::decode(kind_tag)?;
    let feature_schema = input.read_digest()?;
    let routing_family = input.read_digest()?;
    Ok(
        ReceiptHead {
            decision: DecisionId(decision),
            epoch,
            investment,
            opportunity,
            corpus_key,
            opportunity_kind,
            feature_schema: FeatureSchemaId(feature_schema),
            routing_family: RoutingFamilyId(routing_family),
        },
    )
}

fn read_receipt_middle(format: &ReceiptFormat, input: &mut Decoder<'_>) -> (result: Result<
    ReceiptMiddle,
    (),
>)
    ensures
        codec::reads(result, final(input)@, parse_receipt_middle(*format, old(input)@)),
{
    let tag_byte: u8 = input.read_u8()?;
    let tag = InvestmentTag::decode(tag_byte)?;
    let source = decode_source(input)?;
    let active_revision = input.read_digest()?;
    let policy_rank: u32 = input.read_u32()?;
    let preference_priority: u32 = match format {
        ReceiptFormat::LegacyV11 => 0,
        _ => input.read_u32()?,
    };
    let bootstrap_priority: u32 = input.read_u32()?;
    Ok(
        ReceiptMiddle {
            tag,
            source,
            active_revision,
            policy_rank,
            preference_priority,
            bootstrap_priority,
        },
    )
}

fn read_short_list<T: Wire<()>>(input: &mut Decoder<'_>) -> (result: Result<Vec<T>, ()>)
    ensures
        match result {
            Ok(items) => parse_short_list::<T>(old(input)@) == Some(
                (codec::views(items@), final(input)@),
            ),
            Err(_) => parse_short_list::<T>(old(input)@) is None,
        },
{
    let count: u8 = match input.read_u8() {
        Ok(count) => count,
        Err(_) => return Err(()),
    };
    codec::read_all::<(), T>(&(), input, count as usize)
}

/// Writes the used slots of an array.
fn write_prefix<T: Wire<()>, const N: usize>(items: &[T; N], count: u8, output: &mut Vec<u8>)
    ensures
        final(output)@ == old(output)@ + codec::wire_all::<(), T>(
            (),
            codec::views(padded::listed(*items, count)),
        ),
{
    let used = padded::used(items, count);
    codec::write_all::<(), T>(&(), used, output);
}

} // verus!
