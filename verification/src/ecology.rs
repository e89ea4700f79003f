//! Specialists: what they may speak about, how they come and go, and which of
//! them an opportunity is routed to.
use vstd::prelude::*;

use crate::arena::{OpportunityKind, OpportunitySpec, MAXIMUM_FEATURES_PER_OPPORTUNITY};
use crate::codec;
use crate::codec::{saturating_multiply, Decoder, Wire};
use crate::digest;
use crate::digest::{hash_labelled, write_digest, Digest};
use crate::forecast;
use crate::forecast::ForecastAxis;
use crate::ledger::copied;
use crate::model::{CompactModel, ModelView};
use crate::order;
use crate::order::{contains, is_distinct, sort, unique_nonempty};
use crate::resident;
use crate::resident::{bytes_for, capacity_of};
use crate::types::{
    FeatureSchemaId, IntelligenceError, IntelligenceLimits, RoleId, RoutingFamilyId,
    SpecialistRevisionId,
};

verus! {

// ---------------------------------------------------------------------------
// Mandates
// ---------------------------------------------------------------------------
/// What a specialist may be asked about; without families it serves them all.
#[verifier::ext_equal]
pub struct MandateView {
    pub role: RoleId,
    pub axes: Seq<ForecastAxis>,
    pub opportunity_kinds: Seq<OpportunityKind>,
    pub feature_schemas: Seq<FeatureSchemaId>,
    pub routing_families: Seq<RoutingFamilyId>,
}

impl MandateView {
    /// Lists of admissible length without repetition, of which only the families
    /// may be missing.
    pub open spec fn acceptable(self) -> bool {
        &&& self.axes.len() > 0 && order::distinct(self.axes)
        &&& 0 < self.opportunity_kinds.len() <= 16 && order::distinct(self.opportunity_kinds)
        &&& 0 < self.feature_schemas.len() <= 16 && order::distinct(self.feature_schemas)
        &&& self.routing_families.len() <= 16 && order::distinct(self.routing_families)
    }

    /// The same mandate with every list in ascending order.
    pub open spec fn arranged(self) -> MandateView {
        MandateView {
            role: self.role,
            axes: order::sorted(self.axes),
            opportunity_kinds: order::sorted(self.opportunity_kinds),
            feature_schemas: order::sorted(self.feature_schemas),
            routing_families: order::sorted(self.routing_families),
        }
    }

    /// Acceptable, and every list in ascending order.
    pub open spec fn valid(self) -> bool {
        &&& self.acceptable()
        &&& order::ascending(self.axes)
        &&& order::ascending(self.opportunity_kinds)
        &&& order::ascending(self.feature_schemas)
        &&& order::ascending(self.routing_families)
    }

    pub open spec fn permits_opportunity(self, opportunity: OpportunitySpec) -> bool {
        &&& self.opportunity_kinds.contains(opportunity.kind)
        &&& self.feature_schemas.contains(opportunity.feature_schema)
        &&& self.routing_families.len() == 0 || self.routing_families.contains(
            opportunity.routing_family,
        )
    }
}

/// Distinct axes are at most nine, in this sense as in the other.
proof fn lemma_axes_bounded(axes: Seq<ForecastAxis>)
    requires
        order::distinct(axes),
    ensures
        axes.len() <= 9,
{
    assert(forecast::distinct_axes(axes)) by {
        assert forall|i: int, j: int| 0 <= i < j < axes.len() implies (#[trigger] axes[i]) != (
        #[trigger] axes[j]) by {}
    }
    forecast::lemma_distinct_axes_bounded(axes);
}

/// An acceptable mandate is valid once its lists are arranged.
proof fn lemma_arranged_valid(mandate: MandateView)
    requires
        mandate.acceptable(),
    ensures
        mandate.arranged().valid(),
{
    order::lemma_sorted_ascends(mandate.axes);
    order::lemma_sorted_ascends(mandate.opportunity_kinds);
    order::lemma_sorted_ascends(mandate.feature_schemas);
    order::lemma_sorted_ascends(mandate.routing_families);
    order::lemma_sorted_permutes(mandate.axes);
    order::lemma_sorted_permutes(mandate.opportunity_kinds);
    order::lemma_sorted_permutes(mandate.feature_schemas);
    order::lemma_sorted_permutes(mandate.routing_families);
    order::lemma_sorted_keeps(order::sorted(mandate.axes));
    order::lemma_sorted_keeps(order::sorted(mandate.opportunity_kinds));
    order::lemma_sorted_keeps(order::sorted(mandate.feature_schemas));
    order::lemma_sorted_keeps(order::sorted(mandate.routing_families));
}

/// A valid mandate is arranged already.
proof fn lemma_valid_arranged(mandate: MandateView)
    requires
        mandate.valid(),
    ensures
        mandate.arranged() == mandate,
{
    order::lemma_sorted_keeps(mandate.axes);
    order::lemma_sorted_keeps(mandate.opportunity_kinds);
    order::lemma_sorted_keeps(mandate.feature_schemas);
    order::lemma_sorted_keeps(mandate.routing_families);
}

#[derive(Clone, Debug, PartialEq, Eq)]
pub struct SpecialistMandate {
    role: RoleId,
    axes: Vec<ForecastAxis>,
    opportunity_kinds: Vec<OpportunityKind>,
    feature_schemas: Vec<FeatureSchemaId>,
    routing_families: Vec<RoutingFamilyId>,
}

impl View for SpecialistMandate {
    type V = MandateView;

    closed spec fn view(&self) -> MandateView {
        MandateView {
            role: self.role,
            axes: self.axes@,
            opportunity_kinds: self.opportunity_kinds@,
            feature_schemas: self.feature_schemas@,
            routing_families: self.routing_families@,
        }
    }
}

impl SpecialistMandate {
    /// A mandate for plain candidates.
    pub fn all(role: RoleId, axes: &[ForecastAxis]) -> (result: Result<Self, IntelligenceError>)
        ensures
            ({
                let asked = MandateView {
                    role,
                    axes: axes@,
                    opportunity_kinds: seq![OpportunityKind::Candidate],
                    feature_schemas: seq![FeatureSchemaId::built_in_spec(1)],
                    routing_families: seq![RoutingFamilyId::generic_spec()],
                };
                match result {
                    Ok(mandate) => asked.acceptable() && mandate@ == asked.arranged(),
                    Err(error) => !asked.acceptable() && error == IntelligenceError::InvalidMandate,
                }
            }),
            result matches Ok(mandate) ==> mandate@.valid(),
    {
        let kinds = [OpportunityKind::Candidate];
        let schemas = [OpportunitySpec::candidate_schema()];
        assert(kinds@ =~= seq![OpportunityKind::Candidate]);
        assert(schemas@ =~= seq![FeatureSchemaId::built_in_spec(1)]);
        Self::for_opportunities(role, axes, &kinds, &schemas)
    }

    /// A mandate within the generic family.
    pub fn for_opportunities(
        role: RoleId,
        axes: &[ForecastAxis],
        opportunity_kinds: &[OpportunityKind],
        feature_schemas: &[FeatureSchemaId],
    ) -> (result: Result<Self, IntelligenceError>)
        ensures
            ({
                let asked = MandateView {
                    role,
                    axes: axes@,
                    opportunity_kinds: opportunity_kinds@,
                    feature_schemas: feature_schemas@,
                    routing_families: seq![RoutingFamilyId::generic_spec()],
                };
                match result {
                    Ok(mandate) => asked.acceptable() && mandate@ == asked.arranged(),
                    Err(error) => !asked.acceptable() && error == IntelligenceError::InvalidMandate,
                }
            }),
            result matches Ok(mandate) ==> mandate@.valid(),
    {
        let families = [RoutingFamilyId::generic()];
        assert(families@ =~= seq![RoutingFamilyId::generic_spec()]);
        Self::for_routing_families(role, axes, opportunity_kinds, feature_schemas, &families)
    }

    /// A mandate within the given families, or within all of them.
    pub fn for_routing_families(
        role: RoleId,
        axes: &[ForecastAxis],
        opportunity_kinds: &[OpportunityKind],
        feature_schemas: &[FeatureSchemaId],
        routing_families: &[RoutingFamilyId],
    ) -> (result: Result<Self, IntelligenceError>)
        ensures
            ({
                let asked = MandateView {
                    role,
                    axes: axes@,
                    opportunity_kinds: opportunity_kinds@,
                    feature_schemas: feature_schemas@,
                    routing_families: routing_families@,
                };
                match result {
                    Ok(mandate) => asked.acceptable() && mandate@ == asked.arranged(),
                    Err(error) => !asked.acceptable() && error == IntelligenceError::InvalidMandate,
                }
            }),
            result matches Ok(mandate) ==> mandate@.valid(),
    {
        let ghost asked = MandateView {
            role,
            axes: axes@,
            opportunity_kinds: opportunity_kinds@,
            feature_schemas: feature_schemas@,
            routing_families: routing_families@,
        };
        if !unique_nonempty(axes) || !unique_nonempty(opportunity_kinds) || !unique_nonempty(
            feature_schemas,
        ) || !is_distinct(routing_families) || opportunity_kinds.len() > 16 || feature_schemas.len()
            > 16 || routing_families.len() > 16 {
            return Err(IntelligenceError::InvalidMandate);
        }
        proof {
            lemma_arranged_valid(asked);
        }
        Ok(
            Self {
                role,
                axes: sort(axes),
                opportunity_kinds: sort(opportunity_kinds),
                feature_schemas: sort(feature_schemas),
                routing_families: sort(routing_families),
            },
        )
    }

    pub fn duplicate(&self) -> (copy: Self)
        ensures
            copy@ == self@,
    {
        Self {
            role: self.role,
            axes: copied(self.axes.as_slice()),
            opportunity_kinds: copied(self.opportunity_kinds.as_slice()),
            feature_schemas: copied(self.feature_schemas.as_slice()),
            routing_families: copied(self.routing_families.as_slice()),
        }
    }

    pub fn permits(&self, axis: ForecastAxis) -> (result: bool)
        ensures
            result == self@.axes.contains(axis),
    {
        contains(self.axes.as_slice(), axis)
    }

    pub fn permits_opportunity(&self, opportunity: OpportunitySpec) -> (result: bool)
        ensures
            result == self@.permits_opportunity(opportunity),
    {
        contains(self.opportunity_kinds.as_slice(), opportunity.kind) && contains(
            self.feature_schemas.as_slice(),
            opportunity.feature_schema,
        ) && (self.routing_families.len() == 0 || contains(
            self.routing_families.as_slice(),
            opportunity.routing_family,
        ))
    }

    pub fn encode_canonical(&self, output: &mut Vec<u8>)
        ensures
            final(output)@ == old(output)@ + Self::wire((), self@),
    {
        self.write(&(), output);
    }

    pub fn decode_canonical(input: &mut Decoder<'_>) -> (result: Result<Self, ()>)
        ensures
            codec::reads_view(result, final(input)@, Self::parse((), old(input)@)),
    {
        Self::read(&(), input)
    }
}

impl Wire<()> for SpecialistMandate {
    open spec fn wire(format: (), value: MandateView) -> Seq<u8> {
        value.role.0.bytes() + (codec::put_list::<(), OpportunityKind>((), value.opportunity_kinds)
            + (codec::put_list::<(), FeatureSchemaId>((), value.feature_schemas) + (
        codec::put_list::<(), RoutingFamilyId>((), value.routing_families) + codec::put_list::<
            (),
            ForecastAxis,
        >((), value.axes))))
    }

    open spec fn parse(format: (), input: Seq<u8>) -> Option<(MandateView, Seq<u8>)> {
        match digest::parse_digest(input) {
            None => None,
            Some((role, rest)) => match codec::parse_list::<(), OpportunityKind>((), rest, 16, 1) {
                None => None,
                Some((opportunity_kinds, rest)) => match codec::parse_list::<(), FeatureSchemaId>(
                    (),
                    rest,
                    16,
                    32,
                ) {
                    None => None,
                    Some((feature_schemas, rest)) => match codec::parse_list::<
                        (),
                        RoutingFamilyId,
                    >((), rest, 16, 32) {
                        None => None,
                        Some((routing_families, rest)) => match codec::parse_list::<
                            (),
                            ForecastAxis,
                        >((), rest, 32, 1) {
                            None => None,
                            Some((axes, rest)) => {
                                let asked = MandateView {
                                    role: RoleId(role),
                                    axes,
                                    opportunity_kinds,
                                    feature_schemas,
                                    routing_families,
                                };
                                if asked.acceptable() {
                                    Some((asked.arranged(), rest))
                                } else {
                                    None
                                }
                            },
                        },
                    },
                },
            },
        }
    }

    open spec fn admissible(format: (), value: MandateView) -> bool {
        value.valid()
    }

    open spec fn least_bytes(format: ()) -> nat {
        64
    }

    proof fn lemma_round_trip(format: (), value: MandateView, rest: Seq<u8>) {
        broadcast use digest::group_digest;

        lemma_axes_bounded(value.axes);
        lemma_valid_arranged(value);
        let after_axes = codec::put_list::<(), ForecastAxis>((), value.axes) + rest;
        let after_families = codec::put_list::<(), RoutingFamilyId>((), value.routing_families)
            + after_axes;
        let after_schemas = codec::put_list::<(), FeatureSchemaId>((), value.feature_schemas)
            + after_families;
        codec::lemma_list_round_trip::<(), OpportunityKind>(
            (),
            value.opportunity_kinds,
            16,
            1,
            after_schemas,
        );
        codec::lemma_list_round_trip::<(), FeatureSchemaId>(
            (),
            value.feature_schemas,
            16,
            32,
            after_families,
        );
        codec::lemma_list_round_trip::<(), RoutingFamilyId>(
            (),
            value.routing_families,
            16,
            32,
            after_axes,
        );
        codec::lemma_list_round_trip::<(), ForecastAxis>((), value.axes, 32, 1, rest);
    }

    proof fn lemma_least_bytes(format: (), value: MandateView) {
        broadcast use digest::group_digest;

    }

    fn write(&self, format: &(), output: &mut Vec<u8>) {
        broadcast use digest::group_digest;

        assert(codec::views(self.opportunity_kinds@) =~= self.opportunity_kinds@);
        assert(codec::views(self.feature_schemas@) =~= self.feature_schemas@);
        assert(codec::views(self.routing_families@) =~= self.routing_families@);
        assert(codec::views(self.axes@) =~= self.axes@);
        write_digest(self.role.0, output);
        codec::write_list::<(), OpportunityKind>(&(), self.opportunity_kinds.as_slice(), output);
        codec::write_list::<(), FeatureSchemaId>(&(), self.feature_schemas.as_slice(), output);
        codec::write_list::<(), RoutingFamilyId>(&(), self.routing_families.as_slice(), output);
        codec::write_list::<(), ForecastAxis>(&(), self.axes.as_slice(), output);
    }

    fn read(format: &(), input: &mut Decoder<'_>) -> (result: Result<Self, ()>) {
        let role = input.read_digest()?;
        let kinds = codec::read_list::<(), OpportunityKind>(&(), input, 16, 1)?;
        let schemas = codec::read_list::<(), FeatureSchemaId>(&(), input, 16, 32)?;
        let families = codec::read_list::<(), RoutingFamilyId>(&(), input, 16, 32)?;
        let axes = codec::read_list::<(), ForecastAxis>(&(), input, 32, 1)?;
        assert(codec::views(kinds@) =~= kinds@);
        assert(codec::views(schemas@) =~= schemas@);
        assert(codec::views(families@) =~= families@);
        assert(codec::views(axes@) =~= axes@);
        match SpecialistMandate::for_routing_families(
            RoleId(role),
            axes.as_slice(),
            kinds.as_slice(),
            schemas.as_slice(),
            families.as_slice(),
        ) {
            Ok(mandate) => Ok(mandate),
            Err(_) => Err(()),
        }
    }
}

// ---------------------------------------------------------------------------
// Origins
// ---------------------------------------------------------------------------
#[derive(Clone, Copy, Debug, PartialEq, Eq, Structural)]
pub enum SpecialistStatus {
    Active,
    Retired,
}

impl View for SpecialistStatus {
    type V = SpecialistStatus;

    open spec fn view(&self) -> SpecialistStatus {
        *self
    }
}

impl Wire<()> for SpecialistStatus {
    open spec fn wire(format: (), value: SpecialistStatus) -> Seq<u8> {
        match value {
            SpecialistStatus::Active => codec::put_u8(1),
            SpecialistStatus::Retired => codec::put_u8(2),
        }
    }

    open spec fn parse(format: (), input: Seq<u8>) -> Option<(SpecialistStatus, Seq<u8>)> {
        match codec::parse_u8(input) {
            None => None,
            Some((tag, rest)) => match tag {
                1 => Some((SpecialistStatus::Active, rest)),
                2 => Some((SpecialistStatus::Retired, rest)),
                _ => None,
            },
        }
    }

    open spec fn admissible(format: (), value: SpecialistStatus) -> bool {
        true
    }

    open spec fn least_bytes(format: ()) -> nat {
        1
    }

    proof fn lemma_round_trip(format: (), value: SpecialistStatus, rest: Seq<u8>) {
        broadcast use digest::group_digest;

    }

    proof fn lemma_least_bytes(format: (), value: SpecialistStatus) {
    }

    fn write(&self, format: &(), output: &mut Vec<u8>) {
        match self {
            SpecialistStatus::Active => codec::write_u8(1, output),
            SpecialistStatus::Retired => codec::write_u8(2, output),
        }
    }

    fn read(format: &(), input: &mut Decoder<'_>) -> (result: Result<Self, ()>) {
        let tag: u8 = input.read_u8()?;
        match tag {
            1 => Ok(SpecialistStatus::Active),
            2 => Ok(SpecialistStatus::Retired),
            _ => Err(()),
        }
    }
}

/// By which kind of edit a specialist came.
#[derive(Clone, Copy, Debug, PartialEq, Eq, Structural)]
pub enum SpecialistLifecycle {
    Spawn,
    Split,
    Merge,
    Distill,
}

/// Where a specialist came from.
#[verifier::ext_equal]
pub enum OriginView {
    Spawn,
    Split(SpecialistRevisionId),
    Merge(Seq<SpecialistRevisionId>),
    Distill(Seq<SpecialistRevisionId>),
}

impl OriginView {
    /// A union has at least two parents.
    pub open spec fn valid(self) -> bool {
        match self {
            OriginView::Spawn => true,
            OriginView::Split(_) => true,
            OriginView::Merge(parents) => 2 <= parents.len() <= usize::MAX,
            OriginView::Distill(parents) => 2 <= parents.len() <= usize::MAX,
        }
    }

    pub open spec fn lifecycle_spec(self) -> SpecialistLifecycle {
        match self {
            OriginView::Spawn => SpecialistLifecycle::Spawn,
            OriginView::Split(_) => SpecialistLifecycle::Split,
            OriginView::Merge(_) => SpecialistLifecycle::Merge,
            OriginView::Distill(_) => SpecialistLifecycle::Distill,
        }
    }

    pub open spec fn parents(self) -> Seq<SpecialistRevisionId> {
        match self {
            OriginView::Spawn => Seq::empty(),
            OriginView::Split(parent) => seq![parent],
            OriginView::Merge(parents) => parents,
            OriginView::Distill(parents) => parents,
        }
    }

    /// The bytes that its list of parents takes.
    pub open spec fn bytes(self) -> nat {
        match self {
            OriginView::Merge(parents) => resident::room::<SpecialistRevisionId>(parents.len()),
            OriginView::Distill(parents) => resident::room::<SpecialistRevisionId>(parents.len()),
            _ => 0,
        }
    }
}

#[derive(Clone, Debug, PartialEq, Eq)]
pub enum SpecialistOrigin {
    Spawn,
    Split(SpecialistRevisionId),
    Merge(Vec<SpecialistRevisionId>),
    Distill(Vec<SpecialistRevisionId>),
}

impl View for SpecialistOrigin {
    type V = OriginView;

    open spec fn view(&self) -> OriginView {
        match self {
            SpecialistOrigin::Spawn => OriginView::Spawn,
            SpecialistOrigin::Split(parent) => OriginView::Split(*parent),
            SpecialistOrigin::Merge(parents) => OriginView::Merge(parents@),
            SpecialistOrigin::Distill(parents) => OriginView::Distill(parents@),
        }
    }
}

impl SpecialistOrigin {
    pub fn duplicate(&self) -> (copy: Self)
        ensures
            copy@ == self@,
    {
        match self {
            SpecialistOrigin::Spawn => SpecialistOrigin::Spawn,
            SpecialistOrigin::Split(parent) => SpecialistOrigin::Split(*parent),
            SpecialistOrigin::Merge(parents) => SpecialistOrigin::Merge(copied(parents.as_slice())),
            SpecialistOrigin::Distill(parents) => SpecialistOrigin::Distill(
                copied(parents.as_slice()),
            ),
        }
    }

    pub fn lifecycle(&self) -> (lifecycle: SpecialistLifecycle)
        ensures
            lifecycle == self@.lifecycle_spec(),
    {
        match self {
            SpecialistOrigin::Spawn => SpecialistLifecycle::Spawn,
            SpecialistOrigin::Split(_) => SpecialistLifecycle::Split,
            SpecialistOrigin::Merge(_) => SpecialistLifecycle::Merge,
            SpecialistOrigin::Distill(_) => SpecialistLifecycle::Distill,
        }
    }

    pub fn heap_bytes(&self) -> (bytes: usize)
        ensures
            bytes == self@.bytes(),
    {
        match self {
            SpecialistOrigin::Merge(parents) => bytes_for::<SpecialistRevisionId>(parents.len()),
            SpecialistOrigin::Distill(parents) => bytes_for::<SpecialistRevisionId>(parents.len()),
            _ => 0,
        }
    }

    pub fn encode_canonical(&self, output: &mut Vec<u8>)
        ensures
            final(output)@ == old(output)@ + Self::wire((), self@),
    {
        self.write(&(), output);
    }

    pub fn decode_canonical(input: &mut Decoder<'_>) -> (result: Result<Self, ()>)
        ensures
            codec::reads_view(result, final(input)@, Self::parse((), old(input)@)),
    {
        Self::read(&(), input)
    }
}

/// At least two parents behind their number.
pub open spec fn parse_parents(input: Seq<u8>) -> Option<(Seq<SpecialistRevisionId>, Seq<u8>)> {
    match codec::parse_list::<(), SpecialistRevisionId>((), input, usize::MAX as nat, 32) {
        None => None,
        Some((parents, rest)) => if parents.len() < 2 {
            None
        } else {
            Some((parents, rest))
        },
    }
}

fn read_parents(input: &mut Decoder<'_>) -> (result: Result<Vec<SpecialistRevisionId>, ()>)
    ensures
        match result {
            Ok(parents) => parse_parents(old(input)@) == Some((parents@, final(input)@)),
            Err(_) => parse_parents(old(input)@) is None,
        },
{
    let parents = codec::read_list::<(), SpecialistRevisionId>(&(), input, usize::MAX, 32)?;
    assert(codec::views(parents@) =~= parents@);
    if parents.len() < 2 {
        return Err(());
    }
    Ok(parents)
}

impl Wire<()> for SpecialistOrigin {
    open spec fn wire(format: (), value: OriginView) -> Seq<u8> {
        match value {
            OriginView::Spawn => codec::put_u8(1),
            OriginView::Split(parent) => codec::put_u8(2) + parent.0.bytes(),
            OriginView::Merge(parents) => codec::put_u8(3) + codec::put_list::<
                (),
                SpecialistRevisionId,
            >((), parents),
            OriginView::Distill(parents) => codec::put_u8(4) + codec::put_list::<
                (),
                SpecialistRevisionId,
            >((), parents),
        }
    }

    open spec fn parse(format: (), input: Seq<u8>) -> Option<(OriginView, Seq<u8>)> {
        match codec::parse_u8(input) {
            None => None,
            Some((tag, rest)) => match tag {
                1 => Some((OriginView::Spawn, rest)),
                2 => match digest::parse_digest(rest) {
                    None => None,
                    Some((parent, rest)) => Some(
                        (OriginView::Split(SpecialistRevisionId(parent)), rest),
                    ),
                },
                3 => match parse_parents(rest) {
                    None => None,
                    Some((parents, rest)) => Some((OriginView::Merge(parents), rest)),
                },
                4 => match parse_parents(rest) {
                    None => None,
                    Some((parents, rest)) => Some((OriginView::Distill(parents), rest)),
                },
                _ => None,
            },
        }
    }

    open spec fn admissible(format: (), value: OriginView) -> bool {
        value.valid()
    }

    open spec fn least_bytes(format: ()) -> nat {
        1
    }

    proof fn lemma_round_trip(format: (), value: OriginView, rest: Seq<u8>) {
        broadcast use digest::group_digest;

        match value {
            OriginView::Merge(parents) => codec::lemma_list_round_trip::<(), SpecialistRevisionId>(
                (),
                parents,
                usize::MAX as nat,
                32,
                rest,
            ),
            OriginView::Distill(parents) => codec::lemma_list_round_trip::<
                (),
                SpecialistRevisionId,
            >((), parents, usize::MAX as nat, 32, rest),
            _ => {},
        }
    }

    proof fn lemma_least_bytes(format: (), value: OriginView) {
    }

    fn write(&self, format: &(), output: &mut Vec<u8>) {
        broadcast use digest::group_digest;

        match self {
            SpecialistOrigin::Spawn => codec::write_u8(1, output),
            SpecialistOrigin::Split(parent) => {
                codec::write_u8(2, output);
                write_digest(parent.0, output);
            },
            SpecialistOrigin::Merge(parents) => {
                codec::write_u8(3, output);
                encode_specialist_ids(parents.as_slice(), output);
            },
            SpecialistOrigin::Distill(parents) => {
                codec::write_u8(4, output);
                encode_specialist_ids(parents.as_slice(), output);
            },
        }
    }

    fn read(format: &(), input: &mut Decoder<'_>) -> (result: Result<Self, ()>) {
        let tag: u8 = input.read_u8()?;
        match tag {
            1 => Ok(SpecialistOrigin::Spawn),
            2 => {
                let parent = input.read_digest()?;
                Ok(SpecialistOrigin::Split(SpecialistRevisionId(parent)))
            },
            3 => {
                let parents = read_parents(input)?;
                Ok(SpecialistOrigin::Merge(parents))
            },
            4 => {
                let parents = read_parents(input)?;
                Ok(SpecialistOrigin::Distill(parents))
            },
            _ => Err(()),
        }
    }
}

pub fn encode_specialist_ids(ids: &[SpecialistRevisionId], output: &mut Vec<u8>)
    ensures
        final(output)@ == old(output)@ + codec::put_list::<(), SpecialistRevisionId>((), ids@),
{
    assert(codec::views(ids@) =~= ids@);
    codec::write_list::<(), SpecialistRevisionId>(&(), ids, output);
}

/// Identities behind their number, of which there must be one.
pub open spec fn parse_specialist_ids(input: Seq<u8>, limit: nat) -> Option<
    (Seq<SpecialistRevisionId>, Seq<u8>),
> {
    match codec::parse_list::<(), SpecialistRevisionId>((), input, limit, 32) {
        None => None,
        Some((ids, rest)) => if ids.len() == 0 {
            None
        } else {
            Some((ids, rest))
        },
    }
}

pub fn decode_specialist_ids(input: &mut Decoder<'_>, limit: usize) -> (result: Result<
    Vec<SpecialistRevisionId>,
    (),
>)
    ensures
        match result {
            Ok(ids) => parse_specialist_ids(old(input)@, limit as nat) == Some(
                (ids@, final(input)@),
            ),
            Err(_) => parse_specialist_ids(old(input)@, limit as nat) is None,
        },
{
    let ids = codec::read_list::<(), SpecialistRevisionId>(&(), input, limit, 32)?;
    assert(codec::views(ids@) =~= ids@);
    if ids.len() == 0 {
        return Err(());
    }
    Ok(ids)
}

// ---------------------------------------------------------------------------
// Revisions
// ---------------------------------------------------------------------------
/// What a specialist consists of.
#[verifier::ext_equal]
pub struct RevisionView {
    pub id: SpecialistRevisionId,
    pub mandate: MandateView,
    pub model: ModelView,
    pub status: SpecialistStatus,
    pub origin: OriginView,
}

/// The name of a specialist follows from its mandate and its model.
pub open spec fn revision_id(mandate: MandateView, model: ModelView) -> SpecialistRevisionId {
    SpecialistRevisionId(
        digest::labelled(
            "reflex-specialist-revision-v1\0",
            SpecialistMandate::wire((), mandate) + CompactModel::wire((), model),
        ),
    )
}

impl RevisionView {
    pub open spec fn valid(self) -> bool {
        &&& self.mandate.valid()
        &&& self.model.valid()
        &&& self.origin.valid()
        &&& self.id == revision_id(self.mandate, self.model)
    }

    pub open spec fn is_active(self) -> bool {
        self.status is Active
    }

    /// The bytes that a specialist takes.
    pub open spec fn bytes(self) -> nat {
        let axes = resident::room::<ForecastAxis>(self.mandate.axes.len());
        let kinds = resident::room::<OpportunityKind>(self.mandate.opportunity_kinds.len());
        let schemas = resident::room::<FeatureSchemaId>(self.mandate.feature_schemas.len());
        let families = resident::room::<RoutingFamilyId>(self.mandate.routing_families.len());
        resident::capped_sum(
            resident::capped_sum(
                resident::capped_sum(
                    resident::capped_sum(
                        resident::capped_sum(
                            resident::capped_sum(
                                vstd::layout::size_of::<SpecialistRevision>(),
                                axes,
                            ),
                            kinds,
                        ),
                        schemas,
                    ),
                    families,
                ),
                self.model.bytes(),
            ),
            self.origin.bytes(),
        )
    }

    /// The opportunity lies within the mandate and the model takes its features.
    pub open spec fn permits_opportunity(
        self,
        opportunity: OpportunitySpec,
        feature_count: nat,
    ) -> bool {
        self.mandate.permits_opportunity(opportunity) && self.model.accepts(feature_count)
    }
}

#[derive(Clone, Debug, PartialEq, Eq)]
pub struct SpecialistRevision {
    id: SpecialistRevisionId,
    mandate: SpecialistMandate,
    model: CompactModel,
    status: SpecialistStatus,
    origin: SpecialistOrigin,
}

impl View for SpecialistRevision {
    type V = RevisionView;

    closed spec fn view(&self) -> RevisionView {
        RevisionView {
            id: self.id,
            mandate: self.mandate@,
            model: self.model@,
            status: self.status,
            origin: self.origin@,
        }
    }
}

impl SpecialistRevision {
    /// A new specialist, active and of its own making.
    pub fn new(mandate: SpecialistMandate, model: CompactModel) -> (result: Result<
        Self,
        IntelligenceError,
    >)
        ensures
            result matches Ok(revision) && revision@ == (RevisionView {
                id: revision_id(mandate@, model@),
                mandate: mandate@,
                model: model@,
                status: SpecialistStatus::Active,
                origin: OriginView::Spawn,
            }),
    {
        broadcast use digest::group_digest;

        let mut encoded: Vec<u8> = Vec::new();
        mandate.write(&(), &mut encoded);
        model.write(&(), &mut encoded);
        assert(encoded@ =~= SpecialistMandate::wire((), mandate@) + CompactModel::wire(
            (),
            model@,
        ));
        let id = hash_labelled("reflex-specialist-revision-v1\0", encoded.as_slice());
        Ok(
            Self {
                id: SpecialistRevisionId(id),
                mandate,
                model,
                status: SpecialistStatus::Active,
                origin: SpecialistOrigin::Spawn,
            },
        )
    }

    pub fn duplicate(&self) -> (copy: Self)
        ensures
            copy@ == self@,
    {
        Self {
            id: self.id,
            mandate: self.mandate.duplicate(),
            model: self.model.duplicate(),
            status: self.status,
            origin: self.origin.duplicate(),
        }
    }

    pub fn id(&self) -> (id: SpecialistRevisionId)
        ensures
            id == self@.id,
    {
        self.id
    }

    pub fn role(&self) -> (role: RoleId)
        ensures
            role == self@.mandate.role,
    {
        self.mandate.role
    }

    pub fn active(&self) -> (active: bool)
        ensures
            active == self@.is_active(),
    {
        matches!(self.status, SpecialistStatus::Active)
    }

    pub fn model(&self) -> (model: &CompactModel)
        ensures
            model@ == self@.model,
    {
        &self.model
    }

    pub fn support(&self) -> (support: u32)
        ensures
            support == crate::model::least_support(self@.model.heads),
    {
        self.model.minimum_support()
    }

    pub fn opportunity_kinds(&self) -> (kinds: &[OpportunityKind])
        ensures
            kinds@ == self@.mandate.opportunity_kinds,
    {
        self.mandate.opportunity_kinds.as_slice()
    }

    pub fn feature_schemas(&self) -> (schemas: &[FeatureSchemaId])
        ensures
            schemas@ == self@.mandate.feature_schemas,
    {
        self.mandate.feature_schemas.as_slice()
    }

    pub fn routing_families(&self) -> (families: &[RoutingFamilyId])
        ensures
            families@ == self@.mandate.routing_families,
    {
        self.mandate.routing_families.as_slice()
    }

    pub fn routes_all_families(&self) -> (result: bool)
        ensures
            result == (self@.mandate.routing_families.len() == 0),
    {
        self.mandate.routing_families.len() == 0
    }

    /// How many feature counts the model takes.
    pub open spec fn accepted_counts(model: ModelView) -> nat {
        match model.features {
            Some(count) => if count <= 64 {
                1
            } else {
                0
            },
            None => 65,
        }
    }

    /// How many routes the specialist is a member of, families it serves
    /// unnamed counting as one.
    pub fn route_membership_count(&self) -> (result: Result<usize, IntelligenceError>)
        requires
            self@.valid(),
        ensures
            ({
                let families = if self@.mandate.routing_families.len() == 0 {
                    1
                } else {
                    self@.mandate.routing_families.len()
                };
                result == Ok::<usize, IntelligenceError>(
                    (families * self@.mandate.opportunity_kinds.len()
                        * self@.mandate.feature_schemas.len() * Self::accepted_counts(
                        self@.model,
                    )) as usize,
                )
            }),
    {
        let mut feature_counts: usize = 0;
        let mut count: usize = 0;
        while count <= MAXIMUM_FEATURES_PER_OPPORTUNITY
            invariant
                count <= 65,
                feature_counts <= count,
                feature_counts == match self@.model.features {
                    Some(accepted) => if accepted < count {
                        1
                    } else {
                        0
                    },
                    None => count as int,
                },
            decreases 65 - count,
        {
            if self.model.accepts_feature_count(count) {
                feature_counts = feature_counts + 1;
            }
            count = count + 1;
        }
        let families: usize = if self.mandate.routing_families.len() == 0 {
            1
        } else {
            self.mandate.routing_families.len()
        };
        let kinds: usize = self.mandate.opportunity_kinds.len();
        let schemas: usize = self.mandate.feature_schemas.len();
        assert(families * kinds <= 256) by (nonlinear_arith)
            requires
                0 <= families <= 16,
                0 <= kinds <= 16,
        ;
        assert(families * kinds * schemas <= 4096) by (nonlinear_arith)
            requires
                0 <= families * kinds <= 256,
                0 <= schemas <= 16,
        ;
        assert(families * kinds * schemas * feature_counts <= 300000) by (nonlinear_arith)
            requires
                0 <= families * kinds * schemas <= 4096,
                0 <= feature_counts <= 65,
        ;
        let first: usize = match families.checked_mul(kinds) {
            Some(product) => product,
            None => return Err(IntelligenceError::ResourceOverflow),
        };
        let second: usize = match first.checked_mul(schemas) {
            Some(product) => product,
            None => return Err(IntelligenceError::ResourceOverflow),
        };
        match second.checked_mul(feature_counts) {
            Some(product) => Ok(product),
            None => Err(IntelligenceError::ResourceOverflow),
        }
    }

    pub fn permits(&self, axis: ForecastAxis) -> (result: bool)
        ensures
            result == self@.mandate.axes.contains(axis),
    {
        self.mandate.permits(axis)
    }

    pub fn permits_opportunity(&self, opportunity: OpportunitySpec, feature_count: usize) -> (result:
        bool)
        ensures
            result == self@.permits_opportunity(opportunity, feature_count as nat),
    {
        self.mandate.permits_opportunity(opportunity) && self.model.accepts_feature_count(
            feature_count,
        )
    }

    pub fn resident_bytes(&self) -> (bytes: usize)
        ensures
            bytes == self@.bytes(),
    {
        let own: usize = core::mem::size_of::<SpecialistRevision>();
        own.saturating_add(bytes_for::<ForecastAxis>(self.mandate.axes.len())).saturating_add(
            bytes_for::<OpportunityKind>(self.mandate.opportunity_kinds.len()),
        ).saturating_add(
            bytes_for::<FeatureSchemaId>(self.mandate.feature_schemas.len()),
        ).saturating_add(
            bytes_for::<RoutingFamilyId>(self.mandate.routing_families.len()),
        ).saturating_add(self.model.resident_bytes()).saturating_add(self.origin.heap_bytes())
    }

    pub fn encode_canonical(&self, output: &mut Vec<u8>)
        ensures
            final(output)@ == old(output)@ + Self::wire((), self@),
    {
        self.write(&(), output);
    }

    pub fn decode_canonical(input: &mut Decoder<'_>) -> (result: Result<Self, ()>)
        ensures
            codec::reads_view(result, final(input)@, Self::parse((), old(input)@)),
    {
        Self::read(&(), input)
    }
}

impl Wire<()> for SpecialistRevision {
    open spec fn wire(format: (), value: RevisionView) -> Seq<u8> {
        value.id.0.bytes() + (SpecialistStatus::wire((), value.status) + (SpecialistOrigin::wire(
            (),
            value.origin,
        ) + (SpecialistMandate::wire((), value.mandate) + CompactModel::wire((), value.model))))
    }

    open spec fn parse(format: (), input: Seq<u8>) -> Option<(RevisionView, Seq<u8>)> {
        match digest::parse_digest(input) {
            None => None,
            Some((id, rest)) => match SpecialistStatus::parse((), rest) {
                None => None,
                Some((status, rest)) => match SpecialistOrigin::parse((), rest) {
                    None => None,
                    Some((origin, rest)) => match SpecialistMandate::parse((), rest) {
                        None => None,
                        Some((mandate, rest)) => match CompactModel::parse((), rest) {
                            None => None,
                            Some((model, rest)) => if revision_id(mandate, model).0 == id {
                                Some(
                                    (
                                        RevisionView {
                                            id: SpecialistRevisionId(id),
                                            mandate,
                                            model,
                                            status,
                                            origin,
                                        },
                                        rest,
                                    ),
                                )
                            } else {
                                None
                            },
                        },
                    },
                },
            },
        }
    }

    open spec fn admissible(format: (), value: RevisionView) -> bool {
        value.valid()
    }

    open spec fn least_bytes(format: ()) -> nat {
        46
    }

    proof fn lemma_round_trip(format: (), value: RevisionView, rest: Seq<u8>) {
        let after_model = CompactModel::wire((), value.model) + rest;
        let after_mandate = SpecialistMandate::wire((), value.mandate) + after_model;
        let after_origin = SpecialistOrigin::wire((), value.origin) + after_mandate;
        let after_status = SpecialistStatus::wire((), value.status) + after_origin;
        assert(Self::wire(format, value) + rest =~= value.id.0.bytes() + after_status);
        digest::lemma_parse_digest(value.id.0, after_status);
        SpecialistStatus::lemma_round_trip((), value.status, after_origin);
        SpecialistOrigin::lemma_round_trip((), value.origin, after_mandate);
        SpecialistMandate::lemma_round_trip((), value.mandate, after_model);
        CompactModel::lemma_round_trip((), value.model, rest);
    }

    proof fn lemma_least_bytes(format: (), value: RevisionView) {
        digest::lemma_digest_len(value.id.0);
        SpecialistMandate::lemma_least_bytes((), value.mandate);
    }

    fn write(&self, format: &(), output: &mut Vec<u8>) {
        broadcast use digest::group_digest;

        write_digest(self.id.0, output);
        self.status.write(&(), output);
        self.origin.write(&(), output);
        self.mandate.write(&(), output);
        self.model.write(&(), output);
    }

    fn read(format: &(), input: &mut Decoder<'_>) -> (result: Result<Self, ()>) {
        let id = input.read_digest()?;
        let status = SpecialistStatus::read(&(), input)?;
        let origin = SpecialistOrigin::read(&(), input)?;
        let mandate = SpecialistMandate::read(&(), input)?;
        let model = CompactModel::read(&(), input)?;
        match SpecialistRevision::new(mandate, model) {
            Ok(revision) => {
                if revision.id.0 != id {
                    return Err(());
                }
                let mut revision = revision;
                revision.status = status;
                revision.origin = origin;
                Ok(revision)
            },
            Err(_) => Err(()),
        }
    }
}

// ---------------------------------------------------------------------------
// Routing
// ---------------------------------------------------------------------------
/// A specialist that a route leads to; a route without a family is one that no
/// specialist names.
pub open spec fn serves(
    specialist: RevisionView,
    kind: OpportunityKind,
    schema: FeatureSchemaId,
    family: Option<RoutingFamilyId>,
    feature_count: nat,
) -> bool {
    &&& specialist.is_active()
    &&& specialist.mandate.opportunity_kinds.contains(kind)
    &&& specialist.mandate.feature_schemas.contains(schema)
    &&& specialist.mandate.routing_families.len() == 0 || (family matches Some(family)
        && specialist.mandate.routing_families.contains(family))
    &&& specialist.model.accepts(feature_count)
}

/// How many specialists a route leads to.
pub open spec fn route_size(
    specialists: Seq<RevisionView>,
    kind: OpportunityKind,
    schema: FeatureSchemaId,
    family: Option<RoutingFamilyId>,
    feature_count: nat,
) -> nat
    decreases specialists.len(),
{
    if specialists.len() == 0 {
        0
    } else {
        route_size(specialists.drop_last(), kind, schema, family, feature_count) + (if serves(
            specialists.last(),
            kind,
            schema,
            family,
            feature_count,
        ) {
            1nat
        } else {
            0nat
        })
    }
}

/// The places of the specialists that an opportunity is routed to.
pub open spec fn routed_to(
    specialists: Seq<RevisionView>,
    opportunity: OpportunitySpec,
    feature_count: nat,
) -> Seq<usize>
    decreases specialists.len(),
{
    if specialists.len() == 0 {
        Seq::empty()
    } else {
        let front = routed_to(specialists.drop_last(), opportunity, feature_count);
        if specialists.last().is_active() && specialists.last().permits_opportunity(
            opportunity,
            feature_count,
        ) {
            front.push((specialists.len() - 1) as usize)
        } else {
            front
        }
    }
}

/// No route leads to more than `limit` specialists.
pub open spec fn fanout_within(specialists: Seq<RevisionView>, limit: nat) -> bool {
    forall|
        kind: OpportunityKind,
        schema: FeatureSchemaId,
        family: Option<RoutingFamilyId>,
        feature_count: nat,
    |
        feature_count <= 64 ==> #[trigger] route_size(
            specialists,
            kind,
            schema,
            family,
            feature_count,
        ) <= limit
}

/// Some route leads to exactly `size` specialists.
pub open spec fn some_route(specialists: Seq<RevisionView>, size: nat) -> bool {
    exists|
        kind: OpportunityKind,
        schema: FeatureSchemaId,
        family: Option<RoutingFamilyId>,
        feature_count: nat,
    |
        feature_count <= 64 && #[trigger] route_size(
            specialists,
            kind,
            schema,
            family,
            feature_count,
        ) == size
}

/// Routing leads to as many specialists as the route has.
pub proof fn lemma_routed_len(
    specialists: Seq<RevisionView>,
    opportunity: OpportunitySpec,
    feature_count: nat,
)
    ensures
        routed_to(specialists, opportunity, feature_count).len() == route_size(
            specialists,
            opportunity.kind,
            opportunity.feature_schema,
            Some(opportunity.routing_family),
            feature_count,
        ),
    decreases specialists.len(),
{
    if specialists.len() > 0 {
        lemma_routed_len(specialists.drop_last(), opportunity, feature_count);
    }
}

/// Routing leads to active specialists that permit the opportunity.
pub proof fn lemma_routed_permit(
    specialists: Seq<RevisionView>,
    opportunity: OpportunitySpec,
    feature_count: nat,
)
    requires
        specialists.len() <= usize::MAX,
    ensures
        forall|i: int|
            0 <= i < routed_to(specialists, opportunity, feature_count).len() ==> ({
                let place = #[trigger] routed_to(specialists, opportunity, feature_count)[i];
                &&& place < specialists.len()
                &&& specialists[place as int].is_active()
                &&& specialists[place as int].permits_opportunity(opportunity, feature_count)
            }),
    decreases specialists.len(),
{
    if specialists.len() > 0 {
        lemma_routed_permit(specialists.drop_last(), opportunity, feature_count);
        let front = routed_to(specialists.drop_last(), opportunity, feature_count);
        let all = routed_to(specialists, opportunity, feature_count);
        assert forall|i: int| 0 <= i < all.len() implies ({
            let place = #[trigger] all[i];
            &&& place < specialists.len()
            &&& specialists[place as int].is_active()
            &&& specialists[place as int].permits_opportunity(opportunity, feature_count)
        }) by {
            if i < front.len() {
                assert(all[i] == front[i]);
                let place = front[i];
                assert(specialists.drop_last()[place as int] == specialists[place as int]);
            }
        }
    }
}

/// A route that no one serves leads nowhere.
proof fn lemma_unserved(
    specialists: Seq<RevisionView>,
    kind: OpportunityKind,
    schema: FeatureSchemaId,
    family: Option<RoutingFamilyId>,
    feature_count: nat,
)
    requires
        forall|i: int|
            0 <= i < specialists.len() ==> !serves(
                #[trigger] specialists[i],
                kind,
                schema,
                family,
                feature_count,
            ),
    ensures
        route_size(specialists, kind, schema, family, feature_count) == 0,
    decreases specialists.len(),
{
    if specialists.len() > 0 {
        assert(!serves(specialists[specialists.len() - 1], kind, schema, family, feature_count));
        lemma_unserved(specialists.drop_last(), kind, schema, family, feature_count);
    }
}

/// Where no specialist names a family, its routes are those of no family.
proof fn lemma_unnamed(
    specialists: Seq<RevisionView>,
    kind: OpportunityKind,
    schema: FeatureSchemaId,
    family: Option<RoutingFamilyId>,
    feature_count: nat,
)
    requires
        forall|i: int|
            0 <= i < specialists.len() && serves(
                #[trigger] specialists[i],
                kind,
                schema,
                family,
                feature_count,
            ) ==> specialists[i].mandate.routing_families.len() == 0,
    ensures
        route_size(specialists, kind, schema, family, feature_count) == route_size(
            specialists,
            kind,
            schema,
            None,
            feature_count,
        ),
    decreases specialists.len(),
{
    if specialists.len() > 0 {
        let last = specialists[specialists.len() - 1];
        assert(serves(last, kind, schema, family, feature_count)
            ==> last.mandate.routing_families.len() == 0);
        lemma_unnamed(specialists.drop_last(), kind, schema, family, feature_count);
    }
}

/// The routes that one specialist gives rise to.
pub open spec fn names_route(
    specialist: RevisionView,
    kind: OpportunityKind,
    schema: FeatureSchemaId,
    family: Option<RoutingFamilyId>,
) -> bool {
    &&& specialist.mandate.opportunity_kinds.contains(kind)
    &&& specialist.mandate.feature_schemas.contains(schema)
    &&& match family {
        None => specialist.mandate.routing_families.len() == 0,
        Some(family) => specialist.mandate.routing_families.contains(family),
    }
}

/// The routes of one specialist lead to at most `limit`.
pub open spec fn routes_within(
    specialists: Seq<RevisionView>,
    specialist: RevisionView,
    limit: nat,
) -> bool {
    forall|
        kind: OpportunityKind,
        schema: FeatureSchemaId,
        family: Option<RoutingFamilyId>,
        feature_count: nat,
    |
        names_route(specialist, kind, schema, family) && feature_count <= 64
            ==> #[trigger] route_size(specialists, kind, schema, family, feature_count) <= limit
}

/// It is enough to look at the routes that specialists give rise to.
proof fn lemma_named_routes_suffice(specialists: Seq<RevisionView>, limit: nat)
    requires
        forall|i: int|
            0 <= i < specialists.len() ==> routes_within(
                specialists,
                #[trigger] specialists[i],
                limit,
            ),
    ensures
        fanout_within(specialists, limit),
{
    assert forall|
        kind: OpportunityKind,
        schema: FeatureSchemaId,
        family: Option<RoutingFamilyId>,
        feature_count: nat,
    |
        feature_count <= 64 implies #[trigger] route_size(
        specialists,
        kind,
        schema,
        family,
        feature_count,
    ) <= limit by {
        if exists|i: int|
            0 <= i < specialists.len() && serves(
                #[trigger] specialists[i],
                kind,
                schema,
                family,
                feature_count,
            ) && specialists[i].mandate.routing_families.len() > 0 {
            let i = choose|i: int|
                0 <= i < specialists.len() && serves(
                    #[trigger] specialists[i],
                    kind,
                    schema,
                    family,
                    feature_count,
                ) && specialists[i].mandate.routing_families.len() > 0;
            assert(routes_within(specialists, specialists[i], limit));
            assert(names_route(specialists[i], kind, schema, family));
        } else {
            lemma_unnamed(specialists, kind, schema, family, feature_count);
            if exists|i: int|
                0 <= i < specialists.len() && serves(
                    #[trigger] specialists[i],
                    kind,
                    schema,
                    family,
                    feature_count,
                ) {
                let i = choose|i: int|
                    0 <= i < specialists.len() && serves(
                        #[trigger] specialists[i],
                        kind,
                        schema,
                        family,
                        feature_count,
                    );
                assert(routes_within(specialists, specialists[i], limit));
                assert(names_route(specialists[i], kind, schema, None));
                assert(route_size(specialists, kind, schema, None, feature_count) <= limit);
            } else {
                lemma_unserved(specialists, kind, schema, family, feature_count);
            }
        }
    }
}

fn count_route(
    specialists: &[SpecialistRevision],
    kind: OpportunityKind,
    schema: FeatureSchemaId,
    family: Option<RoutingFamilyId>,
    feature_count: usize,
) -> (size: usize)
    ensures
        size == route_size(
            codec::views(specialists@),
            kind,
            schema,
            family,
            feature_count as nat,
        ),
        size <= specialists@.len(),
{
    let ghost views = codec::views(specialists@);
    let mut size: usize = 0;
    let mut index: usize = 0;
    assert(views.take(0) =~= Seq::empty());
    while index < specialists.len()
        invariant
            index <= specialists@.len(),
            size <= index,
            views == codec::views(specialists@),
            size == route_size(
                views.take(index as int),
                kind,
                schema,
                family,
                feature_count as nat,
            ),
        decreases specialists@.len() - index,
    {
        let specialist = &specialists[index];
        let in_family = specialist.mandate.routing_families.len() == 0 || match family {
            Some(family) => contains(specialist.mandate.routing_families.as_slice(), family),
            None => false,
        };
        if specialist.active() && contains(specialist.mandate.opportunity_kinds.as_slice(), kind)
            && contains(specialist.mandate.feature_schemas.as_slice(), schema) && in_family
            && specialist.model.accepts_feature_count(feature_count) {
            size = size + 1;
        }
        assert(views.take(index + 1).drop_last() =~= views.take(index as int));
        assert(views.take(index + 1).last() == specialists@[index as int]@);
        index = index + 1;
    }
    assert(views.take(views.len() as int) =~= views);
    size
}

fn widest_over_counts(
    specialists: &[SpecialistRevision],
    kind: OpportunityKind,
    schema: FeatureSchemaId,
    family: Option<RoutingFamilyId>,
    widest: usize,
) -> (result: usize)
    requires
        widest == 0 || some_route(codec::views(specialists@), widest as nat),
    ensures
        result >= widest,
        result == 0 || some_route(codec::views(specialists@), result as nat),
        forall|count: nat|
            count <= 64 ==> #[trigger] route_size(
                codec::views(specialists@),
                kind,
                schema,
                family,
                count,
            ) <= result,
{
    let mut result: usize = widest;
    let mut count: usize = 0;
    while count <= 64
        invariant
            count <= 65,
            result >= widest,
            result == 0 || some_route(codec::views(specialists@), result as nat),
            forall|earlier: nat|
                earlier < count ==> #[trigger] route_size(
                    codec::views(specialists@),
                    kind,
                    schema,
                    family,
                    earlier,
                ) <= result,
        decreases 65 - count,
    {
        let size: usize = count_route(specialists, kind, schema, family, count);
        if size > result {
            result = size;
        }
        count = count + 1;
    }
    result
}

fn widest_over_families(
    specialists: &[SpecialistRevision],
    specialist: &SpecialistRevision,
    kind: OpportunityKind,
    schema: FeatureSchemaId,
    widest: usize,
) -> (result: usize)
    requires
        widest == 0 || some_route(codec::views(specialists@), widest as nat),
    ensures
        result >= widest,
        result == 0 || some_route(codec::views(specialists@), result as nat),
        forall|family: Option<RoutingFamilyId>, count: nat|
            count <= 64 && (match family {
                None => specialist@.mandate.routing_families.len() == 0,
                Some(family) => specialist@.mandate.routing_families.contains(family),
            }) ==> #[trigger] route_size(
                codec::views(specialists@),
                kind,
                schema,
                family,
                count,
            ) <= result,
{
    let families = specialist.mandate.routing_families.as_slice();
    if families.len() == 0 {
        return widest_over_counts(specialists, kind, schema, None, widest);
    }
    let mut result: usize = widest;
    let mut index: usize = 0;
    while index < families.len()
        invariant
            index <= families@.len(),
            result >= widest,
            result == 0 || some_route(codec::views(specialists@), result as nat),
            forall|i: int, count: nat|
                #![trigger route_size(
                    codec::views(specialists@),
                    kind,
                    schema,
                    Some(families@[i]),
                    count,
                )]
                0 <= i < index && count <= 64 ==> route_size(
                    codec::views(specialists@),
                    kind,
                    schema,
                    Some(families@[i]),
                    count,
                ) <= result,
        decreases families@.len() - index,
    {
        result = widest_over_counts(specialists, kind, schema, Some(families[index]), result);
        index = index + 1;
    }
    assert forall|family: Option<RoutingFamilyId>, count: nat|
        count <= 64 && (match family {
            None => specialist@.mandate.routing_families.len() == 0,
            Some(family) => specialist@.mandate.routing_families.contains(family),
        }) implies #[trigger] route_size(
        codec::views(specialists@),
        kind,
        schema,
        family,
        count,
    ) <= result by {
        let named = family->Some_0;
        let i = choose|i: int| 0 <= i < families@.len() && families@[i] == named;
        assert(route_size(codec::views(specialists@), kind, schema, Some(families@[i]), count)
            <= result);
    }
    result
}

fn widest_over_schemas(
    specialists: &[SpecialistRevision],
    specialist: &SpecialistRevision,
    kind: OpportunityKind,
    widest: usize,
) -> (result: usize)
    requires
        widest == 0 || some_route(codec::views(specialists@), widest as nat),
    ensures
        result >= widest,
        result == 0 || some_route(codec::views(specialists@), result as nat),
        forall|schema: FeatureSchemaId, family: Option<RoutingFamilyId>, count: nat|
            count <= 64 && specialist@.mandate.feature_schemas.contains(schema) && (match family {
                None => specialist@.mandate.routing_families.len() == 0,
                Some(family) => specialist@.mandate.routing_families.contains(family),
            }) ==> #[trigger] route_size(
                codec::views(specialists@),
                kind,
                schema,
                family,
                count,
            ) <= result,
{
    let schemas = specialist.mandate.feature_schemas.as_slice();
    let mut result: usize = widest;
    let mut index: usize = 0;
    while index < schemas.len()
        invariant
            index <= schemas@.len(),
            result >= widest,
            result == 0 || some_route(codec::views(specialists@), result as nat),
            forall|i: int, family: Option<RoutingFamilyId>, count: nat|
                #![trigger route_size(
                    codec::views(specialists@),
                    kind,
                    schemas@[i],
                    family,
                    count,
                )]
                0 <= i < index && count <= 64 && (match family {
                    None => specialist@.mandate.routing_families.len() == 0,
                    Some(family) => specialist@.mandate.routing_families.contains(family),
                }) ==> route_size(
                    codec::views(specialists@),
                    kind,
                    schemas@[i],
                    family,
                    count,
                ) <= result,
        decreases schemas@.len() - index,
    {
        result = widest_over_families(specialists, specialist, kind, schemas[index], result);
        index = index + 1;
    }
    assert forall|schema: FeatureSchemaId, family: Option<RoutingFamilyId>, count: nat|
        count <= 64 && specialist@.mandate.feature_schemas.contains(schema) && (match family {
            None => specialist@.mandate.routing_families.len() == 0,
            Some(family) => specialist@.mandate.routing_families.contains(family),
        }) implies #[trigger] route_size(
        codec::views(specialists@),
        kind,
        schema,
        family,
        count,
    ) <= result by {
        let i = choose|i: int| 0 <= i < schemas@.len() && schemas@[i] == schema;
        assert(route_size(codec::views(specialists@), kind, schemas@[i], family, count) <= result);
    }
    result
}

fn widest_over_kinds(
    specialists: &[SpecialistRevision],
    specialist: &SpecialistRevision,
    widest: usize,
) -> (result: usize)
    requires
        widest == 0 || some_route(codec::views(specialists@), widest as nat),
    ensures
        result >= widest,
        result == 0 || some_route(codec::views(specialists@), result as nat),
        routes_within(codec::views(specialists@), specialist@, result as nat),
{
    let kinds = specialist.mandate.opportunity_kinds.as_slice();
    let mut result: usize = widest;
    let mut index: usize = 0;
    while index < kinds.len()
        invariant
            index <= kinds@.len(),
            result >= widest,
            result == 0 || some_route(codec::views(specialists@), result as nat),
            forall|
                i: int,
                schema: FeatureSchemaId,
                family: Option<RoutingFamilyId>,
                count: nat,
            |
                #![trigger route_size(
                    codec::views(specialists@),
                    kinds@[i],
                    schema,
                    family,
                    count,
                )]
                0 <= i < index && count <= 64 && specialist@.mandate.feature_schemas.contains(
                    schema,
                ) && (match family {
                    None => specialist@.mandate.routing_families.len() == 0,
                    Some(family) => specialist@.mandate.routing_families.contains(family),
                }) ==> route_size(
                    codec::views(specialists@),
                    kinds@[i],
                    schema,
                    family,
                    count,
                ) <= result,
        decreases kinds@.len() - index,
    {
        result = widest_over_schemas(specialists, specialist, kinds[index], result);
        index = index + 1;
    }
    assert forall|
        kind: OpportunityKind,
        schema: FeatureSchemaId,
        family: Option<RoutingFamilyId>,
        count: nat,
    |
        names_route(specialist@, kind, schema, family) && count <= 64 implies #[trigger] route_size(
        codec::views(specialists@),
        kind,
        schema,
        family,
        count,
    ) <= result by {
        let i = choose|i: int| 0 <= i < kinds@.len() && kinds@[i] == kind;
        assert(route_size(codec::views(specialists@), kinds@[i], schema, family, count) <= result);
    }
    result
}

/// The size of the largest route.
fn widest_route(specialists: &[SpecialistRevision]) -> (widest: usize)
    ensures
        fanout_within(codec::views(specialists@), widest as nat),
        widest == 0 || some_route(codec::views(specialists@), widest as nat),
{
    let ghost views = codec::views(specialists@);
    let mut widest: usize = 0;
    let mut index: usize = 0;
    while index < specialists.len()
        invariant
            index <= specialists@.len(),
            views == codec::views(specialists@),
            widest == 0 || some_route(views, widest as nat),
            forall|i: int|
                0 <= i < index ==> routes_within(views, #[trigger] views[i], widest as nat),
        decreases specialists@.len() - index,
    {
        let ghost before = widest;
        widest = widest_over_kinds(specialists, &specialists[index], widest);
        assert forall|i: int| 0 <= i < index + 1 implies routes_within(
            views,
            #[trigger] views[i],
            widest as nat,
        ) by {
            if i < index {
                assert(routes_within(views, views[i], before as nat));
                assert forall|
                    kind: OpportunityKind,
                    schema: FeatureSchemaId,
                    family: Option<RoutingFamilyId>,
                    count: nat,
                |
                    names_route(views[i], kind, schema, family) && count <= 64
                        implies #[trigger] route_size(views, kind, schema, family, count)
                    <= widest by {}
            }
        }
        index = index + 1;
    }
    proof {
        lemma_named_routes_suffice(views, widest as nat);
    }
    widest
}

// ---------------------------------------------------------------------------
// Edits
// ---------------------------------------------------------------------------
/// One change to the specialists.
#[verifier::ext_equal]
pub enum EditView {
    Spawn(RevisionView),
    Retire(SpecialistRevisionId),
    Split { parent: SpecialistRevisionId, children: Seq<RevisionView> },
    Merge { parents: Seq<SpecialistRevisionId>, merged: RevisionView },
    Distill { teachers: Seq<SpecialistRevisionId>, student: RevisionView },
}

impl EditView {
    /// The specialists that the edit brings.
    pub open spec fn brings(self) -> Seq<RevisionView> {
        match self {
            EditView::Spawn(specialist) => seq![specialist],
            EditView::Retire(_) => Seq::empty(),
            EditView::Split { children, .. } => children,
            EditView::Merge { merged, .. } => seq![merged],
            EditView::Distill { student, .. } => seq![student],
        }
    }

    /// Every specialist it brings is valid.
    pub open spec fn valid(self) -> bool {
        forall|i: int| 0 <= i < self.brings().len() ==> (#[trigger] self.brings()[i]).valid()
    }

    /// Its lists have at least one item and at most `limit`.
    pub open spec fn within(self, limit: nat) -> bool {
        match self {
            EditView::Split { children, .. } => 0 < children.len() <= limit,
            EditView::Merge { parents, .. } => 0 < parents.len() <= limit,
            EditView::Distill { teachers, .. } => 0 < teachers.len() <= limit,
            _ => true,
        }
    }
}

#[derive(Clone, Debug, PartialEq, Eq)]
pub enum EcologyEdit {
    Spawn(SpecialistRevision),
    Retire(SpecialistRevisionId),
    Split { parent: SpecialistRevisionId, children: Vec<SpecialistRevision> },
    Merge { parents: Vec<SpecialistRevisionId>, merged: SpecialistRevision },
    Distill { teachers: Vec<SpecialistRevisionId>, student: SpecialistRevision },
}

impl View for EcologyEdit {
    type V = EditView;

    open spec fn view(&self) -> EditView {
        match self {
            EcologyEdit::Spawn(specialist) => EditView::Spawn(specialist@),
            EcologyEdit::Retire(id) => EditView::Retire(*id),
            EcologyEdit::Split { parent, children } => EditView::Split {
                parent: *parent,
                children: codec::views(children@),
            },
            EcologyEdit::Merge { parents, merged } => EditView::Merge {
                parents: parents@,
                merged: merged@,
            },
            EcologyEdit::Distill { teachers, student } => EditView::Distill {
                teachers: teachers@,
                student: student@,
            },
        }
    }
}

/// A list of its own with the same specialists.
pub fn duplicate_specialists(specialists: &[SpecialistRevision]) -> (copy: Vec<SpecialistRevision>)
    ensures
        codec::views(copy@) == codec::views(specialists@),
{
    let mut copy: Vec<SpecialistRevision> = Vec::new();
    let mut index: usize = 0;
    while index < specialists.len()
        invariant
            index <= specialists@.len(),
            copy@.len() == index,
            forall|i: int| 0 <= i < index ==> (#[trigger] copy@[i])@ == specialists@[i]@,
        decreases specialists@.len() - index,
    {
        copy.push(specialists[index].duplicate());
        index = index + 1;
    }
    assert(codec::views(copy@) =~= codec::views(specialists@));
    copy
}

impl EcologyEdit {
    pub fn duplicate(&self) -> (copy: Self)
        ensures
            copy@ == self@,
    {
        match self {
            EcologyEdit::Spawn(specialist) => EcologyEdit::Spawn(specialist.duplicate()),
            EcologyEdit::Retire(id) => EcologyEdit::Retire(*id),
            EcologyEdit::Split { parent, children } => EcologyEdit::Split {
                parent: *parent,
                children: duplicate_specialists(children.as_slice()),
            },
            EcologyEdit::Merge { parents, merged } => EcologyEdit::Merge {
                parents: copied(parents.as_slice()),
                merged: merged.duplicate(),
            },
            EcologyEdit::Distill { teachers, student } => EcologyEdit::Distill {
                teachers: copied(teachers.as_slice()),
                student: student.duplicate(),
            },
        }
    }
}

/// Appends copies of some edits to a list.
pub fn duplicate_edits(edits: &[EcologyEdit], list: &mut Vec<EcologyEdit>)
    ensures
        codec::views(final(list)@) == codec::views(old(list)@) + codec::views(edits@),
{
    let ghost start = codec::views(list@);
    let ghost views = codec::views(edits@);
    let mut index: usize = 0;
    assert(start + views.take(0) =~= start);
    while index < edits.len()
        invariant
            index <= edits@.len(),
            views == codec::views(edits@),
            codec::views(list@) == start + views.take(index as int),
        decreases edits@.len() - index,
    {
        let ghost before = list@;
        let edit = edits[index].duplicate();
        list.push(edit);
        assert(codec::views(list@) =~= codec::views(before).push(edit@));
        assert(start + views.take(index + 1) =~= (start + views.take(index as int)).push(
            views[index as int],
        ));
        index = index + 1;
    }
    assert(views.take(views.len() as int) =~= views);
}

/// Parents and the specialist that takes their place.
pub open spec fn parse_union(input: Seq<u8>, limit: nat) -> Option<
    ((Seq<SpecialistRevisionId>, RevisionView), Seq<u8>),
> {
    match parse_specialist_ids(input, limit) {
        None => None,
        Some((parents, rest)) => match SpecialistRevision::parse((), rest) {
            None => None,
            Some((specialist, rest)) => Some(((parents, specialist), rest)),
        },
    }
}

/// A parent and the specialists it is split into.
pub open spec fn parse_split(input: Seq<u8>, limit: nat) -> Option<
    ((SpecialistRevisionId, Seq<RevisionView>), Seq<u8>),
> {
    match digest::parse_digest(input) {
        None => None,
        Some((parent, rest)) => match codec::parse_list::<(), SpecialistRevision>(
            (),
            rest,
            limit,
            46,
        ) {
            None => None,
            Some((children, rest)) => if children.len() == 0 {
                None
            } else {
                Some(((SpecialistRevisionId(parent), children), rest))
            },
        },
    }
}

proof fn lemma_union_round_trip(
    parents: Seq<SpecialistRevisionId>,
    specialist: RevisionView,
    limit: nat,
    tag: u8,
    rest: Seq<u8>,
)
    requires
        specialist.valid(),
        0 < parents.len() <= limit,
        limit <= usize::MAX,
    ensures
        ({
            let payload = codec::put_list::<(), SpecialistRevisionId>((), parents)
                + SpecialistRevision::wire((), specialist);
            &&& codec::parse_u8(codec::put_u8(tag) + payload + rest) == Some((tag, payload + rest))
            &&& parse_union(payload + rest, limit) == Some(((parents, specialist), rest))
        }),
{
    let list = codec::put_list::<(), SpecialistRevisionId>((), parents);
    let body = SpecialistRevision::wire((), specialist);
    assert(codec::put_u8(tag) + (list + body) + rest =~= codec::put_u8(tag) + (list + body + rest));
    codec::lemma_parse_u8(tag, list + body + rest);
    assert(list + body + rest =~= list + (body + rest));
    codec::lemma_list_round_trip::<(), SpecialistRevisionId>((), parents, limit, 32, body + rest);
    SpecialistRevision::lemma_round_trip((), specialist, rest);
}

/// Edits on the wire, where lists are bounded by the number of specialists that
/// may be retained.
impl Wire<usize> for EcologyEdit {
    open spec fn wire(format: usize, value: EditView) -> Seq<u8> {
        match value {
            EditView::Spawn(specialist) => codec::put_u8(1) + SpecialistRevision::wire(
                (),
                specialist,
            ),
            EditView::Retire(id) => codec::put_u8(2) + id.0.bytes(),
            EditView::Split { parent, children } => codec::put_u8(3) + (parent.0.bytes()
                + codec::put_list::<(), SpecialistRevision>((), children)),
            EditView::Merge { parents, merged } => codec::put_u8(4) + (codec::put_list::<
                (),
                SpecialistRevisionId,
            >((), parents) + SpecialistRevision::wire((), merged)),
            EditView::Distill { teachers, student } => codec::put_u8(5) + (codec::put_list::<
                (),
                SpecialistRevisionId,
            >((), teachers) + SpecialistRevision::wire((), student)),
        }
    }

    open spec fn parse(format: usize, input: Seq<u8>) -> Option<(EditView, Seq<u8>)> {
        match codec::parse_u8(input) {
            None => None,
            Some((tag, rest)) => match tag {
                1 => match SpecialistRevision::parse((), rest) {
                    None => None,
                    Some((specialist, rest)) => Some((EditView::Spawn(specialist), rest)),
                },
                2 => match digest::parse_digest(rest) {
                    None => None,
                    Some((id, rest)) => Some((EditView::Retire(SpecialistRevisionId(id)), rest)),
                },
                3 => match parse_split(rest, format as nat) {
                    None => None,
                    Some(((parent, children), rest)) => Some(
                        (EditView::Split { parent, children }, rest),
                    ),
                },
                4 => match parse_union(rest, format as nat) {
                    None => None,
                    Some(((parents, merged), rest)) => Some(
                        (EditView::Merge { parents, merged }, rest),
                    ),
                },
                5 => match parse_union(rest, format as nat) {
                    None => None,
                    Some(((teachers, student), rest)) => Some(
                        (EditView::Distill { teachers, student }, rest),
                    ),
                },
                _ => None,
            },
        }
    }

    open spec fn admissible(format: usize, value: EditView) -> bool {
        value.valid() && value.within(format as nat)
    }

    open spec fn least_bytes(format: usize) -> nat {
        1
    }

    proof fn lemma_round_trip(format: usize, value: EditView, rest: Seq<u8>) {
        match value {
            EditView::Spawn(specialist) => {
                assert(value.brings()[0].valid());
                let payload = SpecialistRevision::wire((), specialist);
                assert(codec::put_u8(1) + payload + rest =~= codec::put_u8(1) + (payload + rest));
                codec::lemma_parse_u8(1, payload + rest);
                SpecialistRevision::lemma_round_trip((), specialist, rest);
            },
            EditView::Retire(id) => {
                let payload = id.0.bytes();
                assert(codec::put_u8(2) + payload + rest =~= codec::put_u8(2) + (payload + rest));
                codec::lemma_parse_u8(2, payload + rest);
                digest::lemma_parse_digest(id.0, rest);
            },
            EditView::Split { parent, children } => {
                let list = codec::put_list::<(), SpecialistRevision>((), children);
                let payload = parent.0.bytes() + list;
                assert(codec::put_u8(3) + payload + rest =~= codec::put_u8(3) + (payload + rest));
                codec::lemma_parse_u8(3, payload + rest);
                assert(payload + rest =~= parent.0.bytes() + (list + rest));
                digest::lemma_parse_digest(parent.0, list + rest);
                assert forall|i: int| 0 <= i < children.len() implies SpecialistRevision::admissible(
                    (),
                    #[trigger] children[i],
                ) by {
                    assert(value.brings()[i].valid());
                }
                codec::lemma_list_round_trip::<(), SpecialistRevision>(
                    (),
                    children,
                    format as nat,
                    46,
                    rest,
                );
            },
            EditView::Merge { parents, merged } => {
                assert(value.brings()[0].valid());
                lemma_union_round_trip(parents, merged, format as nat, 4, rest);
            },
            EditView::Distill { teachers, student } => {
                assert(value.brings()[0].valid());
                lemma_union_round_trip(teachers, student, format as nat, 5, rest);
            },
        }
    }

    proof fn lemma_least_bytes(format: usize, value: EditView) {
    }

    fn write(&self, format: &usize, output: &mut Vec<u8>) {
        broadcast use digest::group_digest;

        match self {
            EcologyEdit::Spawn(specialist) => {
                codec::write_u8(1, output);
                specialist.write(&(), output);
            },
            EcologyEdit::Retire(id) => {
                codec::write_u8(2, output);
                write_digest(id.0, output);
            },
            EcologyEdit::Split { parent, children } => {
                codec::write_u8(3, output);
                write_digest(parent.0, output);
                codec::write_list::<(), SpecialistRevision>(&(), children.as_slice(), output);
            },
            EcologyEdit::Merge { parents, merged } => {
                codec::write_u8(4, output);
                encode_specialist_ids(parents.as_slice(), output);
                merged.write(&(), output);
            },
            EcologyEdit::Distill { teachers, student } => {
                codec::write_u8(5, output);
                encode_specialist_ids(teachers.as_slice(), output);
                student.write(&(), output);
            },
        }
    }

    fn read(format: &usize, input: &mut Decoder<'_>) -> (result: Result<Self, ()>) {
        let tag: u8 = input.read_u8()?;
        match tag {
            1 => {
                let specialist = SpecialistRevision::read(&(), input)?;
                Ok(EcologyEdit::Spawn(specialist))
            },
            2 => {
                let id = input.read_digest()?;
                Ok(EcologyEdit::Retire(SpecialistRevisionId(id)))
            },
            3 => {
                let parent = input.read_digest()?;
                let children = codec::read_list::<(), SpecialistRevision>(
                    &(),
                    input,
                    *format,
                    46,
                )?;
                if children.len() == 0 {
                    return Err(());
                }
                Ok(EcologyEdit::Split { parent: SpecialistRevisionId(parent), children })
            },
            4 => {
                let parents = decode_specialist_ids(input, *format)?;
                let merged = SpecialistRevision::read(&(), input)?;
                Ok(EcologyEdit::Merge { parents, merged })
            },
            5 => {
                let teachers = decode_specialist_ids(input, *format)?;
                let student = SpecialistRevision::read(&(), input)?;
                Ok(EcologyEdit::Distill { teachers, student })
            },
            _ => Err(()),
        }
    }
}

// ---------------------------------------------------------------------------
// The ecology
// ---------------------------------------------------------------------------
/// All specialists, and how often they have been edited.
#[verifier::ext_equal]
pub struct EcologyView {
    pub generation: u64,
    pub specialists: Seq<RevisionView>,
}

/// The bytes that some specialists take.
pub open spec fn specialist_bytes(specialists: Seq<RevisionView>) -> nat
    decreases specialists.len(),
{
    if specialists.len() == 0 {
        0
    } else {
        resident::capped_sum(
            specialist_bytes(specialists.drop_last()),
            specialists.last().bytes(),
        )
    }
}

/// The memory that a society takes: what its specialists take, and the places of their
/// list that are free.
pub open spec fn society_memory(specialists: nat, held: nat, places: nat) -> nat {
    resident::capped_sum(
        resident::room::<SpecialistRevision>(
            if places > held {
                (places - held) as nat
            } else {
                0
            },
        ),
        specialists,
    )
}

pub fn society_bytes(specialists: usize, held: usize, places: usize) -> (bytes: usize)
    ensures
        bytes == society_memory(specialists as nat, held as nat, places as nat),
{
    let free: usize = if places > held {
        places - held
    } else {
        0
    };
    bytes_for::<SpecialistRevision>(free).saturating_add(specialists)
}

/// Memory that a society may take: that with some room that holds its specialists.
pub open spec fn society_takes(ecology: EcologyView, bytes: nat) -> bool {
    exists|places: usize|
        places >= ecology.specialists.len() && bytes == #[trigger] society_memory(
            specialist_bytes(ecology.specialists),
            ecology.specialists.len(),
            places as nat,
        )
}

/// A specialist of that name is among them.
pub open spec fn has_id(specialists: Seq<RevisionView>, id: SpecialistRevisionId) -> bool {
    exists|i: int| 0 <= i < specialists.len() && (#[trigger] specialists[i]).id == id
}

pub open spec fn has_active_id(specialists: Seq<RevisionView>, id: SpecialistRevisionId) -> bool {
    exists|i: int|
        0 <= i < specialists.len() && (#[trigger] specialists[i]).id == id
            && specialists[i].is_active()
}

/// No two specialists have the same name.
pub open spec fn distinct_ids(specialists: Seq<RevisionView>) -> bool {
    forall|i: int, j: int|
        0 <= i < j < specialists.len() ==> (#[trigger] specialists[i]).id != (
        #[trigger] specialists[j]).id
}

/// Every parent is known before its descendants.
pub open spec fn parents_known(specialists: Seq<RevisionView>) -> bool {
    forall|i: int, k: int|
        #![trigger specialists[i].origin.parents()[k]]
        0 <= i < specialists.len() && 0 <= k < specialists[i].origin.parents().len() ==> has_id(
            specialists.take(i),
            specialists[i].origin.parents()[k],
        )
}

/// The specialists after some have been retired.
pub open spec fn retired(
    specialists: Seq<RevisionView>,
    ids: Seq<SpecialistRevisionId>,
) -> Result<Seq<RevisionView>, IntelligenceError> {
    if forall|k: int| 0 <= k < ids.len() ==> has_active_id(specialists, #[trigger] ids[k]) {
        Ok(
            Seq::new(
                specialists.len(),
                |i: int|
                    if ids.contains(specialists[i].id) {
                        RevisionView { status: SpecialistStatus::Retired, ..specialists[i] }
                    } else {
                        specialists[i]
                    },
            ),
        )
    } else {
        Err(IntelligenceError::MissingSpecialist)
    }
}

/// The specialists after one has been added.
pub open spec fn pushed(
    specialists: Seq<RevisionView>,
    specialist: RevisionView,
    origin: OriginView,
    limits: IntelligenceLimits,
) -> Result<Seq<RevisionView>, IntelligenceError> {
    if specialists.len() == limits.maximum_specialists {
        Err(IntelligenceError::CapacityExceeded)
    } else if has_id(specialists, specialist.id) {
        Err(IntelligenceError::DuplicateSpecialist)
    } else if resident::capped_sum(specialist_bytes(specialists), specialist.bytes())
        > limits.maximum_model_bytes {
        Err(IntelligenceError::CapacityExceeded)
    } else {
        Ok(
            specialists.push(
                RevisionView { origin, status: SpecialistStatus::Active, ..specialist },
            ),
        )
    }
}

/// The specialists after several have been added.
pub open spec fn pushed_all(
    specialists: Seq<RevisionView>,
    added: Seq<RevisionView>,
    origin: OriginView,
    limits: IntelligenceLimits,
) -> Result<Seq<RevisionView>, IntelligenceError>
    decreases added.len(),
{
    if added.len() == 0 {
        Ok(specialists)
    } else {
        match pushed_all(specialists, added.drop_last(), origin, limits) {
            Ok(specialists) => pushed(specialists, added.last(), origin, limits),
            Err(error) => Err(error),
        }
    }
}

/// At least two parents, and none twice.
pub open spec fn acceptable_parents(parents: Seq<SpecialistRevisionId>) -> bool {
    parents.len() >= 2 && order::distinct(parents)
}

pub open spec fn united(
    specialists: Seq<RevisionView>,
    parents: Seq<SpecialistRevisionId>,
    specialist: RevisionView,
    origin: OriginView,
    limits: IntelligenceLimits,
) -> Result<Seq<RevisionView>, IntelligenceError> {
    if !acceptable_parents(parents) {
        Err(IntelligenceError::InvalidMandate)
    } else {
        match retired(specialists, parents) {
            Err(error) => Err(error),
            Ok(specialists) => pushed(specialists, specialist, origin, limits),
        }
    }
}

impl EcologyView {
    pub open spec fn empty() -> EcologyView {
        EcologyView { generation: 0, specialists: Seq::empty() }
    }

    pub open spec fn fits(self, limits: IntelligenceLimits) -> bool {
        &&& self.specialists.len() <= limits.maximum_specialists
        &&& fanout_within(self.specialists, limits.maximum_specialists_per_route as nat)
        &&& specialist_bytes(self.specialists) <= limits.maximum_model_bytes
    }

    /// What every ecology keeps.
    pub open spec fn valid(self) -> bool {
        &&& forall|i: int|
            0 <= i < self.specialists.len() ==> (#[trigger] self.specialists[i]).valid()
        &&& distinct_ids(self.specialists)
        &&& parents_known(self.specialists)
        &&& self.generation == 0 ==> self.specialists.len() == 0
    }

    /// The specialists after an edit, before the limits are looked at.
    pub open spec fn edited(self, edit: EditView, limits: IntelligenceLimits) -> Result<
        Seq<RevisionView>,
        IntelligenceError,
    > {
        match edit {
            EditView::Spawn(specialist) => pushed(
                self.specialists,
                specialist,
                OriginView::Spawn,
                limits,
            ),
            EditView::Retire(id) => retired(self.specialists, seq![id]),
            EditView::Split { parent, children } => if children.len() < 2 {
                Err(IntelligenceError::InvalidMandate)
            } else {
                match retired(self.specialists, seq![parent]) {
                    Err(error) => Err(error),
                    Ok(specialists) => pushed_all(
                        specialists,
                        children,
                        OriginView::Split(parent),
                        limits,
                    ),
                }
            },
            EditView::Merge { parents, merged } => united(
                self.specialists,
                parents,
                merged,
                OriginView::Merge(parents),
                limits,
            ),
            EditView::Distill { teachers, student } => united(
                self.specialists,
                teachers,
                student,
                OriginView::Distill(teachers),
                limits,
            ),
        }
    }

    /// The ecology after an edit.
    pub open spec fn applied(self, edit: EditView, limits: IntelligenceLimits) -> Result<
        EcologyView,
        IntelligenceError,
    > {
        match self.edited(edit, limits) {
            Err(error) => Err(error),
            Ok(specialists) => {
                let next = EcologyView {
                    generation: if self.generation == u64::MAX {
                        u64::MAX
                    } else {
                        (self.generation + 1) as u64
                    },
                    specialists,
                };
                if next.fits(limits) {
                    Ok(next)
                } else {
                    Err(IntelligenceError::CapacityExceeded)
                }
            },
        }
    }

    /// The ecology after a run of edits; the first refusal ends it.
    pub open spec fn applied_all(self, edits: Seq<EditView>, limits: IntelligenceLimits) -> Result<
        EcologyView,
        IntelligenceError,
    >
        decreases edits.len(),
    {
        if edits.len() == 0 {
            Ok(self)
        } else {
            match self.applied_all(edits.drop_last(), limits) {
                Ok(view) => view.applied(edits.last(), limits),
                Err(error) => Err(error),
            }
        }
    }

    pub open spec fn root(self) -> Digest {
        digest::labelled("reflex-model-ecology-root-v1\0", put_ecology(self))
    }
}

/// The bytes of an ecology.
pub open spec fn put_ecology(ecology: EcologyView) -> Seq<u8> {
    codec::put_u64(ecology.generation) + codec::put_list::<(), SpecialistRevision>(
        (),
        ecology.specialists,
    )
}

/// The ecology at the front of some bytes.
pub open spec fn parse_ecology(limits: IntelligenceLimits, input: Seq<u8>) -> Option<
    (EcologyView, Seq<u8>),
> {
    match codec::parse_u64(input) {
        None => None,
        Some((generation, rest)) => match codec::parse_list::<(), SpecialistRevision>(
            (),
            rest,
            limits.maximum_specialists as nat,
            46,
        ) {
            None => None,
            Some((specialists, rest)) => {
                let ecology = EcologyView { generation, specialists };
                if distinct_ids(specialists) && parents_known(specialists) && (generation == 0
                    ==> specialists.len() == 0) && ecology.fits(limits) {
                    Some((ecology, rest))
                } else {
                    None
                }
            },
        },
    }
}

/// A valid ecology within its limits reads back as it was written.
pub proof fn law_ecology_reads_back(
    limits: IntelligenceLimits,
    ecology: EcologyView,
    rest: Seq<u8>,
)
    requires
        ecology.valid(),
        ecology.fits(limits),
    ensures
        parse_ecology(limits, put_ecology(ecology) + rest) == Some((ecology, rest)),
{
    broadcast use digest::group_digest;

    assert forall|i: int| 0 <= i < ecology.specialists.len() implies SpecialistRevision::admissible(
        (),
        #[trigger] ecology.specialists[i],
    ) by {
        assert(ecology.specialists[i].valid());
    }
    codec::lemma_list_round_trip::<(), SpecialistRevision>(
        (),
        ecology.specialists,
        limits.maximum_specialists as nat,
        46,
        rest,
    );
}

/// The bytes of a run of edits.
pub open spec fn put_edits(limits: IntelligenceLimits, edits: Seq<EditView>) -> Seq<u8> {
    codec::put_list::<usize, EcologyEdit>(limits.maximum_specialists, edits)
}

/// The edits at the front of some bytes.
pub open spec fn parse_edits(limits: IntelligenceLimits, input: Seq<u8>) -> Option<
    (Seq<EditView>, Seq<u8>),
> {
    codec::parse_list::<usize, EcologyEdit>(
        limits.maximum_specialists,
        input,
        codec::saturating_product(limits.maximum_specialists as nat, 4),
        1,
    )
}

// ---------------------------------------------------------------------------
// Edits keep the ecology valid
// ---------------------------------------------------------------------------
proof fn lemma_retired_valid(specialists: Seq<RevisionView>, ids: Seq<SpecialistRevisionId>)
    requires
        forall|i: int| 0 <= i < specialists.len() ==> (#[trigger] specialists[i]).valid(),
        distinct_ids(specialists),
        parents_known(specialists),
    ensures
        retired(specialists, ids) matches Ok(next) ==> {
            &&& forall|i: int| 0 <= i < next.len() ==> (#[trigger] next[i]).valid()
            &&& distinct_ids(next)
            &&& parents_known(next)
            &&& forall|k: int| 0 <= k < ids.len() ==> has_id(next, #[trigger] ids[k])
        },
{
    if let Ok(next) = retired(specialists, ids) {
        assert forall|i: int| 0 <= i < next.len() implies (#[trigger] next[i]).valid() by {
            assert(specialists[i].valid());
        }
        assert forall|i: int, j: int| 0 <= i < j < next.len() implies (#[trigger] next[i]).id != (
        #[trigger] next[j]).id by {
            assert(specialists[i].id != specialists[j].id);
        }
        assert forall|i: int, k: int|
            #![trigger next[i].origin.parents()[k]]
            0 <= i < next.len() && 0 <= k < next[i].origin.parents().len() implies has_id(
            next.take(i),
            next[i].origin.parents()[k],
        ) by {
            let parent = specialists[i].origin.parents()[k];
            assert(has_id(specialists.take(i), parent));
            let j = choose|j: int|
                0 <= j < specialists.take(i).len() && (#[trigger] specialists.take(i)[j]).id
                    == parent;
            assert(next.take(i)[j].id == parent);
        }
        assert forall|k: int| 0 <= k < ids.len() implies has_id(next, #[trigger] ids[k]) by {
            assert(has_active_id(specialists, ids[k]));
            let j = choose|j: int|
                0 <= j < specialists.len() && (#[trigger] specialists[j]).id == ids[k]
                    && specialists[j].is_active();
            assert(next[j].id == ids[k]);
        }
    }
}

proof fn lemma_pushed_valid(
    specialists: Seq<RevisionView>,
    specialist: RevisionView,
    origin: OriginView,
    limits: IntelligenceLimits,
)
    requires
        forall|i: int| 0 <= i < specialists.len() ==> (#[trigger] specialists[i]).valid(),
        distinct_ids(specialists),
        parents_known(specialists),
        specialist.valid(),
        origin.valid(),
        forall|k: int|
            0 <= k < origin.parents().len() ==> has_id(specialists, #[trigger] origin.parents()[k]),
    ensures
        pushed(specialists, specialist, origin, limits) matches Ok(next) ==> {
            &&& forall|i: int| 0 <= i < next.len() ==> (#[trigger] next[i]).valid()
            &&& distinct_ids(next)
            &&& parents_known(next)
            &&& forall|k: int|
                0 <= k < origin.parents().len() ==> has_id(next, #[trigger] origin.parents()[k])
        },
{
    if let Ok(next) = pushed(specialists, specialist, origin, limits) {
        assert forall|i: int| 0 <= i < next.len() implies (#[trigger] next[i]).valid() by {
            if i < specialists.len() {
                assert(specialists[i].valid());
            }
        }
        assert forall|i: int, j: int| 0 <= i < j < next.len() implies (#[trigger] next[i]).id != (
        #[trigger] next[j]).id by {
            if j < specialists.len() {
                assert(specialists[i].id != specialists[j].id);
            } else {
                assert(specialists[i].id != specialist.id);
            }
        }
        assert forall|i: int, k: int|
            #![trigger next[i].origin.parents()[k]]
            0 <= i < next.len() && 0 <= k < next[i].origin.parents().len() implies has_id(
            next.take(i),
            next[i].origin.parents()[k],
        ) by {
            if i < specialists.len() {
                let parent = specialists[i].origin.parents()[k];
                assert(has_id(specialists.take(i), parent));
                assert(next.take(i) =~= specialists.take(i));
            } else {
                assert(next.take(i) =~= specialists);
                assert(has_id(specialists, origin.parents()[k]));
            }
        }
        assert forall|k: int| 0 <= k < origin.parents().len() implies has_id(
            next,
            #[trigger] origin.parents()[k],
        ) by {
            let parent = origin.parents()[k];
            assert(has_id(specialists, parent));
            let j = choose|j: int|
                0 <= j < specialists.len() && (#[trigger] specialists[j]).id == parent;
            assert(next[j].id == parent);
        }
    }
}

proof fn lemma_pushed_all_valid(
    specialists: Seq<RevisionView>,
    added: Seq<RevisionView>,
    origin: OriginView,
    limits: IntelligenceLimits,
)
    requires
        forall|i: int| 0 <= i < specialists.len() ==> (#[trigger] specialists[i]).valid(),
        distinct_ids(specialists),
        parents_known(specialists),
        forall|i: int| 0 <= i < added.len() ==> (#[trigger] added[i]).valid(),
        origin.valid(),
        forall|k: int|
            0 <= k < origin.parents().len() ==> has_id(specialists, #[trigger] origin.parents()[k]),
    ensures
        pushed_all(specialists, added, origin, limits) matches Ok(next) ==> {
            &&& forall|i: int| 0 <= i < next.len() ==> (#[trigger] next[i]).valid()
            &&& distinct_ids(next)
            &&& parents_known(next)
            &&& forall|k: int|
                0 <= k < origin.parents().len() ==> has_id(next, #[trigger] origin.parents()[k])
            &&& next.len() == specialists.len() + added.len()
        },
    decreases added.len(),
{
    if added.len() > 0 {
        lemma_pushed_all_valid(specialists, added.drop_last(), origin, limits);
        assert(added[added.len() - 1].valid());
        if let Ok(middle) = pushed_all(specialists, added.drop_last(), origin, limits) {
            lemma_pushed_valid(middle, added.last(), origin, limits);
        }
    }
}

/// Distinct names that are all known are no more than there are specialists.
proof fn lemma_known_ids_bounded(
    specialists: Seq<RevisionView>,
    ids: Seq<SpecialistRevisionId>,
)
    requires
        order::distinct(ids),
        forall|k: int| 0 <= k < ids.len() ==> has_id(specialists, #[trigger] ids[k]),
    ensures
        ids.len() <= specialists.len(),
{
    let places = Seq::new(
        ids.len(),
        |k: int|
            choose|i: int| 0 <= i < specialists.len() && (#[trigger] specialists[i]).id == ids[k],
    );
    assert forall|k: int| 0 <= k < ids.len() implies 0 <= #[trigger] places[k] < specialists.len()
        && specialists[places[k]].id == ids[k] by {
        assert(has_id(specialists, ids[k]));
    }
    assert(places.no_duplicates()) by {
        assert forall|i: int, j: int|
            0 <= i < places.len() && 0 <= j < places.len() && i != j implies places[i]
            != places[j] by {
            if i < j {
                assert(ids[i] != ids[j]);
            } else {
                assert(ids[j] != ids[i]);
            }
        }
    }
    places.unique_seq_to_set();
    let range = vstd::set_lib::set_int_range(0, specialists.len() as int);
    vstd::set_lib::lemma_int_range(0, specialists.len() as int);
    assert(places.to_set().subset_of(range)) by {
        assert forall|place: int| places.to_set().contains(place) implies range.contains(place) by {
            let k = choose|k: int| 0 <= k < places.len() && places[k] == place;
            assert(0 <= places[k] < specialists.len());
        }
    }
    vstd::set_lib::lemma_len_subset(places.to_set(), range);
}

/// An accepted edit keeps the ecology valid, and has a byte form within the
/// limits.
pub proof fn law_edit_keeps_ecology_valid(
    ecology: EcologyView,
    edit: EditView,
    limits: IntelligenceLimits,
)
    requires
        ecology.valid(),
        edit.valid(),
        ecology.specialists.len() <= limits.maximum_specialists,
    ensures
        ecology.applied(edit, limits) matches Ok(next) ==> next.valid() && next.fits(limits)
            && edit.within(limits.maximum_specialists as nat),
{
    if let Ok(next) = ecology.applied(edit, limits) {
        let specialists = ecology.specialists;
        match edit {
            EditView::Spawn(specialist) => {
                assert(edit.brings()[0].valid());
                lemma_pushed_valid(specialists, specialist, OriginView::Spawn, limits);
            },
            EditView::Retire(id) => {
                lemma_retired_valid(specialists, seq![id]);
                assert(has_active_id(specialists, seq![id][0]));
            },
            EditView::Split { parent, children } => {
                lemma_retired_valid(specialists, seq![parent]);
                let rest = retired(specialists, seq![parent])->Ok_0;
                assert(has_id(rest, seq![parent][0]));
                assert forall|i: int| 0 <= i < children.len() implies (
                #[trigger] children[i]).valid() by {
                    assert(edit.brings()[i].valid());
                }
                lemma_pushed_all_valid(rest, children, OriginView::Split(parent), limits);
            },
            EditView::Merge { parents, merged } => {
                assert(edit.brings()[0].valid());
                lemma_retired_valid(specialists, parents);
                let rest = retired(specialists, parents)->Ok_0;
                lemma_known_ids_bounded(rest, parents);
                lemma_pushed_valid(rest, merged, OriginView::Merge(parents), limits);
            },
            EditView::Distill { teachers, student } => {
                assert(edit.brings()[0].valid());
                lemma_retired_valid(specialists, teachers);
                let rest = retired(specialists, teachers)->Ok_0;
                lemma_known_ids_bounded(rest, teachers);
                lemma_pushed_valid(rest, student, OriginView::Distill(teachers), limits);
            },
        }
    }
}

/// Every edit of a run brings valid specialists only.
pub open spec fn edits_valid(edits: Seq<EditView>) -> bool {
    forall|i: int| 0 <= i < edits.len() ==> (#[trigger] edits[i]).valid()
}

/// A run of accepted edits keeps the ecology valid and within its limits, and
/// every one of the edits has a byte form.
pub proof fn law_edits_keep_ecology_valid(
    ecology: EcologyView,
    edits: Seq<EditView>,
    limits: IntelligenceLimits,
)
    requires
        ecology.valid(),
        ecology.fits(limits),
        edits_valid(edits),
    ensures
        ecology.applied_all(edits, limits) matches Ok(next) ==> next.valid() && next.fits(limits)
            && codec::all_admissible::<usize, EcologyEdit>(limits.maximum_specialists, edits),
    decreases edits.len(),
{
    if edits.len() > 0 {
        let front = edits.drop_last();
        law_edits_keep_ecology_valid(ecology, front, limits);
        assert(edits[edits.len() - 1].valid());
        if let Ok(middle) = ecology.applied_all(front, limits) {
            law_edit_keeps_ecology_valid(middle, edits.last(), limits);
            if let Ok(next) = middle.applied(edits.last(), limits) {
                assert forall|i: int| 0 <= i < edits.len() implies EcologyEdit::admissible(
                    limits.maximum_specialists,
                    #[trigger] edits[i],
                ) by {
                    if i < front.len() {
                        assert(EcologyEdit::admissible(limits.maximum_specialists, front[i]));
                    }
                }
            }
        }
    }
}

/// How far a society has come: one for each specialist, and one more for each that is
/// retired.
spec fn progress(specialists: Seq<RevisionView>) -> nat
    decreases specialists.len(),
{
    if specialists.len() == 0 {
        0
    } else {
        progress(specialists.drop_last()) + if specialists.last().is_active() {
            1nat
        } else {
            2
        }
    }
}

proof fn lemma_progress_bounded(specialists: Seq<RevisionView>)
    ensures
        progress(specialists) <= 2 * specialists.len(),
    decreases specialists.len(),
{
    if specialists.len() > 0 {
        lemma_progress_bounded(specialists.drop_last());
    }
}

proof fn lemma_push_is_progress(
    specialists: Seq<RevisionView>,
    specialist: RevisionView,
    origin: OriginView,
    limits: IntelligenceLimits,
)
    ensures
        pushed(specialists, specialist, origin, limits) matches Ok(next) ==> progress(next)
            == progress(specialists) + 1,
{
    if let Ok(next) = pushed(specialists, specialist, origin, limits) {
        assert(next.drop_last() =~= specialists);
    }
}

proof fn lemma_pushes_are_progress(
    specialists: Seq<RevisionView>,
    added: Seq<RevisionView>,
    origin: OriginView,
    limits: IntelligenceLimits,
)
    ensures
        pushed_all(specialists, added, origin, limits) matches Ok(next) ==> progress(next)
            == progress(specialists) + added.len(),
    decreases added.len(),
{
    if added.len() > 0 {
        lemma_pushes_are_progress(specialists, added.drop_last(), origin, limits);
        if let Ok(middle) = pushed_all(specialists, added.drop_last(), origin, limits) {
            lemma_push_is_progress(middle, added.last(), origin, limits);
        }
    }
}

/// One society has every specialist of another in its place, and no retired one active.
spec fn no_less_retired(earlier: Seq<RevisionView>, later: Seq<RevisionView>) -> bool {
    &&& earlier.len() == later.len()
    &&& forall|i: int|
        0 <= i < earlier.len() && !(#[trigger] earlier[i]).is_active() ==> !later[i].is_active()
}

proof fn lemma_retirement_is_progress(
    earlier: Seq<RevisionView>,
    later: Seq<RevisionView>,
    place: int,
)
    requires
        no_less_retired(earlier, later),
    ensures
        progress(earlier) <= progress(later),
        0 <= place < earlier.len() && earlier[place].is_active() && !later[place].is_active()
            ==> progress(earlier) < progress(later),
    decreases earlier.len(),
{
    if earlier.len() > 0 {
        assert forall|i: int|
            0 <= i < earlier.drop_last().len() && !(
            #[trigger] earlier.drop_last()[i]).is_active() implies !later.drop_last()[i].is_active() by {
            assert(!earlier[i].is_active());
        }
        lemma_retirement_is_progress(earlier.drop_last(), later.drop_last(), place);
        assert(earlier.last().is_active() || !later.last().is_active()) by {
            assert(earlier[earlier.len() - 1] == earlier.last());
        }
    }
}

proof fn lemma_retired_is_progress(
    specialists: Seq<RevisionView>,
    ids: Seq<SpecialistRevisionId>,
)
    requires
        ids.len() > 0,
    ensures
        retired(specialists, ids) matches Ok(next) ==> progress(specialists) < progress(next),
{
    if let Ok(next) = retired(specialists, ids) {
        assert(has_active_id(specialists, ids[0]));
        let place = choose|i: int|
            0 <= i < specialists.len() && (#[trigger] specialists[i]).id == ids[0]
                && specialists[i].is_active();
        assert(ids.contains(specialists[place].id));
        lemma_retirement_is_progress(specialists, next, place);
    }
}

proof fn lemma_edit_is_progress(
    ecology: EcologyView,
    edit: EditView,
    limits: IntelligenceLimits,
)
    ensures
        ecology.applied(edit, limits) matches Ok(next) ==> progress(ecology.specialists) < progress(
            next.specialists,
        ),
{
    let specialists = ecology.specialists;
    match edit {
        EditView::Spawn(specialist) => lemma_push_is_progress(
            specialists,
            specialist,
            OriginView::Spawn,
            limits,
        ),
        EditView::Retire(id) => lemma_retired_is_progress(specialists, seq![id]),
        EditView::Split { parent, children } => {
            lemma_retired_is_progress(specialists, seq![parent]);
            if let Ok(rest) = retired(specialists, seq![parent]) {
                lemma_pushes_are_progress(rest, children, OriginView::Split(parent), limits);
            }
        },
        EditView::Merge { parents, merged } => {
            lemma_united_is_progress(
                specialists,
                parents,
                merged,
                OriginView::Merge(parents),
                limits,
            );
        },
        EditView::Distill { teachers, student } => {
            lemma_united_is_progress(
                specialists,
                teachers,
                student,
                OriginView::Distill(teachers),
                limits,
            );
        },
    }
}

proof fn lemma_united_is_progress(
    specialists: Seq<RevisionView>,
    parents: Seq<SpecialistRevisionId>,
    specialist: RevisionView,
    origin: OriginView,
    limits: IntelligenceLimits,
)
    ensures
        united(specialists, parents, specialist, origin, limits) matches Ok(next) ==> progress(
            specialists,
        ) < progress(next),
{
    if parents.len() > 0 {
        lemma_retired_is_progress(specialists, parents);
    }
    if let Ok(rest) = retired(specialists, parents) {
        lemma_push_is_progress(rest, specialist, origin, limits);
    }
}

proof fn lemma_edits_are_progress(
    ecology: EcologyView,
    edits: Seq<EditView>,
    limits: IntelligenceLimits,
)
    ensures
        ecology.applied_all(edits, limits) matches Ok(next) ==> progress(ecology.specialists)
            + edits.len() <= progress(next.specialists),
    decreases edits.len(),
{
    if edits.len() > 0 {
        lemma_edits_are_progress(ecology, edits.drop_last(), limits);
        if let Ok(middle) = ecology.applied_all(edits.drop_last(), limits) {
            lemma_edit_is_progress(middle, edits.last(), limits);
        }
    }
}

/// A run of accepted edits is no longer than twice the number of specialists that the
/// limits allow: each edit brings a specialist or retires one, and none comes back.
pub proof fn law_accepted_edits_are_few(
    ecology: EcologyView,
    edits: Seq<EditView>,
    limits: IntelligenceLimits,
)
    requires
        ecology.fits(limits),
        ecology.applied_all(edits, limits) is Ok,
    ensures
        edits.len() <= 2 * limits.maximum_specialists,
{
    let next = ecology.applied_all(edits, limits)->Ok_0;
    lemma_edits_are_progress(ecology, edits, limits);
    lemma_progress_bounded(next.specialists);
    assert(next.fits(limits));
}

pub proof fn lemma_edits_counted(limits: IntelligenceLimits, ecology: EcologyView, edits: Seq<EditView>)
    requires
        ecology.fits(limits),
        put_edits(limits, edits).len() <= usize::MAX,
        ecology.applied_all(edits, limits) is Ok,
    ensures
        edits.len() <= codec::saturating_product(limits.maximum_specialists as nat, 4),
{
    let maximum = limits.maximum_specialists;
    law_accepted_edits_are_few(ecology, edits, limits);
    codec::lemma_all_least_bytes::<usize, EcologyEdit>(maximum, edits);
    assert(EcologyEdit::least_bytes(maximum) == 1);
    assert(edits.len() * 1 == edits.len());
    assert(edits.len() <= codec::wire_all::<usize, EcologyEdit>(maximum, edits).len());
}

/// What a later ecology keeps of an earlier one: every specialist under its name,
/// and every retirement.
pub open spec fn specialists_continue(earlier: EcologyView, later: EcologyView) -> bool {
    &&& earlier.specialists.len() <= later.specialists.len()
    &&& forall|i: int|
        0 <= i < earlier.specialists.len() ==> (#[trigger] later.specialists[i]).id
            == earlier.specialists[i].id && later.specialists[i].mandate
            == earlier.specialists[i].mandate && later.specialists[i].model
            == earlier.specialists[i].model && later.specialists[i].origin
            == earlier.specialists[i].origin && (!earlier.specialists[i].is_active()
            ==> !later.specialists[i].is_active())
}

proof fn lemma_pushed_all_continues(
    specialists: Seq<RevisionView>,
    added: Seq<RevisionView>,
    origin: OriginView,
    limits: IntelligenceLimits,
)
    ensures
        pushed_all(specialists, added, origin, limits) matches Ok(next) ==> specialists.len()
            <= next.len() && forall|i: int|
            0 <= i < specialists.len() ==> #[trigger] next[i] == specialists[i],
    decreases added.len(),
{
    if added.len() > 0 {
        lemma_pushed_all_continues(specialists, added.drop_last(), origin, limits);
    }
}

/// No edit forgets a specialist, changes one or brings a retired one back.
pub proof fn law_retirement_is_permanent(
    ecology: EcologyView,
    edit: EditView,
    limits: IntelligenceLimits,
)
    ensures
        ecology.applied(edit, limits) matches Ok(next) ==> specialists_continue(ecology, next),
{
    if let EditView::Split { parent, children } = edit {
        if let Ok(rest) = retired(ecology.specialists, seq![parent]) {
            lemma_pushed_all_continues(rest, children, OriginView::Split(parent), limits);
        }
    }
}

proof fn lemma_refused_edit_stays(
    ecology: EcologyView,
    edits: Seq<EditView>,
    limits: IntelligenceLimits,
    count: int,
    error: IntelligenceError,
)
    requires
        0 <= count <= edits.len(),
        ecology.applied_all(edits.take(count), limits) == Err::<EcologyView, IntelligenceError>(
            error,
        ),
    ensures
        ecology.applied_all(edits, limits) == Err::<EcologyView, IntelligenceError>(error),
    decreases edits.len() - count,
{
    if count < edits.len() {
        assert(edits.take(count + 1).drop_last() =~= edits.take(count));
        lemma_refused_edit_stays(ecology, edits, limits, count + 1, error);
    } else {
        assert(edits.take(count) =~= edits);
    }
}

// ---------------------------------------------------------------------------
// Manifests
// ---------------------------------------------------------------------------
/// What readers learn of one specialist.
#[derive(Clone, Copy, Debug, PartialEq, Eq, Structural)]
pub struct SpecialistManifest {
    pub id: SpecialistRevisionId,
    pub status: SpecialistStatus,
    pub lifecycle: SpecialistLifecycle,
}

impl SpecialistManifest {
    pub fn id(self) -> (id: SpecialistRevisionId)
        ensures
            id == self.id,
    {
        self.id
    }

    pub fn active(self) -> (active: bool)
        ensures
            active == (self.status is Active),
    {
        matches!(self.status, SpecialistStatus::Active)
    }

    pub fn lifecycle(self) -> (lifecycle: SpecialistLifecycle)
        ensures
            lifecycle == self.lifecycle,
    {
        self.lifecycle
    }
}

/// One manifest for each specialist.
pub open spec fn manifests(specialists: Seq<RevisionView>) -> Seq<SpecialistManifest> {
    Seq::new(
        specialists.len(),
        |i: int|
            SpecialistManifest {
                id: specialists[i].id,
                status: specialists[i].status,
                lifecycle: specialists[i].origin.lifecycle_spec(),
            },
    )
}

/// The names of the active specialists, in order.
pub open spec fn active_names(specialists: Seq<RevisionView>) -> Seq<SpecialistRevisionId>
    decreases specialists.len(),
{
    if specialists.len() == 0 {
        Seq::empty()
    } else {
        let front = active_names(specialists.drop_last());
        if specialists.last().is_active() {
            front.push(specialists.last().id)
        } else {
            front
        }
    }
}

/// An ecology as readers see it.
#[derive(Clone, Copy)]
pub struct ModelEcologyManifest<'a> {
    pub ecology: &'a ModelEcology,
}

impl<'a> ModelEcologyManifest<'a> {
    pub fn specialists(self) -> (list: Vec<SpecialistManifest>)
        ensures
            list@ == manifests(self.ecology@.specialists),
    {
        let mut list: Vec<SpecialistManifest> = Vec::new();
        let mut index: usize = 0;
        let specialists = self.ecology.specialists.as_slice();
        while index < specialists.len()
            invariant
                index <= specialists@.len(),
                list@ == manifests(codec::views(specialists@)).take(index as int),
            decreases specialists@.len() - index,
        {
            let specialist = &specialists[index];
            list.push(
                SpecialistManifest {
                    id: specialist.id,
                    status: specialist.status,
                    lifecycle: specialist.origin.lifecycle(),
                },
            );
            assert(list@ =~= manifests(codec::views(specialists@)).take(index + 1));
            index = index + 1;
        }
        assert(list@ =~= manifests(self.ecology@.specialists));
        list
    }

    pub fn active_ids(self) -> (ids: Vec<SpecialistRevisionId>)
        ensures
            ids@ == active_names(self.ecology@.specialists),
    {
        let specialists = self.ecology.specialists.as_slice();
        let ghost views = codec::views(specialists@);
        let mut ids: Vec<SpecialistRevisionId> = Vec::new();
        let mut index: usize = 0;
        while index < specialists.len()
            invariant
                index <= specialists@.len(),
                views == codec::views(specialists@),
                ids@ == active_names(views.take(index as int)),
            decreases specialists@.len() - index,
        {
            if specialists[index].active() {
                ids.push(specialists[index].id);
            }
            assert(views.take(index + 1).drop_last() =~= views.take(index as int));
            assert(views.take(index + 1).last() == specialists@[index as int]@);
            index = index + 1;
        }
        assert(views.take(views.len() as int) =~= views);
        ids
    }
}

// ---------------------------------------------------------------------------
// The executable ecology
// ---------------------------------------------------------------------------
#[derive(Debug)]
pub struct ModelEcology {
    generation: u64,
    specialists: Vec<SpecialistRevision>,
}

impl View for ModelEcology {
    type V = EcologyView;

    closed spec fn view(&self) -> EcologyView {
        EcologyView { generation: self.generation, specialists: codec::views(self.specialists@) }
    }
}

impl Default for ModelEcology {
    fn default() -> (ecology: Self)
        ensures
            ecology@ == EcologyView::empty(),
    {
        let ecology = Self { generation: 0, specialists: Vec::new() };
        assert(ecology@ =~= EcologyView::empty());
        ecology
    }
}

fn position_of(specialists: &[SpecialistRevision], id: SpecialistRevisionId) -> (result: Option<
    usize,
>)
    ensures
        match result {
            Some(index) => index < specialists@.len() && codec::views(
                specialists@,
            )[index as int].id == id,
            None => !has_id(codec::views(specialists@), id),
        },
{
    let mut index: usize = 0;
    while index < specialists.len()
        invariant
            index <= specialists@.len(),
            forall|i: int|
                0 <= i < index ==> (#[trigger] codec::views(specialists@)[i]).id != id,
        decreases specialists@.len() - index,
    {
        if specialists[index].id == id {
            return Some(index);
        }
        assert(codec::views(specialists@)[index as int] == specialists@[index as int]@);
        index = index + 1;
    }
    None
}

fn knows_active(specialists: &[SpecialistRevision], id: SpecialistRevisionId) -> (result: bool)
    ensures
        result == has_active_id(codec::views(specialists@), id),
{
    let mut index: usize = 0;
    while index < specialists.len()
        invariant
            index <= specialists@.len(),
            forall|i: int|
                0 <= i < index ==> !((#[trigger] codec::views(specialists@)[i]).id == id
                    && codec::views(specialists@)[i].is_active()),
        decreases specialists@.len() - index,
    {
        assert(codec::views(specialists@)[index as int] == specialists@[index as int]@);
        if specialists[index].id == id && specialists[index].active() {
            return true;
        }
        index = index + 1;
    }
    false
}

fn bytes_of(specialists: &[SpecialistRevision]) -> (bytes: usize)
    ensures
        bytes == specialist_bytes(codec::views(specialists@)),
{
    let ghost views = codec::views(specialists@);
    let mut bytes: usize = 0;
    let mut index: usize = 0;
    assert(views.take(0) =~= Seq::empty());
    while index < specialists.len()
        invariant
            index <= specialists@.len(),
            views == codec::views(specialists@),
            bytes == specialist_bytes(views.take(index as int)),
        decreases specialists@.len() - index,
    {
        bytes = bytes.saturating_add(specialists[index].resident_bytes());
        assert(views.take(index + 1).drop_last() =~= views.take(index as int));
        assert(views.take(index + 1).last() == specialists@[index as int]@);
        index = index + 1;
    }
    assert(views.take(views.len() as int) =~= views);
    bytes
}

pub fn validate_parents(parents: &[SpecialistRevisionId]) -> (result: Result<(), IntelligenceError>)
    ensures
        result == (if acceptable_parents(parents@) {
            Ok::<(), IntelligenceError>(())
        } else {
            Err(IntelligenceError::InvalidMandate)
        }),
{
    if parents.len() < 2 || !is_distinct(parents) {
        return Err(IntelligenceError::InvalidMandate);
    }
    Ok(())
}

impl ModelEcology {
    pub fn duplicate(&self) -> (copy: Self)
        ensures
            copy@ == self@,
    {
        Self {
            generation: self.generation,
            specialists: duplicate_specialists(self.specialists.as_slice()),
        }
    }

    pub fn is_empty(&self) -> (result: bool)
        ensures
            result == (self@.specialists.len() == 0),
    {
        self.specialists.len() == 0
    }

    pub fn manifest<'a>(&'a self) -> (manifest: ModelEcologyManifest<'a>)
        ensures
            manifest.ecology@ == self@,
    {
        ModelEcologyManifest { ecology: self }
    }

    pub fn specialists(&self) -> (specialists: &[SpecialistRevision])
        ensures
            codec::views(specialists@) == self@.specialists,
    {
        self.specialists.as_slice()
    }

    /// The places of the specialists that an opportunity is routed to.
    pub fn routed(&self, opportunity: OpportunitySpec, feature_count: usize) -> (places: Vec<usize>)
        ensures
            places@ == routed_to(self@.specialists, opportunity, feature_count as nat),
            self@.specialists.len() <= usize::MAX,
    {
        let ghost views = codec::views(self.specialists@);
        let mut places: Vec<usize> = Vec::new();
        let mut index: usize = 0;
        assert(views.take(0) =~= Seq::empty());
        while index < self.specialists.len()
            invariant
                index <= self.specialists@.len(),
                views == codec::views(self.specialists@),
                places@ == routed_to(views.take(index as int), opportunity, feature_count as nat),
            decreases self.specialists@.len() - index,
        {
            if self.specialists[index].active() && self.specialists[index].permits_opportunity(
                opportunity,
                feature_count,
            ) {
                places.push(index);
            }
            assert(views.take(index + 1).drop_last() =~= views.take(index as int));
            assert(views.take(index + 1).last() == self.specialists@[index as int]@);
            index = index + 1;
        }
        assert(views.take(views.len() as int) =~= views);
        places
    }

    /// The size of the largest route.
    pub fn maximum_route_fanout(&self) -> (fanout: usize)
        ensures
            fanout_within(self@.specialists, fanout as nat),
            fanout == 0 || some_route(self@.specialists, fanout as nat),
    {
        widest_route(self.specialists.as_slice())
    }

    pub fn canonical_root(&self) -> (root: Digest)
        ensures
            root == self@.root(),
    {
        let mut encoded: Vec<u8> = Vec::new();
        self.encode_canonical(&mut encoded);
        assert(encoded@ =~= put_ecology(self@));
        hash_labelled("reflex-model-ecology-root-v1\0", encoded.as_slice())
    }

    pub fn retained_item_count(&self) -> (count: usize)
        ensures
            count == self@.specialists.len(),
    {
        self.specialists.len()
    }

    /// The first active specialist in a role.
    pub fn active_role(&self, role: RoleId) -> (result: Option<&SpecialistRevision>)
        ensures
            match result {
                Some(specialist) => exists|i: int|
                    0 <= i < self@.specialists.len() && #[trigger] self@.specialists[i]
                        == specialist@ && specialist@.is_active() && specialist@.mandate.role
                        == role && forall|j: int|
                        0 <= j < i ==> !((#[trigger] self@.specialists[j]).is_active()
                            && self@.specialists[j].mandate.role == role),
                None => forall|j: int|
                    0 <= j < self@.specialists.len() ==> !((
                    #[trigger] self@.specialists[j]).is_active()
                        && self@.specialists[j].mandate.role == role),
            },
    {
        let mut index: usize = 0;
        while index < self.specialists.len()
            invariant
                index <= self.specialists@.len(),
                forall|j: int|
                    0 <= j < index ==> !((#[trigger] self@.specialists[j]).is_active()
                        && self@.specialists[j].mandate.role == role),
            decreases self.specialists@.len() - index,
        {
            assert(self@.specialists[index as int] == self.specialists@[index as int]@);
            if self.specialists[index].active() && self.specialists[index].role() == role {
                return Some(&self.specialists[index]);
            }
            index = index + 1;
        }
        None
    }

    pub fn has_active_role(&self, role: RoleId) -> (result: bool)
        ensures
            result == exists|i: int|
                0 <= i < self@.specialists.len() && (#[trigger] self@.specialists[i]).is_active()
                    && self@.specialists[i].mandate.role == role,
    {
        self.active_role(role).is_some()
    }

    pub fn fits_limits(&self, limits: IntelligenceLimits) -> (fits: bool)
        ensures
            fits == self@.fits(limits),
    {
        let widest: usize = self.maximum_route_fanout();
        proof {
            if widest > limits.maximum_specialists_per_route {
                assert(some_route(self@.specialists, widest as nat));
                assert(!fanout_within(
                    self@.specialists,
                    limits.maximum_specialists_per_route as nat,
                ));
            } else {
                assert(fanout_within(
                    self@.specialists,
                    limits.maximum_specialists_per_route as nat,
                )) by {
                    assert forall|
                        kind: OpportunityKind,
                        schema: FeatureSchemaId,
                        family: Option<RoutingFamilyId>,
                        feature_count: nat,
                    |
                        feature_count <= 64 implies #[trigger] route_size(
                        self@.specialists,
                        kind,
                        schema,
                        family,
                        feature_count,
                    ) <= limits.maximum_specialists_per_route by {}
                }
            }
        }
        self.specialists.len() <= limits.maximum_specialists && widest
            <= limits.maximum_specialists_per_route && bytes_of(self.specialists.as_slice())
            <= limits.maximum_model_bytes
    }

    /// The memory that the specialists take with all the room of their list.
    pub fn heap_bytes(&self) -> (bytes: usize)
        ensures
            society_takes(self@, bytes as nat),
    {
        let specialists: usize = bytes_of(self.specialists.as_slice());
        let places: usize = capacity_of(&self.specialists);
        let bytes: usize = society_bytes(specialists, self.specialists.len(), places);
        assert(bytes == society_memory(
            specialist_bytes(self@.specialists),
            self@.specialists.len(),
            places as nat,
        ));
        bytes
    }

    /// The memory that a copy to be edited takes. It has no more places than it needs.
    pub fn staging_clone_bytes(&self) -> (bytes: usize)
        ensures
            bytes == specialist_bytes(self@.specialists),
    {
        bytes_of(self.specialists.as_slice())
    }

    fn retire(&mut self, ids: &[SpecialistRevisionId]) -> (result: Result<(), IntelligenceError>)
        ensures
            final(self)@.generation == old(self)@.generation,
            match result {
                Ok(_) => retired(old(self)@.specialists, ids@) == Ok::<
                    Seq<RevisionView>,
                    IntelligenceError,
                >(final(self)@.specialists),
                Err(error) => retired(old(self)@.specialists, ids@) == Err::<
                    Seq<RevisionView>,
                    IntelligenceError,
                >(error) && final(self)@ == old(self)@,
            },
    {
        let mut index: usize = 0;
        while index < ids.len()
            invariant
                index <= ids@.len(),
                self@ == old(self)@,
                self.specialists@ == old(self).specialists@,
                forall|k: int|
                    0 <= k < index ==> has_active_id(self@.specialists, #[trigger] ids@[k]),
            decreases ids@.len() - index,
        {
            if !knows_active(self.specialists.as_slice(), ids[index]) {
                assert(!has_active_id(self@.specialists, ids@[index as int]));
                return Err(IntelligenceError::MissingSpecialist);
            }
            index = index + 1;
        }
        let ghost expected = retired(old(self)@.specialists, ids@)->Ok_0;
        let mut place: usize = 0;
        while place < self.specialists.len()
            invariant
                place <= self.specialists@.len(),
                self.generation == old(self).generation,
                self.specialists@.len() == old(self).specialists@.len(),
                expected == retired(old(self)@.specialists, ids@)->Ok_0,
                retired(old(self)@.specialists, ids@) is Ok,
                forall|i: int|
                    0 <= i < place ==> (#[trigger] self.specialists@[i])@ == expected[i],
                forall|i: int|
                    place <= i < self.specialists@.len() ==> (#[trigger] self.specialists@[i])
                        == old(self).specialists@[i],
            decreases self.specialists@.len() - place,
        {
            let ghost before = self.specialists@[place as int]@;
            if contains(ids, self.specialists[place].id) {
                self.specialists[place].status = SpecialistStatus::Retired;
            }
            assert(self.specialists@[place as int]@ =~= expected[place as int]);
            place = place + 1;
        }
        assert(self@.specialists =~= expected);
        Ok(())
    }

    fn push(
        &mut self,
        specialist: SpecialistRevision,
        origin: SpecialistOrigin,
        limits: IntelligenceLimits,
    ) -> (result: Result<(), IntelligenceError>)
        ensures
            final(self)@.generation == old(self)@.generation,
            match result {
                Ok(_) => pushed(old(self)@.specialists, specialist@, origin@, limits) == Ok::<
                    Seq<RevisionView>,
                    IntelligenceError,
                >(final(self)@.specialists),
                Err(error) => pushed(old(self)@.specialists, specialist@, origin@, limits)
                    == Err::<Seq<RevisionView>, IntelligenceError>(error) && final(self)@ == old(self)@,
            },
    {
        if self.specialists.len() == limits.maximum_specialists {
            return Err(IntelligenceError::CapacityExceeded);
        }
        match position_of(self.specialists.as_slice(), specialist.id) {
            Some(index) => {
                assert(self@.specialists[index as int].id == specialist@.id);
                return Err(IntelligenceError::DuplicateSpecialist);
            },
            None => {},
        }
        let proposed_bytes: usize = bytes_of(self.specialists.as_slice()).saturating_add(
            specialist.resident_bytes(),
        );
        if proposed_bytes > limits.maximum_model_bytes {
            return Err(IntelligenceError::CapacityExceeded);
        }
        let mut specialist = specialist;
        specialist.origin = origin;
        specialist.status = SpecialistStatus::Active;
        self.specialists.push(specialist);
        assert(self@.specialists =~= old(self)@.specialists.push(specialist@));
        Ok(())
    }

    fn push_all(
        &mut self,
        added: &[SpecialistRevision],
        parent: SpecialistRevisionId,
        limits: IntelligenceLimits,
    ) -> (result: Result<(), IntelligenceError>)
        ensures
            final(self)@.generation == old(self)@.generation,
            match result {
                Ok(_) => pushed_all(
                    old(self)@.specialists,
                    codec::views(added@),
                    OriginView::Split(parent),
                    limits,
                ) == Ok::<Seq<RevisionView>, IntelligenceError>(final(self)@.specialists),
                Err(error) => pushed_all(
                    old(self)@.specialists,
                    codec::views(added@),
                    OriginView::Split(parent),
                    limits,
                ) == Err::<Seq<RevisionView>, IntelligenceError>(error),
            },
    {
        let ghost views = codec::views(added@);
        let ghost origin = OriginView::Split(parent);
        let mut index: usize = 0;
        while index < added.len()
            invariant
                index <= added@.len(),
                views == codec::views(added@),
                origin == OriginView::Split(parent),
                self@.generation == old(self)@.generation,
                pushed_all(old(self)@.specialists, views.take(index as int), origin, limits) == Ok::<
                    Seq<RevisionView>,
                    IntelligenceError,
                >(self@.specialists),
            decreases added@.len() - index,
        {
            assert(views.take(index + 1).drop_last() =~= views.take(index as int));
            assert(views.take(index + 1).last() == added@[index as int]@);
            match self.push(added[index].duplicate(), SpecialistOrigin::Split(parent), limits) {
                Ok(_) => {},
                Err(error) => {
                    proof {
                        lemma_refused_push_stays(
                            old(self)@.specialists,
                            views,
                            origin,
                            limits,
                            (index + 1) as int,
                            error,
                        );
                    }
                    return Err(error);
                },
            }
            index = index + 1;
        }
        assert(views.take(views.len() as int) =~= views);
        Ok(())
    }

    fn edit(&mut self, edit: &EcologyEdit, limits: IntelligenceLimits) -> (result: Result<
        (),
        IntelligenceError,
    >)
        ensures
            final(self)@.generation == old(self)@.generation,
            match result {
                Ok(_) => old(self)@.edited(edit@, limits) == Ok::<
                    Seq<RevisionView>,
                    IntelligenceError,
                >(final(self)@.specialists),
                Err(error) => old(self)@.edited(edit@, limits) == Err::<
                    Seq<RevisionView>,
                    IntelligenceError,
                >(error),
            },
    {
        match edit {
            EcologyEdit::Spawn(specialist) => self.push(
                specialist.duplicate(),
                SpecialistOrigin::Spawn,
                limits,
            ),
            EcologyEdit::Retire(id) => {
                let ids = [*id];
                assert(ids@ =~= seq![*id]);
                self.retire(&ids)
            },
            EcologyEdit::Split { parent, children } => {
                if children.len() < 2 {
                    return Err(IntelligenceError::InvalidMandate);
                }
                let ids = [*parent];
                assert(ids@ =~= seq![*parent]);
                match self.retire(&ids) {
                    Ok(_) => self.push_all(children.as_slice(), *parent, limits),
                    Err(error) => Err(error),
                }
            },
            EcologyEdit::Merge { parents, merged } => {
                match validate_parents(parents.as_slice()) {
                    Ok(_) => {},
                    Err(error) => return Err(error),
                }
                match self.retire(parents.as_slice()) {
                    Ok(_) => self.push(
                        merged.duplicate(),
                        SpecialistOrigin::Merge(copied(parents.as_slice())),
                        limits,
                    ),
                    Err(error) => Err(error),
                }
            },
            EcologyEdit::Distill { teachers, student } => {
                match validate_parents(teachers.as_slice()) {
                    Ok(_) => {},
                    Err(error) => return Err(error),
                }
                match self.retire(teachers.as_slice()) {
                    Ok(_) => self.push(
                        student.duplicate(),
                        SpecialistOrigin::Distill(copied(teachers.as_slice())),
                        limits,
                    ),
                    Err(error) => Err(error),
                }
            },
        }
    }

    /// Applies one edit. A refused one may have been applied in part, so callers
    /// edit a copy.
    pub fn apply(&mut self, edit: &EcologyEdit, limits: IntelligenceLimits) -> (result: Result<
        (),
        IntelligenceError,
    >)
        ensures
            match result {
                Ok(_) => old(self)@.applied(edit@, limits) == Ok::<EcologyView, IntelligenceError>(
                    final(self)@,
                ),
                Err(error) => old(self)@.applied(edit@, limits) == Err::<
                    EcologyView,
                    IntelligenceError,
                >(error),
            },
    {
        match self.edit(edit, limits) {
            Ok(_) => {},
            Err(error) => return Err(error),
        }
        self.generation = self.generation.saturating_add(1);
        if !self.fits_limits(limits) {
            return Err(IntelligenceError::CapacityExceeded);
        }
        Ok(())
    }

    /// The ecology after a run of edits.
    pub fn with_edits(&self, edits: &[EcologyEdit], limits: IntelligenceLimits) -> (result: Result<
        Self,
        IntelligenceError,
    >)
        ensures
            match result {
                Ok(next) => self@.applied_all(codec::views(edits@), limits) == Ok::<
                    EcologyView,
                    IntelligenceError,
                >(next@),
                Err(error) => self@.applied_all(codec::views(edits@), limits) == Err::<
                    EcologyView,
                    IntelligenceError,
                >(error),
            },
    {
        let ghost views = codec::views(edits@);
        let mut next = self.duplicate();
        let mut index: usize = 0;
        while index < edits.len()
            invariant
                index <= edits@.len(),
                views == codec::views(edits@),
                self@.applied_all(views.take(index as int), limits) == Ok::<
                    EcologyView,
                    IntelligenceError,
                >(next@),
            decreases edits@.len() - index,
        {
            assert(views.take(index + 1).drop_last() =~= views.take(index as int));
            assert(views.take(index + 1).last() == edits@[index as int]@);
            match next.apply(&edits[index], limits) {
                Ok(_) => {},
                Err(error) => {
                    proof {
                        lemma_refused_edit_stays(
                            self@,
                            views,
                            limits,
                            (index + 1) as int,
                            error,
                        );
                    }
                    return Err(error);
                },
            }
            index = index + 1;
        }
        assert(views.take(views.len() as int) =~= views);
        Ok(next)
    }

    pub fn encode_edits(edits: &[EcologyEdit], limits: IntelligenceLimits, output: &mut Vec<u8>)
        ensures
            final(output)@ == old(output)@ + put_edits(limits, codec::views(edits@)),
    {
        codec::write_list::<usize, EcologyEdit>(&limits.maximum_specialists, edits, output);
    }

    pub fn decode_edits(input: &mut Decoder<'_>, limits: IntelligenceLimits) -> (result: Result<
        Vec<EcologyEdit>,
        (),
    >)
        ensures
            match result {
                Ok(edits) => parse_edits(limits, old(input)@) == Some(
                    (codec::views(edits@), final(input)@),
                ),
                Err(_) => parse_edits(limits, old(input)@) is None,
            },
    {
        codec::read_list::<usize, EcologyEdit>(
            &limits.maximum_specialists,
            input,
            saturating_multiply(limits.maximum_specialists, 4),
            1,
        )
    }

    pub fn encode_canonical(&self, output: &mut Vec<u8>)
        ensures
            final(output)@ == old(output)@ + put_ecology(self@),
    {
        broadcast use digest::group_digest;

        codec::write_u64(self.generation, output);
        codec::write_list::<(), SpecialistRevision>(&(), self.specialists.as_slice(), output);
    }

    pub fn decode_canonical(input: &mut Decoder<'_>, limits: IntelligenceLimits) -> (result: Result<
        Self,
        (),
    >)
        ensures
            codec::reads_view(result, final(input)@, parse_ecology(limits, old(input)@)),
    {
        let generation: u64 = input.read_u64()?;
        let specialists = codec::read_list::<(), SpecialistRevision>(
            &(),
            input,
            limits.maximum_specialists,
            46,
        )?;
        if generation == 0 && specialists.len() > 0 {
            return Err(());
        }
        if !lineage_is_known(specialists.as_slice()) {
            return Err(());
        }
        let ecology = Self { generation, specialists };
        if !ecology.fits_limits(limits) {
            return Err(());
        }
        Ok(ecology)
    }
}

proof fn lemma_refused_push_stays(
    specialists: Seq<RevisionView>,
    added: Seq<RevisionView>,
    origin: OriginView,
    limits: IntelligenceLimits,
    count: int,
    error: IntelligenceError,
)
    requires
        0 <= count <= added.len(),
        pushed_all(specialists, added.take(count), origin, limits) == Err::<
            Seq<RevisionView>,
            IntelligenceError,
        >(error),
    ensures
        pushed_all(specialists, added, origin, limits) == Err::<
            Seq<RevisionView>,
            IntelligenceError,
        >(error),
    decreases added.len() - count,
{
    if count < added.len() {
        assert(added.take(count + 1).drop_last() =~= added.take(count));
        lemma_refused_push_stays(specialists, added, origin, limits, count + 1, error);
    } else {
        assert(added.take(count) =~= added);
    }
}

/// Whether every specialist is new and all its parents are known.
fn lineage_is_known(specialists: &[SpecialistRevision]) -> (result: bool)
    ensures
        result == (distinct_ids(codec::views(specialists@)) && parents_known(
            codec::views(specialists@),
        )),
{
    let ghost views = codec::views(specialists@);
    let mut index: usize = 0;
    while index < specialists.len()
        invariant
            index <= specialists@.len(),
            views == codec::views(specialists@),
            distinct_ids(views.take(index as int)),
            forall|i: int, k: int|
                #![trigger views[i].origin.parents()[k]]
                0 <= i < index && 0 <= k < views[i].origin.parents().len() ==> has_id(
                    views.take(i),
                    views[i].origin.parents()[k],
                ),
        decreases specialists@.len() - index,
    {
        let (prior, _from) = specialists.split_at(index);
        assert(codec::views(prior@) =~= views.take(index as int));
        match position_of(prior, specialists[index].id) {
            Some(found) => {
                assert(views[found as int] == codec::views(prior@)[found as int]);
                assert(views[found as int].id == views[index as int].id);
                return false;
            },
            None => {},
        }
        assert(distinct_ids(views.take(index + 1))) by {
            let longer = views.take(index + 1);
            let shorter = views.take(index as int);
            assert forall|i: int, j: int| 0 <= i < j < longer.len() implies (
            #[trigger] longer[i]).id != (#[trigger] longer[j]).id by {
                if j < index {
                    assert(shorter[i].id != shorter[j].id);
                } else {
                    assert(shorter[i].id != views[index as int].id);
                }
            }
        }
        if !parents_are_known(prior, &specialists[index].origin) {
            proof {
                let origin = views[index as int].origin;
                let k = choose|k: int|
                    0 <= k < origin.parents().len() && !has_id(
                        codec::views(prior@),
                        #[trigger] origin.parents()[k],
                    );
                assert(!has_id(
                    views.take(index as int),
                    views[index as int].origin.parents()[k],
                ));
            }
            return false;
        }
        index = index + 1;
    }
    assert(views.take(views.len() as int) =~= views);
    true
}

/// Specialists of all these names are among them.
pub open spec fn all_known(
    specialists: Seq<RevisionView>,
    ids: Seq<SpecialistRevisionId>,
) -> bool {
    forall|k: int| 0 <= k < ids.len() ==> has_id(specialists, #[trigger] ids[k])
}

fn parents_are_known(prior: &[SpecialistRevision], origin: &SpecialistOrigin) -> (result: bool)
    ensures
        result == all_known(codec::views(prior@), origin@.parents()),
{
    match origin {
        SpecialistOrigin::Spawn => {
            assert(all_known(codec::views(prior@), origin@.parents()));
            true
        },
        SpecialistOrigin::Split(parent) => {
            let ids = [*parent];
            assert(ids@ =~= origin@.parents());
            ids_are_known(prior, &ids)
        },
        SpecialistOrigin::Merge(parents) => {
            assert(parents@ == origin@.parents());
            ids_are_known(prior, parents.as_slice())
        },
        SpecialistOrigin::Distill(parents) => {
            assert(parents@ == origin@.parents());
            ids_are_known(prior, parents.as_slice())
        },
    }
}

fn ids_are_known(prior: &[SpecialistRevision], ids: &[SpecialistRevisionId]) -> (result: bool)
    ensures
        result == all_known(codec::views(prior@), ids@),
{
    let mut index: usize = 0;
    while index < ids.len()
        invariant
            index <= ids@.len(),
            forall|k: int|
                0 <= k < index ==> has_id(codec::views(prior@), #[trigger] ids@[k]),
        decreases ids@.len() - index,
    {
        match position_of(prior, ids[index]) {
            Some(found) => {
                assert(codec::views(prior@)[found as int].id == ids@[index as int]);
            },
            None => {
                assert(!has_id(codec::views(prior@), ids@[index as int]));
                return false;
            },
        }
        index = index + 1;
    }
    true
}

} // verus!
