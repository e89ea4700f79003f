//! Identities, resources, limits and errors that every component shares.
use vstd::prelude::*;

use crate::codec;
use crate::codec::{Decoder, Wire};
use crate::digest;
use crate::digest::{hash_labelled, write_digest, Digest};

verus! {

/// Why a request was refused.
#[derive(Clone, Copy, Debug, PartialEq, Eq, Hash, Structural)]
pub enum IntelligenceError {
    CapacityExceeded,
    CorruptState,
    DuplicateExperience,
    DuplicateKnowledge,
    DuplicateSpecialist,
    IncompatibleRevision,
    InvalidFeature,
    InvalidForecast,
    InvalidKnowledge,
    InvalidLimits,
    InvalidMandate,
    InvalidModel,
    InvalidPolicy,
    InvalidReference,
    InvalidSettlement,
    MissingSpecialist,
    ResourceOverflow,
    StaleTransition,
}

/// The error of a result that was refused, if it was.
pub open spec fn refusal<T>(result: Result<T, IntelligenceError>) -> Option<IntelligenceError> {
    match result {
        Ok(_) => None,
        Err(error) => Some(error),
    }
}

// ---------------------------------------------------------------------------
// Identities
// ---------------------------------------------------------------------------
/// An artifact, knowledge product, policy or other subject of evidence.
#[derive(Clone, Copy, Debug, PartialEq, Eq, Hash, Structural)]
pub struct SubjectId(pub Digest);

impl View for SubjectId {
    type V = SubjectId;

    open spec fn view(&self) -> SubjectId {
        *self
    }
}

impl SubjectId {
    pub fn new(identity: [u8; 32]) -> (id: Self)
        ensures
            id.0.bytes() == identity@,
            id.0 == digest::digest_of(identity@),
    {
        Self(Digest::new(identity))
    }

    pub fn identity(self) -> (identity: [u8; 32])
        ensures
            identity@ == self.0.bytes(),
    {
        self.0.to_bytes()
    }
}

impl Wire<()> for SubjectId {
    open spec fn wire(format: (), value: SubjectId) -> Seq<u8> {
        value.0.bytes()
    }

    open spec fn parse(format: (), input: Seq<u8>) -> Option<(SubjectId, Seq<u8>)> {
        match digest::parse_digest(input) {
            Some((identity, rest)) => Some((SubjectId(identity), rest)),
            None => None,
        }
    }

    open spec fn admissible(format: (), value: SubjectId) -> bool {
        true
    }

    open spec fn least_bytes(format: ()) -> nat {
        32
    }

    proof fn lemma_round_trip(format: (), value: SubjectId, rest: Seq<u8>) {
        digest::lemma_parse_digest(value.0, rest);
    }

    proof fn lemma_least_bytes(format: (), value: SubjectId) {
        digest::lemma_digest_len(value.0);
    }

    fn write(&self, format: &(), output: &mut Vec<u8>) {
        write_digest(self.0, output);
    }

    fn read(format: &(), input: &mut Decoder<'_>) -> (result: Result<Self, ()>) {
        match input.read_digest() {
            Ok(identity) => Ok(SubjectId(identity)),
            Err(_) => Err(()),
        }
    }
}

/// One revision of a specialist.
#[derive(Clone, Copy, Debug, PartialEq, Eq, Hash, Structural)]
pub struct SpecialistRevisionId(pub Digest);

impl View for SpecialistRevisionId {
    type V = SpecialistRevisionId;

    open spec fn view(&self) -> SpecialistRevisionId {
        *self
    }
}

impl SpecialistRevisionId {
    pub fn new(identity: [u8; 32]) -> (id: Self)
        ensures
            id.0.bytes() == identity@,
            id.0 == digest::digest_of(identity@),
    {
        Self(Digest::new(identity))
    }

    pub fn identity(self) -> (identity: [u8; 32])
        ensures
            identity@ == self.0.bytes(),
    {
        self.0.to_bytes()
    }
}

impl Wire<()> for SpecialistRevisionId {
    open spec fn wire(format: (), value: SpecialistRevisionId) -> Seq<u8> {
        value.0.bytes()
    }

    open spec fn parse(format: (), input: Seq<u8>) -> Option<(SpecialistRevisionId, Seq<u8>)> {
        match digest::parse_digest(input) {
            Some((identity, rest)) => Some((SpecialistRevisionId(identity), rest)),
            None => None,
        }
    }

    open spec fn admissible(format: (), value: SpecialistRevisionId) -> bool {
        true
    }

    open spec fn least_bytes(format: ()) -> nat {
        32
    }

    proof fn lemma_round_trip(format: (), value: SpecialistRevisionId, rest: Seq<u8>) {
        digest::lemma_parse_digest(value.0, rest);
    }

    proof fn lemma_least_bytes(format: (), value: SpecialistRevisionId) {
        digest::lemma_digest_len(value.0);
    }

    fn write(&self, format: &(), output: &mut Vec<u8>) {
        write_digest(self.0, output);
    }

    fn read(format: &(), input: &mut Decoder<'_>) -> (result: Result<Self, ()>) {
        match input.read_digest() {
            Ok(identity) => Ok(SpecialistRevisionId(identity)),
            Err(_) => Err(()),
        }
    }
}

/// The meaning of a feature vector.
#[derive(Clone, Copy, Debug, PartialEq, Eq, Hash, Structural)]
pub struct FeatureSchemaId(pub Digest);

impl View for FeatureSchemaId {
    type V = FeatureSchemaId;

    open spec fn view(&self) -> FeatureSchemaId {
        *self
    }
}

impl FeatureSchemaId {
    pub fn new(identity: [u8; 32]) -> (id: Self)
        ensures
            id.0.bytes() == identity@,
            id.0 == digest::digest_of(identity@),
    {
        Self(Digest::new(identity))
    }

    pub fn identity(self) -> (identity: [u8; 32])
        ensures
            identity@ == self.0.bytes(),
    {
        self.0.to_bytes()
    }
}

impl Wire<()> for FeatureSchemaId {
    open spec fn wire(format: (), value: FeatureSchemaId) -> Seq<u8> {
        value.0.bytes()
    }

    open spec fn parse(format: (), input: Seq<u8>) -> Option<(FeatureSchemaId, Seq<u8>)> {
        match digest::parse_digest(input) {
            Some((identity, rest)) => Some((FeatureSchemaId(identity), rest)),
            None => None,
        }
    }

    open spec fn admissible(format: (), value: FeatureSchemaId) -> bool {
        true
    }

    open spec fn least_bytes(format: ()) -> nat {
        32
    }

    proof fn lemma_round_trip(format: (), value: FeatureSchemaId, rest: Seq<u8>) {
        digest::lemma_parse_digest(value.0, rest);
    }

    proof fn lemma_least_bytes(format: (), value: FeatureSchemaId) {
        digest::lemma_digest_len(value.0);
    }

    fn write(&self, format: &(), output: &mut Vec<u8>) {
        write_digest(self.0, output);
    }

    fn read(format: &(), input: &mut Decoder<'_>) -> (result: Result<Self, ()>) {
        match input.read_digest() {
            Ok(identity) => Ok(FeatureSchemaId(identity)),
            Err(_) => Err(()),
        }
    }
}

/// A family of opportunities that specialists may be confined to.
#[derive(Clone, Copy, Debug, PartialEq, Eq, Hash, Structural)]
pub struct RoutingFamilyId(pub Digest);

impl View for RoutingFamilyId {
    type V = RoutingFamilyId;

    open spec fn view(&self) -> RoutingFamilyId {
        *self
    }
}

impl RoutingFamilyId {
    pub fn new(identity: [u8; 32]) -> (id: Self)
        ensures
            id.0.bytes() == identity@,
            id.0 == digest::digest_of(identity@),
    {
        Self(Digest::new(identity))
    }

    pub fn identity(self) -> (identity: [u8; 32])
        ensures
            identity@ == self.0.bytes(),
    {
        self.0.to_bytes()
    }
}

impl Wire<()> for RoutingFamilyId {
    open spec fn wire(format: (), value: RoutingFamilyId) -> Seq<u8> {
        value.0.bytes()
    }

    open spec fn parse(format: (), input: Seq<u8>) -> Option<(RoutingFamilyId, Seq<u8>)> {
        match digest::parse_digest(input) {
            Some((identity, rest)) => Some((RoutingFamilyId(identity), rest)),
            None => None,
        }
    }

    open spec fn admissible(format: (), value: RoutingFamilyId) -> bool {
        true
    }

    open spec fn least_bytes(format: ()) -> nat {
        32
    }

    proof fn lemma_round_trip(format: (), value: RoutingFamilyId, rest: Seq<u8>) {
        digest::lemma_parse_digest(value.0, rest);
    }

    proof fn lemma_least_bytes(format: (), value: RoutingFamilyId) {
        digest::lemma_digest_len(value.0);
    }

    fn write(&self, format: &(), output: &mut Vec<u8>) {
        write_digest(self.0, output);
    }

    fn read(format: &(), input: &mut Decoder<'_>) -> (result: Result<Self, ()>) {
        match input.read_digest() {
            Ok(identity) => Ok(RoutingFamilyId(identity)),
            Err(_) => Err(()),
        }
    }
}

/// The role a specialist plays.
#[derive(Clone, Copy, Debug, PartialEq, Eq, Hash, Structural)]
pub struct RoleId(pub Digest);

impl View for RoleId {
    type V = RoleId;

    open spec fn view(&self) -> RoleId {
        *self
    }
}

impl RoleId {
    pub fn from_identity(identity: [u8; 32]) -> (id: Self)
        ensures
            id.0.bytes() == identity@,
            id.0 == digest::digest_of(identity@),
    {
        Self(Digest::new(identity))
    }

    pub fn identity(self) -> (identity: [u8; 32])
        ensures
            identity@ == self.0.bytes(),
    {
        self.0.to_bytes()
    }
}

impl FeatureSchemaId {
    /// A schema that ships with the library: the ordinal in the last byte.
    pub open spec fn built_in_spec(ordinal: u8) -> FeatureSchemaId {
        FeatureSchemaId(digest::digest_of(Seq::new(32, |i: int| if i == 31 {
            ordinal
        } else {
            0u8
        })))
    }

    pub fn built_in(ordinal: u8) -> (id: Self)
        ensures
            id == Self::built_in_spec(ordinal),
    {
        let mut identity = [0u8; 32];
        identity[31] = ordinal;
        assert(identity@ =~= Seq::new(32, |i: int| if i == 31 {
            ordinal
        } else {
            0u8
        }));
        Self::new(identity)
    }
}

impl RoutingFamilyId {
    /// The family of opportunities that belong to no other: all bytes zero.
    pub open spec fn generic_spec() -> RoutingFamilyId {
        RoutingFamilyId(digest::digest_of(Seq::new(32, |i: int| 0u8)))
    }

    pub fn generic() -> (id: Self)
        ensures
            id == Self::generic_spec(),
    {
        let identity = [0u8; 32];
        assert(identity@ =~= Seq::new(32, |i: int| 0u8));
        Self::new(identity)
    }
}

impl RoleId {
    /// The role with a given name; a role without a name is refused.
    pub fn new(name: &str) -> (result: Result<Self, IntelligenceError>)
        ensures
            match result {
                Ok(role) => name@.len() > 0 && role.0 == digest::labelled(
                    "reflex-specialist-role-v1\0",
                    digest::label_bytes(name),
                ),
                Err(error) => name@.len() == 0 && error == IntelligenceError::InvalidMandate,
            },
    {
        if name.is_empty() {
            return Err(IntelligenceError::InvalidMandate);
        }
        Ok(Self(hash_labelled("reflex-specialist-role-v1\0", name.as_bytes())))
    }
}

/// An opportunity of a market, by position.
#[derive(Clone, Copy, Debug, PartialEq, Eq, Hash, Structural)]
pub struct OpportunityId(pub u32);

/// An investment of a market, by position.
#[derive(Clone, Copy, Debug, PartialEq, Eq, Hash, Structural)]
pub struct InvestmentId(pub u32);

// ---------------------------------------------------------------------------
// Allocation sources
// ---------------------------------------------------------------------------
/// What an allocation rests on.
#[derive(Clone, Copy, Debug, PartialEq, Eq, Hash, Structural)]
pub enum AllocationSource {
    Bootstrap,
    Specialist(SpecialistRevisionId),
}

impl View for AllocationSource {
    type V = AllocationSource;

    open spec fn view(&self) -> AllocationSource {
        *self
    }
}

pub open spec fn put_source(source: AllocationSource) -> Seq<u8> {
    match source {
        AllocationSource::Bootstrap => codec::put_u8(1),
        AllocationSource::Specialist(specialist) => codec::put_u8(2) + specialist.0.bytes(),
    }
}

pub open spec fn parse_source(input: Seq<u8>) -> Option<(AllocationSource, Seq<u8>)> {
    match codec::parse_u8(input) {
        Some((tag, rest)) => if tag == 1 {
            Some((AllocationSource::Bootstrap, rest))
        } else if tag == 2 {
            match digest::parse_digest(rest) {
                Some((identity, rest)) => Some(
                    (AllocationSource::Specialist(SpecialistRevisionId(identity)), rest),
                ),
                None => None,
            }
        } else {
            None
        },
        None => None,
    }
}

/// A source reads back as it was written.
pub broadcast proof fn lemma_source_round_trip(source: AllocationSource, rest: Seq<u8>)
    ensures
        #[trigger] parse_source(put_source(source) + rest) == Some((source, rest)),
{
    broadcast use digest::group_digest;

}

pub fn encode_source(source: AllocationSource, output: &mut Vec<u8>)
    ensures
        final(output)@ == old(output)@ + put_source(source),
{
    broadcast use digest::group_digest;

    match source {
        AllocationSource::Bootstrap => codec::write_u8(1, output),
        AllocationSource::Specialist(specialist) => {
            codec::write_u8(2, output);
            write_digest(specialist.0, output);
        },
    }
}

pub fn decode_source(input: &mut Decoder<'_>) -> (result: Result<AllocationSource, ()>)
    ensures
        codec::reads(result, final(input)@, parse_source(old(input)@)),
{
    let tag: u8 = input.read_u8()?;
    match tag {
        1 => Ok(AllocationSource::Bootstrap),
        2 => {
            let identity = input.read_digest()?;
            Ok(AllocationSource::Specialist(SpecialistRevisionId(identity)))
        },
        _ => Err(()),
    }
}

// ---------------------------------------------------------------------------
// Resources
// ---------------------------------------------------------------------------
/// An amount of every bounded resource.
#[derive(Clone, Copy, Debug, PartialEq, Eq, Hash, Structural)]
pub struct ResourceVector {
    pub cpu_time_ns: u64,
    pub resident_bytes: u64,
    pub durable_bytes: u64,
    pub elapsed_time_ns: u64,
    pub verification_requests: u64,
}

impl ResourceVector {
    pub open spec fn zero() -> ResourceVector {
        ResourceVector {
            cpu_time_ns: 0,
            resident_bytes: 0,
            durable_bytes: 0,
            elapsed_time_ns: 0,
            verification_requests: 0,
        }
    }

    /// The component-wise sum, unless some component does not fit.
    pub open spec fn sum(self, other: ResourceVector) -> Option<ResourceVector> {
        if self.cpu_time_ns + other.cpu_time_ns > u64::MAX || self.resident_bytes
            + other.resident_bytes > u64::MAX || self.durable_bytes + other.durable_bytes > u64::MAX
            || self.elapsed_time_ns + other.elapsed_time_ns > u64::MAX || self.verification_requests
            + other.verification_requests > u64::MAX {
            None
        } else {
            Some(
                ResourceVector {
                    cpu_time_ns: (self.cpu_time_ns + other.cpu_time_ns) as u64,
                    resident_bytes: (self.resident_bytes + other.resident_bytes) as u64,
                    durable_bytes: (self.durable_bytes + other.durable_bytes) as u64,
                    elapsed_time_ns: (self.elapsed_time_ns + other.elapsed_time_ns) as u64,
                    verification_requests: (self.verification_requests
                        + other.verification_requests) as u64,
                },
            )
        }
    }

    /// No component exceeds that of `allowance`.
    pub open spec fn within(self, allowance: ResourceVector) -> bool {
        &&& self.cpu_time_ns <= allowance.cpu_time_ns
        &&& self.resident_bytes <= allowance.resident_bytes
        &&& self.durable_bytes <= allowance.durable_bytes
        &&& self.elapsed_time_ns <= allowance.elapsed_time_ns
        &&& self.verification_requests <= allowance.verification_requests
    }

    pub fn new(
        cpu_time_ns: u64,
        resident_bytes: u64,
        durable_bytes: u64,
        elapsed_time_ns: u64,
        verification_requests: u64,
    ) -> (resources: Self)
        ensures
            resources == (ResourceVector {
                cpu_time_ns,
                resident_bytes,
                durable_bytes,
                elapsed_time_ns,
                verification_requests,
            }),
    {
        Self { cpu_time_ns, resident_bytes, durable_bytes, elapsed_time_ns, verification_requests }
    }

    pub fn checked_add(self, other: Self) -> (total: Option<Self>)
        ensures
            total == self.sum(other),
    {
        let cpu_time_ns: u64 = match self.cpu_time_ns.checked_add(other.cpu_time_ns) {
            Some(value) => value,
            None => return None,
        };
        let resident_bytes: u64 = match self.resident_bytes.checked_add(other.resident_bytes) {
            Some(value) => value,
            None => return None,
        };
        let durable_bytes: u64 = match self.durable_bytes.checked_add(other.durable_bytes) {
            Some(value) => value,
            None => return None,
        };
        let elapsed_time_ns: u64 = match self.elapsed_time_ns.checked_add(other.elapsed_time_ns) {
            Some(value) => value,
            None => return None,
        };
        let verification_requests: u64 = match self.verification_requests.checked_add(
            other.verification_requests,
        ) {
            Some(value) => value,
            None => return None,
        };
        Some(
            Self { cpu_time_ns, resident_bytes, durable_bytes, elapsed_time_ns, verification_requests },
        )
    }

    pub fn fits_within(self, allowance: Self) -> (fits: bool)
        ensures
            fits == self.within(allowance),
    {
        self.cpu_time_ns <= allowance.cpu_time_ns && self.resident_bytes
            <= allowance.resident_bytes && self.durable_bytes <= allowance.durable_bytes
            && self.elapsed_time_ns <= allowance.elapsed_time_ns && self.verification_requests
            <= allowance.verification_requests
    }
}

impl Default for ResourceVector {
    fn default() -> (resources: Self)
        ensures
            resources == ResourceVector::zero(),
    {
        Self::new(0, 0, 0, 0, 0)
    }
}

/// The five amounts in wire order.
pub open spec fn resource_values_spec(resources: ResourceVector) -> Seq<u64> {
    seq![
        resources.cpu_time_ns,
        resources.resident_bytes,
        resources.durable_bytes,
        resources.elapsed_time_ns,
        resources.verification_requests,
    ]
}

pub fn resource_values(resources: ResourceVector) -> (values: [u64; 5])
    ensures
        values@ == resource_values_spec(resources),
{
    let values = [
        resources.cpu_time_ns,
        resources.resident_bytes,
        resources.durable_bytes,
        resources.elapsed_time_ns,
        resources.verification_requests,
    ];
    assert(values@ =~= resource_values_spec(resources));
    values
}

pub open spec fn put_resources(resources: ResourceVector) -> Seq<u8> {
    codec::put_u64(resources.cpu_time_ns) + (codec::put_u64(resources.resident_bytes) + (
    codec::put_u64(resources.durable_bytes) + (codec::put_u64(resources.elapsed_time_ns)
        + codec::put_u64(resources.verification_requests))))
}

pub open spec fn parse_resources(input: Seq<u8>) -> Option<(ResourceVector, Seq<u8>)> {
    match codec::parse_u64(input) {
        None => None,
        Some((cpu_time_ns, rest)) => match codec::parse_u64(rest) {
            None => None,
            Some((resident_bytes, rest)) => match codec::parse_u64(rest) {
                None => None,
                Some((durable_bytes, rest)) => match codec::parse_u64(rest) {
                    None => None,
                    Some((elapsed_time_ns, rest)) => match codec::parse_u64(rest) {
                        None => None,
                        Some((verification_requests, rest)) => Some(
                            (
                                ResourceVector {
                                    cpu_time_ns,
                                    resident_bytes,
                                    durable_bytes,
                                    elapsed_time_ns,
                                    verification_requests,
                                },
                                rest,
                            ),
                        ),
                    },
                },
            },
        },
    }
}

/// An amount reads back as it was written.
pub broadcast proof fn lemma_resources_round_trip(resources: ResourceVector, rest: Seq<u8>)
    ensures
        #[trigger] parse_resources(put_resources(resources) + rest) == Some((resources, rest)),
{
    broadcast use digest::group_digest;

}

pub broadcast proof fn lemma_resources_len(resources: ResourceVector)
    ensures
        (#[trigger] put_resources(resources)).len() == 40,
{
    broadcast use digest::group_digest;

}

pub fn encode_resources(resources: ResourceVector, output: &mut Vec<u8>)
    ensures
        final(output)@ == old(output)@ + put_resources(resources),
{
    broadcast use digest::group_digest;

    codec::write_u64(resources.cpu_time_ns, output);
    codec::write_u64(resources.resident_bytes, output);
    codec::write_u64(resources.durable_bytes, output);
    codec::write_u64(resources.elapsed_time_ns, output);
    codec::write_u64(resources.verification_requests, output);
}

pub fn decode_resources(input: &mut Decoder<'_>) -> (result: Result<ResourceVector, ()>)
    ensures
        codec::reads(result, final(input)@, parse_resources(old(input)@)),
{
    let cpu_time_ns: u64 = input.read_u64()?;
    let resident_bytes: u64 = input.read_u64()?;
    let durable_bytes: u64 = input.read_u64()?;
    let elapsed_time_ns: u64 = input.read_u64()?;
    let verification_requests: u64 = input.read_u64()?;
    Ok(
        ResourceVector {
            cpu_time_ns,
            resident_bytes,
            durable_bytes,
            elapsed_time_ns,
            verification_requests,
        },
    )
}

// ---------------------------------------------------------------------------
// Limits
// ---------------------------------------------------------------------------
/// How many specialists one route admits unless a caller says otherwise.
pub const DEFAULT_SPECIALISTS_PER_ROUTE: usize = 8;

/// Hard bounds on every collection.
#[derive(Clone, Copy, Debug, PartialEq, Eq, Hash, Structural)]
pub struct IntelligenceLimits {
    pub maximum_opportunities: usize,
    pub maximum_investments: usize,
    pub maximum_bids: usize,
    pub maximum_forecast_cells: usize,
    pub maximum_specialists: usize,
    pub maximum_model_bytes: usize,
    pub maximum_specialists_per_route: usize,
}

impl IntelligenceLimits {
    /// Every bound is positive, and no route admits more specialists than there
    /// may be.
    pub open spec fn valid(self) -> bool {
        &&& 0 < self.maximum_opportunities
        &&& 0 < self.maximum_investments
        &&& 0 < self.maximum_bids
        &&& 0 < self.maximum_forecast_cells
        &&& 0 < self.maximum_specialists
        &&& 0 < self.maximum_model_bytes
        &&& 0 < self.maximum_specialists_per_route <= self.maximum_specialists
    }

    pub open spec fn new_spec(
        maximum_opportunities: usize,
        maximum_investments: usize,
        maximum_bids: usize,
        maximum_forecast_cells: usize,
        maximum_specialists: usize,
        maximum_model_bytes: usize,
    ) -> IntelligenceLimits {
        IntelligenceLimits {
            maximum_opportunities,
            maximum_investments,
            maximum_bids,
            maximum_forecast_cells,
            maximum_specialists,
            maximum_model_bytes,
            maximum_specialists_per_route: if maximum_specialists < DEFAULT_SPECIALISTS_PER_ROUTE {
                maximum_specialists
            } else {
                DEFAULT_SPECIALISTS_PER_ROUTE
            },
        }
    }

    pub open spec fn per_route_spec(self, maximum: usize) -> IntelligenceLimits {
        IntelligenceLimits { maximum_specialists_per_route: maximum, ..self }
    }

    pub fn new(
        maximum_opportunities: usize,
        maximum_investments: usize,
        maximum_bids: usize,
        maximum_forecast_cells: usize,
        maximum_specialists: usize,
        maximum_model_bytes: usize,
    ) -> (result: Result<Self, IntelligenceError>)
        ensures
            ({
                let limits = Self::new_spec(
                    maximum_opportunities,
                    maximum_investments,
                    maximum_bids,
                    maximum_forecast_cells,
                    maximum_specialists,
                    maximum_model_bytes,
                );
                result == (if limits.valid() {
                    Ok(limits)
                } else {
                    Err::<Self, IntelligenceError>(IntelligenceError::InvalidLimits)
                })
            }),
    {
        let limits = Self {
            maximum_opportunities,
            maximum_investments,
            maximum_bids,
            maximum_forecast_cells,
            maximum_specialists,
            maximum_model_bytes,
            maximum_specialists_per_route: if maximum_specialists < DEFAULT_SPECIALISTS_PER_ROUTE {
                maximum_specialists
            } else {
                DEFAULT_SPECIALISTS_PER_ROUTE
            },
        };
        limits.validated()
    }

    /// The same limits with another bound on each route.
    pub fn with_maximum_specialists_per_route(self, maximum: usize) -> (result: Result<
        Self,
        IntelligenceError,
    >)
        ensures
            result == (if self.per_route_spec(maximum).valid() {
                Ok(self.per_route_spec(maximum))
            } else {
                Err::<Self, IntelligenceError>(IntelligenceError::InvalidLimits)
            }),
    {
        let limits = Self { maximum_specialists_per_route: maximum, ..self };
        limits.validated()
    }

    /// These limits, if they are valid.
    pub fn validated(self) -> (result: Result<Self, IntelligenceError>)
        ensures
            result == (if self.valid() {
                Ok(self)
            } else {
                Err::<Self, IntelligenceError>(IntelligenceError::InvalidLimits)
            }),
    {
        if self.maximum_opportunities == 0 || self.maximum_investments == 0 || self.maximum_bids
            == 0 || self.maximum_forecast_cells == 0 || self.maximum_specialists == 0
            || self.maximum_model_bytes == 0 || self.maximum_specialists_per_route == 0
            || self.maximum_specialists_per_route > self.maximum_specialists {
            Err(IntelligenceError::InvalidLimits)
        } else {
            Ok(self)
        }
    }

    /// How many receipts, and how many settlements, may be retained.
    pub open spec fn entry_limit(self) -> nat {
        codec::saturating_product(self.maximum_investments as nat, 64)
    }

    /// How many consequences may be retained.
    pub open spec fn consequence_limit(self) -> nat {
        codec::saturating_product(self.maximum_forecast_cells as nat, 64)
    }

    /// How many shadow campaigns, and how many knowledge records, may be retained.
    pub open spec fn shadow_limit(self) -> nat {
        codec::saturating_product(self.maximum_opportunities as nat, 16)
    }
}

} // verus!
