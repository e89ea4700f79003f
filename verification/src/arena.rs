//! Opportunities and the investments they invite.
use vstd::prelude::*;

use crate::codec;
use crate::codec::{Decoder, Wire};
use crate::digest;
use crate::digest::Digest;
use crate::types::{FeatureSchemaId, RoutingFamilyId};

verus! {

/// How many features one opportunity carries at most.
pub const MAXIMUM_FEATURES_PER_OPPORTUNITY: usize = 64;

/// What an opportunity is about.
#[derive(Clone, Copy, Debug, PartialEq, Eq, Hash, Structural)]
pub enum OpportunityKind {
    Candidate,
    OperatorApplication,
    Repair,
    ArtifactPotential,
    Emergent,
    KnowledgePattern,
    SpecialistNiche,
    RuntimePolicy,
    ShadowQuestion,
}

impl View for OpportunityKind {
    type V = OpportunityKind;

    open spec fn view(&self) -> OpportunityKind {
        *self
    }
}

impl OpportunityKind {
    /// The wire tag: one and up in declaration order.
    pub open spec fn tag_spec(self) -> u8 {
        match self {
            OpportunityKind::Candidate => 1,
            OpportunityKind::OperatorApplication => 2,
            OpportunityKind::Repair => 3,
            OpportunityKind::ArtifactPotential => 4,
            OpportunityKind::Emergent => 5,
            OpportunityKind::KnowledgePattern => 6,
            OpportunityKind::SpecialistNiche => 7,
            OpportunityKind::RuntimePolicy => 8,
            OpportunityKind::ShadowQuestion => 9,
        }
    }

    pub open spec fn decode_spec(tag: u8) -> Option<OpportunityKind> {
        match tag {
            1 => Some(OpportunityKind::Candidate),
            2 => Some(OpportunityKind::OperatorApplication),
            3 => Some(OpportunityKind::Repair),
            4 => Some(OpportunityKind::ArtifactPotential),
            5 => Some(OpportunityKind::Emergent),
            6 => Some(OpportunityKind::KnowledgePattern),
            7 => Some(OpportunityKind::SpecialistNiche),
            8 => Some(OpportunityKind::RuntimePolicy),
            9 => Some(OpportunityKind::ShadowQuestion),
            _ => None,
        }
    }

    pub fn tag(self) -> (tag: u8)
        ensures
            tag == self.tag_spec(),
    {
        match self {
            OpportunityKind::Candidate => 1,
            OpportunityKind::OperatorApplication => 2,
            OpportunityKind::Repair => 3,
            OpportunityKind::ArtifactPotential => 4,
            OpportunityKind::Emergent => 5,
            OpportunityKind::KnowledgePattern => 6,
            OpportunityKind::SpecialistNiche => 7,
            OpportunityKind::RuntimePolicy => 8,
            OpportunityKind::ShadowQuestion => 9,
        }
    }

    pub fn decode(value: u8) -> (result: Result<Self, ()>)
        ensures
            match result {
                Ok(decoded) => Self::decode_spec(value) == Some(decoded),
                Err(_) => Self::decode_spec(value) is None,
            },
    {
        match value {
            1 => Ok(OpportunityKind::Candidate),
            2 => Ok(OpportunityKind::OperatorApplication),
            3 => Ok(OpportunityKind::Repair),
            4 => Ok(OpportunityKind::ArtifactPotential),
            5 => Ok(OpportunityKind::Emergent),
            6 => Ok(OpportunityKind::KnowledgePattern),
            7 => Ok(OpportunityKind::SpecialistNiche),
            8 => Ok(OpportunityKind::RuntimePolicy),
            9 => Ok(OpportunityKind::ShadowQuestion),
            _ => Err(()),
        }
    }
}

impl Wire<()> for OpportunityKind {
    open spec fn wire(format: (), value: OpportunityKind) -> Seq<u8> {
        codec::put_u8(value.tag_spec())
    }

    open spec fn parse(format: (), input: Seq<u8>) -> Option<(OpportunityKind, Seq<u8>)> {
        match codec::parse_u8(input) {
            Some((tag, rest)) => match OpportunityKind::decode_spec(tag) {
                Some(value) => Some((value, rest)),
                None => None,
            },
            None => None,
        }
    }

    open spec fn admissible(format: (), value: OpportunityKind) -> bool {
        true
    }

    open spec fn least_bytes(format: ()) -> nat {
        1
    }

    proof fn lemma_round_trip(format: (), value: OpportunityKind, rest: Seq<u8>) {
        broadcast use digest::group_digest;

    }

    proof fn lemma_least_bytes(format: (), value: OpportunityKind) {
    }

    fn write(&self, format: &(), output: &mut Vec<u8>) {
        codec::write_u8(self.tag(), output);
    }

    fn read(format: &(), input: &mut Decoder<'_>) -> (result: Result<Self, ()>) {
        let tag: u8 = input.read_u8()?;
        OpportunityKind::decode(tag)
    }
}

/// What an opportunity is, apart from its features.
#[derive(Clone, Copy, Debug, PartialEq, Eq, Hash, Structural)]
pub struct OpportunitySpec {
    pub kind: OpportunityKind,
    pub identity: Digest,
    pub corpus_key: Digest,
    pub feature_schema: FeatureSchemaId,
    pub routing_family: RoutingFamilyId,
}

impl OpportunitySpec {
    /// An opportunity that is its own corpus.
    pub open spec fn plain(
        kind: OpportunityKind,
        identity: Digest,
        feature_schema: FeatureSchemaId,
        routing_family: RoutingFamilyId,
    ) -> OpportunitySpec {
        OpportunitySpec { kind, identity, corpus_key: identity, feature_schema, routing_family }
    }

    pub fn candidate(identity: [u8; 32]) -> (opportunity: Self)
        ensures
            opportunity == Self::plain(
                OpportunityKind::Candidate,
                digest::digest_of(identity@),
                FeatureSchemaId::built_in_spec(1),
                RoutingFamilyId::generic_spec(),
            ),
    {
        Self::typed(OpportunityKind::Candidate, identity, FeatureSchemaId::built_in(1), RoutingFamilyId::generic())
    }

    pub fn candidate_with_schema(identity: [u8; 32], feature_schema: FeatureSchemaId) -> (opportunity: Self)
        ensures
            opportunity == Self::plain(
                OpportunityKind::Candidate,
                digest::digest_of(identity@),
                feature_schema,
                RoutingFamilyId::generic_spec(),
            ),
    {
        Self::typed(OpportunityKind::Candidate, identity, feature_schema, RoutingFamilyId::generic())
    }

    pub fn candidate_in_family(identity: [u8; 32], feature_schema: FeatureSchemaId, routing_family: RoutingFamilyId) -> (opportunity: Self)
        ensures
            opportunity == Self::plain(
                OpportunityKind::Candidate,
                digest::digest_of(identity@),
                feature_schema,
                routing_family,
            ),
    {
        Self::typed(OpportunityKind::Candidate, identity, feature_schema, routing_family)
    }

    /// A candidate that belongs to a corpus of its own choosing.
    pub fn candidate_in_corpus(
        identity: [u8; 32],
        corpus_key: [u8; 32],
        feature_schema: FeatureSchemaId,
        routing_family: RoutingFamilyId,
    ) -> (opportunity: Self)
        ensures
            opportunity == (OpportunitySpec {
                kind: OpportunityKind::Candidate,
                identity: digest::digest_of(identity@),
                corpus_key: digest::digest_of(corpus_key@),
                feature_schema,
                routing_family,
            }),
    {
        Self {
            kind: OpportunityKind::Candidate,
            identity: Digest::new(identity),
            corpus_key: Digest::new(corpus_key),
            feature_schema,
            routing_family,
        }
    }

    pub fn candidate_schema() -> (schema: FeatureSchemaId)
        ensures
            schema == FeatureSchemaId::built_in_spec(1),
    {
        FeatureSchemaId::built_in(1)
    }

    pub fn operator_application(identity: [u8; 32], routing_family: RoutingFamilyId) -> (opportunity: Self)
        ensures
            opportunity == Self::plain(
                OpportunityKind::OperatorApplication,
                digest::digest_of(identity@),
                FeatureSchemaId::built_in_spec(2),
                routing_family,
            ),
    {
        Self::typed(OpportunityKind::OperatorApplication, identity, FeatureSchemaId::built_in(2), routing_family)
    }

    pub fn specialist_niche(identity: [u8; 32]) -> (opportunity: Self)
        ensures
            opportunity == Self::plain(
                OpportunityKind::SpecialistNiche,
                digest::digest_of(identity@),
                FeatureSchemaId::built_in_spec(7),
                RoutingFamilyId::generic_spec(),
            ),
    {
        Self::typed(OpportunityKind::SpecialistNiche, identity, FeatureSchemaId::built_in(7), RoutingFamilyId::generic())
    }

    pub fn knowledge_pattern(identity: [u8; 32]) -> (opportunity: Self)
        ensures
            opportunity == Self::plain(
                OpportunityKind::KnowledgePattern,
                digest::digest_of(identity@),
                FeatureSchemaId::built_in_spec(6),
                RoutingFamilyId::generic_spec(),
            ),
    {
        Self::typed(OpportunityKind::KnowledgePattern, identity, FeatureSchemaId::built_in(6), RoutingFamilyId::generic())
    }

    pub fn shadow_question(identity: [u8; 32]) -> (opportunity: Self)
        ensures
            opportunity == Self::plain(
                OpportunityKind::ShadowQuestion,
                digest::digest_of(identity@),
                FeatureSchemaId::built_in_spec(9),
                RoutingFamilyId::generic_spec(),
            ),
    {
        Self::typed(OpportunityKind::ShadowQuestion, identity, FeatureSchemaId::built_in(9), RoutingFamilyId::generic())
    }

    pub fn runtime_policy(identity: [u8; 32]) -> (opportunity: Self)
        ensures
            opportunity == Self::plain(
                OpportunityKind::RuntimePolicy,
                digest::digest_of(identity@),
                FeatureSchemaId::built_in_spec(8),
                RoutingFamilyId::generic_spec(),
            ),
    {
        Self::typed(OpportunityKind::RuntimePolicy, identity, FeatureSchemaId::built_in(8), RoutingFamilyId::generic())
    }

    pub fn typed(
        kind: OpportunityKind,
        identity: [u8; 32],
        feature_schema: FeatureSchemaId,
        routing_family: RoutingFamilyId,
    ) -> (opportunity: Self)
        ensures
            opportunity == Self::plain(
                kind,
                digest::digest_of(identity@),
                feature_schema,
                routing_family,
            ),
    {
        let identity = Digest::new(identity);
        Self { kind, identity, corpus_key: identity, feature_schema, routing_family }
    }

    pub fn repair_with_schema(identity: [u8; 32], feature_schema: FeatureSchemaId) -> (opportunity: Self)
        ensures
            opportunity == Self::plain(
                OpportunityKind::Repair,
                digest::digest_of(identity@),
                feature_schema,
                RoutingFamilyId::generic_spec(),
            ),
    {
        Self::typed(OpportunityKind::Repair, identity, feature_schema, RoutingFamilyId::generic())
    }

    pub fn repair_in_family(identity: [u8; 32], feature_schema: FeatureSchemaId, routing_family: RoutingFamilyId) -> (opportunity: Self)
        ensures
            opportunity == Self::plain(
                OpportunityKind::Repair,
                digest::digest_of(identity@),
                feature_schema,
                routing_family,
            ),
    {
        Self::typed(OpportunityKind::Repair, identity, feature_schema, routing_family)
    }

    pub fn explore_in_family(identity: [u8; 32], routing_family: RoutingFamilyId) -> (opportunity: Self)
        ensures
            opportunity == Self::plain(
                OpportunityKind::Emergent,
                digest::digest_of(identity@),
                FeatureSchemaId::built_in_spec(5),
                routing_family,
            ),
    {
        Self::typed(OpportunityKind::Emergent, identity, FeatureSchemaId::built_in(5), routing_family)
    }

    pub fn emergent(identity: [u8; 32]) -> (opportunity: Self)
        ensures
            opportunity == Self::plain(
                OpportunityKind::Emergent,
                digest::digest_of(identity@),
                FeatureSchemaId::built_in_spec(5),
                RoutingFamilyId::generic_spec(),
            ),
    {
        Self::typed(OpportunityKind::Emergent, identity, FeatureSchemaId::built_in(5), RoutingFamilyId::generic())
    }
}

pub fn opportunity_kind_tag(kind: OpportunityKind) -> (tag: u8)
    ensures
        tag == kind.tag_spec(),
{
    kind.tag()
}

} // verus!
