//! Investments: what may be done with an opportunity, and at what price.
use vstd::prelude::*;

use crate::arena::{opportunity_kind_tag, OpportunitySpec};
use crate::codec;
use crate::digest;
use crate::digest::{hash_labelled, write_digest, Digest};
use crate::forecast::ResourceForecast;
use crate::types::{encode_resources, OpportunityId, ResourceVector, SubjectId};

verus! {

/// The kind of an investment, without its subjects.
#[derive(Clone, Copy, Debug, PartialEq, Eq, Hash, Structural)]
pub enum InvestmentTag {
    Generate,
    Verify,
    Repair,
    Explore,
    TrainSpecialist,
    CompareRevision,
    Consolidate,
    RunShadowCampaign,
    ProposeRuntimePolicy,
}

impl View for InvestmentTag {
    type V = InvestmentTag;

    open spec fn view(&self) -> InvestmentTag {
        *self
    }
}

impl InvestmentTag {
    /// The wire tag: one and up in declaration order.
    pub open spec fn tag_spec(self) -> u8 {
        match self {
            InvestmentTag::Generate => 1,
            InvestmentTag::Verify => 2,
            InvestmentTag::Repair => 3,
            InvestmentTag::Explore => 4,
            InvestmentTag::TrainSpecialist => 5,
            InvestmentTag::CompareRevision => 6,
            InvestmentTag::Consolidate => 7,
            InvestmentTag::RunShadowCampaign => 8,
            InvestmentTag::ProposeRuntimePolicy => 9,
        }
    }

    pub open spec fn decode_spec(tag: u8) -> Option<InvestmentTag> {
        match tag {
            1 => Some(InvestmentTag::Generate),
            2 => Some(InvestmentTag::Verify),
            3 => Some(InvestmentTag::Repair),
            4 => Some(InvestmentTag::Explore),
            5 => Some(InvestmentTag::TrainSpecialist),
            6 => Some(InvestmentTag::CompareRevision),
            7 => Some(InvestmentTag::Consolidate),
            8 => Some(InvestmentTag::RunShadowCampaign),
            9 => Some(InvestmentTag::ProposeRuntimePolicy),
            _ => None,
        }
    }

    pub fn tag(self) -> (tag: u8)
        ensures
            tag == self.tag_spec(),
    {
        match self {
            InvestmentTag::Generate => 1,
            InvestmentTag::Verify => 2,
            InvestmentTag::Repair => 3,
            InvestmentTag::Explore => 4,
            InvestmentTag::TrainSpecialist => 5,
            InvestmentTag::CompareRevision => 6,
            InvestmentTag::Consolidate => 7,
            InvestmentTag::RunShadowCampaign => 8,
            InvestmentTag::ProposeRuntimePolicy => 9,
        }
    }

    pub fn decode(value: u8) -> (result: Result<Self, ()>)
        ensures
            match result {
                Ok(decoded) => Self::decode_spec(value) == Some(decoded),
                Err(_) => Self::decode_spec(value) is None,
            },
    {
        match value {
            1 => Ok(InvestmentTag::Generate),
            2 => Ok(InvestmentTag::Verify),
            3 => Ok(InvestmentTag::Repair),
            4 => Ok(InvestmentTag::Explore),
            5 => Ok(InvestmentTag::TrainSpecialist),
            6 => Ok(InvestmentTag::CompareRevision),
            7 => Ok(InvestmentTag::Consolidate),
            8 => Ok(InvestmentTag::RunShadowCampaign),
            9 => Ok(InvestmentTag::ProposeRuntimePolicy),
            _ => Err(()),
        }
    }
}

/// What an investment does.
#[derive(Clone, Copy, Debug, PartialEq, Eq, Hash, Structural)]
pub enum InvestmentKind {
    Generate { operator: SubjectId, applications: u32 },
    Verify,
    Repair { rejection: SubjectId, operator: SubjectId },
    Explore,
    TrainSpecialist { mandate: SubjectId },
    CompareRevision { challenger: SubjectId },
    Consolidate { compiler: SubjectId },
    RunShadowCampaign { specification: SubjectId },
    ProposeRuntimePolicy { parent: SubjectId },
}

impl InvestmentKind {
    pub open spec fn tag_spec(self) -> InvestmentTag {
        match self {
            InvestmentKind::Generate { .. } => InvestmentTag::Generate,
            InvestmentKind::Verify => InvestmentTag::Verify,
            InvestmentKind::Repair { .. } => InvestmentTag::Repair,
            InvestmentKind::Explore => InvestmentTag::Explore,
            InvestmentKind::TrainSpecialist { .. } => InvestmentTag::TrainSpecialist,
            InvestmentKind::CompareRevision { .. } => InvestmentTag::CompareRevision,
            InvestmentKind::Consolidate { .. } => InvestmentTag::Consolidate,
            InvestmentKind::RunShadowCampaign { .. } => InvestmentTag::RunShadowCampaign,
            InvestmentKind::ProposeRuntimePolicy { .. } => InvestmentTag::ProposeRuntimePolicy,
        }
    }

    /// The subjects that the investment names, as bytes.
    pub open spec fn subject_bytes(self) -> Seq<u8> {
        match self {
            InvestmentKind::Generate { operator, applications } => operator.0.bytes()
                + codec::put_u32(applications),
            InvestmentKind::Verify => Seq::empty(),
            InvestmentKind::Repair { rejection, operator } => rejection.0.bytes()
                + operator.0.bytes(),
            InvestmentKind::Explore => Seq::empty(),
            InvestmentKind::TrainSpecialist { mandate } => mandate.0.bytes(),
            InvestmentKind::CompareRevision { challenger } => challenger.0.bytes(),
            InvestmentKind::Consolidate { compiler } => compiler.0.bytes(),
            InvestmentKind::RunShadowCampaign { specification } => specification.0.bytes(),
            InvestmentKind::ProposeRuntimePolicy { parent } => parent.0.bytes(),
        }
    }
}

/// An investment in one opportunity of a market.
#[derive(Clone, Copy, Debug, PartialEq, Eq, Hash)]
pub struct InvestmentSpec {
    pub opportunity: OpportunityId,
    pub kind: InvestmentKind,
    pub resources: ResourceForecast,
    pub preference_priority: u32,
    pub bootstrap_priority: u32,
}

impl InvestmentSpec {
    /// An investment whose price is known exactly and which no caller prefers.
    pub open spec fn exact(
        self,
        opportunity: OpportunityId,
        kind: InvestmentKind,
        resources: ResourceVector,
        bootstrap_priority: u32,
    ) -> bool {
        &&& self.opportunity == opportunity
        &&& self.kind == kind
        &&& self.resources.expected == resources
        &&& self.resources.upper == resources
        &&& forall|i: int|
            0 <= i < 5 ==> self.resources.bounds@[i] == crate::forecast::ResourceBound::Known
        &&& self.preference_priority == 0
        &&& self.bootstrap_priority == bootstrap_priority
    }

    /// One verification whose time is not known.
    pub open spec fn verification(
        self,
        opportunity: OpportunityId,
        resident_bytes: u64,
        durable_bytes: u64,
        preference_priority: u32,
        bootstrap_priority: u32,
    ) -> bool {
        &&& self.opportunity == opportunity
        &&& self.kind == InvestmentKind::Verify
        &&& self.resources.upper == (ResourceVector {
            cpu_time_ns: 0,
            resident_bytes,
            durable_bytes,
            elapsed_time_ns: 0,
            verification_requests: 1,
        })
        &&& self.resources.expected == self.resources.upper
        &&& self.resources.bounds@ == seq![
            crate::forecast::ResourceBound::Unknown,
            crate::forecast::ResourceBound::Known,
            crate::forecast::ResourceBound::Known,
            crate::forecast::ResourceBound::Unknown,
            crate::forecast::ResourceBound::Known,
        ]
        &&& self.preference_priority == preference_priority
        &&& self.bootstrap_priority == bootstrap_priority
    }

    pub fn new(
        opportunity: OpportunityId,
        kind: InvestmentKind,
        resources: ResourceVector,
        bootstrap_priority: u32,
    ) -> (investment: Self)
        ensures
            investment.exact(opportunity, kind, resources, bootstrap_priority),
    {
        Self {
            opportunity,
            kind,
            resources: ResourceForecast::exact(resources),
            preference_priority: 0,
            bootstrap_priority,
        }
    }

    pub fn generate(
        opportunity: OpportunityId,
        operator: SubjectId,
        applications: u32,
        resources: ResourceVector,
        bootstrap_priority: u32,
    ) -> (investment: Self)
        requires
            applications > 0,
        ensures
            investment.exact(
                opportunity,
                InvestmentKind::Generate { operator, applications },
                resources,
                bootstrap_priority,
            ),
    {
        Self::new(opportunity, InvestmentKind::Generate { operator, applications }, resources, bootstrap_priority)
    }

    pub fn verify(
        opportunity: OpportunityId,
        resources: ResourceVector,
        bootstrap_priority: u32,
    ) -> (investment: Self)
        ensures
            investment.exact(
                opportunity,
                InvestmentKind::Verify,
                resources,
                bootstrap_priority,
            ),
    {
        Self::new(opportunity, InvestmentKind::Verify, resources, bootstrap_priority)
    }

    pub fn verify_candidate(
        opportunity: OpportunityId,
        resident_bytes: u64,
        durable_bytes: u64,
        bootstrap_priority: u32,
    ) -> (investment: Self)
        ensures
            investment.verification(
                opportunity,
                resident_bytes,
                durable_bytes,
                0,
                bootstrap_priority,
            ),
    {
        Self::verify_candidate_with_preference(
            opportunity,
            resident_bytes,
            durable_bytes,
            0,
            bootstrap_priority,
        )
    }

    pub fn verify_candidate_with_preference(
        opportunity: OpportunityId,
        resident_bytes: u64,
        durable_bytes: u64,
        preference_priority: u32,
        bootstrap_priority: u32,
    ) -> (investment: Self)
        ensures
            investment.verification(
                opportunity,
                resident_bytes,
                durable_bytes,
                preference_priority,
                bootstrap_priority,
            ),
    {
        Self {
            opportunity,
            kind: InvestmentKind::Verify,
            resources: ResourceForecast::verification(resident_bytes, durable_bytes),
            preference_priority,
            bootstrap_priority,
        }
    }

    pub fn repair(
        opportunity: OpportunityId,
        rejection: SubjectId,
        operator: SubjectId,
        resources: ResourceVector,
        bootstrap_priority: u32,
    ) -> (investment: Self)
        ensures
            investment.exact(
                opportunity,
                InvestmentKind::Repair { rejection, operator },
                resources,
                bootstrap_priority,
            ),
    {
        Self::new(opportunity, InvestmentKind::Repair { rejection, operator }, resources, bootstrap_priority)
    }

    pub fn explore(
        opportunity: OpportunityId,
        resources: ResourceVector,
        bootstrap_priority: u32,
    ) -> (investment: Self)
        ensures
            investment.exact(
                opportunity,
                InvestmentKind::Explore,
                resources,
                bootstrap_priority,
            ),
    {
        Self::new(opportunity, InvestmentKind::Explore, resources, bootstrap_priority)
    }

    pub fn train_specialist(
        opportunity: OpportunityId,
        mandate: SubjectId,
        resources: ResourceVector,
        bootstrap_priority: u32,
    ) -> (investment: Self)
        ensures
            investment.exact(
                opportunity,
                InvestmentKind::TrainSpecialist { mandate },
                resources,
                bootstrap_priority,
            ),
    {
        Self::new(opportunity, InvestmentKind::TrainSpecialist { mandate }, resources, bootstrap_priority)
    }

    pub fn compare_revision(
        opportunity: OpportunityId,
        challenger: SubjectId,
        resources: ResourceVector,
        bootstrap_priority: u32,
    ) -> (investment: Self)
        ensures
            investment.exact(
                opportunity,
                InvestmentKind::CompareRevision { challenger },
                resources,
                bootstrap_priority,
            ),
    {
        Self::new(opportunity, InvestmentKind::CompareRevision { challenger }, resources, bootstrap_priority)
    }

    pub fn consolidate(
        opportunity: OpportunityId,
        compiler: SubjectId,
        resources: ResourceVector,
        bootstrap_priority: u32,
    ) -> (investment: Self)
        ensures
            investment.exact(
                opportunity,
                InvestmentKind::Consolidate { compiler },
                resources,
                bootstrap_priority,
            ),
    {
        Self::new(opportunity, InvestmentKind::Consolidate { compiler }, resources, bootstrap_priority)
    }

    pub fn run_shadow_campaign(
        opportunity: OpportunityId,
        specification: SubjectId,
        resources: ResourceVector,
        bootstrap_priority: u32,
    ) -> (investment: Self)
        ensures
            investment.exact(
                opportunity,
                InvestmentKind::RunShadowCampaign { specification },
                resources,
                bootstrap_priority,
            ),
    {
        Self::new(opportunity, InvestmentKind::RunShadowCampaign { specification }, resources, bootstrap_priority)
    }

    pub fn propose_runtime_policy(
        opportunity: OpportunityId,
        parent: SubjectId,
        resources: ResourceVector,
        bootstrap_priority: u32,
    ) -> (investment: Self)
        ensures
            investment.exact(
                opportunity,
                InvestmentKind::ProposeRuntimePolicy { parent },
                resources,
                bootstrap_priority,
            ),
    {
        Self::new(opportunity, InvestmentKind::ProposeRuntimePolicy { parent }, resources, bootstrap_priority)
    }

    pub fn tag(self) -> (tag: InvestmentTag)
        ensures
            tag == self.kind.tag_spec(),
    {
        match self.kind {
            InvestmentKind::Generate { .. } => InvestmentTag::Generate,
            InvestmentKind::Verify => InvestmentTag::Verify,
            InvestmentKind::Repair { .. } => InvestmentTag::Repair,
            InvestmentKind::Explore => InvestmentTag::Explore,
            InvestmentKind::TrainSpecialist { .. } => InvestmentTag::TrainSpecialist,
            InvestmentKind::CompareRevision { .. } => InvestmentTag::CompareRevision,
            InvestmentKind::Consolidate { .. } => InvestmentTag::Consolidate,
            InvestmentKind::RunShadowCampaign { .. } => InvestmentTag::RunShadowCampaign,
            InvestmentKind::ProposeRuntimePolicy { .. } => InvestmentTag::ProposeRuntimePolicy,
        }
    }
}

/// Everything that makes an investment what it is, as bytes.
pub open spec fn investment_bytes(
    specification: InvestmentSpec,
    opportunity: OpportunitySpec,
    features: Seq<u32>,
) -> Seq<u8> {
    codec::put_u8(opportunity.kind.tag_spec()) + (opportunity.identity.bytes() + (
    opportunity.corpus_key.bytes() + (opportunity.feature_schema.0.bytes() + (
    opportunity.routing_family.0.bytes() + (codec::put_list::<(), u32>((), features) + (
    codec::put_u8(specification.kind.tag_spec().tag_spec()) + (specification.kind.subject_bytes() + (
    crate::types::put_resources(specification.resources.expected) + (
    crate::types::put_resources(specification.resources.upper) + (
    specification.resources.bound_tags_spec() + (codec::put_u32(specification.bootstrap_priority)
        + codec::put_u32(specification.preference_priority))))))))))))
}

/// The identity of an investment.
pub open spec fn investment_identity(
    specification: InvestmentSpec,
    opportunity: OpportunitySpec,
    features: Seq<u32>,
) -> Digest {
    digest::labelled("reflex-investment-v2\0", investment_bytes(specification, opportunity, features))
}

pub fn investment_digest(
    specification: InvestmentSpec,
    opportunity: OpportunitySpec,
    features: &[u32],
) -> (identity: Digest)
    ensures
        identity == investment_identity(specification, opportunity, features@),
{
    broadcast use digest::group_digest;

    let mut content: Vec<u8> = Vec::new();
    codec::write_u8(opportunity_kind_tag(opportunity.kind), &mut content);
    write_digest(opportunity.identity, &mut content);
    write_digest(opportunity.corpus_key, &mut content);
    write_digest(opportunity.feature_schema.0, &mut content);
    write_digest(opportunity.routing_family.0, &mut content);
    codec::write_list::<(), u32>(&(), features, &mut content);
    codec::write_u8(specification.tag().tag(), &mut content);
    match specification.kind {
        InvestmentKind::Generate { operator, applications } => {
            write_digest(operator.0, &mut content);
            codec::write_u32(applications, &mut content);
        },
        InvestmentKind::Verify => {},
        InvestmentKind::Explore => {},
        InvestmentKind::Repair { rejection, operator } => {
            write_digest(rejection.0, &mut content);
            write_digest(operator.0, &mut content);
        },
        InvestmentKind::TrainSpecialist { mandate } => write_digest(mandate.0, &mut content),
        InvestmentKind::CompareRevision { challenger } => write_digest(challenger.0, &mut content),
        InvestmentKind::Consolidate { compiler } => write_digest(compiler.0, &mut content),
        InvestmentKind::RunShadowCampaign { specification } => write_digest(
            specification.0,
            &mut content,
        ),
        InvestmentKind::ProposeRuntimePolicy { parent } => write_digest(parent.0, &mut content),
    }
    encode_resources(specification.resources.expected(), &mut content);
    encode_resources(specification.resources.declared_upper(), &mut content);
    let tags = specification.resources.bound_tags();
    codec::write_bytes(tags.as_slice(), &mut content);
    codec::write_u32(specification.bootstrap_priority, &mut content);
    codec::write_u32(specification.preference_priority, &mut content);
    assert(codec::views(features@) =~= features@);
    assert(content@ =~= investment_bytes(specification, opportunity, features@));
    hash_labelled("reflex-investment-v2\0", content.as_slice())
}

} // verus!
