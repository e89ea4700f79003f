//! Paired shadow campaigns: specifications, arm outcomes, updates and state.
use vstd::prelude::*;

use crate::codec;
use crate::codec::{Decoder, Wire};
use crate::digest;
use crate::digest::{hash_labelled, write_digest, Digest};
use crate::forecast;
use crate::forecast::ForecastAxis;
use crate::padded;
use crate::types;
use crate::types::{
    decode_resources, encode_resources, IntelligenceError, ResourceVector, SubjectId,
};

verus! {
/// How many axes a campaign may announce on the wire.
pub const MAXIMUM_SHADOW_AXES: usize = 32;

/// The checkpoint that both arms of a campaign start from.
#[derive(Clone, Copy, Debug, PartialEq, Eq, Hash, Structural)]
pub struct CheckpointDigest(pub Digest);

impl CheckpointDigest {
    pub fn new(identity: [u8; 32]) -> (id: Self)
        ensures
            id.0.bytes() == identity@,
            id.0 == digest::digest_of(identity@),
    {
        Self(Digest::new(identity))
    }

    pub fn identity(self) -> (identity: [u8; 32])
        ensures
            identity@ == self.0.bytes(),
    {
        self.0.to_bytes()
    }
}

/// One campaign.
#[derive(Clone, Copy, Debug, PartialEq, Eq, Hash, Structural)]
pub struct ShadowCampaignId(pub Digest);

impl ShadowCampaignId {
    pub fn from_identity(identity: [u8; 32]) -> (id: Self)
        ensures
            id.0.bytes() == identity@,
            id.0 == digest::digest_of(identity@),
    {
        Self(Digest::new(identity))
    }

    pub fn identity(self) -> (identity: [u8; 32])
        ensures
            identity@ == self.0.bytes(),
    {
        self.0.to_bytes()
    }
}

/// Which side of a campaign ran.
#[derive(Clone, Copy, Debug, PartialEq, Eq, Structural)]
pub enum ShadowArm {
    Treatment,
    Control,
}

impl View for ShadowArm {
    type V = ShadowArm;

    open spec fn view(&self) -> ShadowArm {
        *self
    }
}

impl Wire<()> for ShadowArm {
    open spec fn wire(format: (), value: ShadowArm) -> Seq<u8> {
        match value {
            ShadowArm::Treatment => codec::put_u8(1),
            ShadowArm::Control => codec::put_u8(2),
        }
    }

    open spec fn parse(format: (), input: Seq<u8>) -> Option<(ShadowArm, Seq<u8>)> {
        match codec::parse_u8(input) {
            None => None,
            Some((tag, rest)) => match tag {
                1 => Some((ShadowArm::Treatment, rest)),
                2 => Some((ShadowArm::Control, rest)),
                _ => None,
            },
        }
    }

    open spec fn admissible(format: (), value: ShadowArm) -> bool {
        true
    }

    open spec fn least_bytes(format: ()) -> nat {
        1
    }

    proof fn lemma_round_trip(format: (), value: ShadowArm, rest: Seq<u8>) {
        broadcast use digest::group_digest;
    }

    proof fn lemma_least_bytes(format: (), value: ShadowArm) {
        broadcast use digest::group_digest;
    }

    fn write(&self, format: &(), output: &mut Vec<u8>) {
        broadcast use digest::group_digest;
        match self {
            ShadowArm::Treatment => codec::write_u8(1, output),
            ShadowArm::Control => codec::write_u8(2, output),
        }
    }

    fn read(format: &(), input: &mut Decoder<'_>) -> (result: Result<Self, ()>) {
        let tag: u8 = input.read_u8()?;
        match tag {
            1 => Ok(ShadowArm::Treatment),
            2 => Ok(ShadowArm::Control),
            _ => Err(()),
        }
    }
}

/// What one arm achieved on one axis; the value is a bit pattern.
#[derive(Clone, Copy, Debug, PartialEq, Eq, Structural)]
pub struct TypedOutcome {
    pub axis: ForecastAxis,
    pub value: u32,
}

impl View for TypedOutcome {
    type V = TypedOutcome;

    open spec fn view(&self) -> TypedOutcome {
        *self
    }
}

impl TypedOutcome {
    /// What an unused slot holds.
    pub open spec fn placeholder() -> TypedOutcome {
        TypedOutcome { axis: ForecastAxis::KernelAcceptance, value: 0 }
    }

    /// Accepts a finite value.
    pub fn new(axis: ForecastAxis, value: u32) -> (result: Result<Self, IntelligenceError>)
        ensures
            result == (if forecast::finite(value) {
                Ok::<Self, IntelligenceError>((TypedOutcome { axis, value }))
            } else {
                Err(IntelligenceError::InvalidForecast)
            }),
    {
        if !forecast::is_finite(value) {
            return Err(IntelligenceError::InvalidForecast);
        }
        Ok(Self { axis, value })
    }
}

impl Wire<()> for TypedOutcome {
    open spec fn wire(format: (), value: TypedOutcome) -> Seq<u8> {
        ForecastAxis::wire((), value.axis) + (codec::put_u32(value.value))
    }

    open spec fn parse(format: (), input: Seq<u8>) -> Option<(TypedOutcome, Seq<u8>)> {
        match ForecastAxis::parse((), input) {
            None => None,
            Some((axis, rest)) => match codec::parse_u32(rest) {
                None => None,
                Some((value, rest)) => if forecast::finite(value) {
                    Some((TypedOutcome { axis, value }, rest))
                } else { None },
            },
        }
    }

    open spec fn admissible(format: (), value: TypedOutcome) -> bool {
        forecast::finite(value.value)
    }

    open spec fn least_bytes(format: ()) -> nat {
        5
    }

    proof fn lemma_round_trip(format: (), value: TypedOutcome, rest: Seq<u8>) {
        broadcast use digest::group_digest;
        broadcast use types::lemma_source_round_trip;
        broadcast use types::lemma_resources_round_trip;

        ForecastAxis::lemma_round_trip((), value.axis, codec::put_u32(value.value) + (rest));
    }

    proof fn lemma_least_bytes(format: (), value: TypedOutcome) {
        broadcast use digest::group_digest;
        broadcast use types::lemma_resources_len;

        ForecastAxis::lemma_least_bytes((), value.axis);
    }

    fn write(&self, format: &(), output: &mut Vec<u8>) {
        broadcast use digest::group_digest;

        self.axis.write(&(), output);
        codec::write_u32(self.value, output);
    }

    fn read(format: &(), input: &mut Decoder<'_>) -> (result: Result<Self, ()>) {
        let axis = ForecastAxis::read(&(), input)?;
        let value: u32 = input.read_u32()?;
        match TypedOutcome::new(axis, value) {
            Ok(outcome) => Ok(outcome),
            Err(_) => Err(()),
        }
    }
}

// ---------------------------------------------------------------------------
// Campaign specifications
// ---------------------------------------------------------------------------
/// Axes that a campaign can be opened for: some, and none twice.
pub open spec fn valid_axes(axes: Seq<ForecastAxis>) -> bool {
    axes.len() > 0 && forecast::distinct_axes(axes)
}

/// The bytes that a campaign is named after.
pub open spec fn campaign_bytes(
    checkpoint: CheckpointDigest,
    subject: SubjectId,
    resources: ResourceVector,
    random_stream: SubjectId,
    axes: Seq<ForecastAxis>,
) -> Seq<u8> {
    checkpoint.0.bytes() + (subject.0.bytes() + (types::put_resources(resources) + (
    random_stream.0.bytes() + codec::put_list::<(), ForecastAxis>((), axes))))
}

/// The name of a campaign.
pub open spec fn campaign_id(
    checkpoint: CheckpointDigest,
    subject: SubjectId,
    resources: ResourceVector,
    random_stream: SubjectId,
    axes: Seq<ForecastAxis>,
) -> ShadowCampaignId {
    ShadowCampaignId(
        digest::labelled(
            "reflex-shadow-campaign-v1\0",
            campaign_bytes(checkpoint, subject, resources, random_stream, axes),
        ),
    )
}

pub fn shadow_campaign_id(
    checkpoint: CheckpointDigest,
    subject: SubjectId,
    resources: ResourceVector,
    random_stream: SubjectId,
    axes: &[ForecastAxis],
) -> (id: ShadowCampaignId)
    ensures
        id == campaign_id(checkpoint, subject, resources, random_stream, axes@),
{
    broadcast use digest::group_digest;

    let mut encoded: Vec<u8> = Vec::new();
    write_digest(checkpoint.0, &mut encoded);
    write_digest(subject.0, &mut encoded);
    encode_resources(resources, &mut encoded);
    write_digest(random_stream.0, &mut encoded);
    codec::write_list::<(), ForecastAxis>(&(), axes, &mut encoded);
    assert(codec::views(axes@) =~= axes@);
    assert(encoded@ =~= campaign_bytes(checkpoint, subject, resources, random_stream, axes@));
    ShadowCampaignId(hash_labelled("reflex-shadow-campaign-v1\0", encoded.as_slice()))
}

/// What a campaign compares, and under which conditions.
#[derive(Clone, Copy, Debug, PartialEq, Eq)]
pub struct ShadowCampaignSpec {
    pub id: ShadowCampaignId,
    pub checkpoint: CheckpointDigest,
    pub subject: SubjectId,
    pub resources: ResourceVector,
    pub random_stream: SubjectId,
    pub axis_count: u8,
    pub axes: [ForecastAxis; 9],
}

impl ShadowCampaignSpec {
    /// Whether two specifications are the same.
    pub fn same_as(&self, other: &Self) -> (result: bool)
        ensures
            result == (*self == *other),
    {
        self.id == other.id && self.checkpoint == other.checkpoint && self.subject
            == other.subject && self.resources == other.resources && self.random_stream
            == other.random_stream && self.axis_count == other.axis_count && same_axes(
            &self.axes,
            &other.axes,
        )
    }
}

impl View for ShadowCampaignSpec {
    type V = ShadowCampaignSpec;

    open spec fn view(&self) -> ShadowCampaignSpec {
        *self
    }
}

impl ShadowCampaignSpec {
    pub open spec fn axis_list(self) -> Seq<ForecastAxis> {
        padded::listed(self.axes, self.axis_count)
    }

    /// Valid axes, padding behind them, and the name that follows from the rest.
    pub open spec fn well_formed(self) -> bool {
        &&& self.axis_count <= 9
        &&& padded::holds(self.axes, self.axis_list(), ForecastAxis::KernelAcceptance)
        &&& valid_axes(self.axis_list())
        &&& self.id == campaign_id(
            self.checkpoint,
            self.subject,
            self.resources,
            self.random_stream,
            self.axis_list(),
        )
    }

    /// The specification with the given facts.
    pub open spec fn of(
        checkpoint: CheckpointDigest,
        subject: SubjectId,
        resources: ResourceVector,
        random_stream: SubjectId,
        axes: Seq<ForecastAxis>,
    ) -> ShadowCampaignSpec {
        ShadowCampaignSpec {
            id: campaign_id(checkpoint, subject, resources, random_stream, axes),
            checkpoint,
            subject,
            resources,
            random_stream,
            axis_count: axes.len() as u8,
            axes: padded::padded::<ForecastAxis, 9>(axes, ForecastAxis::KernelAcceptance),
        }
    }

    pub fn new(
        checkpoint: CheckpointDigest,
        subject: SubjectId,
        resources: ResourceVector,
        random_stream: SubjectId,
        axes: &[ForecastAxis],
    ) -> (result: Result<Self, IntelligenceError>)
        ensures
            result == (if valid_axes(axes@) {
                Ok::<Self, IntelligenceError>(
                    Self::of(checkpoint, subject, resources, random_stream, axes@),
                )
            } else {
                Err(IntelligenceError::InvalidForecast)
            }),
            result matches Ok(specification) ==> specification.well_formed()
                && specification.axis_list() == axes@,
    {
        if axes.len() == 0 || !forecast::axes_are_distinct(axes) {
            return Err(IntelligenceError::InvalidForecast);
        }
        proof {
            forecast::lemma_distinct_axes_bounded(axes@);
        }
        let specification = Self {
            id: shadow_campaign_id(checkpoint, subject, resources, random_stream, axes),
            checkpoint,
            subject,
            resources,
            random_stream,
            axis_count: axes.len() as u8,
            axes: padded::pad_list::<ForecastAxis, 9>(axes, ForecastAxis::KernelAcceptance),
        };
        assert(specification.axis_list() =~= axes@);
        Ok(specification)
    }

    pub fn id(&self) -> (id: ShadowCampaignId)
        ensures
            id == self.id,
    {
        self.id
    }

    pub fn checkpoint(&self) -> (checkpoint: CheckpointDigest)
        ensures
            checkpoint == self.checkpoint,
    {
        self.checkpoint
    }

    pub fn subject(&self) -> (subject: SubjectId)
        ensures
            subject == self.subject,
    {
        self.subject
    }

    pub fn resources(&self) -> (resources: ResourceVector)
        ensures
            resources == self.resources,
    {
        self.resources
    }

    pub fn random_stream(&self) -> (stream: SubjectId)
        ensures
            stream == self.random_stream,
    {
        self.random_stream
    }

}

fn same_axes(left: &[ForecastAxis; 9], right: &[ForecastAxis; 9]) -> (result: bool)
    ensures
        result == (*left == *right),
{
    let mut index: usize = 0;
    while index < 9
        invariant
            index <= 9,
            forall|i: int| 0 <= i < index ==> left@[i] == right@[i],
        decreases 9 - index,
    {
        if left[index] != right[index] {
            assert(left@[index as int] != right@[index as int]);
            return false;
        }
        index = index + 1;
    }
    assert(*left =~= *right);
    true
}

impl Wire<()> for ShadowCampaignSpec {
    open spec fn wire(format: (), value: ShadowCampaignSpec) -> Seq<u8> {
        value.id.0.bytes() + (value.checkpoint.0.bytes() + (value.subject.0.bytes()
            + (types::put_resources(value.resources) + (value.random_stream.0.bytes()
            + (codec::put_list::<(), ForecastAxis>((), value.axis_list()))))))
    }

    open spec fn parse(format: (), input: Seq<u8>) -> Option<(ShadowCampaignSpec, Seq<u8>)> {
        match digest::parse_digest(input) {
            None => None,
            Some((id, rest)) => match digest::parse_digest(rest) {
                None => None,
                Some((checkpoint, rest)) => match digest::parse_digest(rest) {
                    None => None,
                    Some((subject, rest)) => match types::parse_resources(rest) {
                        None => None,
                        Some((resources, rest)) => match digest::parse_digest(rest) {
                            None => None,
                            Some((random_stream, rest)) => match codec::parse_list::<(), ForecastAxis>((), rest, 32, 1) {
                                None => None,
                                Some((axes, rest)) => {
                                    let specification = ShadowCampaignSpec::of(
                                        CheckpointDigest(checkpoint),
                                        SubjectId(subject),
                                        resources,
                                        SubjectId(random_stream),
                                        axes,
                                    );
                                    if valid_axes(axes) && specification.id.0 == id {
                                        Some((specification, rest))
                                    } else { None }
                                },
                            },
                        },
                    },
                },
            },
        }
    }

    open spec fn admissible(format: (), value: ShadowCampaignSpec) -> bool {
        value.well_formed()
    }

    open spec fn least_bytes(format: ()) -> nat {
        176
    }

    proof fn lemma_round_trip(format: (), value: ShadowCampaignSpec, rest: Seq<u8>) {
        broadcast use digest::group_digest;
        broadcast use types::lemma_source_round_trip;
        broadcast use types::lemma_resources_round_trip;
        forecast::lemma_distinct_axes_bounded(value.axis_list());
        padded::lemma_padded::<ForecastAxis, 9>(
            value.axes,
            value.axis_list(),
            ForecastAxis::KernelAcceptance,
        );
        codec::lemma_list_round_trip::<(), ForecastAxis>((), value.axis_list(), 32, 1, rest);
    }

    proof fn lemma_least_bytes(format: (), value: ShadowCampaignSpec) {
        broadcast use digest::group_digest;
        broadcast use types::lemma_resources_len;
    }

    fn write(&self, format: &(), output: &mut Vec<u8>) {
        broadcast use digest::group_digest;
        assert(codec::views(self.axis_list()) =~= self.axis_list());
        write_digest(self.id.0, output);
        write_digest(self.checkpoint.0, output);
        write_digest(self.subject.0, output);
        encode_resources(self.resources, output);
        write_digest(self.random_stream.0, output);
        codec::write_list::<(), ForecastAxis>(
            &(),
            padded::used(&self.axes, self.axis_count),
            output,
        );
    }

    fn read(format: &(), input: &mut Decoder<'_>) -> (result: Result<Self, ()>) {
        let id = input.read_digest()?;
        let checkpoint = input.read_digest()?;
        let subject = input.read_digest()?;
        let resources = decode_resources(input)?;
        let random_stream = input.read_digest()?;
        let axes = codec::read_list::<(), ForecastAxis>(&(), input, 32, 1)?;
        assert(codec::views(axes@) =~= axes@);
        let specification = match ShadowCampaignSpec::new(CheckpointDigest(checkpoint), SubjectId(subject), resources, SubjectId(random_stream), axes.as_slice()) {
            Ok(specification) => specification,
            Err(_) => return Err(()),
        };
        if specification.id.0 != id {
            return Err(());
        }
        Ok(specification)
    }
}

// ---------------------------------------------------------------------------
// Arm outcomes
// ---------------------------------------------------------------------------
/// The axes of some outcomes, in order.
pub open spec fn outcome_axes(outcomes: Seq<TypedOutcome>) -> Seq<ForecastAxis> {
    Seq::new(outcomes.len(), |i: int| outcomes[i].axis)
}

/// Outcomes that an arm can report: some, and none twice on an axis.
pub open spec fn valid_outcomes(outcomes: Seq<TypedOutcome>) -> bool {
    valid_axes(outcome_axes(outcomes))
}

pub open spec fn all_outcomes_finite(outcomes: Seq<TypedOutcome>) -> bool {
    forall|i: int| 0 <= i < outcomes.len() ==> forecast::finite((#[trigger] outcomes[i]).value)
}

/// What one arm of a campaign reported.
#[derive(Clone, Copy, Debug, PartialEq, Eq)]
pub struct ShadowArmOutcome {
    pub campaign: ShadowCampaignId,
    pub arm: ShadowArm,
    pub checkpoint: CheckpointDigest,
    pub resources: ResourceVector,
    pub random_stream: SubjectId,
    pub outcome_count: u8,
    pub outcomes: [TypedOutcome; 9],
}

impl View for ShadowArmOutcome {
    type V = ShadowArmOutcome;

    open spec fn view(&self) -> ShadowArmOutcome {
        *self
    }
}

fn axes_of_outcomes(outcomes: &[TypedOutcome]) -> (axes: Vec<ForecastAxis>)
    ensures
        axes@ == outcome_axes(outcomes@),
{
    let mut axes: Vec<ForecastAxis> = Vec::new();
    let mut index: usize = 0;
    while index < outcomes.len()
        invariant
            index <= outcomes@.len(),
            axes@.len() == index,
            forall|i: int| 0 <= i < index ==> axes@[i] == outcomes@[i].axis,
        decreases outcomes@.len() - index,
    {
        axes.push(outcomes[index].axis);
        index = index + 1;
    }
    assert(axes@ =~= outcome_axes(outcomes@));
    axes
}

impl ShadowArmOutcome {
    pub open spec fn outcome_list(self) -> Seq<TypedOutcome> {
        padded::listed(self.outcomes, self.outcome_count)
    }

    /// Valid finite outcomes with padding behind them.
    pub open spec fn well_formed(self) -> bool {
        &&& self.outcome_count <= 9
        &&& padded::holds(self.outcomes, self.outcome_list(), TypedOutcome::placeholder())
        &&& valid_outcomes(self.outcome_list())
        &&& all_outcomes_finite(self.outcome_list())
    }

    /// The report with the given facts.
    pub open spec fn of(
        campaign: ShadowCampaignId,
        arm: ShadowArm,
        checkpoint: CheckpointDigest,
        resources: ResourceVector,
        random_stream: SubjectId,
        outcomes: Seq<TypedOutcome>,
    ) -> ShadowArmOutcome {
        ShadowArmOutcome {
            campaign,
            arm,
            checkpoint,
            resources,
            random_stream,
            outcome_count: outcomes.len() as u8,
            outcomes: padded::padded::<TypedOutcome, 9>(outcomes, TypedOutcome::placeholder()),
        }
    }

    pub fn new(
        campaign: ShadowCampaignId,
        arm: ShadowArm,
        checkpoint: CheckpointDigest,
        resources: ResourceVector,
        random_stream: SubjectId,
        outcomes: &[TypedOutcome],
    ) -> (result: Result<Self, IntelligenceError>)
        ensures
            result == (if valid_outcomes(outcomes@) {
                Ok::<Self, IntelligenceError>(
                    Self::of(campaign, arm, checkpoint, resources, random_stream, outcomes@),
                )
            } else {
                Err(IntelligenceError::InvalidForecast)
            }),
            result matches Ok(outcome) ==> outcome.outcome_list() == outcomes@ && (
            all_outcomes_finite(outcomes@) ==> outcome.well_formed()),
    {
        let axes = axes_of_outcomes(outcomes);
        if outcomes.len() == 0 || !forecast::axes_are_distinct(axes.as_slice()) {
            return Err(IntelligenceError::InvalidForecast);
        }
        proof {
            forecast::lemma_distinct_axes_bounded(axes@);
        }
        let outcome = Self {
            campaign,
            arm,
            checkpoint,
            resources,
            random_stream,
            outcome_count: outcomes.len() as u8,
            outcomes: padded::pad_list::<TypedOutcome, 9>(
                outcomes,
                TypedOutcome { axis: ForecastAxis::KernelAcceptance, value: 0 },
            ),
        };
        assert(outcome.outcome_list() =~= outcomes@);
        Ok(outcome)
    }

    pub fn outcomes(&self) -> (outcomes: &[TypedOutcome])
        ensures
            outcomes@ == self.outcome_list(),
    {
        padded::used(&self.outcomes, self.outcome_count)
    }
}

impl Wire<()> for ShadowArmOutcome {
    open spec fn wire(format: (), value: ShadowArmOutcome) -> Seq<u8> {
        value.campaign.0.bytes() + (ShadowArm::wire((), value.arm) + (value.checkpoint.0.bytes()
            + (types::put_resources(value.resources) + (value.random_stream.0.bytes()
            + (codec::put_list::<(), TypedOutcome>((), value.outcome_list()))))))
    }

    open spec fn parse(format: (), input: Seq<u8>) -> Option<(ShadowArmOutcome, Seq<u8>)> {
        match digest::parse_digest(input) {
            None => None,
            Some((campaign, rest)) => match ShadowArm::parse((), rest) {
                None => None,
                Some((arm, rest)) => match digest::parse_digest(rest) {
                    None => None,
                    Some((checkpoint, rest)) => match types::parse_resources(rest) {
                        None => None,
                        Some((resources, rest)) => match digest::parse_digest(rest) {
                            None => None,
                            Some((random_stream, rest)) => match codec::parse_list::<(), TypedOutcome>((), rest, 32, 5) {
                                None => None,
                                Some((outcomes, rest)) => if valid_outcomes(outcomes) {
                                    Some(
                                        (
                                            ShadowArmOutcome::of(
                                                ShadowCampaignId(campaign),
                                                arm,
                                                CheckpointDigest(checkpoint),
                                                resources,
                                                SubjectId(random_stream),
                                                outcomes,
                                            ),
                                            rest,
                                        ),
                                    )
                                } else { None },
                            },
                        },
                    },
                },
            },
        }
    }

    open spec fn admissible(format: (), value: ShadowArmOutcome) -> bool {
        value.well_formed()
    }

    open spec fn least_bytes(format: ()) -> nat {
        145
    }

    proof fn lemma_round_trip(format: (), value: ShadowArmOutcome, rest: Seq<u8>) {
        broadcast use digest::group_digest;
        broadcast use types::lemma_source_round_trip;
        broadcast use types::lemma_resources_round_trip;
        forecast::lemma_distinct_axes_bounded(outcome_axes(value.outcome_list()));
        padded::lemma_padded::<TypedOutcome, 9>(
            value.outcomes,
            value.outcome_list(),
            TypedOutcome::placeholder(),
        );
        assert(codec::all_admissible::<(), TypedOutcome>((), value.outcome_list()));
        ShadowArm::lemma_round_trip(
            (),
            value.arm,
            value.checkpoint.0.bytes() + (types::put_resources(value.resources)
                + (value.random_stream.0.bytes()
                + (codec::put_list::<(), TypedOutcome>((), value.outcome_list()) + (rest)))),
        );
        codec::lemma_list_round_trip::<(), TypedOutcome>((), value.outcome_list(), 32, 5, rest);
    }

    proof fn lemma_least_bytes(format: (), value: ShadowArmOutcome) {
        broadcast use digest::group_digest;
        broadcast use types::lemma_resources_len;

        ShadowArm::lemma_least_bytes((), value.arm);
    }

    fn write(&self, format: &(), output: &mut Vec<u8>) {
        broadcast use digest::group_digest;
        assert(codec::views(self.outcome_list()) =~= self.outcome_list());
        write_digest(self.campaign.0, output);
        self.arm.write(&(), output);
        write_digest(self.checkpoint.0, output);
        encode_resources(self.resources, output);
        write_digest(self.random_stream.0, output);
        codec::write_list::<(), TypedOutcome>(
            &(),
            padded::used(&self.outcomes, self.outcome_count),
            output,
        );
    }

    fn read(format: &(), input: &mut Decoder<'_>) -> (result: Result<Self, ()>) {
        let campaign = input.read_digest()?;
        let arm = ShadowArm::read(&(), input)?;
        let checkpoint = input.read_digest()?;
        let resources = decode_resources(input)?;
        let random_stream = input.read_digest()?;
        let outcomes = codec::read_list::<(), TypedOutcome>(&(), input, 32, 5)?;
        assert(codec::views(outcomes@) =~= outcomes@);
        match ShadowArmOutcome::new(ShadowCampaignId(campaign), arm, CheckpointDigest(checkpoint), resources, SubjectId(random_stream), outcomes.as_slice()) {
            Ok(outcome) => Ok(outcome),
            Err(_) => Err(()),
        }
    }
}

// ---------------------------------------------------------------------------
// Updates and lifecycle
// ---------------------------------------------------------------------------
/// Why a campaign counts for nothing any more.
#[derive(Clone, Copy, Debug, PartialEq, Eq, Structural)]
pub enum ShadowInvalidationReason {
    DuplicateOpen,
    DuplicateArm(ShadowArm),
    CheckpointMismatch,
    ResourceMismatch,
    RandomStreamMismatch,
    OutcomeAxesMismatch,
    AsymmetricArms,
    Interrupted,
}

impl View for ShadowInvalidationReason {
    type V = ShadowInvalidationReason;

    open spec fn view(&self) -> ShadowInvalidationReason {
        *self
    }
}

impl Wire<()> for ShadowInvalidationReason {
    open spec fn wire(format: (), value: ShadowInvalidationReason) -> Seq<u8> {
        match value {
            ShadowInvalidationReason::DuplicateOpen => codec::put_u8(1),
            ShadowInvalidationReason::DuplicateArm(arm) => codec::put_u8(2)
                + ShadowArm::wire((), arm),
            ShadowInvalidationReason::CheckpointMismatch => codec::put_u8(3),
            ShadowInvalidationReason::ResourceMismatch => codec::put_u8(4),
            ShadowInvalidationReason::RandomStreamMismatch => codec::put_u8(5),
            ShadowInvalidationReason::OutcomeAxesMismatch => codec::put_u8(6),
            ShadowInvalidationReason::AsymmetricArms => codec::put_u8(7),
            ShadowInvalidationReason::Interrupted => codec::put_u8(8),
        }
    }

    open spec fn parse(format: (), input: Seq<u8>) -> Option<(ShadowInvalidationReason, Seq<u8>)> {
        match codec::parse_u8(input) {
            None => None,
            Some((tag, rest)) => match tag {
                1 => Some((ShadowInvalidationReason::DuplicateOpen, rest)),
                2 => match ShadowArm::parse((), rest) {
                    None => None,
                    Some((item, rest)) => Some((ShadowInvalidationReason::DuplicateArm(item), rest)),
                },
                3 => Some((ShadowInvalidationReason::CheckpointMismatch, rest)),
                4 => Some((ShadowInvalidationReason::ResourceMismatch, rest)),
                5 => Some((ShadowInvalidationReason::RandomStreamMismatch, rest)),
                6 => Some((ShadowInvalidationReason::OutcomeAxesMismatch, rest)),
                7 => Some((ShadowInvalidationReason::AsymmetricArms, rest)),
                8 => Some((ShadowInvalidationReason::Interrupted, rest)),
                _ => None,
            },
        }
    }

    open spec fn admissible(format: (), value: ShadowInvalidationReason) -> bool {
        true
    }

    open spec fn least_bytes(format: ()) -> nat {
        1
    }

    proof fn lemma_round_trip(format: (), value: ShadowInvalidationReason, rest: Seq<u8>) {
        broadcast use digest::group_digest;
        match value {
            ShadowInvalidationReason::DuplicateArm(arm) => {
                ShadowArm::lemma_round_trip((), arm, rest);
            },
            _ => {},
        }
    }

    proof fn lemma_least_bytes(format: (), value: ShadowInvalidationReason) {
        broadcast use digest::group_digest;
    }

    fn write(&self, format: &(), output: &mut Vec<u8>) {
        encode_shadow_invalidation_reason(*self, output)
    }

    fn read(format: &(), input: &mut Decoder<'_>) -> (result: Result<Self, ()>) {
        decode_shadow_invalidation_reason(input)
    }
}

pub fn encode_shadow_invalidation_reason(reason: ShadowInvalidationReason, output: &mut Vec<u8>)
    ensures
        final(output)@ == old(output)@ + ShadowInvalidationReason::wire((), reason),
{
    broadcast use digest::group_digest;
    match reason {
        ShadowInvalidationReason::DuplicateOpen => codec::write_u8(1, output),
        ShadowInvalidationReason::DuplicateArm(arm) => {
            codec::write_u8(2, output);
            arm.write(&(), output);
        },
        ShadowInvalidationReason::CheckpointMismatch => codec::write_u8(3, output),
        ShadowInvalidationReason::ResourceMismatch => codec::write_u8(4, output),
        ShadowInvalidationReason::RandomStreamMismatch => codec::write_u8(5, output),
        ShadowInvalidationReason::OutcomeAxesMismatch => codec::write_u8(6, output),
        ShadowInvalidationReason::AsymmetricArms => codec::write_u8(7, output),
        ShadowInvalidationReason::Interrupted => codec::write_u8(8, output),
    }
}

pub fn decode_shadow_invalidation_reason(input: &mut Decoder<'_>) -> (result: Result<
    ShadowInvalidationReason,
    (),
>)
    ensures
        codec::reads_view(result, final(input)@, ShadowInvalidationReason::parse((), old(input)@)),
{
    let tag: u8 = input.read_u8()?;
    match tag {
        1 => Ok(ShadowInvalidationReason::DuplicateOpen),
        2 => {
            let item = ShadowArm::read(&(), input)?;
            Ok(ShadowInvalidationReason::DuplicateArm(item))
        },
        3 => Ok(ShadowInvalidationReason::CheckpointMismatch),
        4 => Ok(ShadowInvalidationReason::ResourceMismatch),
        5 => Ok(ShadowInvalidationReason::RandomStreamMismatch),
        6 => Ok(ShadowInvalidationReason::OutcomeAxesMismatch),
        7 => Ok(ShadowInvalidationReason::AsymmetricArms),
        8 => Ok(ShadowInvalidationReason::Interrupted),
        _ => Err(()),
    }
}

/// Where a campaign stands.
#[derive(Clone, Copy, Debug, PartialEq, Eq, Structural)]
pub enum ShadowCampaignLifecycle {
    Open,
    Completed,
    Invalidated(ShadowInvalidationReason),
}

impl View for ShadowCampaignLifecycle {
    type V = ShadowCampaignLifecycle;

    open spec fn view(&self) -> ShadowCampaignLifecycle {
        *self
    }
}

impl Wire<()> for ShadowCampaignLifecycle {
    open spec fn wire(format: (), value: ShadowCampaignLifecycle) -> Seq<u8> {
        match value {
            ShadowCampaignLifecycle::Open => codec::put_u8(1),
            ShadowCampaignLifecycle::Completed => codec::put_u8(2),
            ShadowCampaignLifecycle::Invalidated(reason) => codec::put_u8(3)
                + ShadowInvalidationReason::wire((), reason),
        }
    }

    open spec fn parse(format: (), input: Seq<u8>) -> Option<(ShadowCampaignLifecycle, Seq<u8>)> {
        match codec::parse_u8(input) {
            None => None,
            Some((tag, rest)) => match tag {
                1 => Some((ShadowCampaignLifecycle::Open, rest)),
                2 => Some((ShadowCampaignLifecycle::Completed, rest)),
                3 => match ShadowInvalidationReason::parse((), rest) {
                    None => None,
                    Some((item, rest)) => Some((ShadowCampaignLifecycle::Invalidated(item), rest)),
                },
                _ => None,
            },
        }
    }

    open spec fn admissible(format: (), value: ShadowCampaignLifecycle) -> bool {
        true
    }

    open spec fn least_bytes(format: ()) -> nat {
        1
    }

    proof fn lemma_round_trip(format: (), value: ShadowCampaignLifecycle, rest: Seq<u8>) {
        broadcast use digest::group_digest;
        match value {
            ShadowCampaignLifecycle::Invalidated(reason) => {
                ShadowInvalidationReason::lemma_round_trip((), reason, rest);
            },
            _ => {},
        }
    }

    proof fn lemma_least_bytes(format: (), value: ShadowCampaignLifecycle) {
        broadcast use digest::group_digest;
    }

    fn write(&self, format: &(), output: &mut Vec<u8>) {
        encode_shadow_lifecycle(*self, output)
    }

    fn read(format: &(), input: &mut Decoder<'_>) -> (result: Result<Self, ()>) {
        decode_shadow_lifecycle(input)
    }
}

pub fn encode_shadow_lifecycle(lifecycle: ShadowCampaignLifecycle, output: &mut Vec<u8>)
    ensures
        final(output)@ == old(output)@ + ShadowCampaignLifecycle::wire((), lifecycle),
{
    broadcast use digest::group_digest;
    match lifecycle {
        ShadowCampaignLifecycle::Open => codec::write_u8(1, output),
        ShadowCampaignLifecycle::Completed => codec::write_u8(2, output),
        ShadowCampaignLifecycle::Invalidated(reason) => {
            codec::write_u8(3, output);
            encode_shadow_invalidation_reason(reason, output);
        },
    }
}

pub fn decode_shadow_lifecycle(input: &mut Decoder<'_>) -> (result: Result<
    ShadowCampaignLifecycle,
    (),
>)
    ensures
        codec::reads_view(result, final(input)@, ShadowCampaignLifecycle::parse((), old(input)@)),
{
    let tag: u8 = input.read_u8()?;
    match tag {
        1 => Ok(ShadowCampaignLifecycle::Open),
        2 => Ok(ShadowCampaignLifecycle::Completed),
        3 => {
            let item = ShadowInvalidationReason::read(&(), input)?;
            Ok(ShadowCampaignLifecycle::Invalidated(item))
        },
        _ => Err(()),
    }
}

/// One step in the life of a campaign.
#[derive(Clone, Copy, Debug, PartialEq, Eq)]
pub enum ShadowUpdate {
    Open(ShadowCampaignSpec),
    Outcome(ShadowArmOutcome),
    Close(ShadowCampaignId),
    Invalidate { campaign: ShadowCampaignId, reason: ShadowInvalidationReason },
}

impl View for ShadowUpdate {
    type V = ShadowUpdate;

    open spec fn view(&self) -> ShadowUpdate {
        *self
    }
}

impl ShadowUpdate {
    /// What it carries is well formed.
    pub open spec fn well_formed(self) -> bool {
        match self {
            ShadowUpdate::Open(specification) => specification.well_formed(),
            ShadowUpdate::Outcome(outcome) => outcome.well_formed(),
            _ => true,
        }
    }

    pub fn close(campaign: ShadowCampaignId) -> (update: Self)
        ensures
            update == ShadowUpdate::Close(campaign),
    {
        ShadowUpdate::Close(campaign)
    }

    pub fn interrupted(campaign: ShadowCampaignId) -> (update: Self)
        ensures
            update == (ShadowUpdate::Invalidate {
                campaign,
                reason: ShadowInvalidationReason::Interrupted,
            }),
    {
        Self::invalidate(campaign, ShadowInvalidationReason::Interrupted)
    }

    pub fn invalidate(campaign: ShadowCampaignId, reason: ShadowInvalidationReason) -> (update: Self)
        ensures
            update == (ShadowUpdate::Invalidate { campaign, reason }),
    {
        ShadowUpdate::Invalidate { campaign, reason }
    }
}

impl Wire<()> for ShadowUpdate {
    open spec fn wire(format: (), value: ShadowUpdate) -> Seq<u8> {
        match value {
            ShadowUpdate::Open(specification) => codec::put_u8(1)
                + ShadowCampaignSpec::wire((), specification),
            ShadowUpdate::Outcome(outcome) => codec::put_u8(2)
                + ShadowArmOutcome::wire((), outcome),
            ShadowUpdate::Close(campaign) => codec::put_u8(3) + campaign.0.bytes(),
            ShadowUpdate::Invalidate {
                campaign,
                reason,
            } => codec::put_u8(4) + (campaign.0.bytes()
                + ShadowInvalidationReason::wire((), reason)),
        }
    }

    open spec fn parse(format: (), input: Seq<u8>) -> Option<(ShadowUpdate, Seq<u8>)> {
        match codec::parse_u8(input) {
            None => None,
            Some((tag, rest)) => match tag {
                1 => match ShadowCampaignSpec::parse((), rest) {
                    None => None,
                    Some((item, rest)) => Some((ShadowUpdate::Open(item), rest)),
                },
                2 => match ShadowArmOutcome::parse((), rest) {
                    None => None,
                    Some((item, rest)) => Some((ShadowUpdate::Outcome(item), rest)),
                },
                3 => match digest::parse_digest(rest) {
                    None => None,
                    Some((item, rest)) => Some((ShadowUpdate::Close(ShadowCampaignId(item)), rest)),
                },
                4 => match parse_invalidation(rest) {
                    None => None,
                    Some((item, rest)) => Some((ShadowUpdate::Invalidate { campaign: item.0, reason: item.1 }, rest)),
                },
                _ => None,
            },
        }
    }

    open spec fn admissible(format: (), value: ShadowUpdate) -> bool {
        value.well_formed()
    }

    open spec fn least_bytes(format: ()) -> nat {
        1
    }

    proof fn lemma_round_trip(format: (), value: ShadowUpdate, rest: Seq<u8>) {
        broadcast use digest::group_digest;
        match value {
            ShadowUpdate::Open(specification) => {
                ShadowCampaignSpec::lemma_round_trip((), specification, rest);
            },
            ShadowUpdate::Outcome(outcome) => {
                ShadowArmOutcome::lemma_round_trip((), outcome, rest);
            },
            ShadowUpdate::Invalidate {
                campaign,
                reason,
            } => {
                ShadowInvalidationReason::lemma_round_trip((), reason, rest);
            },
            _ => {},
        }
    }

    proof fn lemma_least_bytes(format: (), value: ShadowUpdate) {
        broadcast use digest::group_digest;
    }

    fn write(&self, format: &(), output: &mut Vec<u8>) {
        broadcast use digest::group_digest;
        match self {
            ShadowUpdate::Open(specification) => {
                codec::write_u8(1, output);
                specification.write(&(), output);
            },
            ShadowUpdate::Outcome(outcome) => {
                codec::write_u8(2, output);
                outcome.write(&(), output);
            },
            ShadowUpdate::Close(campaign) => {
                codec::write_u8(3, output);
                write_digest(campaign.0, output);
            },
            ShadowUpdate::Invalidate {
                campaign,
                reason,
            } => {
                codec::write_u8(4, output);
                write_digest(campaign.0, output);
                reason.write(&(), output);
            },
        }
    }

    fn read(format: &(), input: &mut Decoder<'_>) -> (result: Result<Self, ()>) {
        let tag: u8 = input.read_u8()?;
        match tag {
            1 => {
                let item = ShadowCampaignSpec::read(&(), input)?;
                Ok(ShadowUpdate::Open(item))
            },
            2 => {
                let item = ShadowArmOutcome::read(&(), input)?;
                Ok(ShadowUpdate::Outcome(item))
            },
            3 => {
                let item = input.read_digest()?;
                Ok(ShadowUpdate::Close(ShadowCampaignId(item)))
            },
            4 => {
                let item = read_invalidation(input)?;
                Ok(ShadowUpdate::Invalidate { campaign: item.0, reason: item.1 })
            },
            _ => Err(()),
        }
    }
}

/// A campaign and the reason that ends it.
pub open spec fn parse_invalidation(input: Seq<u8>) -> Option<
    ((ShadowCampaignId, ShadowInvalidationReason), Seq<u8>),
> {
    match digest::parse_digest(input) {
        None => None,
        Some((campaign, rest)) => match ShadowInvalidationReason::parse((), rest) {
            None => None,
            Some((reason, rest)) => Some(((ShadowCampaignId(campaign), reason), rest)),
        },
    }
}

fn read_invalidation(input: &mut Decoder<'_>) -> (result: Result<
    (ShadowCampaignId, ShadowInvalidationReason),
    (),
>)
    ensures
        codec::reads(result, final(input)@, parse_invalidation(old(input)@)),
{
    let campaign = input.read_digest()?;
    let reason = ShadowInvalidationReason::read(&(), input)?;
    Ok((ShadowCampaignId(campaign), reason))
}

/// Why an outcome does not belong to a campaign, if it does not.
pub open spec fn mismatch(
    specification: ShadowCampaignSpec,
    outcome: ShadowArmOutcome,
) -> Option<ShadowInvalidationReason> {
    if outcome.checkpoint != specification.checkpoint {
        Some(ShadowInvalidationReason::CheckpointMismatch)
    } else if !outcome.resources.within(specification.resources) {
        Some(ShadowInvalidationReason::ResourceMismatch)
    } else if outcome.random_stream != specification.random_stream {
        Some(ShadowInvalidationReason::RandomStreamMismatch)
    } else if outcome_axes(outcome.outcome_list()) != specification.axis_list() {
        Some(ShadowInvalidationReason::OutcomeAxesMismatch)
    } else {
        None
    }
}

pub fn shadow_outcome_mismatch(
    specification: &ShadowCampaignSpec,
    outcome: &ShadowArmOutcome,
) -> (reason: Option<ShadowInvalidationReason>)
    ensures
        reason == mismatch(*specification, *outcome),
{
    if outcome.checkpoint != specification.checkpoint {
        Some(ShadowInvalidationReason::CheckpointMismatch)
    } else if !outcome.resources.fits_within(specification.resources) {
        Some(ShadowInvalidationReason::ResourceMismatch)
    } else if outcome.random_stream != specification.random_stream {
        Some(ShadowInvalidationReason::RandomStreamMismatch)
    } else if !axes_agree(
        outcome.outcomes(),
        padded::used(&specification.axes, specification.axis_count),
    ) {
        Some(ShadowInvalidationReason::OutcomeAxesMismatch)
    } else {
        None
    }
}

fn axes_agree(outcomes: &[TypedOutcome], axes: &[ForecastAxis]) -> (result: bool)
    ensures
        result == (outcome_axes(outcomes@) == axes@),
{
    if outcomes.len() != axes.len() {
        assert(outcome_axes(outcomes@).len() != axes@.len());
        return false;
    }
    let mut index: usize = 0;
    while index < axes.len()
        invariant
            index <= axes@.len(),
            axes@.len() == outcomes@.len(),
            forall|i: int| 0 <= i < index ==> outcome_axes(outcomes@)[i] == axes@[i],
        decreases axes@.len() - index,
    {
        if outcomes[index].axis != axes[index] {
            assert(outcome_axes(outcomes@)[index as int] != axes@[index as int]);
            return false;
        }
        index = index + 1;
    }
    assert(outcome_axes(outcomes@) =~= axes@);
    true
}

/// The difference that a campaign found on one axis.
#[derive(Clone, Copy, Debug, PartialEq, Eq, Structural)]
pub struct ContextualContrast {
    pub campaign: ShadowCampaignId,
    pub subject: SubjectId,
    pub axis: ForecastAxis,
    pub treatment: u32,
    pub control: u32,
}

impl ContextualContrast {
    pub fn campaign(self) -> (campaign: ShadowCampaignId)
        ensures
            campaign == self.campaign,
    {
        self.campaign
    }

    pub fn subject(self) -> (subject: SubjectId)
        ensures
            subject == self.subject,
    {
        self.subject
    }

    pub fn axis(self) -> (axis: ForecastAxis)
        ensures
            axis == self.axis,
    {
        self.axis
    }
}

/// What a ledger knows of one campaign.
#[derive(Clone, Copy, Debug, PartialEq, Eq)]
pub struct ShadowCampaignState {
    pub specification: ShadowCampaignSpec,
    pub treatment: Option<ShadowArmOutcome>,
    pub control: Option<ShadowArmOutcome>,
    pub lifecycle: ShadowCampaignLifecycle,
}

impl View for ShadowCampaignState {
    type V = ShadowCampaignState;

    open spec fn view(&self) -> ShadowCampaignState {
        *self
    }
}

impl ShadowCampaignState {
    /// A reported arm belongs to the campaign and to its side of it.
    pub open spec fn arm_fits(
        specification: ShadowCampaignSpec,
        arm: ShadowArm,
        outcome: Option<ShadowArmOutcome>,
    ) -> bool {
        outcome matches Some(outcome) ==> outcome.well_formed() && outcome.arm == arm
            && outcome.campaign == specification.id && mismatch(specification, outcome) is None
    }

    /// Both arms fit, and the lifecycle says whether both are there.
    pub open spec fn well_formed(self) -> bool {
        &&& self.specification.well_formed()
        &&& Self::arm_fits(self.specification, ShadowArm::Treatment, self.treatment)
        &&& Self::arm_fits(self.specification, ShadowArm::Control, self.control)
        &&& self.lifecycle is Open ==> self.treatment is None || self.control is None
        &&& self.lifecycle is Completed ==> self.treatment is Some && self.control is Some
    }

    /// What is found once both arms have reported, axis by axis.
    pub open spec fn contrasts(self) -> Seq<ContextualContrast> {
        if self.lifecycle is Completed {
            paired(
                self.specification,
                self.treatment->Some_0.outcome_list(),
                self.control->Some_0.outcome_list(),
            )
        } else {
            Seq::empty()
        }
    }
}

/// The outcomes of both arms, side by side.
pub open spec fn paired(
    specification: ShadowCampaignSpec,
    treatment: Seq<TypedOutcome>,
    control: Seq<TypedOutcome>,
) -> Seq<ContextualContrast> {
    Seq::new(
        if treatment.len() <= control.len() {
            treatment.len()
        } else {
            control.len()
        },
        |i: int|
            ContextualContrast {
                campaign: specification.id,
                subject: specification.subject,
                axis: treatment[i].axis,
                treatment: treatment[i].value,
                control: control[i].value,
            },
    )
}

/// Appends the contrasts between two arms.
pub fn push_contrasts(
    specification: &ShadowCampaignSpec,
    treatment: &ShadowArmOutcome,
    control: &ShadowArmOutcome,
    contrasts: &mut Vec<ContextualContrast>,
)
    ensures
        final(contrasts)@ == old(contrasts)@ + paired(
            *specification,
            treatment.outcome_list(),
            control.outcome_list(),
        ),
{
    let treatment = treatment.outcomes();
    let control = control.outcomes();
    let ghost expected = paired(*specification, treatment@, control@);
    let mut index: usize = 0;
    assert(contrasts@ =~= old(contrasts)@ + expected.take(0));
    while index < treatment.len() && index < control.len()
        invariant
            index <= treatment@.len(),
            index <= control@.len(),
            expected == paired(*specification, treatment@, control@),
            contrasts@ == old(contrasts)@ + expected.take(index as int),
        decreases treatment@.len() - index,
    {
        contrasts.push(
            ContextualContrast {
                campaign: specification.id,
                subject: specification.subject,
                axis: treatment[index].axis,
                treatment: treatment[index].value,
                control: control[index].value,
            },
        );
        assert(expected.take(index + 1) =~= expected.take(index as int).push(
            expected[index as int],
        ));
        assert(contrasts@ =~= old(contrasts)@ + expected.take(index + 1));
        index = index + 1;
    }
    assert(expected.take(index as int) =~= expected);
}

/// An arm that may not have reported.
pub open spec fn put_arm(outcome: Option<ShadowArmOutcome>) -> Seq<u8> {
    match outcome {
        Some(outcome) => codec::put_u8(1) + ShadowArmOutcome::wire((), outcome),
        None => codec::put_u8(0),
    }
}

/// An arm that must fit its campaign where it has reported.
pub open spec fn parse_arm(
    specification: ShadowCampaignSpec,
    arm: ShadowArm,
    input: Seq<u8>,
) -> Option<(Option<ShadowArmOutcome>, Seq<u8>)> {
    match codec::parse_u8(input) {
        None => None,
        Some((tag, rest)) => if tag == 0 {
            Some((None, rest))
        } else if tag == 1 {
            match ShadowArmOutcome::parse((), rest) {
                None => None,
                Some((outcome, rest)) => if outcome.arm == arm && outcome.campaign
                    == specification.id && mismatch(specification, outcome) is None {
                    Some((Some(outcome), rest))
                } else {
                    None
                },
            }
        } else {
            None
        },
    }
}

pub fn encode_optional_outcome(outcome: &Option<ShadowArmOutcome>, output: &mut Vec<u8>)
    ensures
        final(output)@ == old(output)@ + put_arm(*outcome),
{
    broadcast use digest::group_digest;

    match outcome {
        Some(outcome) => {
            codec::write_u8(1, output);
            outcome.write(&(), output);
        },
        None => codec::write_u8(0, output),
    }
}

fn decode_optional_outcome(
    specification: &ShadowCampaignSpec,
    arm: ShadowArm,
    input: &mut Decoder<'_>,
) -> (result: Result<Option<ShadowArmOutcome>, ()>)
    ensures
        codec::reads(result, final(input)@, parse_arm(*specification, arm, old(input)@)),
{
    let tag: u8 = input.read_u8()?;
    if tag == 0 {
        return Ok(None);
    }
    if tag != 1 {
        return Err(());
    }
    let outcome = ShadowArmOutcome::read(&(), input)?;
    if outcome.arm != arm || outcome.campaign != specification.id || shadow_outcome_mismatch(
        specification,
        &outcome,
    ).is_some() {
        return Err(());
    }
    Ok(Some(outcome))
}

proof fn lemma_arm_round_trip(
    specification: ShadowCampaignSpec,
    arm: ShadowArm,
    outcome: Option<ShadowArmOutcome>,
    rest: Seq<u8>,
)
    requires
        ShadowCampaignState::arm_fits(specification, arm, outcome),
    ensures
        parse_arm(specification, arm, put_arm(outcome) + rest) == Some((outcome, rest)),
{
    broadcast use digest::group_digest;

    match outcome {
        Some(outcome) => ShadowArmOutcome::lemma_round_trip((), outcome, rest),
        None => {},
    }
}

impl Wire<()> for ShadowCampaignState {
    open spec fn wire(format: (), value: ShadowCampaignState) -> Seq<u8> {
        ShadowCampaignSpec::wire((), value.specification) + (ShadowCampaignLifecycle::wire(
            (),
            value.lifecycle,
        ) + (put_arm(value.treatment) + put_arm(value.control)))
    }

    open spec fn parse(format: (), input: Seq<u8>) -> Option<(ShadowCampaignState, Seq<u8>)> {
        match ShadowCampaignSpec::parse((), input) {
            None => None,
            Some((specification, rest)) => match ShadowCampaignLifecycle::parse((), rest) {
                None => None,
                Some((lifecycle, rest)) => match parse_arm(
                    specification,
                    ShadowArm::Treatment,
                    rest,
                ) {
                    None => None,
                    Some((treatment, rest)) => match parse_arm(
                        specification,
                        ShadowArm::Control,
                        rest,
                    ) {
                        None => None,
                        Some((control, rest)) => if lifecycle is Open && treatment is Some
                            && control is Some || lifecycle is Completed && (treatment is None
                            || control is None) {
                            None
                        } else {
                            Some(
                                (
                                    ShadowCampaignState {
                                        specification,
                                        treatment,
                                        control,
                                        lifecycle,
                                    },
                                    rest,
                                ),
                            )
                        },
                    },
                },
            },
        }
    }

    open spec fn admissible(format: (), value: ShadowCampaignState) -> bool {
        value.well_formed()
    }

    open spec fn least_bytes(format: ()) -> nat {
        179
    }

    proof fn lemma_round_trip(format: (), value: ShadowCampaignState, rest: Seq<u8>) {
        let after_control = put_arm(value.control) + rest;
        let after_treatment = put_arm(value.treatment) + after_control;
        let after_lifecycle = ShadowCampaignLifecycle::wire((), value.lifecycle) + after_treatment;
        assert(Self::wire(format, value) + rest =~= ShadowCampaignSpec::wire(
            (),
            value.specification,
        ) + after_lifecycle);
        ShadowCampaignSpec::lemma_round_trip((), value.specification, after_lifecycle);
        ShadowCampaignLifecycle::lemma_round_trip((), value.lifecycle, after_treatment);
        lemma_arm_round_trip(
            value.specification,
            ShadowArm::Treatment,
            value.treatment,
            after_control,
        );
        lemma_arm_round_trip(value.specification, ShadowArm::Control, value.control, rest);
    }

    proof fn lemma_least_bytes(format: (), value: ShadowCampaignState) {
        ShadowCampaignSpec::lemma_least_bytes((), value.specification);
        ShadowCampaignLifecycle::lemma_least_bytes((), value.lifecycle);
    }

    fn write(&self, format: &(), output: &mut Vec<u8>) {
        broadcast use digest::group_digest;

        self.specification.write(&(), output);
        self.lifecycle.write(&(), output);
        encode_optional_outcome(&self.treatment, output);
        encode_optional_outcome(&self.control, output);
    }

    fn read(format: &(), input: &mut Decoder<'_>) -> (result: Result<Self, ()>) {
        let specification = ShadowCampaignSpec::read(&(), input)?;
        let lifecycle = ShadowCampaignLifecycle::read(&(), input)?;
        let treatment = decode_optional_outcome(&specification, ShadowArm::Treatment, input)?;
        let control = decode_optional_outcome(&specification, ShadowArm::Control, input)?;
        match lifecycle {
            ShadowCampaignLifecycle::Open => {
                if treatment.is_some() && control.is_some() {
                    return Err(());
                }
            },
            ShadowCampaignLifecycle::Completed => {
                if treatment.is_none() || control.is_none() {
                    return Err(());
                }
            },
            ShadowCampaignLifecycle::Invalidated(_) => {},
        }
        Ok(ShadowCampaignState { specification, treatment, control, lifecycle })
    }
}
} // verus!
