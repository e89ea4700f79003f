//! Settlements, consequences and the hash chains that commit to them.
use vstd::prelude::*;

use crate::codec;
use crate::codec::{Decoder, Wire};
use crate::digest;
use crate::digest::{hash_labelled, write_digest, Digest};
use crate::investment::InvestmentTag;
use crate::receipt::{DecisionId, InvestmentReceipt, ReceiptFormat};
use crate::shadow::{ShadowCampaignId, ShadowCampaignState};
use crate::types;
use crate::types::{
    decode_resources, encode_resources, ResourceVector, SpecialistRevisionId, SubjectId,
};

verus! {
// ---------------------------------------------------------------------------
// Settlements
// ---------------------------------------------------------------------------
/// How an investment ended.
#[derive(Clone, Copy, Debug, PartialEq, Eq, Structural)]
pub enum InvestmentOutcome {
    VerifiedAccepted { verification_record: SubjectId },
    VerifiedRefuted,
    VerifiedUnknown,
    Completed,
    Failed,
}

impl View for InvestmentOutcome {
    type V = InvestmentOutcome;

    open spec fn view(&self) -> InvestmentOutcome {
        *self
    }
}

impl Wire<()> for InvestmentOutcome {
    open spec fn wire(format: (), value: InvestmentOutcome) -> Seq<u8> {
        match value {
            InvestmentOutcome::VerifiedAccepted {
                verification_record,
            } => codec::put_u8(1) + verification_record.0.bytes(),
            InvestmentOutcome::VerifiedRefuted => codec::put_u8(2),
            InvestmentOutcome::VerifiedUnknown => codec::put_u8(3),
            InvestmentOutcome::Completed => codec::put_u8(4),
            InvestmentOutcome::Failed => codec::put_u8(5),
        }
    }

    open spec fn parse(format: (), input: Seq<u8>) -> Option<(InvestmentOutcome, Seq<u8>)> {
        match codec::parse_u8(input) {
            None => None,
            Some((tag, rest)) => match tag {
                1 => match digest::parse_digest(rest) {
                    None => None,
                    Some((item, rest)) => Some((InvestmentOutcome::VerifiedAccepted { verification_record: SubjectId(item) }, rest)),
                },
                2 => Some((InvestmentOutcome::VerifiedRefuted, rest)),
                3 => Some((InvestmentOutcome::VerifiedUnknown, rest)),
                4 => Some((InvestmentOutcome::Completed, rest)),
                5 => Some((InvestmentOutcome::Failed, rest)),
                _ => None,
            },
        }
    }

    open spec fn admissible(format: (), value: InvestmentOutcome) -> bool {
        true
    }

    open spec fn least_bytes(format: ()) -> nat {
        1
    }

    proof fn lemma_round_trip(format: (), value: InvestmentOutcome, rest: Seq<u8>) {
        broadcast use digest::group_digest;
    }

    proof fn lemma_least_bytes(format: (), value: InvestmentOutcome) {
        broadcast use digest::group_digest;
    }

    fn write(&self, format: &(), output: &mut Vec<u8>) {
        broadcast use digest::group_digest;
        match self {
            InvestmentOutcome::VerifiedAccepted {
                verification_record,
            } => {
                codec::write_u8(1, output);
                write_digest(verification_record.0, output);
            },
            InvestmentOutcome::VerifiedRefuted => codec::write_u8(2, output),
            InvestmentOutcome::VerifiedUnknown => codec::write_u8(3, output),
            InvestmentOutcome::Completed => codec::write_u8(4, output),
            InvestmentOutcome::Failed => codec::write_u8(5, output),
        }
    }

    fn read(format: &(), input: &mut Decoder<'_>) -> (result: Result<Self, ()>) {
        let tag: u8 = input.read_u8()?;
        match tag {
            1 => {
                let item = input.read_digest()?;
                Ok(InvestmentOutcome::VerifiedAccepted { verification_record: SubjectId(item) })
            },
            2 => Ok(InvestmentOutcome::VerifiedRefuted),
            3 => Ok(InvestmentOutcome::VerifiedUnknown),
            4 => Ok(InvestmentOutcome::Completed),
            5 => Ok(InvestmentOutcome::Failed),
            _ => Err(()),
        }
    }
}

/// What became of one decision, and what it cost.
#[derive(Clone, Copy, Debug, PartialEq, Eq, Structural)]
pub struct InvestmentSettlement {
    pub decision: DecisionId,
    pub outcome: InvestmentOutcome,
    pub actual_resources: ResourceVector,
}

impl View for InvestmentSettlement {
    type V = InvestmentSettlement;

    open spec fn view(&self) -> InvestmentSettlement {
        *self
    }
}

impl InvestmentSettlement {
    pub fn new(
        decision: DecisionId,
        outcome: InvestmentOutcome,
        actual_resources: ResourceVector,
    ) -> (settlement: Self)
        ensures
            settlement == (InvestmentSettlement { decision, outcome, actual_resources }),
    {
        Self { decision, outcome, actual_resources }
    }

    pub fn decision(self) -> (decision: DecisionId)
        ensures
            decision == self.decision,
    {
        self.decision
    }

    pub fn actual_resources(self) -> (resources: ResourceVector)
        ensures
            resources == self.actual_resources,
    {
        self.actual_resources
    }

    pub fn outcome(self) -> (outcome: InvestmentOutcome)
        ensures
            outcome == self.outcome,
    {
        self.outcome
    }

    pub fn encode_canonical(self, output: &mut Vec<u8>)
        ensures
            final(output)@ == old(output)@ + Self::wire((), self),
    {
        self.write(&(), output);
    }

    pub fn decode_canonical(input: &mut Decoder<'_>) -> (result: Result<Self, ()>)
        ensures
            codec::reads(result, final(input)@, Self::parse((), old(input)@)),
    {
        Self::read(&(), input)
    }
}

impl Wire<()> for InvestmentSettlement {
    open spec fn wire(format: (), value: InvestmentSettlement) -> Seq<u8> {
        value.decision.0.bytes() + (InvestmentOutcome::wire((), value.outcome)
            + (types::put_resources(value.actual_resources)))
    }

    open spec fn parse(format: (), input: Seq<u8>) -> Option<(InvestmentSettlement, Seq<u8>)> {
        match digest::parse_digest(input) {
            None => None,
            Some((decision, rest)) => match InvestmentOutcome::parse((), rest) {
                None => None,
                Some((outcome, rest)) => match types::parse_resources(rest) {
                    None => None,
                    Some((actual_resources, rest)) => Some((InvestmentSettlement { decision: DecisionId(decision), outcome, actual_resources }, rest)),
                },
            },
        }
    }

    open spec fn admissible(format: (), value: InvestmentSettlement) -> bool {
        true
    }

    open spec fn least_bytes(format: ()) -> nat {
        73
    }

    proof fn lemma_round_trip(format: (), value: InvestmentSettlement, rest: Seq<u8>) {
        broadcast use digest::group_digest;
        broadcast use types::lemma_source_round_trip;
        broadcast use types::lemma_resources_round_trip;

        InvestmentOutcome::lemma_round_trip(
            (),
            value.outcome,
            types::put_resources(value.actual_resources) + (rest),
        );
    }

    proof fn lemma_least_bytes(format: (), value: InvestmentSettlement) {
        broadcast use digest::group_digest;
        broadcast use types::lemma_resources_len;

        InvestmentOutcome::lemma_least_bytes((), value.outcome);
    }

    fn write(&self, format: &(), output: &mut Vec<u8>) {
        broadcast use digest::group_digest;

        write_digest(self.decision.0, output);
        self.outcome.write(&(), output);
        encode_resources(self.actual_resources, output);
    }

    fn read(format: &(), input: &mut Decoder<'_>) -> (result: Result<Self, ()>) {
        let decision = input.read_digest()?;
        let outcome = InvestmentOutcome::read(&(), input)?;
        let actual_resources = decode_resources(input)?;
        Ok(InvestmentSettlement { decision: DecisionId(decision), outcome, actual_resources })
    }
}

/// Verifications end in a verdict, everything else in completion or failure.
pub open spec fn compatible(tag: InvestmentTag, outcome: InvestmentOutcome) -> bool {
    tag is Verify <==> outcome is VerifiedAccepted || outcome is VerifiedRefuted
        || outcome is VerifiedUnknown
}

pub fn outcome_is_compatible(tag: InvestmentTag, outcome: InvestmentOutcome) -> (result: bool)
    ensures
        result == compatible(tag, outcome),
{
    let verdict = matches!(
        outcome,
        InvestmentOutcome::VerifiedAccepted { .. } | InvestmentOutcome::VerifiedRefuted
            | InvestmentOutcome::VerifiedUnknown
    );
    matches!(tag, InvestmentTag::Verify) == verdict
}

// ---------------------------------------------------------------------------
// Consequences
// ---------------------------------------------------------------------------
/// What a consequence is about.
#[derive(Clone, Copy, Debug, PartialEq, Eq, Structural)]
pub enum CausalSubject {
    Decision(DecisionId),
    Artifact(SubjectId),
    Specialist(SpecialistRevisionId),
    Knowledge(SubjectId),
    RuntimePolicy(SubjectId),
}

impl View for CausalSubject {
    type V = CausalSubject;

    open spec fn view(&self) -> CausalSubject {
        *self
    }
}

impl Wire<()> for CausalSubject {
    open spec fn wire(format: (), value: CausalSubject) -> Seq<u8> {
        match value {
            CausalSubject::Decision(subject) => codec::put_u8(1) + subject.0.bytes(),
            CausalSubject::Artifact(subject) => codec::put_u8(2) + subject.0.bytes(),
            CausalSubject::Specialist(subject) => codec::put_u8(3) + subject.0.bytes(),
            CausalSubject::Knowledge(subject) => codec::put_u8(4) + subject.0.bytes(),
            CausalSubject::RuntimePolicy(subject) => codec::put_u8(5) + subject.0.bytes(),
        }
    }

    open spec fn parse(format: (), input: Seq<u8>) -> Option<(CausalSubject, Seq<u8>)> {
        match codec::parse_u8(input) {
            None => None,
            Some((tag, rest)) => match tag {
                1 => match digest::parse_digest(rest) {
                    None => None,
                    Some((item, rest)) => Some((CausalSubject::Decision(DecisionId(item)), rest)),
                },
                2 => match digest::parse_digest(rest) {
                    None => None,
                    Some((item, rest)) => Some((CausalSubject::Artifact(SubjectId(item)), rest)),
                },
                3 => match digest::parse_digest(rest) {
                    None => None,
                    Some((item, rest)) => Some((CausalSubject::Specialist(SpecialistRevisionId(item)), rest)),
                },
                4 => match digest::parse_digest(rest) {
                    None => None,
                    Some((item, rest)) => Some((CausalSubject::Knowledge(SubjectId(item)), rest)),
                },
                5 => match digest::parse_digest(rest) {
                    None => None,
                    Some((item, rest)) => Some((CausalSubject::RuntimePolicy(SubjectId(item)), rest)),
                },
                _ => None,
            },
        }
    }

    open spec fn admissible(format: (), value: CausalSubject) -> bool {
        true
    }

    open spec fn least_bytes(format: ()) -> nat {
        33
    }

    proof fn lemma_round_trip(format: (), value: CausalSubject, rest: Seq<u8>) {
        broadcast use digest::group_digest;
    }

    proof fn lemma_least_bytes(format: (), value: CausalSubject) {
        broadcast use digest::group_digest;
    }

    fn write(&self, format: &(), output: &mut Vec<u8>) {
        broadcast use digest::group_digest;
        match self {
            CausalSubject::Decision(subject) => {
                codec::write_u8(1, output);
                write_digest(subject.0, output);
            },
            CausalSubject::Artifact(subject) => {
                codec::write_u8(2, output);
                write_digest(subject.0, output);
            },
            CausalSubject::Specialist(subject) => {
                codec::write_u8(3, output);
                write_digest(subject.0, output);
            },
            CausalSubject::Knowledge(subject) => {
                codec::write_u8(4, output);
                write_digest(subject.0, output);
            },
            CausalSubject::RuntimePolicy(subject) => {
                codec::write_u8(5, output);
                write_digest(subject.0, output);
            },
        }
    }

    fn read(format: &(), input: &mut Decoder<'_>) -> (result: Result<Self, ()>) {
        let tag: u8 = input.read_u8()?;
        match tag {
            1 => {
                let item = input.read_digest()?;
                Ok(CausalSubject::Decision(DecisionId(item)))
            },
            2 => {
                let item = input.read_digest()?;
                Ok(CausalSubject::Artifact(SubjectId(item)))
            },
            3 => {
                let item = input.read_digest()?;
                Ok(CausalSubject::Specialist(SpecialistRevisionId(item)))
            },
            4 => {
                let item = input.read_digest()?;
                Ok(CausalSubject::Knowledge(SubjectId(item)))
            },
            5 => {
                let item = input.read_digest()?;
                Ok(CausalSubject::RuntimePolicy(SubjectId(item)))
            },
            _ => Err(()),
        }
    }
}

pub fn encode_subject(subject: CausalSubject, output: &mut Vec<u8>)
    ensures
        final(output)@ == old(output)@ + CausalSubject::wire((), subject),
{
    subject.write(&(), output);
}

pub fn decode_subject(input: &mut Decoder<'_>) -> (result: Result<CausalSubject, ()>)
    ensures
        codec::reads(result, final(input)@, CausalSubject::parse((), old(input)@)),
{
    CausalSubject::read(&(), input)
}

/// What happened to the subject.
#[derive(Clone, Copy, Debug, PartialEq, Eq, Structural)]
pub enum ConsequenceKind {
    Admitted,
    ParetoImprovement,
    UsefulDescendant,
    CrossGoalUse,
    Compression,
    CpuSaved,
    OperatorEnabled,
    SelectionUse,
}

impl View for ConsequenceKind {
    type V = ConsequenceKind;

    open spec fn view(&self) -> ConsequenceKind {
        *self
    }
}

/// The wire tag, from one to eight in declaration order.
pub open spec fn consequence_tag(kind: ConsequenceKind) -> u8 {
    match kind {
        ConsequenceKind::Admitted => 1,
        ConsequenceKind::ParetoImprovement => 2,
        ConsequenceKind::UsefulDescendant => 3,
        ConsequenceKind::CrossGoalUse => 4,
        ConsequenceKind::Compression => 5,
        ConsequenceKind::CpuSaved => 6,
        ConsequenceKind::OperatorEnabled => 7,
        ConsequenceKind::SelectionUse => 8,
    }
}

pub open spec fn consequence_of(tag: u8) -> Option<ConsequenceKind> {
    match tag {
        1 => Some(ConsequenceKind::Admitted),
        2 => Some(ConsequenceKind::ParetoImprovement),
        3 => Some(ConsequenceKind::UsefulDescendant),
        4 => Some(ConsequenceKind::CrossGoalUse),
        5 => Some(ConsequenceKind::Compression),
        6 => Some(ConsequenceKind::CpuSaved),
        7 => Some(ConsequenceKind::OperatorEnabled),
        8 => Some(ConsequenceKind::SelectionUse),
        _ => None,
    }
}

pub fn encode_consequence(kind: ConsequenceKind) -> (tag: u8)
    ensures
        tag == consequence_tag(kind),
{
    match kind {
        ConsequenceKind::Admitted => 1,
        ConsequenceKind::ParetoImprovement => 2,
        ConsequenceKind::UsefulDescendant => 3,
        ConsequenceKind::CrossGoalUse => 4,
        ConsequenceKind::Compression => 5,
        ConsequenceKind::CpuSaved => 6,
        ConsequenceKind::OperatorEnabled => 7,
        ConsequenceKind::SelectionUse => 8,
    }
}

pub fn decode_consequence(value: u8) -> (result: Result<ConsequenceKind, ()>)
    ensures
        match result {
            Ok(kind) => consequence_of(value) == Some(kind),
            Err(_) => consequence_of(value) is None,
        },
{
    match value {
        1 => Ok(ConsequenceKind::Admitted),
        2 => Ok(ConsequenceKind::ParetoImprovement),
        3 => Ok(ConsequenceKind::UsefulDescendant),
        4 => Ok(ConsequenceKind::CrossGoalUse),
        5 => Ok(ConsequenceKind::Compression),
        6 => Ok(ConsequenceKind::CpuSaved),
        7 => Ok(ConsequenceKind::OperatorEnabled),
        8 => Ok(ConsequenceKind::SelectionUse),
        _ => Err(()),
    }
}

impl Wire<()> for ConsequenceKind {
    open spec fn wire(format: (), value: ConsequenceKind) -> Seq<u8> {
        codec::put_u8(consequence_tag(value))
    }

    open spec fn parse(format: (), input: Seq<u8>) -> Option<(ConsequenceKind, Seq<u8>)> {
        match codec::parse_u8(input) {
            None => None,
            Some((tag, rest)) => match consequence_of(tag) {
                None => None,
                Some(kind) => Some((kind, rest)),
            },
        }
    }

    open spec fn admissible(format: (), value: ConsequenceKind) -> bool {
        true
    }

    open spec fn least_bytes(format: ()) -> nat {
        1
    }

    proof fn lemma_round_trip(format: (), value: ConsequenceKind, rest: Seq<u8>) {
        broadcast use digest::group_digest;
    }

    proof fn lemma_least_bytes(format: (), value: ConsequenceKind) {
    }

    fn write(&self, format: &(), output: &mut Vec<u8>) {
        codec::write_u8(encode_consequence(*self), output);
    }

    fn read(format: &(), input: &mut Decoder<'_>) -> (result: Result<Self, ()>) {
        let tag: u8 = input.read_u8()?;
        decode_consequence(tag)
    }
}

/// Why the consequence is ascribed to the subject.
#[derive(Clone, Copy, Debug, PartialEq, Eq, Structural)]
pub enum AttributionKind {
    Observed,
    MechanicallyInduced,
    PairedShadow(ShadowCampaignId),
}

impl View for AttributionKind {
    type V = AttributionKind;

    open spec fn view(&self) -> AttributionKind {
        *self
    }
}

impl Wire<()> for AttributionKind {
    open spec fn wire(format: (), value: AttributionKind) -> Seq<u8> {
        match value {
            AttributionKind::Observed => codec::put_u8(1),
            AttributionKind::MechanicallyInduced => codec::put_u8(2),
            AttributionKind::PairedShadow(campaign) => codec::put_u8(3) + campaign.0.bytes(),
        }
    }

    open spec fn parse(format: (), input: Seq<u8>) -> Option<(AttributionKind, Seq<u8>)> {
        match codec::parse_u8(input) {
            None => None,
            Some((tag, rest)) => match tag {
                1 => Some((AttributionKind::Observed, rest)),
                2 => Some((AttributionKind::MechanicallyInduced, rest)),
                3 => match digest::parse_digest(rest) {
                    None => None,
                    Some((item, rest)) => Some((AttributionKind::PairedShadow(ShadowCampaignId(item)), rest)),
                },
                _ => None,
            },
        }
    }

    open spec fn admissible(format: (), value: AttributionKind) -> bool {
        true
    }

    open spec fn least_bytes(format: ()) -> nat {
        1
    }

    proof fn lemma_round_trip(format: (), value: AttributionKind, rest: Seq<u8>) {
        broadcast use digest::group_digest;
    }

    proof fn lemma_least_bytes(format: (), value: AttributionKind) {
        broadcast use digest::group_digest;
    }

    fn write(&self, format: &(), output: &mut Vec<u8>) {
        broadcast use digest::group_digest;
        match self {
            AttributionKind::Observed => codec::write_u8(1, output),
            AttributionKind::MechanicallyInduced => codec::write_u8(2, output),
            AttributionKind::PairedShadow(campaign) => {
                codec::write_u8(3, output);
                write_digest(campaign.0, output);
            },
        }
    }

    fn read(format: &(), input: &mut Decoder<'_>) -> (result: Result<Self, ()>) {
        let tag: u8 = input.read_u8()?;
        match tag {
            1 => Ok(AttributionKind::Observed),
            2 => Ok(AttributionKind::MechanicallyInduced),
            3 => {
                let item = input.read_digest()?;
                Ok(AttributionKind::PairedShadow(ShadowCampaignId(item)))
            },
            _ => Err(()),
        }
    }
}

/// One consequence of earlier work.
#[derive(Clone, Copy, Debug, PartialEq, Eq, Structural)]
pub struct ConsequenceEdge {
    pub subject: CausalSubject,
    pub kind: ConsequenceKind,
    pub attribution: AttributionKind,
}

impl View for ConsequenceEdge {
    type V = ConsequenceEdge;

    open spec fn view(&self) -> ConsequenceEdge {
        *self
    }
}

impl ConsequenceEdge {
    /// That a selection corpus was consulted.
    pub open spec fn selection_use_spec(corpus_key: Digest) -> ConsequenceEdge {
        ConsequenceEdge {
            subject: CausalSubject::Artifact(SubjectId(corpus_key)),
            kind: ConsequenceKind::SelectionUse,
            attribution: AttributionKind::MechanicallyInduced,
        }
    }

    pub fn observed(subject: CausalSubject, kind: ConsequenceKind) -> (edge: Self)
        ensures
            edge == (ConsequenceEdge { subject, kind, attribution: AttributionKind::Observed }),
    {
        Self { subject, kind, attribution: AttributionKind::Observed }
    }

    pub fn subject(self) -> (subject: CausalSubject)
        ensures
            subject == self.subject,
    {
        self.subject
    }

    pub fn kind(self) -> (kind: ConsequenceKind)
        ensures
            kind == self.kind,
    {
        self.kind
    }

    pub fn attribution(self) -> (attribution: AttributionKind)
        ensures
            attribution == self.attribution,
    {
        self.attribution
    }

    pub fn selection_use(corpus_key: Digest) -> (edge: Self)
        ensures
            edge == Self::selection_use_spec(corpus_key),
    {
        Self {
            subject: CausalSubject::Artifact(SubjectId(corpus_key)),
            kind: ConsequenceKind::SelectionUse,
            attribution: AttributionKind::MechanicallyInduced,
        }
    }

    pub fn mechanically_induced(subject: CausalSubject, kind: ConsequenceKind) -> (edge: Self)
        ensures
            edge == (ConsequenceEdge {
                subject,
                kind,
                attribution: AttributionKind::MechanicallyInduced,
            }),
    {
        Self { subject, kind, attribution: AttributionKind::MechanicallyInduced }
    }

    pub fn encode_canonical(self, output: &mut Vec<u8>)
        ensures
            final(output)@ == old(output)@ + Self::wire((), self),
    {
        self.write(&(), output);
    }

    pub fn decode_canonical(input: &mut Decoder<'_>) -> (result: Result<Self, ()>)
        ensures
            codec::reads(result, final(input)@, Self::parse((), old(input)@)),
    {
        Self::read(&(), input)
    }
}

impl Wire<()> for ConsequenceEdge {
    open spec fn wire(format: (), value: ConsequenceEdge) -> Seq<u8> {
        CausalSubject::wire((), value.subject) + (ConsequenceKind::wire((), value.kind)
            + (AttributionKind::wire((), value.attribution)))
    }

    open spec fn parse(format: (), input: Seq<u8>) -> Option<(ConsequenceEdge, Seq<u8>)> {
        match CausalSubject::parse((), input) {
            None => None,
            Some((subject, rest)) => match ConsequenceKind::parse((), rest) {
                None => None,
                Some((kind, rest)) => match AttributionKind::parse((), rest) {
                    None => None,
                    Some((attribution, rest)) => Some((ConsequenceEdge { subject, kind, attribution }, rest)),
                },
            },
        }
    }

    open spec fn admissible(format: (), value: ConsequenceEdge) -> bool {
        true
    }

    open spec fn least_bytes(format: ()) -> nat {
        35
    }

    proof fn lemma_round_trip(format: (), value: ConsequenceEdge, rest: Seq<u8>) {
        broadcast use digest::group_digest;
        broadcast use types::lemma_source_round_trip;
        broadcast use types::lemma_resources_round_trip;

        CausalSubject::lemma_round_trip(
            (),
            value.subject,
            ConsequenceKind::wire((), value.kind) + (AttributionKind::wire((), value.attribution)
                + (rest)),
        );
        ConsequenceKind::lemma_round_trip(
            (),
            value.kind,
            AttributionKind::wire((), value.attribution) + (rest),
        );
        AttributionKind::lemma_round_trip((), value.attribution, rest);
    }

    proof fn lemma_least_bytes(format: (), value: ConsequenceEdge) {
        broadcast use digest::group_digest;
        broadcast use types::lemma_resources_len;

        CausalSubject::lemma_least_bytes((), value.subject);
        ConsequenceKind::lemma_least_bytes((), value.kind);
        AttributionKind::lemma_least_bytes((), value.attribution);
    }

    fn write(&self, format: &(), output: &mut Vec<u8>) {
        broadcast use digest::group_digest;

        self.subject.write(&(), output);
        self.kind.write(&(), output);
        self.attribution.write(&(), output);
    }

    fn read(format: &(), input: &mut Decoder<'_>) -> (result: Result<Self, ()>) {
        let subject = CausalSubject::read(&(), input)?;
        let kind = ConsequenceKind::read(&(), input)?;
        let attribution = AttributionKind::read(&(), input)?;
        Ok(ConsequenceEdge { subject, kind, attribution })
    }
}

// ---------------------------------------------------------------------------
// Roots
// ---------------------------------------------------------------------------
/// The head of a hash chain over appended records.
#[derive(Clone, Copy, Debug, PartialEq, Eq, Structural)]
pub struct AppendRoot {
    pub count: u64,
    pub digest: Digest,
}

/// The next head: one record more.
pub open spec fn appended(root: AppendRoot, domain: &str, encoded: Seq<u8>) -> AppendRoot {
    let count = if root.count == u64::MAX {
        u64::MAX
    } else {
        (root.count + 1) as u64
    };
    AppendRoot {
        count,
        digest: digest::labelled(
            domain,
            root.digest.bytes() + (codec::put_u64(count) + codec::put_sized(encoded)),
        ),
    }
}

/// The head after a run of records.
pub open spec fn appended_all<F, T: Wire<F>>(
    root: AppendRoot,
    domain: &str,
    format: F,
    values: Seq<T::V>,
) -> AppendRoot
    decreases values.len(),
{
    if values.len() == 0 {
        root
    } else {
        appended(
            appended_all::<F, T>(root, domain, format, values.drop_last()),
            domain,
            T::wire(format, values.last()),
        )
    }
}

/// Appending two runs one after the other is appending them joined.
pub proof fn lemma_appended_all_joins<F, T: Wire<F>>(
    root: AppendRoot,
    domain: &str,
    format: F,
    first: Seq<T::V>,
    second: Seq<T::V>,
)
    ensures
        appended_all::<F, T>(
            appended_all::<F, T>(root, domain, format, first),
            domain,
            format,
            second,
        ) == appended_all::<F, T>(root, domain, format, first + second),
    decreases second.len(),
{
    if second.len() == 0 {
        assert(first + second =~= first);
    } else {
        lemma_appended_all_joins::<F, T>(root, domain, format, first, second.drop_last());
        assert((first + second).drop_last() =~= first + second.drop_last());
        assert((first + second).last() == second.last());
    }
}

impl AppendRoot {
    /// The head of an empty chain.
    pub open spec fn empty_spec(domain: &str) -> AppendRoot {
        AppendRoot { count: 0, digest: digest::labelled(domain, digest::label_bytes("empty\0")) }
    }

    pub fn empty(domain: &str) -> (root: Self)
        ensures
            root == Self::empty_spec(domain),
    {
        Self { count: 0, digest: hash_labelled(domain, "empty\0".as_bytes()) }
    }

    pub fn append(self, domain: &str, encoded: &[u8]) -> (root: Self)
        ensures
            root == appended(self, domain, encoded@),
    {
        broadcast use digest::group_digest;

        let count: u64 = self.count.saturating_add(1);
        let mut content: Vec<u8> = Vec::new();
        write_digest(self.digest, &mut content);
        codec::write_u64(count, &mut content);
        codec::write_sized(encoded, &mut content);
        assert(content@ =~= self.digest.bytes() + (codec::put_u64(count) + codec::put_sized(
            encoded@,
        )));
        Self { count, digest: hash_labelled(domain, content.as_slice()) }
    }
}

/// Appends every item of a list.
pub fn append_items<F, T: Wire<F>>(
    root: AppendRoot,
    domain: &str,
    format: &F,
    items: &[T],
) -> (result: AppendRoot)
    ensures
        result == appended_all::<F, T>(root, domain, *format, codec::views(items@)),
{
    let mut result = root;
    let mut index: usize = 0;
    while index < items.len()
        invariant
            index <= items@.len(),
            result == appended_all::<F, T>(
                root,
                domain,
                *format,
                codec::views(items@.take(index as int)),
            ),
        decreases items@.len() - index,
    {
        let mut encoded: Vec<u8> = Vec::new();
        items[index].write(format, &mut encoded);
        assert(encoded@ =~= T::wire(*format, items@[index as int]@));
        result = result.append(domain, encoded.as_slice());
        assert(codec::views(items@.take(index + 1)).drop_last() =~= codec::views(
            items@.take(index as int),
        ));
        assert(codec::views(items@.take(index + 1)).last() == items@[index as int]@);
        index = index + 1;
    }
    assert(items@.take(items@.len() as int) =~= items@);
    result
}

/// Values one after the other, each behind its length.
pub open spec fn sized_all<T: Wire<()>>(values: Seq<T::V>) -> Seq<u8>
    decreases values.len(),
{
    if values.len() == 0 {
        Seq::empty()
    } else {
        sized_all::<T>(values.drop_last()) + codec::put_sized(T::wire((), values.last()))
    }
}

pub open spec fn empty_shadow_root_spec() -> Digest {
    digest::labelled("reflex-causal-shadows-v1\0empty\0", Seq::empty())
}

/// The commitment to the state of every campaign.
pub open spec fn shadow_root_spec(shadows: Seq<ShadowCampaignState>) -> Digest {
    if shadows.len() == 0 {
        empty_shadow_root_spec()
    } else {
        digest::labelled(
            "reflex-causal-shadows-v1\0",
            codec::put_count(shadows.len()) + sized_all::<ShadowCampaignState>(shadows),
        )
    }
}

pub fn empty_shadow_root() -> (root: Digest)
    ensures
        root == empty_shadow_root_spec(),
{
    let nothing: Vec<u8> = Vec::new();
    hash_labelled("reflex-causal-shadows-v1\0empty\0", nothing.as_slice())
}

pub fn shadow_root(shadows: &[ShadowCampaignState]) -> (root: Digest)
    ensures
        root == shadow_root_spec(shadows@),
{
    broadcast use digest::group_digest;

    if shadows.len() == 0 {
        return empty_shadow_root();
    }
    let mut content: Vec<u8> = Vec::new();
    codec::write_count(shadows.len(), &mut content);
    let mut index: usize = 0;
    assert(shadows@.take(0) =~= Seq::empty());
    assert(content@ =~= codec::put_count(shadows@.len()) + sized_all::<ShadowCampaignState>(
        shadows@.take(0),
    ));
    while index < shadows.len()
        invariant
            index <= shadows@.len(),
            content@ == codec::put_count(shadows@.len()) + sized_all::<ShadowCampaignState>(
                shadows@.take(index as int),
            ),
        decreases shadows@.len() - index,
    {
        let mut encoded: Vec<u8> = Vec::new();
        shadows[index].write(&(), &mut encoded);
        assert(encoded@ =~= ShadowCampaignState::wire((), shadows@[index as int]));
        codec::write_sized(encoded.as_slice(), &mut content);
        assert(shadows@.take(index + 1).drop_last() =~= shadows@.take(index as int));
        index = index + 1;
    }
    assert(shadows@.take(shadows@.len() as int) =~= shadows@);
    hash_labelled("reflex-causal-shadows-v1\0", content.as_slice())
}

/// The commitments to everything a ledger holds.
#[derive(Clone, Copy, Debug, PartialEq, Eq, Structural)]
pub struct CausalRootState {
    pub receipts: AppendRoot,
    pub settlements: AppendRoot,
    pub consequences: AppendRoot,
    pub shadows: Digest,
}

impl CausalRootState {
    /// The commitments to nothing.
    pub open spec fn initial() -> CausalRootState {
        CausalRootState {
            receipts: AppendRoot::empty_spec("reflex-causal-receipts-v1\0"),
            settlements: AppendRoot::empty_spec("reflex-causal-settlements-v1\0"),
            consequences: AppendRoot::empty_spec("reflex-causal-consequences-v1\0"),
            shadows: empty_shadow_root_spec(),
        }
    }
}

impl Default for CausalRootState {
    fn default() -> (roots: Self)
        ensures
            roots == CausalRootState::initial(),
    {
        Self {
            receipts: AppendRoot::empty("reflex-causal-receipts-v1\0"),
            settlements: AppendRoot::empty("reflex-causal-settlements-v1\0"),
            consequences: AppendRoot::empty("reflex-causal-consequences-v1\0"),
            shadows: empty_shadow_root(),
        }
    }
}

/// The commitments after more has been recorded.
pub open spec fn extended_roots(
    format: ReceiptFormat,
    roots: CausalRootState,
    receipts: Seq<InvestmentReceipt>,
    settlements: Seq<InvestmentSettlement>,
    consequences: Seq<ConsequenceEdge>,
    shadows: Option<Seq<ShadowCampaignState>>,
) -> CausalRootState {
    CausalRootState {
        receipts: appended_all::<ReceiptFormat, InvestmentReceipt>(
            roots.receipts,
            "reflex-causal-receipts-v1\0",
            format,
            receipts,
        ),
        settlements: appended_all::<(), InvestmentSettlement>(
            roots.settlements,
            "reflex-causal-settlements-v1\0",
            (),
            settlements,
        ),
        consequences: appended_all::<(), ConsequenceEdge>(
            roots.consequences,
            "reflex-causal-consequences-v1\0",
            (),
            consequences,
        ),
        shadows: match shadows {
            Some(shadows) => shadow_root_spec(shadows),
            None => roots.shadows,
        },
    }
}

pub fn extend_causal_roots_with_fields(
    roots: CausalRootState,
    receipts: &[InvestmentReceipt],
    settlements: &[InvestmentSettlement],
    consequences: &[ConsequenceEdge],
    shadows: Option<&[ShadowCampaignState]>,
    format: ReceiptFormat,
) -> (result: CausalRootState)
    ensures
        result == extended_roots(
            format,
            roots,
            receipts@,
            settlements@,
            consequences@,
            match shadows {
                Some(shadows) => Some(shadows@),
                None => None,
            },
        ),
{
    assert(codec::views(receipts@) =~= receipts@);
    assert(codec::views(settlements@) =~= settlements@);
    assert(codec::views(consequences@) =~= consequences@);
    CausalRootState {
        receipts: append_items::<ReceiptFormat, InvestmentReceipt>(
            roots.receipts,
            "reflex-causal-receipts-v1\0",
            &format,
            receipts,
        ),
        settlements: append_items::<(), InvestmentSettlement>(
            roots.settlements,
            "reflex-causal-settlements-v1\0",
            &(),
            settlements,
        ),
        consequences: append_items::<(), ConsequenceEdge>(
            roots.consequences,
            "reflex-causal-consequences-v1\0",
            &(),
            consequences,
        ),
        shadows: match shadows {
            Some(shadows) => shadow_root(shadows),
            None => roots.shadows,
        },
    }
}

pub fn extend_causal_roots(
    roots: CausalRootState,
    receipts: &[InvestmentReceipt],
    settlements: &[InvestmentSettlement],
    consequences: &[ConsequenceEdge],
    shadows: Option<&[ShadowCampaignState]>,
) -> (result: CausalRootState)
    ensures
        result == extended_roots(
            ReceiptFormat::Current,
            roots,
            receipts@,
            settlements@,
            consequences@,
            match shadows {
                Some(shadows) => Some(shadows@),
                None => None,
            },
        ),
{
    extend_causal_roots_with_fields(
        roots,
        receipts,
        settlements,
        consequences,
        shadows,
        ReceiptFormat::Current,
    )
}

/// The bytes that the one root of a ledger is taken over.
pub open spec fn combined_bytes(roots: CausalRootState) -> Seq<u8> {
    codec::put_u64(roots.receipts.count) + (roots.receipts.digest.bytes() + (codec::put_u64(
        roots.settlements.count,
    ) + (roots.settlements.digest.bytes() + (codec::put_u64(roots.consequences.count) + (
    roots.consequences.digest.bytes() + roots.shadows.bytes())))))
}

/// One commitment to everything.
pub open spec fn combined_root(roots: CausalRootState) -> Digest {
    digest::labelled("reflex-causal-ledger-root-v1\0", combined_bytes(roots))
}

pub fn combined_causal_root(roots: CausalRootState) -> (root: Digest)
    ensures
        root == combined_root(roots),
{
    broadcast use digest::group_digest;

    let mut content: Vec<u8> = Vec::new();
    codec::write_u64(roots.receipts.count, &mut content);
    write_digest(roots.receipts.digest, &mut content);
    codec::write_u64(roots.settlements.count, &mut content);
    write_digest(roots.settlements.digest, &mut content);
    codec::write_u64(roots.consequences.count, &mut content);
    write_digest(roots.consequences.digest, &mut content);
    write_digest(roots.shadows, &mut content);
    assert(content@ =~= combined_bytes(roots));
    hash_labelled("reflex-causal-ledger-root-v1\0", content.as_slice())
}
} // verus!
