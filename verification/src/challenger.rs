//! Knowledge challengers: what they propose, what has to be verified of it and
//! what has to be gained by it.
use std::sync::Arc;
use vstd::prelude::*;

use crate::codec;
use crate::codec::{Decoder, Wire};
use crate::consolidation::same_bytes;
use crate::digest;
use crate::digest::{hash_labelled, write_digest, Digest};
use crate::forecast;
use crate::forecast::ForecastAxis;
use crate::ledger::copied;
use crate::numbers;
use crate::order;
use crate::order::Ranked;
use crate::resident;
use crate::resident::bytes_for;
use crate::search;
use crate::shadow::{ContextualContrast, ShadowCampaignId};
use crate::types;
use crate::types::{IntelligenceError, SubjectId};

verus! {
/// How many sources, and how many obligations, a challenger may have.
pub const MAXIMUM_RECIPE_MEMBERS: usize = 64;

/// How many requirements a promotion gate may have.
pub const MAXIMUM_PROMOTION_REQUIREMENTS: usize = 32;

/// How long the payload of a product may be.
pub const MAXIMUM_KNOWLEDGE_PRODUCT_BYTES: usize = 0x400_0000;

/// The shapes that challengers have had on the wire.
#[derive(Clone, Copy, Debug, PartialEq, Eq, Structural)]
pub enum KnowledgeWireFormat {
    /// Without meaning and payload.
    LegacyV6,
    /// Without meaning.
    LegacyV7,
    V8,
}

/// One challenger.
#[derive(Clone, Copy, Debug, PartialEq, Eq, Hash, Structural)]
pub struct KnowledgeChallengerId(pub Digest);

impl KnowledgeChallengerId {
    pub fn from_identity(identity: [u8; 32]) -> (id: Self)
        ensures
            id.0.bytes() == identity@,
            id.0 == digest::digest_of(identity@),
    {
        Self(Digest::new(identity))
    }

    pub fn identity(self) -> (identity: [u8; 32])
        ensures
            identity@ == self.0.bytes(),
    {
        self.0.to_bytes()
    }
}

/// How a product was made.
#[derive(Clone, Copy, Debug, PartialEq, Eq, Structural)]
pub enum CompilerRecipe {
    Deduplicate,
    FactorSharedDerivation,
    GeneralizeArtifact,
    DeriveOperator,
    RepairFailureFamily,
    ComposeOperators,
}

impl View for CompilerRecipe {
    type V = CompilerRecipe;

    open spec fn view(&self) -> CompilerRecipe {
        *self
    }
}

impl CompilerRecipe {
    /// The wire tag, counted from one in declaration order.
    pub open spec fn tag_spec(self) -> u8 {
        match self {
            CompilerRecipe::Deduplicate => 1,
            CompilerRecipe::FactorSharedDerivation => 2,
            CompilerRecipe::GeneralizeArtifact => 3,
            CompilerRecipe::DeriveOperator => 4,
            CompilerRecipe::RepairFailureFamily => 5,
            CompilerRecipe::ComposeOperators => 6,
        }
    }

    pub open spec fn decode_spec(tag: u8) -> Option<CompilerRecipe> {
        match tag {
            1 => Some(CompilerRecipe::Deduplicate),
            2 => Some(CompilerRecipe::FactorSharedDerivation),
            3 => Some(CompilerRecipe::GeneralizeArtifact),
            4 => Some(CompilerRecipe::DeriveOperator),
            5 => Some(CompilerRecipe::RepairFailureFamily),
            6 => Some(CompilerRecipe::ComposeOperators),
            _ => None,
        }
    }

    pub fn tag(self) -> (tag: u8)
        ensures
            tag == self.tag_spec(),
    {
        match self {
            CompilerRecipe::Deduplicate => 1,
            CompilerRecipe::FactorSharedDerivation => 2,
            CompilerRecipe::GeneralizeArtifact => 3,
            CompilerRecipe::DeriveOperator => 4,
            CompilerRecipe::RepairFailureFamily => 5,
            CompilerRecipe::ComposeOperators => 6,
        }
    }

    pub fn decode(value: u8) -> (result: Result<Self, ()>)
        ensures
            match result {
                Ok(item) => Self::decode_spec(value) == Some(item),
                Err(_) => Self::decode_spec(value) is None,
            },
    {
        match value {
            1 => Ok(CompilerRecipe::Deduplicate),
            2 => Ok(CompilerRecipe::FactorSharedDerivation),
            3 => Ok(CompilerRecipe::GeneralizeArtifact),
            4 => Ok(CompilerRecipe::DeriveOperator),
            5 => Ok(CompilerRecipe::RepairFailureFamily),
            6 => Ok(CompilerRecipe::ComposeOperators),
            _ => Err(()),
        }
    }
}

impl Wire<()> for CompilerRecipe {
    open spec fn wire(format: (), value: CompilerRecipe) -> Seq<u8> {
        codec::put_u8(value.tag_spec())
    }

    open spec fn parse(format: (), input: Seq<u8>) -> Option<(CompilerRecipe, Seq<u8>)> {
        match codec::parse_u8(input) {
            None => None,
            Some((tag, rest)) => match CompilerRecipe::decode_spec(tag) {
                None => None,
                Some(item) => Some((item, rest)),
            },
        }
    }

    open spec fn admissible(format: (), value: CompilerRecipe) -> bool {
        true
    }

    open spec fn least_bytes(format: ()) -> nat {
        1
    }

    proof fn lemma_round_trip(format: (), value: CompilerRecipe, rest: Seq<u8>) {
        broadcast use digest::group_digest;
    }

    proof fn lemma_least_bytes(format: (), value: CompilerRecipe) {
    }

    fn write(&self, format: &(), output: &mut Vec<u8>) {
        codec::write_u8(self.tag(), output);
    }

    fn read(format: &(), input: &mut Decoder<'_>) -> (result: Result<Self, ()>) {
        let tag: u8 = input.read_u8()?;
        CompilerRecipe::decode(tag)
    }
}

/// What a product is.
#[derive(Clone, Copy, Debug, PartialEq, Eq, Structural)]
pub enum KnowledgeProductKind {
    Artifact,
    DerivedOperator,
    KnowledgeIndex,
}

impl View for KnowledgeProductKind {
    type V = KnowledgeProductKind;

    open spec fn view(&self) -> KnowledgeProductKind {
        *self
    }
}

impl KnowledgeProductKind {
    /// The wire tag, counted from one in declaration order.
    pub open spec fn tag_spec(self) -> u8 {
        match self {
            KnowledgeProductKind::Artifact => 1,
            KnowledgeProductKind::DerivedOperator => 2,
            KnowledgeProductKind::KnowledgeIndex => 3,
        }
    }

    pub open spec fn decode_spec(tag: u8) -> Option<KnowledgeProductKind> {
        match tag {
            1 => Some(KnowledgeProductKind::Artifact),
            2 => Some(KnowledgeProductKind::DerivedOperator),
            3 => Some(KnowledgeProductKind::KnowledgeIndex),
            _ => None,
        }
    }

    pub fn tag(self) -> (tag: u8)
        ensures
            tag == self.tag_spec(),
    {
        match self {
            KnowledgeProductKind::Artifact => 1,
            KnowledgeProductKind::DerivedOperator => 2,
            KnowledgeProductKind::KnowledgeIndex => 3,
        }
    }

    pub fn decode(value: u8) -> (result: Result<Self, ()>)
        ensures
            match result {
                Ok(item) => Self::decode_spec(value) == Some(item),
                Err(_) => Self::decode_spec(value) is None,
            },
    {
        match value {
            1 => Ok(KnowledgeProductKind::Artifact),
            2 => Ok(KnowledgeProductKind::DerivedOperator),
            3 => Ok(KnowledgeProductKind::KnowledgeIndex),
            _ => Err(()),
        }
    }
}

impl Wire<()> for KnowledgeProductKind {
    open spec fn wire(format: (), value: KnowledgeProductKind) -> Seq<u8> {
        codec::put_u8(value.tag_spec())
    }

    open spec fn parse(format: (), input: Seq<u8>) -> Option<(KnowledgeProductKind, Seq<u8>)> {
        match codec::parse_u8(input) {
            None => None,
            Some((tag, rest)) => match KnowledgeProductKind::decode_spec(tag) {
                None => None,
                Some(item) => Some((item, rest)),
            },
        }
    }

    open spec fn admissible(format: (), value: KnowledgeProductKind) -> bool {
        true
    }

    open spec fn least_bytes(format: ()) -> nat {
        1
    }

    proof fn lemma_round_trip(format: (), value: KnowledgeProductKind, rest: Seq<u8>) {
        broadcast use digest::group_digest;
    }

    proof fn lemma_least_bytes(format: (), value: KnowledgeProductKind) {
    }

    fn write(&self, format: &(), output: &mut Vec<u8>) {
        codec::write_u8(self.tag(), output);
    }

    fn read(format: &(), input: &mut Decoder<'_>) -> (result: Result<Self, ()>) {
        let tag: u8 = input.read_u8()?;
        KnowledgeProductKind::decode(tag)
    }
}

/// Whether a product says anything that could be wrong.
#[derive(Clone, Copy, Debug, PartialEq, Eq, Structural)]
pub enum KnowledgeProductMeaning {
    Semantic,
    NonSemanticIndex,
}

impl View for KnowledgeProductMeaning {
    type V = KnowledgeProductMeaning;

    open spec fn view(&self) -> KnowledgeProductMeaning {
        *self
    }
}

impl KnowledgeProductMeaning {
    /// The wire tag, counted from one in declaration order.
    pub open spec fn tag_spec(self) -> u8 {
        match self {
            KnowledgeProductMeaning::Semantic => 1,
            KnowledgeProductMeaning::NonSemanticIndex => 2,
        }
    }

    pub open spec fn decode_spec(tag: u8) -> Option<KnowledgeProductMeaning> {
        match tag {
            1 => Some(KnowledgeProductMeaning::Semantic),
            2 => Some(KnowledgeProductMeaning::NonSemanticIndex),
            _ => None,
        }
    }

    pub fn tag(self) -> (tag: u8)
        ensures
            tag == self.tag_spec(),
    {
        match self {
            KnowledgeProductMeaning::Semantic => 1,
            KnowledgeProductMeaning::NonSemanticIndex => 2,
        }
    }

    pub fn decode(value: u8) -> (result: Result<Self, ()>)
        ensures
            match result {
                Ok(item) => Self::decode_spec(value) == Some(item),
                Err(_) => Self::decode_spec(value) is None,
            },
    {
        match value {
            1 => Ok(KnowledgeProductMeaning::Semantic),
            2 => Ok(KnowledgeProductMeaning::NonSemanticIndex),
            _ => Err(()),
        }
    }
}

impl Wire<()> for KnowledgeProductMeaning {
    open spec fn wire(format: (), value: KnowledgeProductMeaning) -> Seq<u8> {
        codec::put_u8(value.tag_spec())
    }

    open spec fn parse(format: (), input: Seq<u8>) -> Option<(KnowledgeProductMeaning, Seq<u8>)> {
        match codec::parse_u8(input) {
            None => None,
            Some((tag, rest)) => match KnowledgeProductMeaning::decode_spec(tag) {
                None => None,
                Some(item) => Some((item, rest)),
            },
        }
    }

    open spec fn admissible(format: (), value: KnowledgeProductMeaning) -> bool {
        true
    }

    open spec fn least_bytes(format: ()) -> nat {
        1
    }

    proof fn lemma_round_trip(format: (), value: KnowledgeProductMeaning, rest: Seq<u8>) {
        broadcast use digest::group_digest;
    }

    proof fn lemma_least_bytes(format: (), value: KnowledgeProductMeaning) {
    }

    fn write(&self, format: &(), output: &mut Vec<u8>) {
        codec::write_u8(self.tag(), output);
    }

    fn read(format: &(), input: &mut Decoder<'_>) -> (result: Result<Self, ()>) {
        let tag: u8 = input.read_u8()?;
        KnowledgeProductMeaning::decode(tag)
    }
}

// ---------------------------------------------------------------------------
// Products
// ---------------------------------------------------------------------------
/// What a challenger proposes.
#[verifier::ext_equal]
pub struct ProductView {
    pub kind: KnowledgeProductKind,
    pub subject: SubjectId,
    pub meaning: KnowledgeProductMeaning,
    pub bytes: Option<Seq<u8>>,
}

/// A payload is not empty and not too long.
pub open spec fn valid_payload(bytes: Seq<u8>) -> bool {
    0 < bytes.len() <= MAXIMUM_KNOWLEDGE_PRODUCT_BYTES
}

impl ProductView {
    /// Only an index with a payload can be without meaning.
    pub open spec fn meaning_is_valid(self) -> bool {
        self.meaning is NonSemanticIndex ==> self.kind is KnowledgeIndex && self.bytes is Some
    }

    pub open spec fn payload_bound_index(self) -> bool {
        self.meaning is NonSemanticIndex && self.meaning_is_valid()
    }

    pub open spec fn valid(self) -> bool {
        &&& self.meaning_is_valid()
        &&& self.bytes matches Some(bytes) ==> valid_payload(bytes)
    }

    /// The format can express it.
    pub open spec fn fits(self, format: KnowledgeWireFormat) -> bool {
        match format {
            KnowledgeWireFormat::LegacyV6 => self.meaning is Semantic && self.bytes is None,
            KnowledgeWireFormat::LegacyV7 => self.meaning is Semantic,
            KnowledgeWireFormat::V8 => true,
        }
    }

    /// How long the payload is.
    pub open spec fn payload_len(self) -> nat {
        match self.bytes {
            Some(bytes) => bytes.len(),
            None => 0,
        }
    }
}

/// `Arc::clone`: another handle to the same payload. Its value is the same.
#[verifier::external_body]
pub(crate) fn share_payload(bytes: &Arc<Vec<u8>>) -> (copy: Arc<Vec<u8>>)
    ensures
        copy@ == bytes@,
{
    Arc::clone(bytes)
}

/// `Arc::ptr_eq`: whether two handles lead to one allocation, in which case they
/// have the same value. Nothing is said of handles to different allocations.
#[verifier::external_body]
pub(crate) fn same_allocation(left: &Arc<Vec<u8>>, right: &Arc<Vec<u8>>) -> (same: bool)
    ensures
        same ==> left@ == right@,
{
    Arc::ptr_eq(left, right)
}

#[derive(Clone, Debug, PartialEq, Eq)]
pub struct KnowledgeProduct {
    kind: KnowledgeProductKind,
    subject: SubjectId,
    meaning: KnowledgeProductMeaning,
    bytes: Option<Arc<Vec<u8>>>,
}

impl View for KnowledgeProduct {
    type V = ProductView;

    closed spec fn view(&self) -> ProductView {
        ProductView {
            kind: self.kind,
            subject: self.subject,
            meaning: self.meaning,
            bytes: match self.bytes {
                Some(bytes) => Some(bytes@),
                None => None,
            },
        }
    }
}

impl KnowledgeProduct {
    /// A product with a meaning and no payload.
    pub open spec fn bare(kind: KnowledgeProductKind, subject: SubjectId) -> ProductView {
        ProductView { kind, subject, meaning: KnowledgeProductMeaning::Semantic, bytes: None }
    }

    pub fn artifact(subject: SubjectId) -> (product: Self)
        ensures
            product@ == Self::bare(KnowledgeProductKind::Artifact, subject),
    {
        Self {
            kind: KnowledgeProductKind::Artifact,
            subject,
            meaning: KnowledgeProductMeaning::Semantic,
            bytes: None,
        }
    }

    pub fn derived_operator(subject: SubjectId) -> (product: Self)
        ensures
            product@ == Self::bare(KnowledgeProductKind::DerivedOperator, subject),
    {
        Self {
            kind: KnowledgeProductKind::DerivedOperator,
            subject,
            meaning: KnowledgeProductMeaning::Semantic,
            bytes: None,
        }
    }

    pub fn knowledge_index(subject: SubjectId) -> (product: Self)
        ensures
            product@ == Self::bare(KnowledgeProductKind::KnowledgeIndex, subject),
    {
        Self {
            kind: KnowledgeProductKind::KnowledgeIndex,
            subject,
            meaning: KnowledgeProductMeaning::Semantic,
            bytes: None,
        }
    }

    /// An index that is nothing but its payload.
    pub fn nonsemantic_index(subject: SubjectId, bytes: Vec<u8>) -> (result: Result<
        Self,
        IntelligenceError,
    >)
        ensures
            match result {
                Ok(product) => valid_payload(bytes@) && product@ == (ProductView {
                    kind: KnowledgeProductKind::KnowledgeIndex,
                    subject,
                    meaning: KnowledgeProductMeaning::NonSemanticIndex,
                    bytes: Some(bytes@),
                }),
                Err(error) => !valid_payload(bytes@) && error
                    == IntelligenceError::InvalidKnowledge,
            },
    {
        let bytes = match validate_product_bytes(bytes) {
            Ok(bytes) => bytes,
            Err(error) => return Err(error),
        };
        Ok(
            Self {
                kind: KnowledgeProductKind::KnowledgeIndex,
                subject,
                meaning: KnowledgeProductMeaning::NonSemanticIndex,
                bytes: Some(Arc::new(bytes)),
            },
        )
    }

    /// The same product with a payload.
    pub fn with_bytes(self, bytes: Vec<u8>) -> (result: Result<Self, IntelligenceError>)
        ensures
            match result {
                Ok(product) => valid_payload(bytes@) && product@ == (ProductView {
                    bytes: Some(bytes@),
                    ..self@
                }),
                Err(error) => !valid_payload(bytes@) && error
                    == IntelligenceError::InvalidKnowledge,
            },
    {
        let bytes = match validate_product_bytes(bytes) {
            Ok(bytes) => bytes,
            Err(error) => return Err(error),
        };
        Ok(
            Self {
                kind: self.kind,
                subject: self.subject,
                meaning: self.meaning,
                bytes: Some(Arc::new(bytes)),
            },
        )
    }

    /// The same product, sharing its payload.
    pub fn duplicate(&self) -> (copy: Self)
        ensures
            copy@ == self@,
    {
        let bytes = match &self.bytes {
            Some(bytes) => Some(share_payload(bytes)),
            None => None,
        };
        let copy = Self {
            kind: self.kind,
            subject: self.subject,
            meaning: self.meaning,
            bytes,
        };
        copy
    }

    /// Whether both have a payload, and it is held only once.
    pub fn shares_payload_with(&self, other: &Self) -> (shared: bool)
        ensures
            shared ==> self@.bytes is Some && self@.bytes == other@.bytes,
    {
        match (&self.bytes, &other.bytes) {
            (Some(left), Some(right)) => same_allocation(left, right),
            _ => false,
        }
    }

    pub fn kind(&self) -> (kind: KnowledgeProductKind)
        ensures
            kind == self@.kind,
    {
        self.kind
    }

    pub fn subject(&self) -> (subject: SubjectId)
        ensures
            subject == self@.subject,
    {
        self.subject
    }

    pub fn meaning(&self) -> (meaning: KnowledgeProductMeaning)
        ensures
            meaning == self@.meaning,
    {
        self.meaning
    }

    pub fn bytes(&self) -> (bytes: Option<&[u8]>)
        ensures
            match bytes {
                Some(bytes) => self@.bytes == Some(bytes@),
                None => self@.bytes is None,
            },
    {
        match &self.bytes {
            Some(bytes) => Some(bytes.as_slice()),
            None => None,
        }
    }

    pub fn heap_bytes(&self) -> (bytes: usize)
        ensures
            bytes == self@.payload_len(),
    {
        match &self.bytes {
            Some(bytes) => bytes.len(),
            None => 0,
        }
    }

    pub fn has_valid_meaning(&self) -> (result: bool)
        ensures
            result == self@.meaning_is_valid(),
    {
        match self.meaning {
            KnowledgeProductMeaning::Semantic => true,
            KnowledgeProductMeaning::NonSemanticIndex => self.kind
                == KnowledgeProductKind::KnowledgeIndex && self.bytes.is_some(),
        }
    }

    pub fn is_payload_bound_nonsemantic_index(&self) -> (result: bool)
        ensures
            result == self@.payload_bound_index(),
    {
        self.meaning == KnowledgeProductMeaning::NonSemanticIndex && self.has_valid_meaning()
    }

    /// Whether two products are the same.
    pub fn same(&self, other: &Self) -> (result: bool)
        ensures
            result == (self@ == other@),
    {
        let payload = match (&self.bytes, &other.bytes) {
            (Some(left), Some(right)) => same_bytes(left.as_slice(), right.as_slice()),
            (None, None) => true,
            _ => false,
        };
        let result = self.kind == other.kind && self.subject == other.subject && self.meaning
            == other.meaning && payload;
        result
    }

    fn fits_format(&self, format: KnowledgeWireFormat) -> (result: bool)
        ensures
            result == self@.fits(format),
    {
        match format {
            KnowledgeWireFormat::LegacyV6 => self.meaning == KnowledgeProductMeaning::Semantic
                && self.bytes.is_none(),
            KnowledgeWireFormat::LegacyV7 => self.meaning == KnowledgeProductMeaning::Semantic,
            KnowledgeWireFormat::V8 => true,
        }
    }

    /// Writes the product; what the format cannot express is refused.
    pub fn encode(&self, format: KnowledgeWireFormat, output: &mut Vec<u8>) -> (result: Result<
        (),
        (),
    >)
        ensures
            match result {
                Ok(_) => self@.fits(format) && final(output)@ == old(output)@ + put_product(
                    format,
                    self@,
                ),
                Err(_) => !self@.fits(format) && final(output)@ == old(output)@,
            },
    {
        broadcast use digest::group_digest;

        if !self.fits_format(format) {
            return Err(());
        }
        codec::write_u8(self.kind.tag(), output);
        write_digest(self.subject.0, output);
        match format {
            KnowledgeWireFormat::V8 => codec::write_u8(self.meaning.tag(), output),
            _ => {},
        }
        match format {
            KnowledgeWireFormat::LegacyV6 => {},
            _ => encode_optional_product_bytes(self.bytes(), output),
        }
        assert(output@ =~= old(output)@ + put_product(format, self@));
        Ok(())
    }

    /// Reads a product whose payload is at most `maximum_bytes` long.
    pub fn decode(
        input: &mut Decoder<'_>,
        format: KnowledgeWireFormat,
        maximum_bytes: usize,
    ) -> (result: Result<Self, ()>)
        ensures
            codec::reads_view(
                result,
                final(input)@,
                parse_product(format, maximum_bytes as nat, old(input)@),
            ),
    {
        let kind = KnowledgeProductKind::read(&(), input)?;
        let subject = input.read_digest()?;
        let meaning = match format {
            KnowledgeWireFormat::V8 => KnowledgeProductMeaning::read(&(), input)?,
            _ => KnowledgeProductMeaning::Semantic,
        };
        let bytes = match format {
            KnowledgeWireFormat::LegacyV6 => None,
            _ => match decode_optional_product_bytes(input, maximum_bytes) {
                Ok(bytes) => bytes,
                Err(_) => return Err(()),
            },
        };
        let product = Self {
            kind,
            subject: SubjectId(subject),
            meaning,
            bytes: match bytes {
                Some(bytes) => Some(Arc::new(bytes)),
                None => None,
            },
        };
        if !product.has_valid_meaning() {
            return Err(());
        }
        Ok(product)
    }
}

pub fn validate_product_bytes(bytes: Vec<u8>) -> (result: Result<Vec<u8>, IntelligenceError>)
    ensures
        result == (if valid_payload(bytes@) {
            Ok(bytes)
        } else {
            Err::<Vec<u8>, IntelligenceError>(IntelligenceError::InvalidKnowledge)
        }),
{
    if bytes.len() == 0 || bytes.len() > MAXIMUM_KNOWLEDGE_PRODUCT_BYTES {
        return Err(IntelligenceError::InvalidKnowledge);
    }
    Ok(bytes)
}

/// A payload that may be missing.
pub open spec fn put_payload(bytes: Option<Seq<u8>>) -> Seq<u8> {
    match bytes {
        Some(bytes) => codec::put_u8(1) + codec::put_sized(bytes),
        None => codec::put_u8(0),
    }
}

pub open spec fn parse_payload(maximum: nat, input: Seq<u8>) -> Option<(Option<Seq<u8>>, Seq<u8>)> {
    match codec::parse_u8(input) {
        None => None,
        Some((tag, rest)) => if tag == 0 {
            Some((None, rest))
        } else if tag == 1 {
            match codec::parse_u64(rest) {
                None => None,
                Some((count, rest)) => if count == 0 || count > maximum || count
                    > MAXIMUM_KNOWLEDGE_PRODUCT_BYTES {
                    None
                } else {
                    match codec::parse_bytes(rest, count as nat) {
                        None => None,
                        Some((bytes, rest)) => Some((Some(bytes), rest)),
                    }
                },
            }
        } else {
            None
        },
    }
}

pub fn encode_optional_product_bytes(bytes: Option<&[u8]>, output: &mut Vec<u8>)
    ensures
        final(output)@ == old(output)@ + put_payload(
            match bytes {
                Some(bytes) => Some(bytes@),
                None => None,
            },
        ),
{
    broadcast use digest::group_digest;

    match bytes {
        Some(bytes) => {
            codec::write_u8(1, output);
            codec::write_sized(bytes, output);
        },
        None => codec::write_u8(0, output),
    }
}

pub fn decode_optional_product_bytes(input: &mut Decoder<'_>, maximum_bytes: usize) -> (result: Result<
    Option<Vec<u8>>,
    (),
>)
    ensures
        match result {
            Ok(bytes) => parse_payload(maximum_bytes as nat, old(input)@) == Some(
                (
                    match bytes {
                        Some(bytes) => Some(bytes@),
                        None => None,
                    },
                    final(input)@,
                ),
            ),
            Err(_) => parse_payload(maximum_bytes as nat, old(input)@) is None,
        },
{
    let tag: u8 = input.read_u8()?;
    if tag == 0 {
        return Ok(None);
    }
    if tag != 1 {
        return Err(());
    }
    let count: u64 = input.read_u64()?;
    if count == 0 || count > maximum_bytes as u64 || count > MAXIMUM_KNOWLEDGE_PRODUCT_BYTES as u64 {
        return Err(());
    }
    match input.take(count as usize) {
        Ok(bytes) => Ok(Some(copied(bytes))),
        Err(_) => Err(()),
    }
}

proof fn lemma_payload_round_trip(bytes: Option<Seq<u8>>, maximum: nat, rest: Seq<u8>)
    requires
        bytes matches Some(bytes) ==> valid_payload(bytes) && bytes.len() <= maximum,
    ensures
        parse_payload(maximum, put_payload(bytes) + rest) == Some((bytes, rest)),
{
    broadcast use digest::group_digest;

    if let Some(bytes) = bytes {
        assert(bytes.len() as u64 as nat == bytes.len());
        codec::lemma_parse_bytes(bytes, bytes.len(), rest);
    }
}

/// The bytes of a product.
pub open spec fn put_product(format: KnowledgeWireFormat, value: ProductView) -> Seq<u8> {
    let meaning = if format is V8 {
        codec::put_u8(value.meaning.tag_spec())
    } else {
        Seq::empty()
    };
    let payload = if format is LegacyV6 {
        Seq::empty()
    } else {
        put_payload(value.bytes)
    };
    codec::put_u8(value.kind.tag_spec()) + (value.subject.0.bytes() + (meaning + payload))
}

/// The product at the front of some bytes.
pub open spec fn parse_product(
    format: KnowledgeWireFormat,
    maximum: nat,
    input: Seq<u8>,
) -> Option<(ProductView, Seq<u8>)> {
    match KnowledgeProductKind::parse((), input) {
        None => None,
        Some((kind, rest)) => match digest::parse_digest(rest) {
            None => None,
            Some((subject, rest)) => match (if format is V8 {
                KnowledgeProductMeaning::parse((), rest)
            } else {
                Some((KnowledgeProductMeaning::Semantic, rest))
            }) {
                None => None,
                Some((meaning, rest)) => match (if format is LegacyV6 {
                    Some((None, rest))
                } else {
                    parse_payload(maximum, rest)
                }) {
                    None => None,
                    Some((bytes, rest)) => {
                        let product = ProductView {
                            kind,
                            subject: SubjectId(subject),
                            meaning,
                            bytes,
                        };
                        if product.meaning_is_valid() {
                            Some((product, rest))
                        } else {
                            None
                        }
                    },
                },
            },
        },
    }
}

proof fn lemma_product_round_trip(
    format: KnowledgeWireFormat,
    value: ProductView,
    maximum: nat,
    rest: Seq<u8>,
)
    requires
        value.valid(),
        value.fits(format),
        value.payload_len() <= maximum,
    ensures
        parse_product(format, maximum, put_product(format, value) + rest) == Some((value, rest)),
{
    let meaning = if format is V8 {
        codec::put_u8(value.meaning.tag_spec())
    } else {
        Seq::empty()
    };
    let payload = if format is LegacyV6 {
        Seq::empty()
    } else {
        put_payload(value.bytes)
    };
    let after_subject = meaning + (payload + rest);
    let after_kind = value.subject.0.bytes() + after_subject;
    assert(put_product(format, value) + rest =~= codec::put_u8(value.kind.tag_spec()) + after_kind);
    KnowledgeProductKind::lemma_round_trip((), value.kind, after_kind);
    digest::lemma_parse_digest(value.subject.0, after_subject);
    if format is V8 {
        KnowledgeProductMeaning::lemma_round_trip((), value.meaning, payload + rest);
    } else {
        assert(after_subject =~= payload + rest);
    }
    if format is LegacyV6 {
        assert(payload + rest =~= rest);
    } else {
        lemma_payload_round_trip(value.bytes, maximum, rest);
    }
}

// ---------------------------------------------------------------------------
// Promotion gates
// ---------------------------------------------------------------------------
/// What has to be gained on one axis; the minimum is a bit pattern.
#[derive(Clone, Copy, Debug, PartialEq, Eq, Structural)]
pub struct ContextualRequirement {
    pub axis: ForecastAxis,
    pub minimum_advantage: u32,
}

impl View for ContextualRequirement {
    type V = ContextualRequirement;

    open spec fn view(&self) -> ContextualRequirement {
        *self
    }
}

impl ContextualRequirement {
    /// The minimum is finite and not negative.
    pub open spec fn valid(self) -> bool {
        forecast::finite(self.minimum_advantage) && !numbers::below_zero(self.minimum_advantage)
    }

    pub fn new(axis: ForecastAxis, minimum_advantage: u32) -> (result: Result<
        Self,
        IntelligenceError,
    >)
        ensures
            ({
                let requirement = ContextualRequirement { axis, minimum_advantage };
                result == (if requirement.valid() {
                    Ok::<Self, IntelligenceError>(requirement)
                } else {
                    Err(IntelligenceError::InvalidKnowledge)
                })
            }),
    {
        if !forecast::is_finite(minimum_advantage) || minimum_advantage
            > forecast::NEGATIVE_ZERO_BITS {
            return Err(IntelligenceError::InvalidKnowledge);
        }
        Ok(Self { axis, minimum_advantage })
    }

    /// It asks for an actual gain that others can build on.
    pub open spec fn downstream(self) -> bool {
        (self.axis is UsefulDescendants || self.axis is CrossGoalLeverage) && forecast::magnitude(
            self.minimum_advantage,
        ) > 0
    }

    /// Two requirements that state the same.
    pub open spec fn agrees(self, other: ContextualRequirement) -> bool {
        self.axis == other.axis && forecast::same_number(
            self.minimum_advantage,
            other.minimum_advantage,
        )
    }
}

impl Wire<()> for ContextualRequirement {
    open spec fn wire(format: (), value: ContextualRequirement) -> Seq<u8> {
        ForecastAxis::wire((), value.axis) + (codec::put_u32(value.minimum_advantage))
    }

    open spec fn parse(format: (), input: Seq<u8>) -> Option<(ContextualRequirement, Seq<u8>)> {
        match ForecastAxis::parse((), input) {
            None => None,
            Some((axis, rest)) => match codec::parse_u32(rest) {
                None => None,
                Some((minimum_advantage, rest)) => {
                    let requirement = ContextualRequirement { axis, minimum_advantage };
                    if requirement.valid() { Some((requirement, rest)) } else { None }
                },
            },
        }
    }

    open spec fn admissible(format: (), value: ContextualRequirement) -> bool {
        value.valid()
    }

    open spec fn least_bytes(format: ()) -> nat {
        5
    }

    proof fn lemma_round_trip(format: (), value: ContextualRequirement, rest: Seq<u8>) {
        broadcast use digest::group_digest;
        broadcast use types::lemma_source_round_trip;
        broadcast use types::lemma_resources_round_trip;

        ForecastAxis::lemma_round_trip(
            (),
            value.axis,
            codec::put_u32(value.minimum_advantage) + (rest),
        );
    }

    proof fn lemma_least_bytes(format: (), value: ContextualRequirement) {
        broadcast use digest::group_digest;
        broadcast use types::lemma_resources_len;

        ForecastAxis::lemma_least_bytes((), value.axis);
    }

    fn write(&self, format: &(), output: &mut Vec<u8>) {
        broadcast use digest::group_digest;

        self.axis.write(&(), output);
        codec::write_u32(self.minimum_advantage, output);
    }

    fn read(format: &(), input: &mut Decoder<'_>) -> (result: Result<Self, ()>) {
        let axis = ForecastAxis::read(&(), input)?;
        let minimum_advantage: u32 = input.read_u32()?;
        match ContextualRequirement::new(axis, minimum_advantage) {
            Ok(requirement) => Ok(requirement),
            Err(_) => Err(()),
        }
    }
}

/// The axes of some requirements, in order.
pub open spec fn requirement_axes(requirements: Seq<ContextualRequirement>) -> Seq<ForecastAxis> {
    Seq::new(requirements.len(), |i: int| requirements[i].axis)
}

/// Requirements that a gate can consist of: on distinct axes, with a gain that
/// others can build on among them.
pub open spec fn valid_gate(requirements: Seq<ContextualRequirement>) -> bool {
    &&& requirements.len() > 0
    &&& forecast::distinct_axes(requirement_axes(requirements))
    &&& exists|i: int| 0 <= i < requirements.len() && (#[trigger] requirements[i]).downstream()
}

pub open spec fn requirements_valid(requirements: Seq<ContextualRequirement>) -> bool {
    forall|i: int| 0 <= i < requirements.len() ==> (#[trigger] requirements[i]).valid()
}

/// A contrast by which a campaign meets a requirement.
pub open spec fn meets(
    contrast: ContextualContrast,
    requirement: ContextualRequirement,
    campaign: ShadowCampaignId,
    subject: SubjectId,
) -> bool {
    &&& contrast.campaign == campaign
    &&& contrast.subject == subject
    &&& contrast.axis == requirement.axis
    &&& numbers::advantage_reaches(
        contrast.axis,
        contrast.treatment,
        contrast.control,
        requirement.minimum_advantage,
    )
}

pub open spec fn requirement_met(
    requirement: ContextualRequirement,
    campaign: ShadowCampaignId,
    subject: SubjectId,
    contrasts: Seq<ContextualContrast>,
) -> bool {
    exists|j: int|
        0 <= j < contrasts.len() && meets(#[trigger] contrasts[j], requirement, campaign, subject)
}

/// One campaign about the subject meets every requirement.
pub open spec fn satisfies(
    requirements: Seq<ContextualRequirement>,
    campaign: ShadowCampaignId,
    subject: SubjectId,
    contrasts: Seq<ContextualContrast>,
) -> bool {
    forall|i: int|
        0 <= i < requirements.len() ==> requirement_met(
            #[trigger] requirements[i],
            campaign,
            subject,
            contrasts,
        )
}

pub open spec fn from_satisfying_campaign(
    requirements: Seq<ContextualRequirement>,
    subject: SubjectId,
    contrasts: Seq<ContextualContrast>,
) -> spec_fn(ContextualContrast) -> bool {
    |contrast: ContextualContrast|
        contrast.subject == subject && satisfies(
            requirements,
            contrast.campaign,
            subject,
            contrasts,
        )
}

/// The first campaign about the subject that meets every requirement.
pub open spec fn satisfying(
    requirements: Seq<ContextualRequirement>,
    subject: SubjectId,
    contrasts: Seq<ContextualContrast>,
) -> Option<ShadowCampaignId> {
    match search::first(contrasts, from_satisfying_campaign(requirements, subject, contrasts)) {
        Some(index) => Some(contrasts[index].campaign),
        None => None,
    }
}

/// What has to be gained before a product is promoted.
#[derive(Clone, Debug, PartialEq, Eq)]
pub struct PromotionGate {
    requirements: Vec<ContextualRequirement>,
}

impl View for PromotionGate {
    type V = Seq<ContextualRequirement>;

    closed spec fn view(&self) -> Seq<ContextualRequirement> {
        self.requirements@
    }
}

impl PromotionGate {
    /// A gate of the given requirements, all of which have to be met.
    pub fn all(requirements: &[ContextualRequirement]) -> (result: Result<Self, IntelligenceError>)
        ensures
            match result {
                Ok(gate) => valid_gate(requirements@) && gate@ == requirements@,
                Err(error) => !valid_gate(requirements@) && error
                    == IntelligenceError::InvalidKnowledge,
            },
    {
        let mut axes: Vec<ForecastAxis> = Vec::new();
        let mut downstream = false;
        let mut index: usize = 0;
        while index < requirements.len()
            invariant
                index <= requirements@.len(),
                axes@ == requirement_axes(requirements@).take(index as int),
                downstream == exists|i: int|
                    0 <= i < index && (#[trigger] requirements@[i]).downstream(),
            decreases requirements@.len() - index,
        {
            let requirement = requirements[index];
            axes.push(requirement.axis);
            assert(axes@ =~= requirement_axes(requirements@).take(index + 1));
            let promising = matches!(
                requirement.axis,
                ForecastAxis::UsefulDescendants | ForecastAxis::CrossGoalLeverage
            ) && requirement.minimum_advantage != 0 && requirement.minimum_advantage
                != forecast::NEGATIVE_ZERO_BITS;
            assert(promising == requirements@[index as int].downstream());
            if promising {
                downstream = true;
            }
            index = index + 1;
        }
        assert(axes@ =~= requirement_axes(requirements@));
        if requirements.len() == 0 || !forecast::axes_are_distinct(axes.as_slice()) || !downstream {
            return Err(IntelligenceError::InvalidKnowledge);
        }
        Ok(Self { requirements: copied(requirements) })
    }

    pub fn requirements(&self) -> (requirements: &[ContextualRequirement])
        ensures
            requirements@ == self@,
    {
        self.requirements.as_slice()
    }

    pub fn duplicate(&self) -> (copy: Self)
        ensures
            copy@ == self@,
    {
        Self { requirements: copied(self.requirements.as_slice()) }
    }

    /// Whether one campaign about the subject meets every requirement.
    pub fn campaign_satisfies(
        &self,
        campaign: ShadowCampaignId,
        subject: SubjectId,
        contrasts: &[ContextualContrast],
    ) -> (result: bool)
        ensures
            result == satisfies(self@, campaign, subject, contrasts@),
    {
        let mut index: usize = 0;
        while index < self.requirements.len()
            invariant
                index <= self.requirements@.len(),
                forall|i: int|
                    0 <= i < index ==> requirement_met(
                        #[trigger] self.requirements@[i],
                        campaign,
                        subject,
                        contrasts@,
                    ),
            decreases self.requirements@.len() - index,
        {
            if !is_met(self.requirements[index], campaign, subject, contrasts) {
                assert(!requirement_met(
                    self.requirements@[index as int],
                    campaign,
                    subject,
                    contrasts@,
                ));
                return false;
            }
            index = index + 1;
        }
        true
    }

    /// The first campaign about the subject that meets every requirement.
    pub fn satisfying_campaign(&self, subject: SubjectId, contrasts: &[ContextualContrast]) -> (result:
        Option<ShadowCampaignId>)
        ensures
            result == satisfying(self@, subject, contrasts@),
    {
        let ghost test = from_satisfying_campaign(self@, subject, contrasts@);
        let mut index: usize = 0;
        while index < contrasts.len()
            invariant
                index <= contrasts@.len(),
                test == from_satisfying_campaign(self@, subject, contrasts@),
                forall|i: int| 0 <= i < index ==> !test(#[trigger] contrasts@[i]),
            decreases contrasts@.len() - index,
        {
            let contrast = contrasts[index];
            if contrast.subject == subject && self.campaign_satisfies(
                contrast.campaign,
                subject,
                contrasts,
            ) {
                proof {
                    search::lemma_is_first(contrasts@, test, index as int);
                }
                return Some(contrast.campaign);
            }
            index = index + 1;
        }
        proof {
            search::lemma_is_none(contrasts@, test);
        }
        None
    }

    /// Whether two gates ask for the same.
    pub fn agrees_with(&self, other: &Self) -> (result: bool)
        ensures
            result == gates_agree(self@, other@),
    {
        if self.requirements.len() != other.requirements.len() {
            return false;
        }
        let mut index: usize = 0;
        while index < self.requirements.len()
            invariant
                index <= self.requirements@.len(),
                self.requirements@.len() == other.requirements@.len(),
                forall|i: int|
                    0 <= i < index ==> (#[trigger] self.requirements@[i]).agrees(
                        other.requirements@[i],
                    ),
            decreases self.requirements@.len() - index,
        {
            if self.requirements[index].axis != other.requirements[index].axis
                || !forecast::is_same_number(
                self.requirements[index].minimum_advantage,
                other.requirements[index].minimum_advantage,
            ) {
                assert(!self.requirements@[index as int].agrees(other.requirements@[index as int]));
                return false;
            }
            index = index + 1;
        }
        true
    }
}

/// Two gates that ask for the same.
pub open spec fn gates_agree(
    left: Seq<ContextualRequirement>,
    right: Seq<ContextualRequirement>,
) -> bool {
    &&& left.len() == right.len()
    &&& forall|i: int| 0 <= i < left.len() ==> (#[trigger] left[i]).agrees(right[i])
}

fn is_met(
    requirement: ContextualRequirement,
    campaign: ShadowCampaignId,
    subject: SubjectId,
    contrasts: &[ContextualContrast],
) -> (result: bool)
    ensures
        result == requirement_met(requirement, campaign, subject, contrasts@),
{
    let mut index: usize = 0;
    while index < contrasts.len()
        invariant
            index <= contrasts@.len(),
            forall|j: int|
                0 <= j < index ==> !meets(#[trigger] contrasts@[j], requirement, campaign, subject),
        decreases contrasts@.len() - index,
    {
        let contrast = contrasts[index];
        if contrast.campaign == campaign && contrast.subject == subject && contrast.axis
            == requirement.axis && numbers::gains(
            contrast.axis,
            contrast.treatment,
            contrast.control,
            requirement.minimum_advantage,
        ) {
            assert(meets(contrasts@[index as int], requirement, campaign, subject));
            return true;
        }
        index = index + 1;
    }
    false
}

// ---------------------------------------------------------------------------
// Challengers
// ---------------------------------------------------------------------------
impl Ranked for SubjectId {
    open spec fn before(self, other: Self) -> bool {
        digest::lexicographic(self.0.bytes(), other.0.bytes())
    }

    proof fn lemma_ranked(left: Self, middle: Self, right: Self) {
        digest::lemma_order(left.0, middle.0, right.0);
    }

    fn precedes(self, other: Self) -> (result: bool) {
        self.0.precedes(other.0)
    }

    fn same(self, other: Self) -> (result: bool) {
        self == other
    }
}

/// Some members, not too many, and none twice.
pub open spec fn members_valid(members: Seq<SubjectId>) -> bool {
    0 < members.len() <= MAXIMUM_RECIPE_MEMBERS && order::distinct(members)
}

pub fn valid_members(members: &[SubjectId]) -> (result: bool)
    ensures
        result == members_valid(members@),
{
    members.len() > 0 && members.len() <= MAXIMUM_RECIPE_MEMBERS && order::is_distinct(members)
}

/// What a challenger consists of.
#[verifier::ext_equal]
pub struct ChallengerView {
    pub id: KnowledgeChallengerId,
    pub recipe: CompilerRecipe,
    pub sources: Seq<SubjectId>,
    pub product: ProductView,
    pub obligations: Seq<SubjectId>,
    pub promotion: Seq<ContextualRequirement>,
}

/// The bytes of a challenger without its name.
pub open spec fn challenger_content(format: KnowledgeWireFormat, value: ChallengerView) -> Seq<u8> {
    codec::put_u8(value.recipe.tag_spec()) + (codec::put_list::<(), SubjectId>((), value.sources) + (
    put_product(format, value.product) + (codec::put_list::<(), SubjectId>((), value.obligations)
        + codec::put_list::<(), ContextualRequirement>((), value.promotion))))
}

/// The name of a challenger in a format.
pub open spec fn challenger_identity(
    format: KnowledgeWireFormat,
    value: ChallengerView,
) -> KnowledgeChallengerId {
    let content = challenger_content(format, value);
    KnowledgeChallengerId(
        match format {
            KnowledgeWireFormat::LegacyV6 => digest::labelled(
                "reflex-knowledge-challenger-v1\0",
                content,
            ),
            KnowledgeWireFormat::LegacyV7 => digest::labelled(
                "reflex-knowledge-challenger-v2\0",
                content,
            ),
            KnowledgeWireFormat::V8 => digest::labelled(
                "reflex-knowledge-challenger-v3\0",
                content,
            ),
        },
    )
}

impl ChallengerView {
    /// It has sources, and obligations unless its product is nothing but its
    /// payload.
    pub open spec fn acceptable(self) -> bool {
        &&& members_valid(self.sources)
        &&& members_valid(self.obligations) || self.obligations.len() == 0
            && self.product.payload_bound_index()
    }

    /// The same challenger under the name that follows from it.
    pub open spec fn named(self) -> ChallengerView {
        ChallengerView { id: challenger_identity(KnowledgeWireFormat::V8, self), ..self }
    }

    pub open spec fn valid(self) -> bool {
        &&& self.acceptable()
        &&& self.product.valid()
        &&& valid_gate(self.promotion)
        &&& requirements_valid(self.promotion)
        &&& self.id == challenger_identity(KnowledgeWireFormat::V8, self)
    }

    /// Two challengers that state the same.
    pub open spec fn agrees(self, other: ChallengerView) -> bool {
        &&& self.id == other.id
        &&& self.recipe == other.recipe
        &&& self.sources == other.sources
        &&& self.product == other.product
        &&& self.obligations == other.obligations
        &&& gates_agree(self.promotion, other.promotion)
    }
}

/// The name of a challenger does not depend on the name it has.
proof fn lemma_identity_ignores_id(
    format: KnowledgeWireFormat,
    value: ChallengerView,
    id: KnowledgeChallengerId,
)
    ensures
        challenger_content(format, (ChallengerView { id, ..value })) == challenger_content(
            format,
            value,
        ),
        challenger_identity(format, (ChallengerView { id, ..value })) == challenger_identity(
            format,
            value,
        ),
{
}

/// The bytes of a challenger.
pub open spec fn put_challenger(format: KnowledgeWireFormat, value: ChallengerView) -> Seq<u8> {
    challenger_identity(format, value).0.bytes() + challenger_content(format, value)
}

/// The challenger at the front of some bytes.
pub open spec fn parse_challenger(
    format: KnowledgeWireFormat,
    maximum: nat,
    input: Seq<u8>,
) -> Option<(ChallengerView, Seq<u8>)> {
    match digest::parse_digest(input) {
        None => None,
        Some((id, rest)) => match CompilerRecipe::parse((), rest) {
            None => None,
            Some((recipe, rest)) => match codec::parse_list::<(), SubjectId>((), rest, 64, 32) {
                None => None,
                Some((sources, rest)) => match parse_product(format, maximum, rest) {
                    None => None,
                    Some((product, rest)) => match codec::parse_list::<(), SubjectId>(
                        (),
                        rest,
                        64,
                        32,
                    ) {
                        None => None,
                        Some((obligations, rest)) => match codec::parse_list::<
                            (),
                            ContextualRequirement,
                        >((), rest, 32, 5) {
                            None => None,
                            Some((promotion, rest)) => {
                                let challenger = (ChallengerView {
                                    id: KnowledgeChallengerId(id),
                                    recipe,
                                    sources,
                                    product,
                                    obligations,
                                    promotion,
                                }).named();
                                if challenger.acceptable() && valid_gate(promotion)
                                    && challenger_identity(format, challenger).0 == id {
                                    Some((challenger, rest))
                                } else {
                                    None
                                }
                            },
                        },
                    },
                },
            },
        },
    }
}

/// A valid challenger that the format can express reads back as it was written.
pub proof fn law_challenger_reads_back(
    format: KnowledgeWireFormat,
    value: ChallengerView,
    maximum: nat,
    rest: Seq<u8>,
)
    requires
        value.valid(),
        value.product.fits(format),
        value.product.payload_len() <= maximum,
    ensures
        parse_challenger(format, maximum, put_challenger(format, value) + rest) == Some(
            (value, rest),
        ),
{
    forecast::lemma_distinct_axes_bounded(requirement_axes(value.promotion));
    let after_promotion = codec::put_list::<(), ContextualRequirement>((), value.promotion) + rest;
    let after_obligations = codec::put_list::<(), SubjectId>((), value.obligations)
        + after_promotion;
    let after_product = put_product(format, value.product) + after_obligations;
    let after_sources = codec::put_list::<(), SubjectId>((), value.sources) + after_product;
    let after_recipe = codec::put_u8(value.recipe.tag_spec()) + after_sources;
    let id = challenger_identity(format, value).0;
    assert(put_challenger(format, value) + rest =~= id.bytes() + after_recipe);
    digest::lemma_parse_digest(id, after_recipe);
    CompilerRecipe::lemma_round_trip((), value.recipe, after_sources);
    codec::lemma_list_round_trip::<(), SubjectId>((), value.sources, 64, 32, after_product);
    lemma_product_round_trip(format, value.product, maximum, after_obligations);
    codec::lemma_list_round_trip::<(), SubjectId>(
        (),
        value.obligations,
        64,
        32,
        after_promotion,
    );
    codec::lemma_list_round_trip::<(), ContextualRequirement>((), value.promotion, 32, 5, rest);
    lemma_identity_ignores_id(
        KnowledgeWireFormat::V8,
        value,
        KnowledgeChallengerId(id),
    );
    lemma_identity_ignores_id(format, value, KnowledgeChallengerId(id));
    lemma_identity_ignores_id(
        format,
        (ChallengerView { id: KnowledgeChallengerId(id), ..value }),
        value.id,
    );
}

/// A proposal to the knowledge compiler.
#[derive(Clone, Debug, PartialEq, Eq)]
pub struct KnowledgeChallenger {
    id: KnowledgeChallengerId,
    recipe: CompilerRecipe,
    sources: Vec<SubjectId>,
    product: KnowledgeProduct,
    obligations: Vec<SubjectId>,
    promotion: PromotionGate,
}

impl View for KnowledgeChallenger {
    type V = ChallengerView;

    closed spec fn view(&self) -> ChallengerView {
        ChallengerView {
            id: self.id,
            recipe: self.recipe,
            sources: self.sources@,
            product: self.product@,
            obligations: self.obligations@,
            promotion: self.promotion@,
        }
    }
}

/// Whether two lists hold the same subjects.
pub fn same_subjects(left: &[SubjectId], right: &[SubjectId]) -> (result: bool)
    ensures
        result == (left@ == right@),
{
    if left.len() != right.len() {
        return false;
    }
    let mut index: usize = 0;
    while index < left.len()
        invariant
            index <= left@.len(),
            left@.len() == right@.len(),
            forall|i: int| 0 <= i < index ==> left@[i] == right@[i],
        decreases left@.len() - index,
    {
        if left[index] != right[index] {
            assert(left@[index as int] != right@[index as int]);
            return false;
        }
        index = index + 1;
    }
    assert(left@ =~= right@);
    true
}

impl KnowledgeChallenger {
    pub fn new(
        recipe: CompilerRecipe,
        sources: &[SubjectId],
        product: KnowledgeProduct,
        obligations: &[SubjectId],
        promotion: PromotionGate,
    ) -> (result: Result<Self, IntelligenceError>)
        ensures
            forall|id: KnowledgeChallengerId|
                ({
                    let asked = #[trigger] with_id(
                        id,
                        recipe,
                        sources@,
                        product@,
                        obligations@,
                        promotion@,
                    );
                    match result {
                        Ok(challenger) => asked.acceptable() && challenger@ == asked.named(),
                        Err(error) => !asked.acceptable() && error
                            == IntelligenceError::InvalidKnowledge,
                    }
                }),
    {
        let obligations_hold = valid_members(obligations) || obligations.len() == 0
            && product.is_payload_bound_nonsemantic_index();
        if !valid_members(sources) || !obligations_hold {
            return Err(IntelligenceError::InvalidKnowledge);
        }
        let mut challenger = Self {
            id: KnowledgeChallengerId(Digest { first: 0, second: 0, third: 0, fourth: 0 }),
            recipe,
            sources: copied(sources),
            product,
            obligations: copied(obligations),
            promotion,
        };
        let ghost unnamed = challenger@;
        let mut content: Vec<u8> = Vec::new();
        match challenger.encode_content(KnowledgeWireFormat::V8, &mut content) {
            Ok(_) => {},
            Err(_) => return Err(IntelligenceError::InvalidKnowledge),
        }
        assert(content@ =~= challenger_content(KnowledgeWireFormat::V8, unnamed));
        challenger.id =
        KnowledgeChallengerId(
            hash_labelled("reflex-knowledge-challenger-v3\0", content.as_slice()),
        );
        assert forall|id: KnowledgeChallengerId|
            challenger@ == (#[trigger] with_id(
                id,
                recipe,
                sources@,
                product@,
                obligations@,
                promotion@,
            )).named() by {
            lemma_identity_ignores_id(KnowledgeWireFormat::V8, unnamed, id);
        }
        Ok(challenger)
    }

    pub fn duplicate(&self) -> (copy: Self)
        ensures
            copy@ == self@,
    {
        Self {
            id: self.id,
            recipe: self.recipe,
            sources: copied(self.sources.as_slice()),
            product: self.product.duplicate(),
            obligations: copied(self.obligations.as_slice()),
            promotion: self.promotion.duplicate(),
        }
    }

    pub fn id(&self) -> (id: KnowledgeChallengerId)
        ensures
            id == self@.id,
    {
        self.id
    }

    pub fn recipe(&self) -> (recipe: CompilerRecipe)
        ensures
            recipe == self@.recipe,
    {
        self.recipe
    }

    pub fn sources(&self) -> (sources: &[SubjectId])
        ensures
            sources@ == self@.sources,
    {
        self.sources.as_slice()
    }

    pub fn product(&self) -> (product: &KnowledgeProduct)
        ensures
            product@ == self@.product,
    {
        &self.product
    }

    pub fn obligations(&self) -> (obligations: &[SubjectId])
        ensures
            obligations@ == self@.obligations,
    {
        self.obligations.as_slice()
    }

    pub fn promotion(&self) -> (promotion: &PromotionGate)
        ensures
            promotion@ == self@.promotion,
    {
        &self.promotion
    }

    /// Whether two challengers state the same.
    pub fn agrees_with(&self, other: &Self) -> (result: bool)
        ensures
            result == self@.agrees(other@),
    {
        self.id == other.id && self.recipe == other.recipe && same_subjects(
            self.sources.as_slice(),
            other.sources.as_slice(),
        ) && self.product.same(&other.product) && same_subjects(
            self.obligations.as_slice(),
            other.obligations.as_slice(),
        ) && self.promotion.agrees_with(&other.promotion)
    }

    fn encode_content(&self, format: KnowledgeWireFormat, output: &mut Vec<u8>) -> (result: Result<
        (),
        (),
    >)
        ensures
            match result {
                Ok(_) => self@.product.fits(format) && final(output)@ == old(output)@
                    + challenger_content(format, self@),
                Err(_) => !self@.product.fits(format),
            },
    {
        broadcast use digest::group_digest;

        assert(codec::views(self.sources@) =~= self.sources@);
        assert(codec::views(self.obligations@) =~= self.obligations@);
        assert(codec::views(self.promotion.requirements@) =~= self.promotion.requirements@);
        codec::write_u8(self.recipe.tag(), output);
        codec::write_list::<(), SubjectId>(&(), self.sources.as_slice(), output);
        match self.product.encode(format, output) {
            Ok(_) => {},
            Err(_) => return Err(()),
        }
        codec::write_list::<(), SubjectId>(&(), self.obligations.as_slice(), output);
        codec::write_list::<(), ContextualRequirement>(
            &(),
            self.promotion.requirements.as_slice(),
            output,
        );
        Ok(())
    }

    /// The name of the challenger in a format; what the format cannot express has
    /// none.
    pub fn identity_in(&self, format: KnowledgeWireFormat) -> (result: Result<
        KnowledgeChallengerId,
        (),
    >)
        ensures
            match result {
                Ok(id) => self@.product.fits(format) && id == challenger_identity(format, self@),
                Err(_) => !self@.product.fits(format),
            },
    {
        let mut content: Vec<u8> = Vec::new();
        match self.encode_content(format, &mut content) {
            Ok(_) => {},
            Err(_) => return Err(()),
        }
        assert(content@ =~= challenger_content(format, self@));
        Ok(
            KnowledgeChallengerId(
                match format {
                    KnowledgeWireFormat::LegacyV6 => hash_labelled(
                        "reflex-knowledge-challenger-v1\0",
                        content.as_slice(),
                    ),
                    KnowledgeWireFormat::LegacyV7 => hash_labelled(
                        "reflex-knowledge-challenger-v2\0",
                        content.as_slice(),
                    ),
                    KnowledgeWireFormat::V8 => hash_labelled(
                        "reflex-knowledge-challenger-v3\0",
                        content.as_slice(),
                    ),
                },
            ),
        )
    }

    /// Writes the challenger; what the format cannot express is refused.
    pub fn encode(&self, format: KnowledgeWireFormat, output: &mut Vec<u8>) -> (result: Result<
        (),
        (),
    >)
        ensures
            match result {
                Ok(_) => self@.product.fits(format) && final(output)@ == old(output)@
                    + put_challenger(format, self@),
                Err(_) => !self@.product.fits(format) && final(output)@ == old(output)@,
            },
    {
        broadcast use digest::group_digest;

        let id = match self.identity_in(format) {
            Ok(id) => id,
            Err(_) => return Err(()),
        };
        write_digest(id.0, output);
        self.encode_content(format, output)
    }

    pub fn encode_canonical(&self, output: &mut Vec<u8>)
        ensures
            final(output)@ == old(output)@ + put_challenger(KnowledgeWireFormat::V8, self@),
    {
        let _written = self.encode(KnowledgeWireFormat::V8, output);
    }

    /// Reads a challenger whose payload is at most `maximum_product_bytes` long.
    pub fn decode(
        input: &mut Decoder<'_>,
        format: KnowledgeWireFormat,
        maximum_product_bytes: usize,
    ) -> (result: Result<Self, ()>)
        ensures
            codec::reads_view(
                result,
                final(input)@,
                parse_challenger(format, maximum_product_bytes as nat, old(input)@),
            ),
    {
        let id = input.read_digest()?;
        let recipe = CompilerRecipe::read(&(), input)?;
        let sources = codec::read_list::<(), SubjectId>(&(), input, 64, 32)?;
        let ghost before_product = input@;
        let product = KnowledgeProduct::decode(input, format, maximum_product_bytes)?;
        let obligations = codec::read_list::<(), SubjectId>(&(), input, 64, 32)?;
        let promotion = codec::read_list::<(), ContextualRequirement>(&(), input, 32, 5)?;
        assert(codec::views(sources@) =~= sources@);
        assert(codec::views(obligations@) =~= obligations@);
        assert(codec::views(promotion@) =~= promotion@);
        let ghost asked = with_id(
            KnowledgeChallengerId(id),
            recipe,
            sources@,
            product@,
            obligations@,
            promotion@,
        );
        let gate = match PromotionGate::all(promotion.as_slice()) {
            Ok(gate) => gate,
            Err(_) => return Err(()),
        };
        let challenger = match KnowledgeChallenger::new(
            recipe,
            sources.as_slice(),
            product,
            obligations.as_slice(),
            gate,
        ) {
            Ok(challenger) => challenger,
            Err(_) => return Err(()),
        };
        assert(challenger@ == asked.named());
        match challenger.identity_in(format) {
            Ok(found) => {
                if found.0 != id {
                    return Err(());
                }
            },
            Err(_) => {
                proof {
                    lemma_parsed_product_fits(
                        format,
                        maximum_product_bytes as nat,
                        before_product,
                    );
                }
                return Err(());
            },
        }
        Ok(challenger)
    }

    /// The bytes that its lists and its payload take.
    pub fn heap_bytes(&self) -> (bytes: usize)
        ensures
            bytes == resident::capped_sum(
                resident::capped_sum(
                    resident::capped_sum(
                        resident::room::<SubjectId>(self@.sources.len()),
                        resident::room::<SubjectId>(self@.obligations.len()),
                    ),
                    resident::room::<ContextualRequirement>(self@.promotion.len()),
                ),
                self@.product.payload_len(),
            ),
    {
        bytes_for::<SubjectId>(self.sources.len()).saturating_add(
            bytes_for::<SubjectId>(self.obligations.len()),
        ).saturating_add(
            bytes_for::<ContextualRequirement>(self.promotion.requirements.len()),
        ).saturating_add(self.product.heap_bytes())
    }
}

/// The challenger with the given facts, under any name.
pub open spec fn with_id(
    id: KnowledgeChallengerId,
    recipe: CompilerRecipe,
    sources: Seq<SubjectId>,
    product: ProductView,
    obligations: Seq<SubjectId>,
    promotion: Seq<ContextualRequirement>,
) -> ChallengerView {
    ChallengerView { id, recipe, sources, product, obligations, promotion }
}

/// What was read in a format can be written in it.
proof fn lemma_parsed_product_fits(format: KnowledgeWireFormat, maximum: nat, input: Seq<u8>)
    ensures
        parse_product(format, maximum, input) matches Some((product, _)) ==> product.fits(format),
{
}

/// What is read carries no longer payload than allowed.
pub proof fn lemma_parsed_payload(format: KnowledgeWireFormat, maximum: nat, input: Seq<u8>)
    ensures
        parse_challenger(format, maximum, input) matches Some((challenger, _))
            ==> challenger.product.payload_len() <= maximum,
{
    assert forall|bytes: Seq<u8>| #![auto]
        parse_product(format, maximum, bytes) matches Some((product, _)) implies
            parse_product(format, maximum, bytes)->Some_0.0.payload_len() <= maximum by {
        reveal(codec::parse_bytes);
    }
}

/// The least number of bytes that a valid challenger takes.
pub proof fn lemma_challenger_length(format: KnowledgeWireFormat, value: ChallengerView)
    requires
        value.valid(),
        value.product.fits(format),
    ensures
        put_challenger(format, value).len() >= (if format is V8 {
            138int
        } else {
            139int
        }),
{
    broadcast use digest::group_digest;

    codec::lemma_all_least_bytes::<(), SubjectId>((), value.sources);
    codec::lemma_all_least_bytes::<(), SubjectId>((), value.obligations);
    codec::lemma_all_least_bytes::<(), ContextualRequirement>((), value.promotion);
}

} // verus!
