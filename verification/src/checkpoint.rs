//! How a checkpoint is laid out: a header with the limits, a snapshot of the
//! components, a record for each later step, and a footer that seals all of it.
use vstd::prelude::*;

use crate::causal;
use crate::challenger::KnowledgeWireFormat;
use crate::codec;
use crate::codec::Decoder;
use crate::compiler::{CompilerView, KnowledgeCompiler};
use crate::compiler_wire;
use crate::digest;
use crate::digest::{hash_labelled, write_digest, Digest};
use crate::ecology;
use crate::ecology::{EcologyView, ModelEcology};
use crate::ledger;
use crate::ledger::{CausalLedger, LedgerView};
use crate::policy;
use crate::policy::{PolicyEngine, RuntimePolicyState};
use crate::receipt::ReceiptFormat;
use crate::resident::{capacity_of, reserve_exactly};
use crate::types::{IntelligenceError, IntelligenceLimits};

verus! {

/// How many bytes a header has.
pub const CHECKPOINT_HEADER_BYTES: usize = 61;

/// How many bytes a footer has.
pub const CHECKPOINT_FOOTER_BYTES: usize = 233;

// ---------------------------------------------------------------------------
// Formats
// ---------------------------------------------------------------------------
/// What a format of checkpoints holds.
#[derive(Clone, Copy, Debug, PartialEq, Eq, Structural)]
pub struct CheckpointWire {
    pub version: u8,
    pub includes_preference: bool,
    pub includes_corpus_key: bool,
    pub includes_policy: bool,
    pub includes_active_knowledge: bool,
    pub includes_pending_verification: bool,
    pub includes_bound_policy_updates: bool,
}

impl CheckpointWire {
    /// The format of checkpoints as they are written.
    pub open spec fn current_spec() -> CheckpointWire {
        CheckpointWire {
            version: 17,
            includes_preference: true,
            includes_corpus_key: true,
            includes_policy: true,
            includes_active_knowledge: true,
            includes_pending_verification: true,
            includes_bound_policy_updates: true,
        }
    }

    /// The format that carries a version, where it is one with segments.
    pub open spec fn of_version(version: u8) -> Option<CheckpointWire> {
        if version == 17 {
            Some(Self::current_spec())
        } else if 10 <= version <= 16 {
            Some(
                CheckpointWire {
                    version,
                    includes_preference: version >= 12,
                    includes_corpus_key: version >= 16,
                    includes_policy: version >= 13,
                    includes_active_knowledge: version >= 14,
                    includes_pending_verification: version >= 15,
                    includes_bound_policy_updates: false,
                },
            )
        } else {
            None
        }
    }

    pub fn current() -> (wire: Self)
        ensures
            wire == Self::current_spec(),
    {
        Self {
            version: 17,
            includes_preference: true,
            includes_corpus_key: true,
            includes_policy: true,
            includes_active_knowledge: true,
            includes_pending_verification: true,
            includes_bound_policy_updates: true,
        }
    }

    pub fn legacy_v16() -> (wire: Self)
        ensures
            Self::of_version(16) == Some(wire),
    {
        Self {
            version: 16,
            includes_preference: true,
            includes_corpus_key: true,
            includes_policy: true,
            includes_active_knowledge: true,
            includes_pending_verification: true,
            includes_bound_policy_updates: false,
        }
    }

    pub fn legacy_v15() -> (wire: Self)
        ensures
            Self::of_version(15) == Some(wire),
    {
        Self {
            version: 15,
            includes_preference: true,
            includes_corpus_key: false,
            includes_policy: true,
            includes_active_knowledge: true,
            includes_pending_verification: true,
            includes_bound_policy_updates: false,
        }
    }

    pub fn legacy_v14() -> (wire: Self)
        ensures
            Self::of_version(14) == Some(wire),
    {
        Self {
            version: 14,
            includes_preference: true,
            includes_corpus_key: false,
            includes_policy: true,
            includes_active_knowledge: true,
            includes_pending_verification: false,
            includes_bound_policy_updates: false,
        }
    }

    pub fn legacy_v13() -> (wire: Self)
        ensures
            Self::of_version(13) == Some(wire),
    {
        Self {
            version: 13,
            includes_preference: true,
            includes_corpus_key: false,
            includes_policy: true,
            includes_active_knowledge: false,
            includes_pending_verification: false,
            includes_bound_policy_updates: false,
        }
    }

    pub fn legacy_v12() -> (wire: Self)
        ensures
            Self::of_version(12) == Some(wire),
    {
        Self {
            version: 12,
            includes_preference: true,
            includes_corpus_key: false,
            includes_policy: false,
            includes_active_knowledge: false,
            includes_pending_verification: false,
            includes_bound_policy_updates: false,
        }
    }

    /// One of the formats that hold nothing but the components they began with.
    pub fn legacy(version: u8) -> (wire: Self)
        ensures
            wire == (CheckpointWire {
                version,
                includes_preference: false,
                includes_corpus_key: false,
                includes_policy: false,
                includes_active_knowledge: false,
                includes_pending_verification: false,
                includes_bound_policy_updates: false,
            }),
    {
        Self {
            version,
            includes_preference: false,
            includes_corpus_key: false,
            includes_policy: false,
            includes_active_knowledge: false,
            includes_pending_verification: false,
            includes_bound_policy_updates: false,
        }
    }

    pub fn for_version(version: u8) -> (result: Option<Self>)
        ensures
            result == Self::of_version(version),
    {
        if version == 17 {
            Some(Self::current())
        } else if version == 16 {
            Some(Self::legacy_v16())
        } else if version == 15 {
            Some(Self::legacy_v15())
        } else if version == 14 {
            Some(Self::legacy_v14())
        } else if version == 13 {
            Some(Self::legacy_v13())
        } else if version == 12 {
            Some(Self::legacy_v12())
        } else if version == 11 || version == 10 {
            Some(Self::legacy(version))
        } else {
            None
        }
    }

    /// How receipts are written.
    pub open spec fn receipts(self) -> ReceiptFormat {
        if self.includes_corpus_key {
            ReceiptFormat::Current
        } else if self.includes_preference {
            ReceiptFormat::LegacyV15
        } else {
            ReceiptFormat::LegacyV11
        }
    }

    pub fn receipt_format(self) -> (format: ReceiptFormat)
        ensures
            format == self.receipts(),
    {
        if self.includes_corpus_key {
            ReceiptFormat::Current
        } else if self.includes_preference {
            ReceiptFormat::LegacyV15
        } else {
            ReceiptFormat::LegacyV11
        }
    }
}

// ---------------------------------------------------------------------------
// Sizes
// ---------------------------------------------------------------------------
/// The size at the front of some bytes.
pub open spec fn parse_size(input: Seq<u8>) -> Option<(usize, Seq<u8>)> {
    match codec::parse_u64(input) {
        None => None,
        Some((value, rest)) => if value > usize::MAX {
            None
        } else {
            Some((value as usize, rest))
        },
    }
}

pub fn read_size(input: &mut Decoder<'_>) -> (result: Result<usize, ()>)
    ensures
        codec::reads(result, final(input)@, parse_size(old(input)@)),
{
    let value: u64 = input.read_u64()?;
    if value > usize::MAX as u64 {
        return Err(());
    }
    Ok(value as usize)
}

/// The bytes of some sizes.
pub open spec fn put_sizes(values: Seq<usize>) -> Seq<u8>
    decreases values.len(),
{
    if values.len() == 0 {
        Seq::empty()
    } else {
        put_sizes(values.drop_last()) + codec::put_u64(values.last() as u64)
    }
}

/// So many sizes at the front of some bytes.
pub open spec fn parse_sizes(input: Seq<u8>, count: nat) -> Option<(Seq<usize>, Seq<u8>)>
    decreases count,
{
    if count == 0 {
        Some((Seq::empty(), input))
    } else {
        match parse_sizes(input, (count - 1) as nat) {
            None => None,
            Some((front, rest)) => match parse_size(rest) {
                None => None,
                Some((value, rest)) => Some((front.push(value), rest)),
            },
        }
    }
}

pub proof fn lemma_sizes_round_trip(values: Seq<usize>, rest: Seq<u8>)
    ensures
        parse_sizes(put_sizes(values) + rest, values.len()) == Some((values, rest)),
        put_sizes(values).len() == 8 * values.len(),
    decreases values.len(),
{
    if values.len() == 0 {
        assert(put_sizes(values) + rest =~= rest);
        assert(values =~= Seq::empty());
    } else {
        let last = codec::put_u64(values.last() as u64);
        lemma_sizes_round_trip(values.drop_last(), last + rest);
        codec::lemma_concat_associates(put_sizes(values.drop_last()), last, rest);
        codec::lemma_parse_u64(values.last() as u64, rest);
        codec::lemma_put_u64_len(values.last() as u64);
        assert(values.drop_last().push(values.last()) =~= values);
    }
}

pub proof fn lemma_parse_u64_len(input: Seq<u8>)
    ensures
        match codec::parse_u64(input) {
            Some((_, rest)) => rest.len() + 8 == input.len(),
            None => input.len() < 8,
        },
{
    reveal(codec::parse_u64);
}

pub proof fn lemma_parse_sizes_len(input: Seq<u8>, count: nat)
    ensures
        parse_sizes(input, count) matches Some((values, rest)) ==> values.len() == count
            && rest.len() + 8 * count == input.len(),
    decreases count,
{
    if count > 0 {
        lemma_parse_sizes_len(input, (count - 1) as nat);
        match parse_sizes(input, (count - 1) as nat) {
            Some((_, rest)) => lemma_parse_u64_len(rest),
            None => {},
        }
    }
}

proof fn lemma_sizes_stop(input: Seq<u8>, done: nat, count: nat)
    requires
        done <= count,
        parse_sizes(input, done) is None,
    ensures
        parse_sizes(input, count) is None,
    decreases count,
{
    if done < count {
        lemma_sizes_stop(input, done, (count - 1) as nat);
    }
}

pub fn write_sizes(values: &[usize], output: &mut Vec<u8>)
    ensures
        final(output)@ == old(output)@ + put_sizes(values@),
{
    let ghost start = output@;
    let mut index: usize = 0;
    assert(values@.take(0) =~= Seq::empty());
    assert(start + put_sizes(values@.take(0)) =~= start);
    while index < values.len()
        invariant
            index <= values@.len(),
            output@ == start + put_sizes(values@.take(index as int)),
        decreases values@.len() - index,
    {
        codec::write_u64(values[index] as u64, output);
        proof {
            assert(values@.take(index + 1).drop_last() =~= values@.take(index as int));
            codec::lemma_concat_associates(
                start,
                put_sizes(values@.take(index as int)),
                codec::put_u64(values@[index as int] as u64),
            );
        }
        index = index + 1;
    }
    assert(values@.take(values@.len() as int) =~= values@);
}

pub fn read_sizes(input: &mut Decoder<'_>, count: usize) -> (result: Result<Vec<usize>, ()>)
    ensures
        match result {
            Ok(values) => parse_sizes(old(input)@, count as nat) == Some((values@, final(input)@))
                && values@.len() == count,
            Err(_) => parse_sizes(old(input)@, count as nat) is None,
        },
{
    let ghost start = input@;
    let mut values: Vec<usize> = Vec::new();
    let mut index: usize = 0;
    assert(values@ =~= Seq::empty());
    while index < count
        invariant
            index <= count,
            start == old(input)@,
            values@.len() == index,
            parse_sizes(start, index as nat) == Some((values@, input@)),
        decreases count - index,
    {
        match read_size(input) {
            Ok(value) => {
                values.push(value);
            },
            Err(_) => {
                proof {
                    lemma_sizes_stop(start, (index + 1) as nat, count as nat);
                }
                return Err(());
            },
        }
        index = index + 1;
    }
    Ok(values)
}

// ---------------------------------------------------------------------------
// Limits
// ---------------------------------------------------------------------------
/// The limits as a list.
pub open spec fn limit_list(limits: IntelligenceLimits) -> Seq<usize> {
    seq![
        limits.maximum_opportunities,
        limits.maximum_investments,
        limits.maximum_bids,
        limits.maximum_forecast_cells,
        limits.maximum_specialists,
        limits.maximum_model_bytes,
        limits.maximum_specialists_per_route,
    ]
}

/// The limits that a list holds.
pub open spec fn limits_in(values: Seq<usize>) -> IntelligenceLimits {
    IntelligenceLimits {
        maximum_opportunities: values[0],
        maximum_investments: values[1],
        maximum_bids: values[2],
        maximum_forecast_cells: values[3],
        maximum_specialists: values[4],
        maximum_model_bytes: values[5],
        maximum_specialists_per_route: values[6],
    }
}

pub fn current_limit_values(limits: IntelligenceLimits) -> (values: [usize; 7])
    ensures
        values@ == limit_list(limits),
{
    let values: [usize; 7] = [
        limits.maximum_opportunities,
        limits.maximum_investments,
        limits.maximum_bids,
        limits.maximum_forecast_cells,
        limits.maximum_specialists,
        limits.maximum_model_bytes,
        limits.maximum_specialists_per_route,
    ];
    assert(values@ =~= limit_list(limits));
    values
}

/// The limits without the bound on each route, which came last.
pub fn legacy_limit_values(limits: IntelligenceLimits) -> (values: [usize; 6])
    ensures
        values@ == limit_list(limits).take(6),
{
    let values: [usize; 6] = [
        limits.maximum_opportunities,
        limits.maximum_investments,
        limits.maximum_bids,
        limits.maximum_forecast_cells,
        limits.maximum_specialists,
        limits.maximum_model_bytes,
    ];
    assert(values@ =~= limit_list(limits).take(6));
    values
}

// ---------------------------------------------------------------------------
// Runs of bytes
// ---------------------------------------------------------------------------
/// The run behind its length at the front of some bytes.
pub open spec fn parse_sized(input: Seq<u8>) -> Option<(Seq<u8>, Seq<u8>)> {
    match parse_size(input) {
        None => None,
        Some((length, rest)) => codec::parse_bytes(rest, length as nat),
    }
}

pub proof fn lemma_sized_round_trip(bytes: Seq<u8>, rest: Seq<u8>)
    requires
        bytes.len() <= usize::MAX,
    ensures
        parse_sized(codec::put_sized(bytes) + rest) == Some((bytes, rest)),
{
    codec::lemma_concat_associates(codec::put_count(bytes.len()), bytes, rest);
    codec::lemma_parse_u64(bytes.len() as u64, bytes + rest);
    codec::lemma_parse_bytes(bytes, bytes.len(), rest);
}

pub proof fn lemma_parse_sized_len(input: Seq<u8>)
    ensures
        parse_sized(input) matches Some((_, rest)) ==> rest.len() + 8 <= input.len(),
{
    lemma_parse_u64_len(input);
    reveal(codec::parse_bytes);
}

pub fn push_record_bytes(output: &mut Vec<u8>, bytes: &[u8])
    ensures
        final(output)@ == old(output)@ + codec::put_sized(bytes@),
{
    codec::write_sized(bytes, output);
}

pub fn read_record_bytes<'a>(input: &mut Decoder<'a>) -> (result: Result<
    &'a [u8],
    IntelligenceError,
>)
    ensures
        match result {
            Ok(bytes) => parse_sized(old(input)@) == Some((bytes@, final(input)@)),
            Err(error) => parse_sized(old(input)@) is None && error is CorruptState,
        },
{
    let length: usize = match read_size(input) {
        Ok(length) => length,
        Err(_) => return Err(IntelligenceError::CorruptState),
    };
    match input.take(length) {
        Ok(bytes) => Ok(bytes),
        Err(_) => Err(IntelligenceError::CorruptState),
    }
}

/// A value with nothing left behind it.
pub open spec fn complete<T>(parsed: Option<(T, Seq<u8>)>) -> Option<T> {
    match parsed {
        Some((value, rest)) => if rest.len() == 0 {
            Some(value)
        } else {
            None
        },
        None => None,
    }
}

// ---------------------------------------------------------------------------
// Roots
// ---------------------------------------------------------------------------
/// What the components are named by.
#[derive(Clone, Copy, Debug, PartialEq, Eq, Structural)]
pub struct ComponentRoots {
    pub ecology: Digest,
    pub experience: Digest,
    pub knowledge: Digest,
    pub policy: Digest,
}

/// The components of a core.
#[verifier::ext_equal]
pub struct ComponentsView {
    pub ecology: EcologyView,
    pub ledger: LedgerView,
    pub knowledge: CompilerView,
    pub policy: Seq<u8>,
}

/// The root of a ledger as steps in a format leave it.
pub open spec fn stepped_experience_root(wire: CheckpointWire, ledger: LedgerView) -> Digest {
    if wire.includes_corpus_key {
        ledger.root()
    } else {
        causal::combined_root(ledger.true_roots(wire.receipts()))
    }
}

/// The root of a ledger as a snapshot in a format has it.
pub open spec fn experience_root(wire: CheckpointWire, ledger: LedgerView) -> Digest {
    if wire.includes_corpus_key {
        ledger.root()
    } else if wire.includes_pending_verification || !wire.includes_preference {
        causal::combined_root(ledger.true_roots(wire.receipts()))
    } else {
        ledger.root()
    }
}

/// The bytes of a compiler in a format.
pub open spec fn knowledge_bytes(wire: CheckpointWire, knowledge: CompilerView) -> Seq<u8> {
    if wire.includes_pending_verification {
        compiler_wire::put_compiler(knowledge)
    } else if wire.includes_active_knowledge {
        compiler_wire::put_settled_compiler(knowledge)
    } else {
        compiler_wire::put_records(KnowledgeWireFormat::V8, knowledge.records)
    }
}

/// The roots of the components as they are kept.
pub open spec fn roots_of(components: ComponentsView) -> ComponentRoots {
    ComponentRoots {
        ecology: components.ecology.root(),
        experience: components.ledger.root(),
        knowledge: compiler_wire::compiler_root(
            compiler_wire::put_compiler(components.knowledge),
        ),
        policy: policy::policy_root(components.policy),
    }
}

/// The roots of the components as a snapshot in a format has them.
pub open spec fn snapshot_roots<P: PolicyEngine>(
    wire: CheckpointWire,
    components: ComponentsView,
) -> ComponentRoots {
    ComponentRoots {
        ecology: components.ecology.root(),
        experience: experience_root(wire, components.ledger),
        knowledge: compiler_wire::compiler_root(knowledge_bytes(wire, components.knowledge)),
        policy: policy::policy_root(
            if wire.includes_policy {
                components.policy
            } else {
                P::initial()
            },
        ),
    }
}

pub fn component_roots(
    ecology: &ModelEcology,
    experience: &CausalLedger,
    knowledge: &KnowledgeCompiler,
    policy: &RuntimePolicyState,
) -> (roots: ComponentRoots)
    ensures
        roots == roots_of(
            (ComponentsView {
                ecology: ecology@,
                ledger: experience@,
                knowledge: knowledge@,
                policy: policy@,
            }),
        ),
{
    ComponentRoots {
        ecology: ecology.canonical_root(),
        experience: experience.canonical_root(),
        knowledge: knowledge.canonical_root(),
        policy: policy.canonical_root(),
    }
}

/// The roots that a snapshot in a format is checked against.
pub fn format_component_roots<P: PolicyEngine>(
    wire: CheckpointWire,
    ecology: &ModelEcology,
    experience: &CausalLedger,
    knowledge: &KnowledgeCompiler,
    policy: &RuntimePolicyState,
) -> (roots: ComponentRoots)
    ensures
        roots == snapshot_roots::<P>(
            wire,
            (ComponentsView {
                ecology: ecology@,
                ledger: experience@,
                knowledge: knowledge@,
                policy: policy@,
            }),
        ),
{
    let experience_root: Digest = if wire.includes_corpus_key {
        experience.canonical_root()
    } else if wire.includes_pending_verification || !wire.includes_preference {
        experience.legacy_canonical_root(wire.receipt_format())
    } else {
        experience.canonical_root()
    };
    let knowledge_root: Digest = if wire.includes_pending_verification {
        knowledge.canonical_root()
    } else if wire.includes_active_knowledge {
        knowledge.legacy_v14_canonical_root()
    } else {
        knowledge.legacy_v13_canonical_root()
    };
    let policy_root: Digest = if wire.includes_policy {
        policy.canonical_root()
    } else {
        let initial = RuntimePolicyState { encoded: P::bootstrap() };
        initial.canonical_root()
    };
    ComponentRoots {
        ecology: ecology.canonical_root(),
        experience: experience_root,
        knowledge: knowledge_root,
        policy: policy_root,
    }
}

/// The root of a component once a step has been recorded.
pub open spec fn extended_root(label: &str, previous: Digest, delta: Seq<u8>) -> Digest {
    digest::labelled(
        "reflex-intelligence-component-delta-v1\0",
        codec::put_sized(digest::label_bytes(label)) + (previous.bytes() + codec::put_sized(
            delta,
        )),
    )
}

pub fn extend_component_root(label: &str, previous: Digest, delta: &[u8]) -> (root: Digest)
    ensures
        root == extended_root(label, previous, delta@),
{
    let mut content: Vec<u8> = Vec::new();
    codec::write_sized(label.as_bytes(), &mut content);
    write_digest(previous, &mut content);
    codec::write_sized(delta, &mut content);
    assert(content@ =~= codec::put_sized(digest::label_bytes(label)) + (previous.bytes()
        + codec::put_sized(delta@)));
    hash_labelled("reflex-intelligence-component-delta-v1\0", content.as_slice())
}

// ---------------------------------------------------------------------------
// Revisions
// ---------------------------------------------------------------------------
/// The bytes of the roots, with or without that of the policy.
pub open spec fn put_roots(with_policy: bool, roots: ComponentRoots) -> Seq<u8> {
    roots.ecology.bytes() + roots.experience.bytes() + roots.knowledge.bytes() + (
    if with_policy {
        roots.policy.bytes()
    } else {
        Seq::empty()
    })
}

pub fn write_roots(with_policy: bool, roots: ComponentRoots, output: &mut Vec<u8>)
    ensures
        final(output)@ == old(output)@ + put_roots(with_policy, roots),
{
    write_digest(roots.ecology, output);
    write_digest(roots.experience, output);
    write_digest(roots.knowledge, output);
    if with_policy {
        write_digest(roots.policy, output);
    }
    assert(output@ =~= old(output)@ + put_roots(with_policy, roots));
}

/// The revision that limits and roots make.
pub open spec fn revision_of(
    with_policy: bool,
    limits: IntelligenceLimits,
    roots: ComponentRoots,
) -> Digest {
    let content = put_sizes(limit_list(limits)) + put_roots(with_policy, roots);
    if with_policy {
        digest::labelled("reflex-intelligence-revision-v5\0", content)
    } else {
        digest::labelled("reflex-intelligence-revision-v4\0", content)
    }
}

fn revision_content(with_policy: bool, limits: IntelligenceLimits, roots: ComponentRoots) -> (content:
    Vec<u8>)
    ensures
        content@ == put_sizes(limit_list(limits)) + put_roots(with_policy, roots),
{
    let mut content: Vec<u8> = Vec::new();
    write_sizes(current_limit_values(limits).as_slice(), &mut content);
    write_roots(with_policy, roots, &mut content);
    assert(content@ =~= put_sizes(limit_list(limits)) + put_roots(with_policy, roots));
    content
}

pub fn revision_digest(limits: IntelligenceLimits, roots: ComponentRoots) -> (revision: Digest)
    ensures
        revision == revision_of(true, limits, roots),
{
    let content = revision_content(true, limits, roots);
    hash_labelled("reflex-intelligence-revision-v5\0", content.as_slice())
}

/// The revision as it was before there was a policy.
pub fn legacy_v12_revision_digest(limits: IntelligenceLimits, roots: ComponentRoots) -> (revision:
    Digest)
    ensures
        revision == revision_of(false, limits, roots),
{
    let content = revision_content(false, limits, roots);
    hash_labelled("reflex-intelligence-revision-v4\0", content.as_slice())
}

// ---------------------------------------------------------------------------
// Header, log and footer
// ---------------------------------------------------------------------------
/// The bytes that a checkpoint begins with.
pub open spec fn magic(version: u8) -> Seq<u8> {
    seq![82u8, 70u8, 73u8, 67u8, version]
}

/// The header of a checkpoint.
pub open spec fn header(version: u8, limits: IntelligenceLimits) -> Seq<u8> {
    magic(version) + put_sizes(limit_list(limits))
}

pub proof fn lemma_header_len(version: u8, limits: IntelligenceLimits)
    ensures
        header(version, limits).len() == CHECKPOINT_HEADER_BYTES,
{
    lemma_sizes_round_trip(limit_list(limits), Seq::empty());
}

pub fn write_magic(version: u8, output: &mut Vec<u8>)
    ensures
        final(output)@ == old(output)@ + magic(version),
{
    let bytes: [u8; 5] = [82, 70, 73, 67, version];
    codec::write_bytes(bytes.as_slice(), output);
    assert(output@ =~= old(output)@ + magic(version));
}

/// What the log begins with.
pub open spec fn header_root(header: Seq<u8>) -> Digest {
    digest::labelled("reflex-intelligence-checkpoint-header-v1\0", header)
}

pub fn checkpoint_header_root(header: &[u8]) -> (root: Digest)
    ensures
        root == header_root(header@),
{
    hash_labelled("reflex-intelligence-checkpoint-header-v1\0", header)
}

/// The log with one record more.
pub open spec fn logged(previous: Digest, record: Seq<u8>) -> Digest {
    digest::labelled(
        "reflex-intelligence-checkpoint-log-v1\0",
        previous.bytes() + codec::put_sized(record),
    )
}

pub fn checkpoint_log_root(previous: Digest, record: &[u8]) -> (root: Digest)
    ensures
        root == logged(previous, record@),
{
    let mut content: Vec<u8> = Vec::new();
    write_digest(previous, &mut content);
    codec::write_sized(record, &mut content);
    assert(content@ =~= previous.bytes() + codec::put_sized(record@));
    hash_labelled("reflex-intelligence-checkpoint-log-v1\0", content.as_slice())
}

/// What a footer says.
pub open spec fn footer_content(
    with_policy: bool,
    records: u64,
    roots: ComponentRoots,
    revision: Digest,
    log_root: Digest,
) -> Seq<u8> {
    codec::put_u64(records) + put_roots(with_policy, roots) + revision.bytes() + log_root.bytes()
}

/// A footer without the byte that announces it.
pub open spec fn footer_tail(
    with_policy: bool,
    records: u64,
    roots: ComponentRoots,
    revision: Digest,
    log_root: Digest,
) -> Seq<u8> {
    let content = footer_content(with_policy, records, roots, revision, log_root);
    content + (if with_policy {
        digest::labelled("reflex-intelligence-checkpoint-footer-v2\0", content)
    } else {
        digest::labelled("reflex-intelligence-checkpoint-footer-v1\0", content)
    }).bytes()
}

/// The footer of a checkpoint.
pub open spec fn footer(
    with_policy: bool,
    records: u64,
    roots: ComponentRoots,
    revision: Digest,
    log_root: Digest,
) -> Seq<u8> {
    codec::put_u8(0) + footer_tail(with_policy, records, roots, revision, log_root)
}

pub proof fn lemma_footer_len(
    records: u64,
    roots: ComponentRoots,
    revision: Digest,
    log_root: Digest,
)
    ensures
        footer(true, records, roots, revision, log_root).len() == CHECKPOINT_FOOTER_BYTES,
{
    broadcast use digest::group_digest;

}

fn write_footer_content(
    with_policy: bool,
    records: u64,
    roots: ComponentRoots,
    revision: Digest,
    log_root: Digest,
) -> (content: Vec<u8>)
    ensures
        content@ == footer_content(with_policy, records, roots, revision, log_root),
{
    let mut content: Vec<u8> = Vec::new();
    codec::write_u64(records, &mut content);
    write_roots(with_policy, roots, &mut content);
    write_digest(revision, &mut content);
    write_digest(log_root, &mut content);
    assert(content@ =~= footer_content(with_policy, records, roots, revision, log_root));
    content
}

pub fn append_checkpoint_footer(
    bytes: &mut Vec<u8>,
    records: u64,
    roots: ComponentRoots,
    revision: Digest,
    log_root: Digest,
)
    ensures
        final(bytes)@ == old(bytes)@ + footer(true, records, roots, revision, log_root),
{
    let content = write_footer_content(true, records, roots, revision, log_root);
    let checksum: Digest = hash_labelled(
        "reflex-intelligence-checkpoint-footer-v2\0",
        content.as_slice(),
    );
    codec::write_u8(0, bytes);
    codec::write_bytes(content.as_slice(), bytes);
    write_digest(checksum, bytes);
    assert(bytes@ =~= old(bytes)@ + footer(true, records, roots, revision, log_root));
}

/// The footer as it was before there was a policy.
pub fn append_legacy_segmented_checkpoint_footer(
    bytes: &mut Vec<u8>,
    records: u64,
    roots: ComponentRoots,
    revision: Digest,
    log_root: Digest,
)
    ensures
        final(bytes)@ == old(bytes)@ + footer(false, records, roots, revision, log_root),
{
    let content = write_footer_content(false, records, roots, revision, log_root);
    let checksum: Digest = hash_labelled(
        "reflex-intelligence-checkpoint-footer-v1\0",
        content.as_slice(),
    );
    codec::write_u8(0, bytes);
    codec::write_bytes(content.as_slice(), bytes);
    write_digest(checksum, bytes);
    assert(bytes@ =~= old(bytes)@ + footer(false, records, roots, revision, log_root));
}

// ---------------------------------------------------------------------------
// The snapshot
// ---------------------------------------------------------------------------
/// The record of a snapshot with the given bytes of its components.
pub open spec fn framed_snapshot(
    ecology: Seq<u8>,
    experience: Seq<u8>,
    knowledge: Seq<u8>,
    policy: Option<Seq<u8>>,
) -> Seq<u8> {
    codec::put_u8(1) + (codec::put_sized(ecology) + (codec::put_sized(experience) + (
    codec::put_sized(knowledge) + match policy {
        Some(policy) => codec::put_sized(policy),
        None => Seq::empty(),
    })))
}

/// The record of a snapshot in a format.
pub open spec fn snapshot_record(wire: CheckpointWire, components: ComponentsView) -> Seq<u8> {
    framed_snapshot(
        ecology::put_ecology(components.ecology),
        ledger::put_ledger(wire.receipts(), components.ledger),
        knowledge_bytes(wire, components.knowledge),
        if wire.includes_policy {
            Some(components.policy)
        } else {
            None
        },
    )
}

/// The log of a checkpoint that holds a snapshot and nothing else.
pub open spec fn snapshot_log(
    wire: CheckpointWire,
    limits: IntelligenceLimits,
    components: ComponentsView,
) -> Digest {
    logged(header_root(header(wire.version, limits)), snapshot_record(wire, components))
}

/// A checkpoint that holds a snapshot and nothing else, up to its footer.
pub open spec fn snapshot_body(
    wire: CheckpointWire,
    limits: IntelligenceLimits,
    components: ComponentsView,
) -> Seq<u8> {
    header(wire.version, limits) + snapshot_record(wire, components)
}

/// A checkpoint that holds a snapshot and nothing else.
pub open spec fn snapshot(
    wire: CheckpointWire,
    limits: IntelligenceLimits,
    components: ComponentsView,
    roots: ComponentRoots,
    revision: Digest,
) -> Seq<u8> {
    snapshot_body(wire, limits, components) + footer(
        wire.includes_policy,
        1,
        roots,
        revision,
        snapshot_log(wire, limits, components),
    )
}

pub fn frame_snapshot(
    ecology: &[u8],
    experience: &[u8],
    knowledge: &[u8],
    policy: Option<&[u8]>,
) -> (record: Vec<u8>)
    ensures
        record@ == framed_snapshot(
            ecology@,
            experience@,
            knowledge@,
            match policy {
                Some(policy) => Some(policy@),
                None => None,
            },
        ),
{
    let mut record: Vec<u8> = Vec::new();
    codec::write_u8(1, &mut record);
    push_record_bytes(&mut record, ecology);
    push_record_bytes(&mut record, experience);
    push_record_bytes(&mut record, knowledge);
    match policy {
        Some(policy) => push_record_bytes(&mut record, policy),
        None => {},
    }
    assert(record@ =~= framed_snapshot(
        ecology@,
        experience@,
        knowledge@,
        match policy {
            Some(policy) => Some(policy@),
            None => None,
        },
    ));
    record
}

/// A checkpoint in a format that holds a snapshot and nothing else, and its log.
pub fn segmented_checkpoint(
    wire: CheckpointWire,
    limits: IntelligenceLimits,
    ecology: &ModelEcology,
    experience: &CausalLedger,
    knowledge: &KnowledgeCompiler,
    policy: &RuntimePolicyState,
    roots: ComponentRoots,
    revision: Digest,
) -> (result: (Vec<u8>, Digest))
    ensures
        ({
            let components = ComponentsView {
                ecology: ecology@,
                ledger: experience@,
                knowledge: knowledge@,
                policy: policy@,
            };
            &&& result.0@ == snapshot(wire, limits, components, roots, revision)
            &&& result.1 == snapshot_log(wire, limits, components)
        }),
{
    let ghost components = ComponentsView {
        ecology: ecology@,
        ledger: experience@,
        knowledge: knowledge@,
        policy: policy@,
    };
    let mut bytes: Vec<u8> = Vec::new();
    write_magic(wire.version, &mut bytes);
    write_sizes(current_limit_values(limits).as_slice(), &mut bytes);
    assert(bytes@ =~= header(wire.version, limits));
    let mut ecology_bytes: Vec<u8> = Vec::new();
    ecology.encode_canonical(&mut ecology_bytes);
    assert(ecology_bytes@ =~= ecology::put_ecology(ecology@));
    let mut experience_bytes: Vec<u8> = Vec::new();
    experience.encode_with_fields(&mut experience_bytes, wire.receipt_format());
    assert(experience_bytes@ =~= ledger::put_ledger(wire.receipts(), experience@));
    let mut knowledge_encoded: Vec<u8> = Vec::new();
    if wire.includes_pending_verification {
        knowledge.encode_canonical(&mut knowledge_encoded);
    } else if wire.includes_active_knowledge {
        knowledge.encode_legacy_v14(&mut knowledge_encoded);
    } else {
        knowledge.encode_legacy_v13(&mut knowledge_encoded);
    }
    assert(knowledge_encoded@ =~= knowledge_bytes(wire, knowledge@));
    let record = frame_snapshot(
        ecology_bytes.as_slice(),
        experience_bytes.as_slice(),
        knowledge_encoded.as_slice(),
        if wire.includes_policy {
            Some(policy.encode())
        } else {
            None
        },
    );
    assert(record@ == snapshot_record(wire, components));
    let log_root: Digest = checkpoint_log_root(
        checkpoint_header_root(bytes.as_slice()),
        record.as_slice(),
    );
    codec::write_bytes(record.as_slice(), &mut bytes);
    if wire.includes_policy {
        append_checkpoint_footer(&mut bytes, 1, roots, revision, log_root);
    } else {
        append_legacy_segmented_checkpoint_footer(&mut bytes, 1, roots, revision, log_root);
    }
    (bytes, log_root)
}

/// A checkpoint as it is written that holds a snapshot and nothing else.
pub fn snapshot_checkpoint(
    limits: IntelligenceLimits,
    ecology: &ModelEcology,
    experience: &CausalLedger,
    knowledge: &KnowledgeCompiler,
    policy: &RuntimePolicyState,
    roots: ComponentRoots,
    revision: Digest,
) -> (result: (Vec<u8>, Digest))
    ensures
        ({
            let components = ComponentsView {
                ecology: ecology@,
                ledger: experience@,
                knowledge: knowledge@,
                policy: policy@,
            };
            let wire = CheckpointWire::current_spec();
            &&& result.0@ == snapshot(wire, limits, components, roots, revision)
            &&& result.1 == snapshot_log(wire, limits, components)
        }),
{
    segmented_checkpoint(
        CheckpointWire::current(),
        limits,
        ecology,
        experience,
        knowledge,
        policy,
        roots,
        revision,
    )
}

// ---------------------------------------------------------------------------
// Steps
// ---------------------------------------------------------------------------
/// An optional run behind its length.
pub open spec fn put_part(part: Option<Seq<u8>>) -> Seq<u8> {
    match part {
        Some(bytes) => codec::put_sized(bytes),
        None => Seq::empty(),
    }
}

/// Which optional runs a record holds.
pub open spec fn part_flags(ecology: bool, knowledge: bool, policy: bool) -> u8 {
    ((if ecology {
        1int
    } else {
        0
    }) + (if knowledge {
        2int
    } else {
        0
    }) + (if policy {
        4int
    } else {
        0
    })) as u8
}

/// The record of a step.
pub open spec fn step_record(
    ecology: Option<Seq<u8>>,
    experience: Seq<u8>,
    knowledge: Option<Seq<u8>>,
    policy: Option<Seq<u8>>,
) -> Seq<u8> {
    codec::put_u8(2) + (codec::put_u8(
        part_flags(ecology is Some, knowledge is Some, policy is Some),
    ) + (put_part(ecology) + (codec::put_sized(experience) + (put_part(knowledge) + put_part(
        policy,
    )))))
}

/// A slice's content, if there is a slice.
pub open spec fn content(part: Option<&[u8]>) -> Option<Seq<u8>> {
    match part {
        Some(bytes) => Some(bytes@),
        None => None,
    }
}

fn push_part(record: &mut Vec<u8>, part: Option<&[u8]>)
    ensures
        final(record)@ == old(record)@ + put_part(content(part)),
{
    match part {
        Some(bytes) => push_record_bytes(record, bytes),
        None => {
            assert(record@ + put_part(content(part)) =~= record@);
        },
    }
}

/// The record of a step whose parts are encoded already.
pub fn frame_record(
    ecology: Option<&[u8]>,
    experience: &[u8],
    knowledge: Option<&[u8]>,
    policy: Option<&[u8]>,
) -> (record: Vec<u8>)
    ensures
        record@ == step_record(content(ecology), experience@, content(knowledge), content(policy)),
{
    let mut flags: u8 = 0;
    if ecology.is_some() {
        flags = flags + 1;
    }
    if knowledge.is_some() {
        flags = flags + 2;
    }
    if policy.is_some() {
        flags = flags + 4;
    }
    let mut record: Vec<u8> = Vec::new();
    codec::write_u8(2, &mut record);
    codec::write_u8(flags, &mut record);
    push_part(&mut record, ecology);
    push_record_bytes(&mut record, experience);
    push_part(&mut record, knowledge);
    push_part(&mut record, policy);
    assert(record@ =~= step_record(
        content(ecology),
        experience@,
        content(knowledge),
        content(policy),
    ));
    record
}

pub fn encode_delta_record(
    ecology: Option<&[u8]>,
    experience: &ledger::CausalDelta,
    knowledge: Option<&[u8]>,
    policy: Option<&[u8]>,
) -> (record: Vec<u8>)
    ensures
        record@ == step_record(
            content(ecology),
            ledger::put_delta(experience@),
            content(knowledge),
            content(policy),
        ),
{
    let mut encoded: Vec<u8> = Vec::new();
    experience.encode_canonical(&mut encoded);
    assert(encoded@ =~= ledger::put_delta(experience@));
    frame_record(ecology, encoded.as_slice(), knowledge, policy)
}

/// A checkpoint without its footer.
pub open spec fn body(checkpoint: Seq<u8>) -> Seq<u8> {
    checkpoint.take(checkpoint.len() - CHECKPOINT_FOOTER_BYTES)
}

/// A checkpoint with one record more.
pub open spec fn appended(
    checkpoint: Seq<u8>,
    record: Seq<u8>,
    records: u64,
    roots: ComponentRoots,
    revision: Digest,
    log_root: Digest,
) -> Seq<u8> {
    body(checkpoint) + record + footer(true, records, roots, revision, log_root)
}

/// Appends a record to a checkpoint and seals it anew.
pub fn append_delta_checkpoint(
    checkpoint: &mut Vec<u8>,
    record: &[u8],
    records: u64,
    roots: ComponentRoots,
    revision: Digest,
    log_root: Digest,
)
    requires
        old(checkpoint)@.len() >= CHECKPOINT_FOOTER_BYTES,
    ensures
        final(checkpoint)@ == appended(
            old(checkpoint)@,
            record@,
            records,
            roots,
            revision,
            log_root,
        ),
{
    let length: usize = checkpoint.len() - CHECKPOINT_FOOTER_BYTES;
    checkpoint.truncate(length);
    assert(checkpoint@ =~= body(old(checkpoint)@));
    codec::write_bytes(record, checkpoint);
    append_checkpoint_footer(checkpoint, records, roots, revision, log_root);
}

/// A new checkpoint with one record more. It takes exactly the room it needs, or
/// is refused.
pub fn build_delta_checkpoint(
    base: &[u8],
    record: &[u8],
    records: u64,
    roots: ComponentRoots,
    revision: Digest,
    log_root: Digest,
) -> (result: Result<Vec<u8>, IntelligenceError>)
    ensures
        match result {
            Ok(checkpoint) => base@.len() >= CHECKPOINT_FOOTER_BYTES && checkpoint@ == appended(
                base@,
                record@,
                records,
                roots,
                revision,
                log_root,
            ),
            Err(error) => if base@.len() < CHECKPOINT_FOOTER_BYTES {
                error is CorruptState
            } else {
                error is CapacityExceeded
            },
        },
{
    if base.len() < CHECKPOINT_FOOTER_BYTES {
        return Err(IntelligenceError::CorruptState);
    }
    let payload: usize = base.len() - CHECKPOINT_FOOTER_BYTES;
    let length: usize = match base.len().checked_add(record.len()) {
        Some(length) => length,
        None => return Err(IntelligenceError::CapacityExceeded),
    };
    let mut checkpoint: Vec<u8> = Vec::new();
    if !reserve_exactly(&mut checkpoint, length) {
        return Err(IntelligenceError::CapacityExceeded);
    }
    if capacity_of(&checkpoint) != length {
        return Err(IntelligenceError::CapacityExceeded);
    }
    codec::write_bytes(vstd::slice::slice_subrange(base, 0, payload), &mut checkpoint);
    codec::write_bytes(record, &mut checkpoint);
    append_checkpoint_footer(&mut checkpoint, records, roots, revision, log_root);
    assert(checkpoint@ =~= appended(base@, record@, records, roots, revision, log_root));
    if checkpoint.len() != length || capacity_of(&checkpoint) != length {
        return Err(IntelligenceError::CapacityExceeded);
    }
    Ok(checkpoint)
}

/// A checkpoint with one record more has the records of the one before, the new record
/// and a new footer: a zero byte, the number of records and seven digests.
pub proof fn law_appended_checkpoint_apart(
    base: Seq<u8>,
    record: Seq<u8>,
    records: u64,
    roots: ComponentRoots,
    revision: Digest,
    log_root: Digest,
)
    requires
        base.len() >= CHECKPOINT_FOOTER_BYTES,
    ensures
        ({
            let next = appended(base, record, records, roots, revision, log_root);
            let front = base.len() - CHECKPOINT_FOOTER_BYTES;
            let content = codec::put_u64(records) + (roots.ecology.bytes()
                + roots.experience.bytes() + roots.knowledge.bytes() + roots.policy.bytes())
                + revision.bytes() + log_root.bytes();
            &&& next.len() == base.len() + record.len()
            &&& next.take(front) == base.take(front)
            &&& next.subrange(front, front + record.len()) == record
            &&& next.skip(front + record.len()) == codec::put_u8(0) + (content + digest::labelled(
                "reflex-intelligence-checkpoint-footer-v2\0",
                content,
            ).bytes())
        }),
{
    let next = appended(base, record, records, roots, revision, log_root);
    let front = base.len() - CHECKPOINT_FOOTER_BYTES;
    lemma_footer_len(records, roots, revision, log_root);
    assert(next.take(front) =~= base.take(front));
    assert(next.subrange(front, front + record.len()) =~= record);
    assert(next.skip(front + record.len()) =~= footer(true, records, roots, revision, log_root));
}

} // verus!
