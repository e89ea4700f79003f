//! How a core is restored from the bytes of a checkpoint, in any format that there
//! has been.
use vstd::prelude::*;

use crate::challenger::KnowledgeWireFormat;
use crate::checkpoint;
use crate::checkpoint::{
    current_limit_values, legacy_limit_values, read_sizes, revision_digest, write_sizes,
    CheckpointWire, ComponentsView,
};
use crate::codec;
use crate::codec::Decoder;
use crate::compiler::{CompilerView, KnowledgeCompiler};
use crate::compiler_wire;
use crate::digest;
use crate::digest::{hash_bytes, hash_labelled, Digest};
use crate::ecology;
use crate::ecology::{EcologyView, ModelEcology, RevisionView};
use crate::intelligence::{CoreView, IntelligenceCore};
use crate::ledger;
use crate::ledger::{CausalLedger, LedgerView};
use crate::policy::{PolicyEngine, RuntimePolicyState};
use crate::receipt::ReceiptFormat;
use crate::replay;
use crate::replay::read_checkpoint;
use crate::types::{IntelligenceError, IntelligenceLimits};

verus! {

/// How many bytes the checksum of a checkpoint without segments has.
pub const LEGACY_CHECKSUM_BYTES: usize = 32;

/// The version that some bytes announce, where they announce a checkpoint.
pub open spec fn version_of(bytes: Seq<u8>) -> Option<u8> {
    if bytes.len() >= 5 && bytes[0] == 82 && bytes[1] == 70 && bytes[2] == 73 && bytes[3] == 67 {
        Some(bytes[4])
    } else {
        None
    }
}

fn announced_version(bytes: &[u8]) -> (result: Option<u8>)
    ensures
        result == version_of(bytes@),
{
    if bytes.len() >= 5 && bytes[0] == 82 && bytes[1] == 70 && bytes[2] == 73 && bytes[3] == 67 {
        Some(bytes[4])
    } else {
        None
    }
}

/// The format of some bytes, where it is one with segments.
pub open spec fn wire_of(bytes: Seq<u8>) -> Option<CheckpointWire> {
    match version_of(bytes) {
        Some(version) => CheckpointWire::of_version(version),
        None => None,
    }
}

// ---------------------------------------------------------------------------
// Formats without segments
// ---------------------------------------------------------------------------
/// The size of the largest route.
pub open spec fn widest(specialists: Seq<RevisionView>) -> nat {
    choose|size: nat|
        #![trigger ecology::fanout_within(specialists, size)]
        ecology::fanout_within(specialists, size) && (size == 0 || ecology::some_route(
            specialists,
            size,
        ))
}

proof fn lemma_widest(specialists: Seq<RevisionView>, size: nat)
    requires
        ecology::fanout_within(specialists, size),
        size == 0 || ecology::some_route(specialists, size),
    ensures
        widest(specialists) == size,
{
    let other = widest(specialists);
    assert(ecology::fanout_within(specialists, other) && (other == 0 || ecology::some_route(
        specialists,
        other,
    )));
    if other != 0 {
        let (kind, schema, family, count) = choose|kind, schema, family, count: nat|
            count <= 64 && #[trigger] ecology::route_size(specialists, kind, schema, family, count)
                == other;
        assert(ecology::route_size(specialists, kind, schema, family, count) <= size);
    }
    if size != 0 {
        let (kind, schema, family, count) = choose|kind, schema, family, count: nat|
            count <= 64 && #[trigger] ecology::route_size(specialists, kind, schema, family, count)
                == size;
        assert(ecology::route_size(specialists, kind, schema, family, count) <= other);
    }
}

/// How knowledge was written in a format without segments.
pub open spec fn knowledge_format(version: u8) -> KnowledgeWireFormat {
    if version == 6 {
        KnowledgeWireFormat::LegacyV6
    } else if version == 7 {
        KnowledgeWireFormat::LegacyV7
    } else {
        KnowledgeWireFormat::V8
    }
}

/// The limits that a header announces, with the bound on each route that its
/// ecology is read under.
pub open spec fn announced_limits(version: u8, values: Seq<usize>) -> Option<
    (IntelligenceLimits, IntelligenceLimits),
> {
    let base = IntelligenceLimits::new_spec(
        values[0],
        values[1],
        values[2],
        values[3],
        values[4],
        values[5],
    );
    let reading = base.per_route_spec(
        if version == 9 {
            values[6]
        } else {
            values[4]
        },
    );
    if base.valid() && reading.valid() {
        Some((base, reading))
    } else {
        None
    }
}

/// The limits that hold once the ecology is known: before routes were bounded, the
/// bound is whatever the ecology needs.
pub open spec fn settled_limits(
    version: u8,
    base: IntelligenceLimits,
    reading: IntelligenceLimits,
    ecology: EcologyView,
) -> Option<IntelligenceLimits> {
    let limits = if version == 9 {
        reading
    } else if base.maximum_specialists_per_route < widest(ecology.specialists) {
        base.per_route_spec(widest(ecology.specialists) as usize)
    } else {
        base
    };
    if limits.valid() && ecology.fits(limits) {
        Some(limits)
    } else {
        None
    }
}

/// The components behind a header.
pub open spec fn plain_components(
    version: u8,
    base: IntelligenceLimits,
    reading: IntelligenceLimits,
    input: Seq<u8>,
) -> Option<(IntelligenceLimits, EcologyView, LedgerView, CompilerView)> {
    match ecology::parse_ecology(reading, input) {
        None => None,
        Some((ecology, rest)) => match settled_limits(version, base, reading, ecology) {
            None => None,
            Some(limits) => match ledger::parse_ledger(ReceiptFormat::LegacyV11, limits, rest) {
                None => None,
                Some((ledger, rest)) => match checkpoint::complete(
                    compiler_wire::parse_recorded_compiler(
                        knowledge_format(version),
                        limits,
                        ledger,
                        rest,
                    ),
                ) {
                    None => None,
                    Some(knowledge) => Some((limits, ecology, ledger, knowledge)),
                },
            },
        },
    }
}

/// The bytes that a revision was named after.
pub open spec fn plain_bytes(
    version: u8,
    ecology: EcologyView,
    ledger: LedgerView,
    knowledge: CompilerView,
) -> Seq<u8> {
    ecology::put_ecology(ecology) + (ledger::put_ledger(
        if version == 9 {
            ReceiptFormat::Current
        } else {
            ReceiptFormat::LegacyV11
        },
        ledger,
    ) + compiler_wire::put_records(knowledge_format(version), knowledge.records))
}

/// The revision of a core in a format without segments; knowledge that the format
/// cannot express has none.
pub open spec fn plain_revision(
    version: u8,
    limits: IntelligenceLimits,
    ecology: EcologyView,
    ledger: LedgerView,
    knowledge: CompilerView,
) -> Option<Digest> {
    let bytes = plain_bytes(version, ecology, ledger, knowledge);
    if version <= 7 && !compiler_wire::all_expressible(
        knowledge_format(version),
        knowledge.records,
    ) {
        None
    } else if version == 9 {
        Some(
            digest::labelled(
                "reflex-intelligence-revision-v3\0",
                checkpoint::put_sizes(checkpoint::limit_list(limits)) + bytes,
            ),
        )
    } else if version == 8 {
        Some(
            digest::labelled(
                "reflex-intelligence-revision-v2\0",
                checkpoint::put_sizes(checkpoint::limit_list(limits).take(6)) + bytes,
            ),
        )
    } else {
        Some(
            digest::labelled(
                "reflex-intelligence-revision-v1\0",
                checkpoint::put_sizes(checkpoint::limit_list(limits).take(6)) + bytes,
            ),
        )
    }
}

/// What a checkpoint without segments holds behind its magic.
#[verifier::opaque]
pub open spec fn plain_whole(version: u8, input: Seq<u8>) -> Option<
    (IntelligenceLimits, EcologyView, LedgerView, CompilerView),
> {
    match digest::parse_digest(input) {
        None => None,
        Some((revision, rest)) => match checkpoint::parse_sizes(
            rest,
            if version == 9 {
                7
            } else {
                6
            },
        ) {
            None => None,
            Some((values, rest)) => match announced_limits(version, values) {
                None => None,
                Some((base, reading)) => match plain_components(version, base, reading, rest) {
                    None => None,
                    Some((limits, ecology, ledger, knowledge)) => if plain_revision(
                        version,
                        limits,
                        ecology,
                        ledger,
                        knowledge,
                    ) == Some(revision) {
                        Some((limits, ecology, ledger, knowledge))
                    } else {
                        None
                    },
                },
            },
        },
    }
}

/// The core that a checkpoint without segments holds.
pub open spec fn plain_restored<P: PolicyEngine>(bytes: Seq<u8>) -> Result<
    CoreView,
    IntelligenceError,
> {
    let payload = bytes.take(bytes.len() - LEGACY_CHECKSUM_BYTES);
    if bytes.len() < LEGACY_CHECKSUM_BYTES || digest::hash(payload).bytes() != bytes.skip(
        bytes.len() - LEGACY_CHECKSUM_BYTES,
    ) || payload.len() < 5 {
        Err(IntelligenceError::CorruptState)
    } else {
        match version_of(payload) {
            Some(version) => if 6 <= version <= 9 {
                match plain_whole(version, payload.skip(5)) {
                    None => Err(IntelligenceError::CorruptState),
                    Some((limits, ecology, ledger, knowledge)) => Ok(
                        CoreView::assembled(
                            limits,
                            (ComponentsView { ecology, ledger, knowledge, policy: P::initial() }),
                            true,
                            true,
                            true,
                        ),
                    ),
                }
            } else {
                Err(IntelligenceError::IncompatibleRevision)
            },
            None => Err(IntelligenceError::IncompatibleRevision),
        }
    }
}

fn knowledge_wire_format(version: u8) -> (format: KnowledgeWireFormat)
    ensures
        format == knowledge_format(version),
{
    if version == 6 {
        KnowledgeWireFormat::LegacyV6
    } else if version == 7 {
        KnowledgeWireFormat::LegacyV7
    } else {
        KnowledgeWireFormat::V8
    }
}

fn read_announced_limits(version: u8, input: &mut Decoder<'_>) -> (result: Result<
    (IntelligenceLimits, IntelligenceLimits),
    IntelligenceError,
>)
    ensures
        ({
            let parsed = checkpoint::parse_sizes(
                old(input)@,
                if version == 9 {
                    7
                } else {
                    6
                },
            );
            match result {
                Ok(limits) => match parsed {
                    Some((values, rest)) => announced_limits(version, values) == Some(limits)
                        && rest == final(input)@,
                    None => false,
                },
                Err(error) => error is CorruptState && match parsed {
                    Some((values, _)) => announced_limits(version, values) is None,
                    None => true,
                },
            }
        }),
{
    let count: usize = if version == 9 {
        7
    } else {
        6
    };
    let values = match read_sizes(input, count) {
        Ok(values) => values,
        Err(_) => return Err(IntelligenceError::CorruptState),
    };
    let base = match IntelligenceLimits::new(
        values[0],
        values[1],
        values[2],
        values[3],
        values[4],
        values[5],
    ) {
        Ok(base) => base,
        Err(_) => return Err(IntelligenceError::CorruptState),
    };
    let per_route: usize = if version == 9 {
        values[6]
    } else {
        values[4]
    };
    match base.with_maximum_specialists_per_route(per_route) {
        Ok(reading) => Ok((base, reading)),
        Err(_) => Err(IntelligenceError::CorruptState),
    }
}

fn settle_limits(
    version: u8,
    base: IntelligenceLimits,
    reading: IntelligenceLimits,
    ecology: &ModelEcology,
) -> (result: Result<IntelligenceLimits, IntelligenceError>)
    requires
        base.valid(),
        reading.valid(),
    ensures
        match result {
            Ok(limits) => settled_limits(version, base, reading, ecology@) == Some(limits),
            Err(error) => error is CorruptState && settled_limits(version, base, reading, ecology@)
                is None,
        },
{
    let limits = if version == 9 {
        reading
    } else {
        let fanout: usize = ecology.maximum_route_fanout();
        proof {
            lemma_widest(ecology@.specialists, fanout as nat);
        }
        if base.maximum_specialists_per_route < fanout {
            match base.with_maximum_specialists_per_route(fanout) {
                Ok(limits) => limits,
                Err(_) => return Err(IntelligenceError::CorruptState),
            }
        } else {
            base
        }
    };
    if !ecology.fits_limits(limits) {
        return Err(IntelligenceError::CorruptState);
    }
    Ok(limits)
}

/// The components of a checkpoint without segments, as they were read.
struct PlainComponents {
    limits: IntelligenceLimits,
    ecology: ModelEcology,
    experience: CausalLedger,
    knowledge: KnowledgeCompiler,
}

fn read_plain_components(
    version: u8,
    base: IntelligenceLimits,
    reading: IntelligenceLimits,
    input: &mut Decoder<'_>,
) -> (result: Result<PlainComponents, IntelligenceError>)
    requires
        base.valid(),
        reading.valid(),
        6 <= version <= 9,
    ensures
        match result {
            Ok(read) => plain_components(version, base, reading, old(input)@) == Some(
                (read.limits, read.ecology@, read.experience@, read.knowledge@),
            ) && ledger::settled(read.experience@.receipts, read.experience@.settlements)
                && ledger::distinct_decisions(read.experience@.receipts)
                && read.knowledge@.well_formed(),
            Err(error) => error is CorruptState && plain_components(
                version,
                base,
                reading,
                old(input)@,
            ) is None,
        },
{
    let ecology = match ModelEcology::decode_canonical(input, reading) {
        Ok(ecology) => ecology,
        Err(_) => return Err(IntelligenceError::CorruptState),
    };
    let limits = settle_limits(version, base, reading, &ecology)?;
    let experience = match CausalLedger::decode_legacy_v11(input, limits) {
        Ok(experience) => experience,
        Err(_) => return Err(IntelligenceError::CorruptState),
    };
    let decoded = if version == 6 {
        KnowledgeCompiler::decode_legacy_v6(input, &experience, limits)
    } else if version == 7 {
        KnowledgeCompiler::decode_legacy_v7(input, &experience, limits)
    } else {
        KnowledgeCompiler::decode_legacy_v13(input, &experience, limits)
    };
    let knowledge = match decoded {
        Ok(knowledge) => knowledge,
        Err(_) => return Err(IntelligenceError::CorruptState),
    };
    if !input.is_finished() {
        return Err(IntelligenceError::CorruptState);
    }
    Ok(PlainComponents { limits, ecology, experience, knowledge })
}

proof fn lemma_three_written(start: Seq<u8>, first: Seq<u8>, second: Seq<u8>, third: Seq<u8>)
    ensures
        ((start + first) + second) + third == start + (first + (second + third)),
{
    assert(((start + first) + second) + third =~= start + (first + (second + third)));
}

fn encode_plain(
    version: u8,
    ecology: &ModelEcology,
    experience: &CausalLedger,
    knowledge: &KnowledgeCompiler,
    output: &mut Vec<u8>,
) -> (result: Result<(), ()>)
    requires
        6 <= version <= 9,
    ensures
        match result {
            Ok(_) => (version <= 7 ==> compiler_wire::all_expressible(
                knowledge_format(version),
                knowledge@.records,
            )) && final(output)@ == old(output)@ + plain_bytes(
                version,
                ecology@,
                experience@,
                knowledge@,
            ),
            Err(_) => version <= 7 && !compiler_wire::all_expressible(
                knowledge_format(version),
                knowledge@.records,
            ),
        },
{
    let ghost start = output@;
    ecology.encode_canonical(output);
    if version == 9 {
        experience.encode_canonical(output);
    } else {
        experience.encode_legacy_v11(output);
    }
    proof {
        let first = ecology::put_ecology(ecology@);
        let second = ledger::put_ledger(
            if version == 9 {
                ReceiptFormat::Current
            } else {
                ReceiptFormat::LegacyV11
            },
            experience@,
        );
        let third = compiler_wire::put_records(knowledge_format(version), knowledge@.records);
        lemma_three_written(start, first, second, third);
    }
    if version == 6 {
        knowledge.encode_legacy_v6(output)
    } else if version == 7 {
        knowledge.encode_legacy_v7(output)
    } else {
        knowledge.encode_legacy_v13(output);
        Ok(())
    }
}

/// The revision of a core in a format without segments.
pub fn legacy_revision_digest(
    version: u8,
    limits: IntelligenceLimits,
    ecology: &ModelEcology,
    experience: &CausalLedger,
    knowledge: &KnowledgeCompiler,
) -> (result: Result<Digest, ()>)
    requires
        6 <= version <= 9,
    ensures
        match result {
            Ok(revision) => plain_revision(version, limits, ecology@, experience@, knowledge@)
                == Some(revision),
            Err(_) => plain_revision(version, limits, ecology@, experience@, knowledge@) is None,
        },
{
    let mut content: Vec<u8> = Vec::new();
    if version == 9 {
        write_sizes(current_limit_values(limits).as_slice(), &mut content);
        assert(content@ =~= checkpoint::put_sizes(checkpoint::limit_list(limits)));
    } else {
        write_sizes(legacy_limit_values(limits).as_slice(), &mut content);
        assert(content@ =~= checkpoint::put_sizes(checkpoint::limit_list(limits).take(6)));
    }
    encode_plain(version, ecology, experience, knowledge, &mut content)?;
    if version == 9 {
        Ok(hash_labelled("reflex-intelligence-revision-v3\0", content.as_slice()))
    } else if version == 8 {
        Ok(hash_labelled("reflex-intelligence-revision-v2\0", content.as_slice()))
    } else {
        Ok(hash_labelled("reflex-intelligence-revision-v1\0", content.as_slice()))
    }
}

fn read_plain(version: u8, bytes: &[u8]) -> (result: Result<PlainComponents, IntelligenceError>)
    requires
        6 <= version <= 9,
    ensures
        match result {
            Ok(read) => plain_whole(version, bytes@) == Some(
                (read.limits, read.ecology@, read.experience@, read.knowledge@),
            ) && ledger::settled(read.experience@.receipts, read.experience@.settlements)
                && ledger::distinct_decisions(read.experience@.receipts)
                && read.knowledge@.well_formed(),
            Err(error) => error is CorruptState && plain_whole(version, bytes@) is None,
        },
{
    proof {
        reveal(plain_whole);
    }
    let mut input = Decoder::new(bytes);
    let encoded: Digest = match input.read_digest() {
        Ok(encoded) => encoded,
        Err(_) => return Err(IntelligenceError::CorruptState),
    };
    let (base, reading) = match read_announced_limits(version, &mut input) {
        Ok(limits) => limits,
        Err(error) => return Err(error),
    };
    let read = match read_plain_components(version, base, reading, &mut input) {
        Ok(read) => read,
        Err(error) => return Err(error),
    };
    match legacy_revision_digest(
        version,
        read.limits,
        &read.ecology,
        &read.experience,
        &read.knowledge,
    ) {
        Ok(revision) => if revision == encoded {
            Ok(read)
        } else {
            Err(IntelligenceError::CorruptState)
        },
        Err(_) => Err(IntelligenceError::CorruptState),
    }
}

fn restore_plain<P: PolicyEngine>(bytes: &[u8]) -> (result: Result<
    IntelligenceCore,
    IntelligenceError,
>)
    ensures
        match result {
            Ok(core) => plain_restored::<P>(bytes@) == Ok::<CoreView, IntelligenceError>(core@)
                && core@.well_formed(),
            Err(error) => plain_restored::<P>(bytes@) == Err::<CoreView, IntelligenceError>(error),
        },
{
    if bytes.len() < LEGACY_CHECKSUM_BYTES {
        return Err(IntelligenceError::CorruptState);
    }
    let length: usize = bytes.len() - LEGACY_CHECKSUM_BYTES;
    let payload = vstd::slice::slice_subrange(bytes, 0, length);
    let checksum = vstd::slice::slice_subrange(bytes, length, bytes.len());
    assert(payload@ =~= bytes@.take(length as int));
    assert(checksum@ =~= bytes@.skip(length as int));
    let actual = hash_bytes(payload).to_bytes();
    if !crate::consolidation::same_bytes(checksum, actual.as_slice()) {
        return Err(IntelligenceError::CorruptState);
    }
    if payload.len() < 5 {
        return Err(IntelligenceError::CorruptState);
    }
    let version: u8 = match announced_version(payload) {
        Some(version) => version,
        None => return Err(IntelligenceError::IncompatibleRevision),
    };
    if version < 6 || version > 9 {
        return Err(IntelligenceError::IncompatibleRevision);
    }
    let rest = vstd::slice::slice_subrange(payload, 5, length);
    assert(rest@ =~= payload@.skip(5));
    match read_plain(version, rest) {
        Ok(read) => Ok(
            IntelligenceCore::from_components(
                read.limits,
                read.ecology,
                read.experience,
                read.knowledge,
                RuntimePolicyState { encoded: P::bootstrap() },
                true,
                true,
                true,
            ),
        ),
        Err(error) => Err(error),
    }
}

// ---------------------------------------------------------------------------
// Any format
// ---------------------------------------------------------------------------
/// The core that a checkpoint with segments holds. Formats that are not written any
/// more are brought into the form of a single snapshot.
pub open spec fn segmented_restored<P: PolicyEngine>(wire: CheckpointWire, bytes: Seq<u8>) -> Result<
    CoreView,
    IntelligenceError,
> {
    match replay::whole::<P>(wire, bytes) {
        None => Err(IntelligenceError::CorruptState),
        Some((limits, state)) => if !wire.includes_policy {
            Ok(CoreView::assembled(limits, state.components, true, true, true))
        } else if !wire.includes_bound_policy_updates {
            Ok(
                CoreView::assembled(
                    limits,
                    state.components,
                    false,
                    false,
                    !wire.includes_active_knowledge,
                ),
            )
        } else {
            Ok(
                CoreView {
                    limits,
                    components: state.components,
                    policy_import_eligible: false,
                    legacy_ftrl_import_eligible: false,
                    legacy_knowledge_import_eligible: !wire.includes_active_knowledge,
                    roots: state.roots,
                    revision: checkpoint::revision_of(true, limits, state.checked),
                    checkpoint: bytes,
                    log_root: state.log_root,
                    records: state.records,
                },
            )
        },
    }
}

/// The core that some bytes hold.
pub open spec fn restored<P: PolicyEngine>(bytes: Seq<u8>) -> Result<CoreView, IntelligenceError> {
    match wire_of(bytes) {
        Some(wire) => segmented_restored::<P>(wire, bytes),
        None => plain_restored::<P>(bytes),
    }
}

impl IntelligenceCore {
    /// Restores a core from a checkpoint with segments, which has to announce the
    /// version that is asked for.
    pub fn restore_segmented<P: PolicyEngine>(wire: CheckpointWire, bytes: &[u8]) -> (result: Result<
        Self,
        IntelligenceError,
    >)
        ensures
            ({
                let expected = if bytes@.len() < 5 {
                    Err(IntelligenceError::CorruptState)
                } else if version_of(bytes@) != Some(wire.version) {
                    Err(IntelligenceError::IncompatibleRevision)
                } else {
                    segmented_restored::<P>(wire, bytes@)
                };
                match result {
                    Ok(core) => expected == Ok::<CoreView, IntelligenceError>(core@)
                        && core@.well_formed(),
                    Err(error) => expected == Err::<CoreView, IntelligenceError>(error),
                }
            }),
    {
        if bytes.len() < 5 {
            return Err(IntelligenceError::CorruptState);
        }
        match announced_version(bytes) {
            Some(version) => if version != wire.version {
                return Err(IntelligenceError::IncompatibleRevision);
            },
            None => return Err(IntelligenceError::IncompatibleRevision),
        }
        let read = match read_checkpoint::<P>(wire, bytes) {
            Ok(read) => read,
            Err(error) => return Err(error),
        };
        let limits = read.limits;
        let state = read.state;
        if !wire.includes_policy {
            return Ok(
                Self::from_components(
                    limits,
                    state.ecology,
                    state.experience,
                    state.knowledge,
                    state.policy,
                    true,
                    true,
                    true,
                ),
            );
        }
        if !wire.includes_bound_policy_updates {
            return Ok(
                Self::from_components(
                    limits,
                    state.ecology,
                    state.experience,
                    state.knowledge,
                    state.policy,
                    false,
                    false,
                    !wire.includes_active_knowledge,
                ),
            );
        }
        let revision: Digest = revision_digest(limits, state.checked);
        let ghost view = state@;
        let core = IntelligenceCore::resumed(
            limits,
            state,
            !wire.includes_active_knowledge,
            revision,
            bytes,
        );
        proof {
            lemma_whole_has_footer::<P>(wire, bytes@);
        }
        Ok(core)
    }

    /// Restores a core from a checkpoint in any format. Bytes that are none, or
    /// that do not agree with themselves, are refused.
    pub fn restore<P: PolicyEngine>(bytes: &[u8]) -> (result: Result<Self, IntelligenceError>)
        ensures
            match result {
                Ok(core) => restored::<P>(bytes@) == Ok::<CoreView, IntelligenceError>(core@)
                    && core@.well_formed(),
                Err(error) => restored::<P>(bytes@) == Err::<CoreView, IntelligenceError>(error),
            },
    {
        match announced_version(bytes) {
            Some(version) => match CheckpointWire::for_version(version) {
                Some(wire) => Self::restore_segmented::<P>(wire, bytes),
                None => restore_plain::<P>(bytes),
            },
            None => restore_plain::<P>(bytes),
        }
    }
}

/// What was read of a checkpoint is followed by its footer.
proof fn lemma_replayed_len<P: PolicyEngine>(
    wire: CheckpointWire,
    limits: IntelligenceLimits,
    state: replay::ReplayView,
    input: Seq<u8>,
)
    ensures
        replay::replayed::<P>(wire, limits, state, input) matches Some((_, rest)) ==> rest.len() + 1
            <= input.len(),
    decreases input.len(),
{
    reveal(codec::parse_u8);
    match codec::parse_u8(input) {
        None => {},
        Some((tag, rest)) => if tag == 2 {
            match replay::stepped::<P>(wire, limits, state, rest) {
                None => {},
                Some((next, rest)) => if rest.len() < input.len() {
                    lemma_replayed_len::<P>(wire, limits, next, rest);
                },
            }
        },
    }
}

proof fn lemma_whole_has_footer<P: PolicyEngine>(wire: CheckpointWire, input: Seq<u8>)
    requires
        replay::whole::<P>(wire, input) is Some,
        wire.includes_policy,
        input.len() >= 5,
    ensures
        input.len() >= checkpoint::CHECKPOINT_FOOTER_BYTES,
{
    match replay::opened::<P>(wire, input) {
        None => {},
        Some((limits, state, rest)) => {
            lemma_replayed_len::<P>(wire, limits, state, rest);
            replay::lemma_opened_len::<P>(wire, input);
            match replay::replayed::<P>(wire, limits, state, rest) {
                None => {},
                Some((last, tail)) => {
                    checkpoint::lemma_footer_len(
                        last.records,
                        last.checked,
                        checkpoint::revision_of(true, limits, last.checked),
                        last.log_root,
                    );
                },
            }
        },
    }
}

} // verus!
