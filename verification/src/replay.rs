//! How a checkpoint is read: the snapshot is opened, every later step is replayed
//! on it, and the footer has to agree with what came out.
use vstd::prelude::*;

use crate::checkpoint;
use crate::checkpoint::{
    append_checkpoint_footer, append_legacy_segmented_checkpoint_footer, checkpoint_header_root,
    checkpoint_log_root, component_roots, extend_component_root, format_component_roots,
    frame_record, frame_snapshot, legacy_v12_revision_digest, read_record_bytes, read_sizes,
    revision_digest, CheckpointWire, ComponentRoots, ComponentsView, CHECKPOINT_HEADER_BYTES,
};
use crate::codec;
use crate::codec::Decoder;
use crate::consolidation::same_bytes;
use crate::compiler::{CompilerView, KnowledgeCompiler};
use crate::compiler_steps;
use crate::compiler_wire;
use crate::challenger::KnowledgeWireFormat;
use crate::digest::Digest;
use crate::ecology;
use crate::ecology::{EcologyView, ModelEcology};
use crate::evidence;
use crate::evidence::CausalEvidence;
use crate::ledger;
use crate::ledger::{copied, CausalDelta, CausalLedger, LedgerView};
use crate::policy;
use crate::policy::{PolicyEngine, PolicyUpdate, RuntimePolicyState};
use crate::types::{IntelligenceError, IntelligenceLimits, SubjectId};

verus! {

/// How far a checkpoint has been read.
#[verifier::ext_equal]
pub struct ReplayView {
    pub components: ComponentsView,
    /// The roots of the components as they are kept.
    pub roots: ComponentRoots,
    /// The roots as the format of the checkpoint has them.
    pub checked: ComponentRoots,
    pub log_root: Digest,
    pub records: u64,
}

// ---------------------------------------------------------------------------
// The snapshot
// ---------------------------------------------------------------------------
/// The limits at the front of some bytes.
pub open spec fn parse_limits(input: Seq<u8>) -> Option<(IntelligenceLimits, Seq<u8>)> {
    match checkpoint::parse_sizes(input, 7) {
        None => None,
        Some((values, rest)) => if checkpoint::limits_in(values).valid() {
            Some((checkpoint::limits_in(values), rest))
        } else {
            None
        },
    }
}

/// The compiler at the front of some bytes in a format.
pub open spec fn parse_knowledge(
    wire: CheckpointWire,
    limits: IntelligenceLimits,
    ledger: LedgerView,
    input: Seq<u8>,
) -> Option<(CompilerView, Seq<u8>)> {
    if wire.includes_pending_verification {
        compiler_wire::parse_compiler(limits, ledger, input)
    } else if wire.includes_active_knowledge {
        compiler_wire::parse_settled_compiler(limits, ledger, input)
    } else {
        compiler_wire::parse_recorded_compiler(KnowledgeWireFormat::V8, limits, ledger, input)
    }
}

/// The runs of a snapshot's record, behind the byte that announces it.
pub open spec fn parse_snapshot_runs(wire: CheckpointWire, input: Seq<u8>) -> Option<
    (Seq<u8>, Seq<u8>, Seq<u8>, Option<Seq<u8>>, Seq<u8>),
> {
    match checkpoint::parse_sized(input) {
        None => None,
        Some((ecology, rest)) => match checkpoint::parse_sized(rest) {
            None => None,
            Some((experience, rest)) => match checkpoint::parse_sized(rest) {
                None => None,
                Some((knowledge, rest)) => if !wire.includes_policy {
                    Some((ecology, experience, knowledge, None, rest))
                } else {
                    match checkpoint::parse_sized(rest) {
                        None => None,
                        Some((policy, rest)) => Some(
                            (ecology, experience, knowledge, Some(policy), rest),
                        ),
                    }
                },
            },
        },
    }
}

/// The components that the runs of a snapshot hold.
pub open spec fn snapshot_components<P: PolicyEngine>(
    wire: CheckpointWire,
    limits: IntelligenceLimits,
    ecology: Seq<u8>,
    experience: Seq<u8>,
    knowledge: Seq<u8>,
    policy: Option<Seq<u8>>,
) -> Option<ComponentsView> {
    match (
        checkpoint::complete(ecology::parse_ecology(limits, ecology)),
        checkpoint::complete(ledger::parse_ledger(wire.receipts(), limits, experience)),
    ) {
        (Some(ecology), Some(ledger)) => match checkpoint::complete(
            parse_knowledge(wire, limits, ledger, knowledge),
        ) {
            None => None,
            Some(knowledge) => match policy {
                None => Some(ComponentsView { ecology, ledger, knowledge, policy: P::initial() }),
                Some(policy) => if P::is_state(policy) {
                    Some(ComponentsView { ecology, ledger, knowledge, policy })
                } else {
                    None
                },
            },
        },
        _ => None,
    }
}

/// The limits and the snapshot that a checkpoint opens with.
#[verifier::opaque]
pub open spec fn opened<P: PolicyEngine>(wire: CheckpointWire, input: Seq<u8>) -> Option<
    (IntelligenceLimits, ReplayView, Seq<u8>),
> {
    match parse_limits(input.skip(5)) {
        None => None,
        Some((limits, rest)) => match codec::parse_u8(rest) {
            Some((1, rest)) => match parse_snapshot_runs(wire, rest) {
                None => None,
                Some((ecology, experience, knowledge, policy, rest)) => match snapshot_components::<
                    P,
                >(wire, limits, ecology, experience, knowledge, policy) {
                    None => None,
                    Some(components) => Some(
                        (
                            limits,
                            ReplayView {
                                components,
                                roots: checkpoint::roots_of(components),
                                checked: checkpoint::snapshot_roots::<P>(wire, components),
                                log_root: checkpoint::logged(
                                    checkpoint::header_root(
                                        input.take(CHECKPOINT_HEADER_BYTES as int),
                                    ),
                                    checkpoint::framed_snapshot(
                                        ecology,
                                        experience,
                                        knowledge,
                                        policy,
                                    ),
                                ),
                                records: 1,
                            },
                            rest,
                        ),
                    ),
                },
            },
            _ => None,
        },
    }
}

// ---------------------------------------------------------------------------
// A step
// ---------------------------------------------------------------------------
/// A run that is there where its flag is set.
pub open spec fn parse_part(present: bool, input: Seq<u8>) -> Option<(Option<Seq<u8>>, Seq<u8>)> {
    if !present {
        Some((None, input))
    } else {
        match checkpoint::parse_sized(input) {
            None => None,
            Some((bytes, rest)) => Some((Some(bytes), rest)),
        }
    }
}

/// The runs of a step's record, behind the byte that announces it.
pub open spec fn parse_step_runs(wire: CheckpointWire, input: Seq<u8>) -> Option<
    (Option<Seq<u8>>, Seq<u8>, Option<Seq<u8>>, Option<Seq<u8>>, Seq<u8>),
> {
    match codec::parse_u8(input) {
        None => None,
        Some((flags, rest)) => if flags > 7 || flags > 3 && !wire.includes_policy {
            None
        } else {
            match parse_part(flags % 2 == 1, rest) {
                None => None,
                Some((ecology, rest)) => match checkpoint::parse_sized(rest) {
                    None => None,
                    Some((experience, rest)) => match parse_part(flags / 2 % 2 == 1, rest) {
                        None => None,
                        Some((knowledge, rest)) => match parse_part(flags / 4 % 2 == 1, rest) {
                            None => None,
                            Some((policy, rest)) => Some(
                                (ecology, experience, knowledge, policy, rest),
                            ),
                        },
                    },
                },
            }
        },
    }
}

/// The ecology after the edits of a step.
pub open spec fn ecology_after(
    limits: IntelligenceLimits,
    ecology: EcologyView,
    part: Option<Seq<u8>>,
) -> Option<EcologyView> {
    match part {
        None => Some(ecology),
        Some(bytes) => match checkpoint::complete(ecology::parse_edits(limits, bytes)) {
            None => None,
            Some(edits) => if edits.len() == 0 {
                None
            } else {
                match ecology.applied_all(edits, limits) {
                    Ok(next) => Some(next),
                    Err(_) => None,
                }
            },
        },
    }
}

/// What the records of a step say of knowledge that was promoted before: nothing,
/// unless campaigns have moved.
pub open spec fn knowledge_reconciled(
    knowledge: CompilerView,
    moved: bool,
    ledger: LedgerView,
) -> Option<(CompilerView, bool)> {
    if !moved {
        Some((knowledge, false))
    } else {
        match knowledge.reconciled(ledger) {
            (next, Ok(reconciled)) => Some((next, reconciled)),
            (_, Err(_)) => None,
        }
    }
}

/// The knowledge after the updates of a step.
pub open spec fn knowledge_after(
    limits: IntelligenceLimits,
    knowledge: CompilerView,
    reconciled: bool,
    ledger: LedgerView,
    part: Option<Seq<u8>>,
) -> Option<CompilerView> {
    match part {
        None => if reconciled {
            None
        } else {
            Some(knowledge)
        },
        Some(bytes) => match checkpoint::complete(compiler_steps::parse_updates(limits, bytes)) {
            None => None,
            Some(updates) => match knowledge.updated_all(updates, ledger, limits) {
                (next, Ok(applied)) => if reconciled || applied {
                    Some(next)
                } else {
                    None
                },
                (_, Err(_)) => None,
            },
        },
    }
}

/// The comparison that some bytes ask for, with its evidence.
pub open spec fn comparison_in<P: PolicyEngine>(
    bound: bool,
    ledger: LedgerView,
    bytes: Seq<u8>,
) -> Option<(SubjectId, evidence::OperationalEvidence, evidence::OperationalEvidence)> {
    if bound {
        match checkpoint::complete(policy::parse_update(bytes)) {
            None => None,
            Some(update) => match evidence::policy_evidence(
                ledger.shadows,
                update.campaign,
                SubjectId(update.challenger.0),
            ) {
                Ok((incumbent, challenger)) => Some(
                    (SubjectId(update.challenger.0), incumbent, challenger),
                ),
                Err(_) => None,
            },
        }
    } else {
        P::unbound(bytes)
    }
}

/// The policy after the comparison of a step.
pub open spec fn policy_after<P: PolicyEngine>(
    wire: CheckpointWire,
    state: Seq<u8>,
    ledger: LedgerView,
    part: Option<Seq<u8>>,
) -> Option<Seq<u8>> {
    match part {
        None => Some(state),
        Some(bytes) => match comparison_in::<P>(
            wire.includes_bound_policy_updates,
            ledger,
            bytes,
        ) {
            None => None,
            Some((challenger, incumbent_evidence, challenger_evidence)) => match P::compared(
                state,
                challenger,
                incumbent_evidence,
                challenger_evidence,
            ) {
                None => None,
                Some((next, _)) => Some(next),
            },
        },
    }
}

/// The components after a step with the given runs.
pub open spec fn components_after<P: PolicyEngine>(
    wire: CheckpointWire,
    limits: IntelligenceLimits,
    components: ComponentsView,
    ecology: Option<Seq<u8>>,
    experience: Seq<u8>,
    knowledge: Option<Seq<u8>>,
    policy: Option<Seq<u8>>,
) -> Option<ComponentsView> {
    match (
        ecology_after(limits, components.ecology, ecology),
        checkpoint::complete(
            ledger::parse_delta(wire.receipts(), components.ledger, limits, experience),
        ),
    ) {
        (Some(next_ecology), Some(delta)) => {
            let next_ledger = components.ledger.committed(delta);
            match knowledge_reconciled(
                components.knowledge,
                delta.updates.len() > 0,
                next_ledger,
            ) {
                None => None,
                Some((middle, reconciled)) => match (
                    knowledge_after(limits, middle, reconciled, next_ledger, knowledge),
                    policy_after::<P>(wire, components.policy, next_ledger, policy),
                ) {
                    (Some(next_knowledge), Some(next_policy)) => Some(
                        ComponentsView {
                            ecology: next_ecology,
                            ledger: next_ledger,
                            knowledge: next_knowledge,
                            policy: next_policy,
                        },
                    ),
                    _ => None,
                },
            }
        },
        _ => None,
    }
}

/// A root after a step that may have touched its component.
pub open spec fn root_after(label: &str, root: Digest, part: Option<Seq<u8>>) -> Digest {
    match part {
        None => root,
        Some(bytes) => checkpoint::extended_root(label, root, bytes),
    }
}

/// The roots after a step.
pub open spec fn roots_after(
    roots: ComponentRoots,
    experience: Digest,
    ecology: Option<Seq<u8>>,
    knowledge: Option<Seq<u8>>,
    policy: Option<Seq<u8>>,
) -> ComponentRoots {
    ComponentRoots {
        ecology: root_after("ecology", roots.ecology, ecology),
        experience,
        knowledge: root_after("knowledge", roots.knowledge, knowledge),
        policy: root_after("policy", roots.policy, policy),
    }
}

/// How far the checkpoint has been read once a step has been replayed.
#[verifier::opaque]
pub open spec fn stepped<P: PolicyEngine>(
    wire: CheckpointWire,
    limits: IntelligenceLimits,
    state: ReplayView,
    input: Seq<u8>,
) -> Option<(ReplayView, Seq<u8>)> {
    match parse_step_runs(wire, input) {
        None => None,
        Some((ecology, experience, knowledge, policy, rest)) => match components_after::<P>(
            wire,
            limits,
            state.components,
            ecology,
            experience,
            knowledge,
            policy,
        ) {
            None => None,
            Some(components) => if state.records == u64::MAX {
                None
            } else {
                let roots = roots_after(
                    state.roots,
                    components.ledger.root(),
                    ecology,
                    knowledge,
                    policy,
                );
                let checked = roots_after(
                    state.checked,
                    checkpoint::stepped_experience_root(wire, components.ledger),
                    ecology,
                    knowledge,
                    policy,
                );
                Some(
                    (
                        ReplayView {
                            components,
                            roots,
                            checked: if policy is Some {
                                ComponentRoots { policy: roots.policy, ..checked }
                            } else {
                                checked
                            },
                            log_root: checkpoint::logged(
                                state.log_root,
                                checkpoint::step_record(ecology, experience, knowledge, policy),
                            ),
                            records: (state.records + 1) as u64,
                        },
                        rest,
                    ),
                )
            },
        },
    }
}

/// How far the checkpoint has been read once every step has been replayed, and
/// what is left behind the byte that announces the footer.
pub open spec fn replayed<P: PolicyEngine>(
    wire: CheckpointWire,
    limits: IntelligenceLimits,
    state: ReplayView,
    input: Seq<u8>,
) -> Option<(ReplayView, Seq<u8>)>
    decreases input.len(),
{
    match codec::parse_u8(input) {
        None => None,
        Some((tag, rest)) => if tag == 0 {
            Some((state, rest))
        } else if tag != 2 {
            None
        } else {
            match stepped::<P>(wire, limits, state, rest) {
                None => None,
                Some((next, rest)) => if rest.len() < input.len() {
                    replayed::<P>(wire, limits, next, rest)
                } else {
                    None
                },
            }
        },
    }
}

/// What a state is sealed with, in a format.
pub open spec fn seal(wire: CheckpointWire, limits: IntelligenceLimits, state: ReplayView) -> Seq<
    u8,
> {
    checkpoint::footer_tail(
        wire.includes_policy,
        state.records,
        state.checked,
        checkpoint::revision_of(wire.includes_policy, limits, state.checked),
        state.log_root,
    )
}

/// What steps and a footer make of a state: the state they lead to, where the
/// footer agrees with it.
pub open spec fn finished<P: PolicyEngine>(
    wire: CheckpointWire,
    limits: IntelligenceLimits,
    state: ReplayView,
    input: Seq<u8>,
) -> Option<(IntelligenceLimits, ReplayView)> {
    match replayed::<P>(wire, limits, state, input) {
        None => None,
        Some((last, rest)) => if rest == seal(wire, limits, last) {
            Some((limits, last))
        } else {
            None
        },
    }
}

/// What a whole checkpoint holds, in a format.
pub open spec fn whole<P: PolicyEngine>(wire: CheckpointWire, input: Seq<u8>) -> Option<
    (IntelligenceLimits, ReplayView),
> {
    match opened::<P>(wire, input) {
        None => None,
        Some((limits, state, rest)) => finished::<P>(wire, limits, state, rest),
    }
}

proof fn lemma_parse_u8_len(input: Seq<u8>)
    ensures
        codec::parse_u8(input) matches Some((_, rest)) ==> rest.len() + 1 == input.len(),
{
    reveal(codec::parse_u8);
}

proof fn lemma_part_len(present: bool, input: Seq<u8>)
    ensures
        parse_part(present, input) matches Some((_, rest)) ==> rest.len() <= input.len(),
{
    checkpoint::lemma_parse_sized_len(input);
}

proof fn lemma_step_shrinks(wire: CheckpointWire, input: Seq<u8>)
    ensures
        parse_step_runs(wire, input) matches Some((_, _, _, _, rest)) ==> rest.len() < input.len(),
{
    lemma_parse_u8_len(input);
    match codec::parse_u8(input) {
        None => {},
        Some((flags, rest)) => {
            lemma_part_len(flags % 2 == 1, rest);
            match parse_part(flags % 2 == 1, rest) {
                None => {},
                Some((_, rest)) => {
                    checkpoint::lemma_parse_sized_len(rest);
                    match checkpoint::parse_sized(rest) {
                        None => {},
                        Some((_, rest)) => {
                            lemma_part_len(flags / 2 % 2 == 1, rest);
                            match parse_part(flags / 2 % 2 == 1, rest) {
                                None => {},
                                Some((_, rest)) => lemma_part_len(flags / 4 % 2 == 1, rest),
                            }
                        },
                    }
                },
            }
        },
    }
}

pub proof fn lemma_opened_len<P: PolicyEngine>(wire: CheckpointWire, input: Seq<u8>)
    ensures
        opened::<P>(wire, input) matches Some((_, _, rest)) ==> input.len() >= 5 ==> rest.len()
            <= input.len(),
{
    reveal(opened);
    let front = input.skip(5);
    checkpoint::lemma_parse_sizes_len(front, 7);
    match parse_limits(front) {
        None => {},
        Some((_, rest)) => {
            lemma_parse_u8_len(rest);
            match codec::parse_u8(rest) {
                None => {},
                Some((_, rest)) => {
                    checkpoint::lemma_parse_sized_len(rest);
                    match checkpoint::parse_sized(rest) {
                        None => {},
                        Some((_, rest)) => {
                            checkpoint::lemma_parse_sized_len(rest);
                            match checkpoint::parse_sized(rest) {
                                None => {},
                                Some((_, rest)) => {
                                    checkpoint::lemma_parse_sized_len(rest);
                                    match checkpoint::parse_sized(rest) {
                                        None => {},
                                        Some((_, rest)) => {
                                            checkpoint::lemma_parse_sized_len(rest);
                                        },
                                    }
                                },
                            }
                        },
                    }
                },
            }
        },
    }
}

// ---------------------------------------------------------------------------
// Reading
// ---------------------------------------------------------------------------
/// Components on which further steps can be taken.
pub open spec fn sound(components: ComponentsView) -> bool {
    &&& ledger::settled(components.ledger.receipts, components.ledger.settlements)
    &&& ledger::distinct_decisions(components.ledger.receipts)
    &&& components.knowledge.well_formed()
}

/// How far a checkpoint has been read.
pub struct ReplayState {
    pub ecology: ModelEcology,
    pub experience: CausalLedger,
    pub knowledge: KnowledgeCompiler,
    pub policy: RuntimePolicyState,
    pub roots: ComponentRoots,
    pub checked: ComponentRoots,
    pub log_root: Digest,
    pub records: u64,
}

impl View for ReplayState {
    type V = ReplayView;

    open spec fn view(&self) -> ReplayView {
        ReplayView {
            components: ComponentsView {
                ecology: self.ecology@,
                ledger: self.experience@,
                knowledge: self.knowledge@,
                policy: self.policy@,
            },
            roots: self.roots,
            checked: self.checked,
            log_root: self.log_root,
            records: self.records,
        }
    }
}

/// A reader's result for a value that must be all there is.
pub open spec fn completes<T: View>(result: Result<T, IntelligenceError>, expected: Option<T::V>) -> bool {
    match result {
        Ok(value) => expected == Some(value@),
        Err(error) => expected is None && error is CorruptState,
    }
}

fn read_limits(input: &mut Decoder<'_>) -> (result: Result<IntelligenceLimits, IntelligenceError>)
    ensures
        match result {
            Ok(limits) => parse_limits(old(input)@) == Some((limits, final(input)@)),
            Err(error) => parse_limits(old(input)@) is None && error is CorruptState,
        },
{
    let values = match read_sizes(input, 7) {
        Ok(values) => values,
        Err(_) => return Err(IntelligenceError::CorruptState),
    };
    let limits = IntelligenceLimits {
        maximum_opportunities: values[0],
        maximum_investments: values[1],
        maximum_bids: values[2],
        maximum_forecast_cells: values[3],
        maximum_specialists: values[4],
        maximum_model_bytes: values[5],
        maximum_specialists_per_route: values[6],
    };
    match limits.validated() {
        Ok(limits) => Ok(limits),
        Err(_) => Err(IntelligenceError::CorruptState),
    }
}

fn read_ecology(bytes: &[u8], limits: IntelligenceLimits) -> (result: Result<
    ModelEcology,
    IntelligenceError,
>)
    ensures
        completes(result, checkpoint::complete(ecology::parse_ecology(limits, bytes@))),
{
    let mut input = Decoder::new(bytes);
    match ModelEcology::decode_canonical(&mut input, limits) {
        Ok(ecology) => if input.is_finished() {
            Ok(ecology)
        } else {
            Err(IntelligenceError::CorruptState)
        },
        Err(_) => Err(IntelligenceError::CorruptState),
    }
}

fn read_experience(bytes: &[u8], wire: CheckpointWire, limits: IntelligenceLimits) -> (result: Result<
    CausalLedger,
    IntelligenceError,
>)
    ensures
        completes(
            result,
            checkpoint::complete(ledger::parse_ledger(wire.receipts(), limits, bytes@)),
        ),
        result matches Ok(ledger) ==> ledger::settled(ledger@.receipts, ledger@.settlements)
            && ledger::distinct_decisions(ledger@.receipts),
{
    let mut input = Decoder::new(bytes);
    match CausalLedger::decode_with_fields(&mut input, limits, wire.receipt_format()) {
        Ok(experience) => if input.is_finished() {
            Ok(experience)
        } else {
            Err(IntelligenceError::CorruptState)
        },
        Err(_) => Err(IntelligenceError::CorruptState),
    }
}

fn read_knowledge(
    bytes: &[u8],
    wire: CheckpointWire,
    limits: IntelligenceLimits,
    experience: &CausalLedger,
) -> (result: Result<KnowledgeCompiler, IntelligenceError>)
    ensures
        completes(
            result,
            checkpoint::complete(parse_knowledge(wire, limits, experience@, bytes@)),
        ),
        result matches Ok(knowledge) ==> knowledge@.well_formed(),
{
    let mut input = Decoder::new(bytes);
    let decoded = if wire.includes_pending_verification {
        KnowledgeCompiler::decode_canonical(&mut input, experience, limits)
    } else if wire.includes_active_knowledge {
        KnowledgeCompiler::decode_legacy_v14(&mut input, experience, limits)
    } else {
        KnowledgeCompiler::decode_legacy_v13(&mut input, experience, limits)
    };
    match decoded {
        Ok(knowledge) => if input.is_finished() {
            Ok(knowledge)
        } else {
            Err(IntelligenceError::CorruptState)
        },
        Err(_) => Err(IntelligenceError::CorruptState),
    }
}

fn read_policy<P: PolicyEngine>(part: Option<&[u8]>) -> (result: Result<
    RuntimePolicyState,
    IntelligenceError,
>)
    ensures
        completes(
            result,
            match part {
                None => Some(P::initial()),
                Some(bytes) => if P::is_state(bytes@) {
                    Some(bytes@)
                } else {
                    None
                },
            },
        ),
{
    match part {
        None => Ok(RuntimePolicyState { encoded: P::bootstrap() }),
        Some(bytes) => if P::accepts(bytes) {
            Ok(RuntimePolicyState { encoded: copied(bytes) })
        } else {
            Err(IntelligenceError::CorruptState)
        },
    }
}

/// The runs of a snapshot as they were read.
struct SnapshotRuns<'a> {
    ecology: &'a [u8],
    experience: &'a [u8],
    knowledge: &'a [u8],
    policy: Option<&'a [u8]>,
}

fn read_snapshot_runs<'a>(wire: CheckpointWire, input: &mut Decoder<'a>) -> (result: Result<
    SnapshotRuns<'a>,
    IntelligenceError,
>)
    ensures
        match result {
            Ok(runs) => parse_snapshot_runs(wire, old(input)@) == Some(
                (
                    runs.ecology@,
                    runs.experience@,
                    runs.knowledge@,
                    checkpoint::content(runs.policy),
                    final(input)@,
                ),
            ) && (runs.policy is Some) == wire.includes_policy,
            Err(error) => parse_snapshot_runs(wire, old(input)@) is None && error is CorruptState,
        },
{
    let ecology = read_record_bytes(input)?;
    let experience = read_record_bytes(input)?;
    let knowledge = read_record_bytes(input)?;
    let policy = if wire.includes_policy {
        Some(read_record_bytes(input)?)
    } else {
        None
    };
    Ok(SnapshotRuns { ecology, experience, knowledge, policy })
}

/// Opens the snapshot that a checkpoint begins with.
fn open_snapshot<P: PolicyEngine>(
    wire: CheckpointWire,
    limits: IntelligenceLimits,
    header_root: Digest,
    runs: &SnapshotRuns<'_>,
) -> (result: Result<ReplayState, IntelligenceError>)
    ensures
        match result {
            Ok(state) => snapshot_components::<P>(
                wire,
                limits,
                runs.ecology@,
                runs.experience@,
                runs.knowledge@,
                checkpoint::content(runs.policy),
            ) == Some(state@.components) && sound(state@.components) && state@ == (ReplayView {
                components: state@.components,
                roots: checkpoint::roots_of(state@.components),
                checked: checkpoint::snapshot_roots::<P>(wire, state@.components),
                log_root: checkpoint::logged(
                    header_root,
                    checkpoint::framed_snapshot(
                        runs.ecology@,
                        runs.experience@,
                        runs.knowledge@,
                        checkpoint::content(runs.policy),
                    ),
                ),
                records: 1,
            }),
            Err(error) => error is CorruptState && snapshot_components::<P>(
                wire,
                limits,
                runs.ecology@,
                runs.experience@,
                runs.knowledge@,
                checkpoint::content(runs.policy),
            ) is None,
        },
{
    let ecology = read_ecology(runs.ecology, limits)?;
    let experience = read_experience(runs.experience, wire, limits)?;
    let knowledge = read_knowledge(runs.knowledge, wire, limits, &experience)?;
    let policy = read_policy::<P>(runs.policy)?;
    let record = frame_snapshot(runs.ecology, runs.experience, runs.knowledge, runs.policy);
    let roots = component_roots(&ecology, &experience, &knowledge, &policy);
    let checked = format_component_roots::<P>(wire, &ecology, &experience, &knowledge, &policy);
    Ok(
        ReplayState {
            ecology,
            experience,
            knowledge,
            policy,
            roots,
            checked,
            log_root: checkpoint_log_root(header_root, record.as_slice()),
            records: 1,
        },
    )
}

// ---------------------------------------------------------------------------
// Replaying a step
// ---------------------------------------------------------------------------
/// The runs of a step as they were read.
struct StepRuns<'a> {
    ecology: Option<&'a [u8]>,
    experience: &'a [u8],
    knowledge: Option<&'a [u8]>,
    policy: Option<&'a [u8]>,
}

fn read_part<'a>(present: bool, input: &mut Decoder<'a>) -> (result: Result<
    Option<&'a [u8]>,
    IntelligenceError,
>)
    ensures
        match result {
            Ok(part) => parse_part(present, old(input)@) == Some(
                (checkpoint::content(part), final(input)@),
            ),
            Err(error) => parse_part(present, old(input)@) is None && error is CorruptState,
        },
{
    if !present {
        return Ok(None);
    }
    match read_record_bytes(input) {
        Ok(bytes) => Ok(Some(bytes)),
        Err(error) => Err(error),
    }
}

fn read_step_runs<'a>(wire: CheckpointWire, input: &mut Decoder<'a>) -> (result: Result<
    StepRuns<'a>,
    IntelligenceError,
>)
    ensures
        match result {
            Ok(runs) => parse_step_runs(wire, old(input)@) == Some(
                (
                    checkpoint::content(runs.ecology),
                    runs.experience@,
                    checkpoint::content(runs.knowledge),
                    checkpoint::content(runs.policy),
                    final(input)@,
                ),
            ),
            Err(error) => parse_step_runs(wire, old(input)@) is None && error is CorruptState,
        },
{
    let flags: u8 = match input.read_u8() {
        Ok(flags) => flags,
        Err(_) => return Err(IntelligenceError::CorruptState),
    };
    if flags > 7 || flags > 3 && !wire.includes_policy {
        return Err(IntelligenceError::CorruptState);
    }
    let ecology = read_part(flags % 2 == 1, input)?;
    let experience = read_record_bytes(input)?;
    let knowledge = read_part(flags / 2 % 2 == 1, input)?;
    let policy = read_part(flags / 4 % 2 == 1, input)?;
    Ok(StepRuns { ecology, experience, knowledge, policy })
}

fn replay_edits(limits: IntelligenceLimits, ecology: &ModelEcology, part: Option<&[u8]>) -> (result:
    Result<Option<ModelEcology>, IntelligenceError>)
    ensures
        match result {
            Ok(Some(next)) => ecology_after(limits, ecology@, checkpoint::content(part)) == Some(
                next@,
            ),
            Ok(None) => ecology_after(limits, ecology@, checkpoint::content(part)) == Some(
                ecology@,
            ),
            Err(error) => error is CorruptState && ecology_after(
                limits,
                ecology@,
                checkpoint::content(part),
            ) is None,
        },
{
    match part {
        None => Ok(None),
        Some(bytes) => {
            let mut input = Decoder::new(bytes);
            let edits = match ModelEcology::decode_edits(&mut input, limits) {
                Ok(edits) => edits,
                Err(_) => return Err(IntelligenceError::CorruptState),
            };
            if edits.len() == 0 || !input.is_finished() {
                return Err(IntelligenceError::CorruptState);
            }
            match ecology.with_edits(edits.as_slice(), limits) {
                Ok(next) => Ok(Some(next)),
                Err(_) => Err(IntelligenceError::CorruptState),
            }
        },
    }
}

fn read_delta(
    bytes: &[u8],
    wire: CheckpointWire,
    limits: IntelligenceLimits,
    experience: &CausalLedger,
) -> (result: Result<CausalDelta, IntelligenceError>)
    requires
        ledger::distinct_decisions(experience@.receipts),
    ensures
        completes(
            result,
            checkpoint::complete(
                ledger::parse_delta(wire.receipts(), experience@, limits, bytes@),
            ),
        ),
        result matches Ok(delta) ==> ledger::settled(delta@.receipts, delta@.settlements)
            && ledger::distinct_decisions(experience@.receipts + delta@.receipts),
{
    let mut input = Decoder::new(bytes);
    match CausalDelta::decode_with_fields(&mut input, experience, limits, wire.receipt_format()) {
        Ok(delta) => if input.is_finished() {
            Ok(delta)
        } else {
            Err(IntelligenceError::CorruptState)
        },
        Err(_) => Err(IntelligenceError::CorruptState),
    }
}

fn replay_updates(
    limits: IntelligenceLimits,
    knowledge: &mut KnowledgeCompiler,
    reconciled: bool,
    experience: &CausalLedger,
    part: Option<&[u8]>,
) -> (result: Result<(), IntelligenceError>)
    requires
        old(knowledge)@.well_formed(),
    ensures
        match result {
            Ok(_) => knowledge_after(
                limits,
                old(knowledge)@,
                reconciled,
                experience@,
                checkpoint::content(part),
            ) == Some(final(knowledge)@) && final(knowledge)@.well_formed(),
            Err(error) => error is CorruptState && knowledge_after(
                limits,
                old(knowledge)@,
                reconciled,
                experience@,
                checkpoint::content(part),
            ) is None,
        },
{
    match part {
        None => if reconciled {
            Err(IntelligenceError::CorruptState)
        } else {
            Ok(())
        },
        Some(bytes) => {
            let mut input = Decoder::new(bytes);
            let updates = match KnowledgeCompiler::decode_updates(&mut input, limits) {
                Ok(updates) => updates,
                Err(_) => return Err(IntelligenceError::CorruptState),
            };
            if !input.is_finished() {
                return Err(IntelligenceError::CorruptState);
            }
            match knowledge.apply(updates.as_slice(), experience, limits) {
                Ok(applied) => if reconciled || applied {
                    Ok(())
                } else {
                    Err(IntelligenceError::CorruptState)
                },
                Err(_) => Err(IntelligenceError::CorruptState),
            }
        },
    }
}

fn replay_comparison<P: PolicyEngine>(
    wire: CheckpointWire,
    policy: &RuntimePolicyState,
    experience: &CausalLedger,
    part: Option<&[u8]>,
) -> (result: Result<Option<RuntimePolicyState>, IntelligenceError>)
    ensures
        match result {
            Ok(Some(next)) => policy_after::<P>(
                wire,
                policy@,
                experience@,
                checkpoint::content(part),
            ) == Some(next@),
            Ok(None) => policy_after::<P>(wire, policy@, experience@, checkpoint::content(part))
                == Some(policy@),
            Err(error) => error is CorruptState && policy_after::<P>(
                wire,
                policy@,
                experience@,
                checkpoint::content(part),
            ) is None,
        },
{
    let bytes = match part {
        None => return Ok(None),
        Some(bytes) => bytes,
    };
    let comparison = if wire.includes_bound_policy_updates {
        let mut input = Decoder::new(bytes);
        let update = match PolicyUpdate::decode_canonical(&mut input) {
            Ok(update) => update,
            Err(_) => return Err(IntelligenceError::CorruptState),
        };
        if !input.is_finished() {
            return Err(IntelligenceError::CorruptState);
        }
        let challenger = SubjectId(update.challenger.0);
        match experience.runtime_policy_evidence(update.campaign, challenger) {
            Ok((incumbent_evidence, challenger_evidence)) => Some(
                (challenger, incumbent_evidence, challenger_evidence),
            ),
            Err(_) => None,
        }
    } else {
        P::decode_unbound(bytes)
    };
    match comparison {
        None => Err(IntelligenceError::CorruptState),
        Some((challenger, incumbent_evidence, challenger_evidence)) => match P::compare(
            policy.encode(),
            challenger,
            incumbent_evidence,
            challenger_evidence,
        ) {
            Some((next, _)) => Ok(Some(RuntimePolicyState { encoded: next })),
            None => Err(IntelligenceError::CorruptState),
        },
    }
}

fn root_step(label: &str, root: Digest, part: Option<&[u8]>) -> (next: Digest)
    ensures
        next == root_after(label, root, checkpoint::content(part)),
{
    match part {
        None => root,
        Some(bytes) => extend_component_root(label, root, bytes),
    }
}

fn roots_step(
    roots: ComponentRoots,
    experience: Digest,
    runs: &StepRuns<'_>,
) -> (next: ComponentRoots)
    ensures
        next == roots_after(
            roots,
            experience,
            checkpoint::content(runs.ecology),
            checkpoint::content(runs.knowledge),
            checkpoint::content(runs.policy),
        ),
{
    ComponentRoots {
        ecology: root_step("ecology", roots.ecology, runs.ecology),
        experience,
        knowledge: root_step("knowledge", roots.knowledge, runs.knowledge),
        policy: root_step("policy", roots.policy, runs.policy),
    }
}

pub proof fn lemma_commit_settled(base: LedgerView, delta: ledger::DeltaView)
    requires
        ledger::settled(base.receipts, base.settlements),
        ledger::settled(delta.receipts, delta.settlements),
        ledger::distinct_decisions(base.receipts + delta.receipts),
    ensures
        ledger::settled(base.committed(delta).receipts, base.committed(delta).settlements),
        ledger::distinct_decisions(base.committed(delta).receipts),
{
    let next = base.committed(delta);
    assert forall|i: int| 0 <= i < next.receipts.len() implies (
    #[trigger] next.receipts[i]).decision == next.settlements[i].decision
        && crate::causal::compatible(next.receipts[i].tag, next.settlements[i].outcome) by {
        if i < base.receipts.len() {
            assert(base.receipts[i].decision == base.settlements[i].decision);
        } else {
            let j = i - base.receipts.len();
            assert(delta.receipts[j].decision == delta.settlements[j].decision);
        }
    }
}

impl ReplayState {
    /// Replays the runs of a step on the components. After a refusal they are of
    /// no further use.
    fn replay_components<P: PolicyEngine>(
        &mut self,
        wire: CheckpointWire,
        limits: IntelligenceLimits,
        runs: &StepRuns<'_>,
    ) -> (result: Result<(), IntelligenceError>)
        requires
            sound(old(self)@.components),
        ensures
            match result {
                Ok(_) => components_after::<P>(
                    wire,
                    limits,
                    old(self)@.components,
                    checkpoint::content(runs.ecology),
                    runs.experience@,
                    checkpoint::content(runs.knowledge),
                    checkpoint::content(runs.policy),
                ) == Some(final(self)@.components) && sound(final(self)@.components),
                Err(error) => error is CorruptState && components_after::<P>(
                    wire,
                    limits,
                    old(self)@.components,
                    checkpoint::content(runs.ecology),
                    runs.experience@,
                    checkpoint::content(runs.knowledge),
                    checkpoint::content(runs.policy),
                ) is None,
            },
            final(self).roots == old(self).roots,
            final(self).checked == old(self).checked,
            final(self).log_root == old(self).log_root,
            final(self).records == old(self).records,
    {
        match replay_edits(limits, &self.ecology, runs.ecology)? {
            Some(next) => {
                self.ecology = next;
            },
            None => {},
        }
        let delta = read_delta(runs.experience, wire, limits, &self.experience)?;
        let moved = delta.has_shadow_updates();
        proof {
            lemma_commit_settled(self.experience@, delta@);
        }
        self.experience.commit_reserved_delta(delta);
        let reconciled = if moved {
            match self.knowledge.reconcile_promotions(&self.experience) {
                Ok(reconciled) => reconciled,
                Err(_) => return Err(IntelligenceError::CorruptState),
            }
        } else {
            false
        };
        replay_updates(
            limits,
            &mut self.knowledge,
            reconciled,
            &self.experience,
            runs.knowledge,
        )?;
        match replay_comparison::<P>(wire, &self.policy, &self.experience, runs.policy)? {
            Some(next) => {
                self.policy = next;
            },
            None => {},
        }
        Ok(())
    }

    /// Replays one step. After a refusal the state is of no further use.
    fn replay_step<P: PolicyEngine>(
        &mut self,
        wire: CheckpointWire,
        limits: IntelligenceLimits,
        input: &mut Decoder<'_>,
    ) -> (result: Result<(), IntelligenceError>)
        requires
            sound(old(self)@.components),
        ensures
            match result {
                Ok(_) => stepped::<P>(wire, limits, old(self)@, old(input)@) == Some(
                    (final(self)@, final(input)@),
                ) && sound(final(self)@.components) && final(input)@.len() < old(input)@.len(),
                Err(error) => error is CorruptState && stepped::<P>(
                    wire,
                    limits,
                    old(self)@,
                    old(input)@,
                ) is None,
            },
    {
        proof {
            reveal(stepped);
            lemma_step_shrinks(wire, input@);
        }
        let runs = read_step_runs(wire, input)?;
        self.replay_components::<P>(wire, limits, &runs)?;
        if self.records == u64::MAX {
            return Err(IntelligenceError::CorruptState);
        }
        let root: Digest = self.experience.canonical_root();
        let checked_root: Digest = if wire.includes_corpus_key {
            root
        } else {
            self.experience.legacy_canonical_root(wire.receipt_format())
        };
        let roots = roots_step(self.roots, root, &runs);
        let checked = roots_step(self.checked, checked_root, &runs);
        let record = frame_record(runs.ecology, runs.experience, runs.knowledge, runs.policy);
        self.log_root = checkpoint_log_root(self.log_root, record.as_slice());
        self.roots = roots;
        self.checked =
        if runs.policy.is_some() {
            ComponentRoots { policy: roots.policy, ..checked }
        } else {
            checked
        };
        self.records = self.records + 1;
        Ok(())
    }

    /// Replays every step up to the footer.
    fn replay<P: PolicyEngine>(
        &mut self,
        wire: CheckpointWire,
        limits: IntelligenceLimits,
        input: &mut Decoder<'_>,
    ) -> (result: Result<(), IntelligenceError>)
        requires
            sound(old(self)@.components),
        ensures
            match result {
                Ok(_) => replayed::<P>(wire, limits, old(self)@, old(input)@) == Some(
                    (final(self)@, final(input)@),
                ) && sound(final(self)@.components),
                Err(error) => error is CorruptState && replayed::<P>(
                    wire,
                    limits,
                    old(self)@,
                    old(input)@,
                ) is None,
            },
    {
        let ghost expected = replayed::<P>(wire, limits, self@, input@);
        loop
            invariant
                sound(self@.components),
                expected == replayed::<P>(wire, limits, old(self)@, old(input)@),
                expected == replayed::<P>(wire, limits, self@, input@),
            decreases input@.len(),
        {
            let ghost before = input@;
            proof {
                lemma_parse_u8_len(before);
            }
            let tag: u8 = match input.read_u8() {
                Ok(tag) => tag,
                Err(_) => return Err(IntelligenceError::CorruptState),
            };
            if tag == 0 {
                return Ok(());
            }
            if tag != 2 {
                return Err(IntelligenceError::CorruptState);
            }
            match self.replay_step::<P>(wire, limits, input) {
                Ok(_) => {},
                Err(error) => return Err(error),
            }
        }
    }
}

/// A checkpoint as it was read.
pub struct ReadCheckpoint {
    pub limits: IntelligenceLimits,
    pub state: ReplayState,
}

/// Reads the header and the snapshot of a checkpoint, and what is left behind them.
fn read_opening<'a, P: PolicyEngine>(wire: CheckpointWire, bytes: &'a [u8]) -> (result: Result<
    (ReadCheckpoint, Decoder<'a>),
    IntelligenceError,
>)
    requires
        bytes@.len() >= 5,
    ensures
        match result {
            Ok((read, input)) => opened::<P>(wire, bytes@) == Some(
                (read.limits, read.state@, input@),
            ) && sound(read.state@.components) && read.limits.valid(),
            Err(error) => opened::<P>(wire, bytes@) is None && error is CorruptState,
        },
{
    proof {
        reveal(opened);
    }
    let mut input = Decoder::new(vstd::slice::slice_subrange(bytes, 5, bytes.len()));
    assert(input@ =~= bytes@.skip(5));
    proof {
        checkpoint::lemma_parse_sizes_len(input@, 7);
    }
    let limits = read_limits(&mut input)?;
    let header_root: Digest = checkpoint_header_root(
        vstd::slice::slice_subrange(bytes, 0, CHECKPOINT_HEADER_BYTES),
    );
    assert(bytes@.subrange(0, CHECKPOINT_HEADER_BYTES as int) =~= bytes@.take(
        CHECKPOINT_HEADER_BYTES as int,
    ));
    let tag: u8 = match input.read_u8() {
        Ok(tag) => tag,
        Err(_) => return Err(IntelligenceError::CorruptState),
    };
    if tag != 1 {
        return Err(IntelligenceError::CorruptState);
    }
    let runs = read_snapshot_runs(wire, &mut input)?;
    let state = open_snapshot::<P>(wire, limits, header_root, &runs)?;
    Ok((ReadCheckpoint { limits, state }, input))
}

/// What a state has to be sealed with.
fn expected_seal(wire: CheckpointWire, limits: IntelligenceLimits, state: &ReplayState) -> (expected:
    Vec<u8>)
    ensures
        expected@ == codec::put_u8(0) + seal(wire, limits, state@),
{
    let mut expected: Vec<u8> = Vec::new();
    if wire.includes_policy {
        let revision: Digest = revision_digest(limits, state.checked);
        append_checkpoint_footer(
            &mut expected,
            state.records,
            state.checked,
            revision,
            state.log_root,
        );
    } else {
        let revision: Digest = legacy_v12_revision_digest(limits, state.checked);
        append_legacy_segmented_checkpoint_footer(
            &mut expected,
            state.records,
            state.checked,
            revision,
            state.log_root,
        );
    }
    assert(expected@ =~= codec::put_u8(0) + seal(wire, limits, state@));
    expected
}

/// Reads a whole checkpoint in a format.
pub fn read_checkpoint<P: PolicyEngine>(wire: CheckpointWire, bytes: &[u8]) -> (result: Result<
    ReadCheckpoint,
    IntelligenceError,
>)
    ensures
        match result {
            Ok(read) => bytes@.len() >= 5 && whole::<P>(wire, bytes@) == Some(
                (read.limits, read.state@),
            ) && sound(read.state@.components) && read.limits.valid(),
            Err(error) => (bytes@.len() < 5 || whole::<P>(wire, bytes@) is None)
                && error is CorruptState,
        },
{
    if bytes.len() < 5 {
        return Err(IntelligenceError::CorruptState);
    }
    let (mut read, mut input) = match read_opening::<P>(wire, bytes) {
        Ok(opening) => opening,
        Err(error) => return Err(error),
    };
    match read.state.replay::<P>(wire, read.limits, &mut input) {
        Ok(_) => {},
        Err(error) => return Err(error),
    }
    let expected = expected_seal(wire, read.limits, &read.state);
    let tail = vstd::slice::slice_subrange(expected.as_slice(), 1, expected.len());
    assert(tail@ =~= seal(wire, read.limits, read.state@));
    if !same_bytes(input.rest(), tail) {
        return Err(IntelligenceError::CorruptState);
    }
    Ok(read)
}

} // verus!
