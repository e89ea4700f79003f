//! What a checkpoint is for: a core that is restored from its checkpoint is the core
//! that wrote it, however many steps it has taken.
use vstd::prelude::*;

use crate::causal;
use crate::checkpoint;
use crate::checkpoint::{CheckpointWire, ComponentsView, CHECKPOINT_FOOTER_BYTES};
use crate::codec;
use crate::compiler::CompilerView;
use crate::compiler_steps;
use crate::compiler_wire;
use crate::consolidation::StateView;
use crate::digest;
use crate::ecology;
use crate::ecology::{EcologyEdit, EcologyView, EditView};
use crate::intelligence;
use crate::intelligence::CoreView;
use crate::ledger;
use crate::ledger::{DeltaView, LedgerView};
use crate::policy;
use crate::policy::{PolicyEngine, RuntimePolicyDecision};
use crate::receipt::ReceiptFormat;
use crate::replay;
use crate::replay::ReplayView;
use crate::restore;
use crate::transition::{CausalStep, FrameView, TransitionView};
use crate::types::{IntelligenceError, IntelligenceLimits};

verus! {

/// Whatever stands behind some bytes of a checkpoint is read as if it stood behind
/// the given state.
#[verifier::opaque]
pub open spec fn leads_to<P: PolicyEngine>(
    body: Seq<u8>,
    limits: IntelligenceLimits,
    state: ReplayView,
) -> bool {
    let wire = CheckpointWire::current_spec();
    forall|rest: Seq<u8>| #[trigger]
        replay::whole::<P>(wire, body + rest) == replay::finished::<P>(wire, limits, state, rest)
}

/// A core whose checkpoint leads to it: whatever stands behind the records of the
/// checkpoint is read as if it stood behind the core itself.
pub open spec fn faithful<P: PolicyEngine>(core: CoreView) -> bool {
    let body = checkpoint::body(core.checkpoint);
    &&& core.limits.valid()
    &&& core.revision == checkpoint::revision_of(true, core.limits, core.roots)
    &&& core.roots.experience == core.components.ledger.root()
    &&& core.checkpoint.len() >= CHECKPOINT_FOOTER_BYTES
    &&& core.checkpoint == body + checkpoint::footer(
        true,
        core.records,
        core.roots,
        core.revision,
        core.log_root,
    )
    &&& restore::version_of(body) == Some(17u8)
    &&& leads_to::<P>(body, core.limits, core.replay())
}

/// No import is open on the core any more.
pub open spec fn settled(core: CoreView) -> bool {
    !core.policy_import_eligible && !core.legacy_ftrl_import_eligible
        && !core.legacy_knowledge_import_eligible
}

/// A core whose checkpoint leads to it is what its checkpoint restores to.
pub proof fn law_faithful_core_is_restored<P: PolicyEngine>(core: CoreView)
    requires
        faithful::<P>(core),
        settled(core),
    ensures
        restore::restored::<P>(core.checkpoint) == Ok::<CoreView, IntelligenceError>(core),
{
    let wire = CheckpointWire::current_spec();
    let body = checkpoint::body(core.checkpoint);
    let footer = checkpoint::footer(
        true,
        core.records,
        core.roots,
        core.revision,
        core.log_root,
    );
    let tail = replay::seal(wire, core.limits, core.replay());
    assert(footer == codec::put_u8(0) + tail);
    codec::lemma_parse_u8(0, tail);
    assert(replay::replayed::<P>(wire, core.limits, core.replay(), footer) == Some(
        (core.replay(), tail),
    ));
    assert(replay::whole::<P>(wire, body + footer) == replay::finished::<P>(
        wire,
        core.limits,
        core.replay(),
        footer,
    )) by {
        reveal(leads_to);
    }
    assert(restore::version_of(core.checkpoint) == Some(17u8)) by {
        assert(forall|i: int| 0 <= i < 5 ==> core.checkpoint[i] == body[i]);
    }
    assert(restore::restored::<P>(core.checkpoint)->Ok_0 =~= core);
}

// ---------------------------------------------------------------------------
// Snapshots
// ---------------------------------------------------------------------------
/// Components that read back, under some limits, as they were written.
pub open spec fn readable<P: PolicyEngine>(
    limits: IntelligenceLimits,
    components: ComponentsView,
) -> bool {
    &&& limits.valid()
    &&& components.ecology.valid()
    &&& components.ecology.fits(limits)
    &&& components.ledger.valid()
    &&& components.ledger.counted(limits)
    &&& components.ledger.contrasts == ledger::contrasts_in_order(components.ledger.shadows)
    &&& ledger::receipts_carried(ReceiptFormat::Current, components.ledger.receipts)
    &&& compiler_wire::compiler_writable(limits, components.ledger, components.knowledge)
    &&& P::is_state(components.policy)
    &&& ecology::put_ecology(components.ecology).len() <= usize::MAX
    &&& ledger::put_ledger(ReceiptFormat::Current, components.ledger).len() <= usize::MAX
    &&& compiler_wire::put_compiler(components.knowledge).len() <= usize::MAX
    &&& components.policy.len() <= usize::MAX
}

proof fn lemma_runs_read_back(
    ecology: Seq<u8>,
    experience: Seq<u8>,
    knowledge: Seq<u8>,
    policy: Seq<u8>,
    rest: Seq<u8>,
)
    requires
        ecology.len() <= usize::MAX,
        experience.len() <= usize::MAX,
        knowledge.len() <= usize::MAX,
        policy.len() <= usize::MAX,
    ensures
        ({
            let runs = codec::put_sized(ecology) + (codec::put_sized(experience) + (
            codec::put_sized(knowledge) + codec::put_sized(policy)));
            replay::parse_snapshot_runs(CheckpointWire::current_spec(), runs + rest) == Some(
                (ecology, experience, knowledge, Some(policy), rest),
            )
        }),
{
    let a = codec::put_sized(ecology);
    let b = codec::put_sized(experience);
    let c = codec::put_sized(knowledge);
    let d = codec::put_sized(policy);
    codec::lemma_four_parts(a, b, c, d, rest);
    checkpoint::lemma_sized_round_trip(ecology, b + (c + (d + rest)));
    checkpoint::lemma_sized_round_trip(experience, c + (d + rest));
    checkpoint::lemma_sized_round_trip(knowledge, d + rest);
    checkpoint::lemma_sized_round_trip(policy, rest);
}

pub proof fn lemma_ecology_read_back(limits: IntelligenceLimits, ecology: EcologyView)
    requires
        ecology.valid(),
        ecology.fits(limits),
    ensures
        checkpoint::complete(ecology::parse_ecology(limits, ecology::put_ecology(ecology))) == Some(
            ecology,
        ),
{
    ecology::law_ecology_reads_back(limits, ecology, Seq::empty());
    codec::lemma_concat_empty(ecology::put_ecology(ecology));
}

proof fn lemma_ledger_read_back(limits: IntelligenceLimits, ledger: LedgerView)
    requires
        ledger.valid(),
        ledger.counted(limits),
        ledger.contrasts == ledger::contrasts_in_order(ledger.shadows),
        ledger::receipts_carried(ReceiptFormat::Current, ledger.receipts),
    ensures
        checkpoint::complete(
            ledger::parse_ledger(
                ReceiptFormat::Current,
                limits,
                ledger::put_ledger(ReceiptFormat::Current, ledger),
            ),
        ) == Some(ledger),
{
    ledger::law_ledger_reads_back(ReceiptFormat::Current, limits, ledger, Seq::empty());
    codec::lemma_concat_empty(ledger::put_ledger(ReceiptFormat::Current, ledger));
}

proof fn lemma_compiler_read_back(
    limits: IntelligenceLimits,
    ledger: LedgerView,
    knowledge: CompilerView,
)
    requires
        compiler_wire::compiler_writable(limits, ledger, knowledge),
    ensures
        checkpoint::complete(
            compiler_wire::parse_compiler(limits, ledger, compiler_wire::put_compiler(knowledge)),
        ) == Some(knowledge),
{
    compiler_wire::law_compiler_reads_back(limits, ledger, knowledge, Seq::empty());
    codec::lemma_concat_empty(compiler_wire::put_compiler(knowledge));
}

proof fn lemma_runs_hold_components<P: PolicyEngine>(
    limits: IntelligenceLimits,
    components: ComponentsView,
    e: Seq<u8>,
    x: Seq<u8>,
    k: Seq<u8>,
)
    requires
        checkpoint::complete(ecology::parse_ecology(limits, e)) == Some(components.ecology),
        checkpoint::complete(ledger::parse_ledger(ReceiptFormat::Current, limits, x)) == Some(
            components.ledger,
        ),
        checkpoint::complete(compiler_wire::parse_compiler(limits, components.ledger, k)) == Some(
            components.knowledge,
        ),
        P::is_state(components.policy),
    ensures
        replay::snapshot_components::<P>(
            CheckpointWire::current_spec(),
            limits,
            e,
            x,
            k,
            Some(components.policy),
        ) == Some(components),
{
}

proof fn lemma_components_read_back<P: PolicyEngine>(
    limits: IntelligenceLimits,
    components: ComponentsView,
)
    requires
        readable::<P>(limits, components),
    ensures
        replay::snapshot_components::<P>(
            CheckpointWire::current_spec(),
            limits,
            ecology::put_ecology(components.ecology),
            ledger::put_ledger(ReceiptFormat::Current, components.ledger),
            compiler_wire::put_compiler(components.knowledge),
            Some(components.policy),
        ) == Some(components),
{
    lemma_ecology_read_back(limits, components.ecology);
    lemma_ledger_read_back(limits, components.ledger);
    lemma_compiler_read_back(limits, components.ledger, components.knowledge);
    lemma_runs_hold_components::<P>(
        limits,
        components,
        ecology::put_ecology(components.ecology),
        ledger::put_ledger(ReceiptFormat::Current, components.ledger),
        compiler_wire::put_compiler(components.knowledge),
    );
}

pub proof fn lemma_limits_read_back(limits: IntelligenceLimits, rest: Seq<u8>)
    requires
        limits.valid(),
    ensures
        replay::parse_limits(checkpoint::put_sizes(checkpoint::limit_list(limits)) + rest) == Some(
            (limits, rest),
        ),
{
    checkpoint::lemma_sizes_round_trip(checkpoint::limit_list(limits), rest);
    assert(checkpoint::limits_in(checkpoint::limit_list(limits)) == limits);
}

pub proof fn lemma_header_apart(magic: Seq<u8>, sizes: Seq<u8>, tag: Seq<u8>, runs: Seq<u8>, rest: Seq<u8>)
    requires
        magic.len() == 5,
        sizes.len() == 56,
    ensures
        (((magic + sizes) + (tag + runs)) + rest).take(61) == magic + sizes,
        (((magic + sizes) + (tag + runs)) + rest).skip(5) == sizes + (tag + (runs + rest)),
{
    assert((((magic + sizes) + (tag + runs)) + rest).take(61) =~= magic + sizes);
    assert((((magic + sizes) + (tag + runs)) + rest).skip(5) =~= sizes + (tag + (runs + rest)));
}

/// How far a snapshot leads whose runs hold the given components.
spec fn opening<P: PolicyEngine>(
    wire: CheckpointWire,
    header: Seq<u8>,
    components: ComponentsView,
    record: Seq<u8>,
) -> ReplayView {
    ReplayView {
        components,
        roots: checkpoint::roots_of(components),
        checked: checkpoint::snapshot_roots::<P>(wire, components),
        log_root: checkpoint::logged(checkpoint::header_root(header), record),
        records: 1,
    }
}

proof fn lemma_opens<P: PolicyEngine>(
    limits: IntelligenceLimits,
    components: ComponentsView,
    e: Seq<u8>,
    x: Seq<u8>,
    k: Seq<u8>,
    p: Seq<u8>,
    input: Seq<u8>,
    rest: Seq<u8>,
)
    requires
        limits.valid(),
        e.len() <= usize::MAX,
        x.len() <= usize::MAX,
        k.len() <= usize::MAX,
        p.len() <= usize::MAX,
        replay::snapshot_components::<P>(
            CheckpointWire::current_spec(),
            limits,
            e,
            x,
            k,
            Some(p),
        ) == Some(components),
        input.skip(5) == checkpoint::put_sizes(checkpoint::limit_list(limits)) + (codec::put_u8(1)
            + ((codec::put_sized(e) + (codec::put_sized(x) + (codec::put_sized(k)
            + codec::put_sized(p)))) + rest)),
    ensures
        replay::opened::<P>(CheckpointWire::current_spec(), input) == Some(
            (
                limits,
                opening::<P>(
                    CheckpointWire::current_spec(),
                    input.take(61),
                    components,
                    checkpoint::framed_snapshot(e, x, k, Some(p)),
                ),
                rest,
            ),
        ),
{
    let runs = codec::put_sized(e) + (codec::put_sized(x) + (codec::put_sized(k)
        + codec::put_sized(p)));
    reveal(replay::opened);
    lemma_limits_read_back(limits, codec::put_u8(1) + (runs + rest));
    codec::lemma_parse_u8(1, runs + rest);
    lemma_runs_read_back(e, x, k, p, rest);
}

proof fn lemma_snapshot_opens<P: PolicyEngine>(
    limits: IntelligenceLimits,
    components: ComponentsView,
    rest: Seq<u8>,
)
    requires
        readable::<P>(limits, components),
    ensures
        ({
            let wire = CheckpointWire::current_spec();
            let core = CoreView::assembled(limits, components, false, false, false);
            replay::opened::<P>(
                wire,
                checkpoint::snapshot_body(wire, limits, components) + rest,
            ) == Some((limits, core.replay(), rest))
        }),
{
    let wire = CheckpointWire::current_spec();
    let sizes = checkpoint::put_sizes(checkpoint::limit_list(limits));
    let e = ecology::put_ecology(components.ecology);
    let x = ledger::put_ledger(ReceiptFormat::Current, components.ledger);
    let k = compiler_wire::put_compiler(components.knowledge);
    let p = components.policy;
    let runs = codec::put_sized(e) + (codec::put_sized(x) + (codec::put_sized(k)
        + codec::put_sized(p)));
    let body = checkpoint::snapshot_body(wire, limits, components);
    assert(body == (checkpoint::magic(17) + sizes) + (codec::put_u8(1) + runs));
    checkpoint::lemma_sizes_round_trip(checkpoint::limit_list(limits), rest);
    lemma_header_apart(checkpoint::magic(17), sizes, codec::put_u8(1), runs, rest);
    lemma_components_read_back::<P>(limits, components);
    lemma_opens::<P>(limits, components, e, x, k, p, body + rest, rest);
}

/// A core that is assembled from components that read back leads to itself.
pub proof fn law_assembled_core_is_faithful<P: PolicyEngine>(
    limits: IntelligenceLimits,
    components: ComponentsView,
    policy_import: bool,
    ftrl_import: bool,
    knowledge_import: bool,
)
    requires
        readable::<P>(limits, components),
    ensures
        faithful::<P>(
            CoreView::assembled(limits, components, policy_import, ftrl_import, knowledge_import),
        ),
{
    let wire = CheckpointWire::current_spec();
    let core = CoreView::assembled(
        limits,
        components,
        policy_import,
        ftrl_import,
        knowledge_import,
    );
    let body = checkpoint::snapshot_body(wire, limits, components);
    let plain = CoreView::assembled(limits, components, false, false, false);
    checkpoint::lemma_footer_len(core.records, core.roots, core.revision, core.log_root);
    assert(checkpoint::body(core.checkpoint) =~= body);
    checkpoint::lemma_header_len(wire.version, limits);
    assert(restore::version_of(body) == Some(17u8));
    assert(core.replay() =~= plain.replay());
    reveal(leads_to);
    assert forall|rest: Seq<u8>| #[trigger]
        replay::whole::<P>(wire, body + rest) == replay::finished::<P>(
            wire,
            core.limits,
            core.replay(),
            rest,
        ) by {
        lemma_snapshot_opens::<P>(limits, components, rest);
    }
}

/// What a core is assembled from is what its checkpoint restores.
pub proof fn law_assembled_core_is_restored<P: PolicyEngine>(
    limits: IntelligenceLimits,
    components: ComponentsView,
)
    requires
        readable::<P>(limits, components),
    ensures
        ({
            let core = CoreView::assembled(limits, components, false, false, false);
            restore::restored::<P>(core.checkpoint) == Ok::<CoreView, IntelligenceError>(core)
        }),
{
    law_assembled_core_is_faithful::<P>(limits, components, false, false, false);
    law_faithful_core_is_restored::<P>(
        CoreView::assembled(limits, components, false, false, false),
    );
}

// ---------------------------------------------------------------------------
// Steps
// ---------------------------------------------------------------------------
proof fn lemma_applied_in_turn(
    ecology: EcologyView,
    first: Seq<EditView>,
    second: Seq<EditView>,
    limits: IntelligenceLimits,
)
    ensures
        ecology.applied_all(first + second, limits) == match ecology.applied_all(first, limits) {
            Ok(middle) => middle.applied_all(second, limits),
            Err(error) => Err(error),
        },
    decreases second.len(),
{
    if second.len() == 0 {
        assert(first + second =~= first);
    } else {
        lemma_applied_in_turn(ecology, first, second.drop_last(), limits);
        assert((first + second).drop_last() =~= first + second.drop_last());
        assert((first + second).last() == second.last());
    }
}

/// The edits of a step have a byte form that reads back.
pub open spec fn edits_replayable(limits: IntelligenceLimits, edits: Seq<EditView>) -> bool {
    &&& ecology::edits_valid(edits)
    &&& ecology::put_edits(limits, edits).len() <= usize::MAX
}

/// The observations of a step have a byte form that reads back.
pub open spec fn observations_replayable(
    limits: IntelligenceLimits,
    base: LedgerView,
    frame: FrameView,
    delta: DeltaView,
) -> bool {
    &&& ledger::receipts_carried(ReceiptFormat::Current, frame.receipts)
    &&& ledger::all_well_formed(frame.shadows)
    &&& frame.receipts.len() <= usize::MAX
    &&& base.consequences.len() + delta.consequences.len() <= usize::MAX
    &&& frame.shadows.len() <= codec::saturating_product(limits.shadow_limit(), 4)
    &&& ledger::put_delta(delta).len() <= usize::MAX
}

/// The knowledge updates of a step have a byte form that reads back.
pub open spec fn updates_replayable(limits: IntelligenceLimits, frame: FrameView) -> bool {
    &&& compiler_steps::all_writable(limits, frame.knowledge)
    &&& compiler_steps::put_updates(frame.knowledge).len() <= usize::MAX
}

/// A step that updates knowledge while campaigns stand still meets no promotion that
/// is no longer earned. Nothing in its record would say that one is withdrawn.
pub open spec fn withdraws_openly(
    knowledge: CompilerView,
    ledger: LedgerView,
    frame: FrameView,
) -> bool {
    frame.shadows.len() > 0 || frame.knowledge.len() == 0 || crate::compiler::withdrawals(
        knowledge.records,
        knowledge.active_promotions(),
        ledger,
    ) == 0
}

/// A step all of whose parts have a byte form that reads back.
pub open spec fn writable(core: CoreView, frame: FrameView) -> bool {
    match core.causal_step(frame) {
        Err(_) => false,
        Ok(step) => {
            &&& edits_replayable(core.limits, step.edits)
            &&& observations_replayable(core.limits, core.components.ledger, frame, step.delta)
            &&& updates_replayable(core.limits, frame)
        },
    }
}

/// A step whose record says all that it does.
pub open spec fn replayable(core: CoreView, frame: FrameView) -> bool {
    &&& writable(core, frame)
    &&& withdraws_openly(
        core.components.knowledge,
        core.components.ledger.committed(core.causal_step(frame)->Ok_0.delta),
        frame,
    )
}

/// A core whose ecology and ledger keep what they promise.
pub open spec fn orderly(core: CoreView) -> bool {
    &&& core.components.ecology.valid()
    &&& core.components.ecology.fits(core.limits)
    &&& core.components.ledger.valid()
}

/// A step's ecology is what all of its edits lead to, and its records are prepared
/// with the uses of its plan among the consequences.
pub proof fn lemma_causal_step(core: CoreView, frame: FrameView)
    requires
        core.causal_step(frame) is Ok,
        core.components.ledger.valid(),
        core.components.ledger.consequences.len() + frame.consequences.len() <= usize::MAX,
    ensures
        ({
            let step = core.causal_step(frame)->Ok_0;
            &&& core.components.ecology.applied_all(step.edits, core.limits) == Ok::<
                EcologyView,
                IntelligenceError,
            >(step.ecology)
            &&& core.components.ledger.prepared(
                frame.receipts,
                frame.settlements,
                step.delta.consequences,
                frame.shadows,
                core.limits,
            ) == Ok::<DeltaView, IntelligenceError>(step.delta)
            &&& step.delta.updates == frame.shadows
        }),
{
    reveal(CoreView::causal_step);
    let base = core.components.ledger;
    match core.plan_for(frame) {
        Ok(Some(plan)) => {
            match core.components.ecology.applied_all(frame.edits, core.limits) {
                Ok(_) => {
                    lemma_applied_in_turn(
                        core.components.ecology,
                        frame.edits,
                        plan.edits,
                        core.limits,
                    );
                },
                Err(_) => {},
            }
            ledger::law_uses_are_prepared(
                base,
                frame.receipts,
                frame.settlements,
                frame.consequences,
                frame.shadows,
                core.limits,
                plan.selection_cases,
            );
        },
        _ => {},
    }
}

proof fn lemma_edits_replayed(
    limits: IntelligenceLimits,
    ecology: EcologyView,
    edits: Seq<EditView>,
    next: EcologyView,
)
    requires
        ecology.valid(),
        ecology.fits(limits),
        edits_replayable(limits, edits),
        edits.len() > 0,
        ecology.applied_all(edits, limits) == Ok::<EcologyView, IntelligenceError>(next),
    ensures
        replay::ecology_after(limits, ecology, Some(ecology::put_edits(limits, edits))) == Some(
            next,
        ),
{
    ecology::law_edits_keep_ecology_valid(ecology, edits, limits);
    ecology::lemma_edits_counted(limits, ecology, edits);
    let none = Seq::<u8>::empty();
    codec::lemma_list_round_trip::<usize, EcologyEdit>(
        limits.maximum_specialists,
        edits,
        codec::saturating_product(limits.maximum_specialists as nat, 4),
        1,
        none,
    );
    codec::lemma_concat_empty(ecology::put_edits(limits, edits));
}

proof fn lemma_delta_replayed(core: CoreView, frame: FrameView, delta: DeltaView)
    requires
        core.components.ledger.prepared(
            frame.receipts,
            frame.settlements,
            delta.consequences,
            frame.shadows,
            core.limits,
        ) == Ok::<DeltaView, IntelligenceError>(delta),
        observations_replayable(core.limits, core.components.ledger, frame, delta),
    ensures
        checkpoint::complete(
            ledger::parse_delta(
                ReceiptFormat::Current,
                core.components.ledger,
                core.limits,
                ledger::put_delta(delta),
            ),
        ) == Some(delta),
{
    let none = Seq::<u8>::empty();
    ledger::law_delta_reads_back(
        core.components.ledger,
        frame.receipts,
        frame.settlements,
        delta.consequences,
        frame.shadows,
        core.limits,
        none,
    );
    codec::lemma_concat_empty(ledger::put_delta(delta));
}

proof fn lemma_nothing_withdrawn(knowledge: CompilerView, ledger: LedgerView)
    requires
        crate::compiler::withdrawals(
            knowledge.records,
            knowledge.active_promotions(),
            ledger,
        ) == 0,
    ensures
        knowledge.reconciled(ledger) == (knowledge, Ok::<bool, IntelligenceError>(false)),
{
    assert(knowledge.active_promotions().take(0) =~= Seq::empty());
}

proof fn lemma_updates_replayed(
    core: CoreView,
    frame: FrameView,
    ledger: LedgerView,
    next: Option<CompilerView>,
)
    requires
        core.knowledge_step(frame, ledger) == Ok::<Option<CompilerView>, IntelligenceError>(next),
        updates_replayable(core.limits, frame),
        withdraws_openly(core.components.knowledge, ledger, frame),
    ensures
        ({
            let before = core.components.knowledge;
            let part = match next {
                None => None::<Seq<u8>>,
                Some(_) => Some(compiler_steps::put_updates(frame.knowledge)),
            };
            match replay::knowledge_reconciled(before, frame.shadows.len() > 0, ledger) {
                None => false,
                Some((middle, reconciled)) => replay::knowledge_after(
                    core.limits,
                    middle,
                    reconciled,
                    ledger,
                    part,
                ) == Some(
                    match next {
                        None => before,
                        Some(next) => next,
                    },
                ),
            }
        }),
{
    reveal(CoreView::knowledge_step);
    let before = core.components.knowledge;
    let none = Seq::<u8>::empty();
    compiler_steps::law_updates_read_back(core.limits, frame.knowledge, none);
    codec::lemma_concat_empty(compiler_steps::put_updates(frame.knowledge));
    if crate::compiler::withdrawals(before.records, before.active_promotions(), ledger) == 0 {
        lemma_nothing_withdrawn(before, ledger);
    }
}

proof fn lemma_comparison_replayed<P: PolicyEngine>(
    core: CoreView,
    frame: FrameView,
    ledger: LedgerView,
    next: Option<(Seq<u8>, RuntimePolicyDecision)>,
)
    requires
        core.policy_step::<P>(frame, ledger) == Ok::<
            Option<(Seq<u8>, RuntimePolicyDecision)>,
            IntelligenceError,
        >(next),
    ensures
        next is Some <==> frame.policy is Some,
        ({
            let part = match frame.policy {
                None => None::<Seq<u8>>,
                Some(update) => Some(policy::put_update(update)),
            };
            replay::policy_after::<P>(
                CheckpointWire::current_spec(),
                core.components.policy,
                ledger,
                part,
            ) == Some(
                match next {
                    None => core.components.policy,
                    Some((state, _)) => state,
                },
            )
        }),
{
    reveal(CoreView::policy_step);
    match frame.policy {
        None => {},
        Some(update) => {
            policy::law_update_reads_back(update, Seq::empty());
            codec::lemma_concat_empty(policy::put_update(update));
        },
    }
}

proof fn lemma_part_read_back(part: Option<Seq<u8>>, rest: Seq<u8>)
    requires
        part matches Some(bytes) ==> bytes.len() <= usize::MAX,
    ensures
        replay::parse_part(part is Some, checkpoint::put_part(part) + rest) == Some((part, rest)),
{
    match part {
        None => {
            assert(checkpoint::put_part(part) + rest =~= rest);
        },
        Some(bytes) => checkpoint::lemma_sized_round_trip(bytes, rest),
    }
}

proof fn lemma_record_apart(
    tag: Seq<u8>,
    flags: Seq<u8>,
    a: Seq<u8>,
    b: Seq<u8>,
    c: Seq<u8>,
    d: Seq<u8>,
    rest: Seq<u8>,
)
    ensures
        (tag + (flags + (a + (b + (c + d))))) + rest == tag + (flags + (a + (b + (c + (d
            + rest))))),
{
    assert((tag + (flags + (a + (b + (c + d))))) + rest =~= tag + (flags + (a + (b + (c + (d
        + rest))))));
}

/// The runs of a record read back as they were written.
proof fn lemma_step_runs_read_back(
    ecology: Option<Seq<u8>>,
    experience: Seq<u8>,
    knowledge: Option<Seq<u8>>,
    policy: Option<Seq<u8>>,
    rest: Seq<u8>,
)
    requires
        ecology matches Some(bytes) ==> bytes.len() <= usize::MAX,
        experience.len() <= usize::MAX,
        knowledge matches Some(bytes) ==> bytes.len() <= usize::MAX,
        policy matches Some(bytes) ==> bytes.len() <= usize::MAX,
    ensures
        ({
            let record = checkpoint::step_record(ecology, experience, knowledge, policy);
            match codec::parse_u8(record + rest) {
                Some((2, behind)) => replay::parse_step_runs(
                    CheckpointWire::current_spec(),
                    behind,
                ) == Some((ecology, experience, knowledge, policy, rest)),
                _ => false,
            }
        }),
        checkpoint::step_record(ecology, experience, knowledge, policy).len() > 0,
{
    let flags = checkpoint::part_flags(ecology is Some, knowledge is Some, policy is Some);
    let a = checkpoint::put_part(ecology);
    let b = codec::put_sized(experience);
    let c = checkpoint::put_part(knowledge);
    let d = checkpoint::put_part(policy);
    lemma_record_apart(codec::put_u8(2), codec::put_u8(flags), a, b, c, d, rest);
    let behind = codec::put_u8(flags) + (a + (b + (c + (d + rest))));
    codec::lemma_parse_u8(2, behind);
    codec::lemma_parse_u8(flags, a + (b + (c + (d + rest))));
    lemma_part_read_back(ecology, b + (c + (d + rest)));
    checkpoint::lemma_sized_round_trip(experience, c + (d + rest));
    lemma_part_read_back(knowledge, d + rest);
    lemma_part_read_back(policy, rest);
}

/// The runs of a staged step.
spec fn edit_run(core: CoreView, step: CausalStep) -> Option<Seq<u8>> {
    if step.edits.len() == 0 {
        None
    } else {
        Some(ecology::put_edits(core.limits, step.edits))
    }
}

spec fn update_run(frame: FrameView, knowledge: Option<CompilerView>) -> Option<Seq<u8>> {
    match knowledge {
        None => None,
        Some(_) => Some(compiler_steps::put_updates(frame.knowledge)),
    }
}

spec fn policy_run(frame: FrameView) -> Option<Seq<u8>> {
    match frame.policy {
        None => None,
        Some(update) => Some(policy::put_update(update)),
    }
}

/// The runs of a staged step lead to the components that the step leads to.
#[verifier::rlimit(40)]
proof fn lemma_components_replayed<P: PolicyEngine>(
    core: CoreView,
    frame: FrameView,
    step: CausalStep,
    knowledge: Option<CompilerView>,
    policy: Option<(Seq<u8>, RuntimePolicyDecision)>,
)
    requires
        orderly(core),
        replayable(core, frame),
        core.causal_step(frame) == Ok::<CausalStep, IntelligenceError>(step),
        core.components.ledger.consequences.len() + frame.consequences.len() <= usize::MAX,
        core.knowledge_step(frame, core.components.ledger.committed(step.delta)) == Ok::<
            Option<CompilerView>,
            IntelligenceError,
        >(knowledge),
        core.policy_step::<P>(frame, core.components.ledger.committed(step.delta)) == Ok::<
            Option<(Seq<u8>, RuntimePolicyDecision)>,
            IntelligenceError,
        >(policy),
    ensures
        replay::components_after::<P>(
            CheckpointWire::current_spec(),
            core.limits,
            core.components,
            edit_run(core, step),
            ledger::put_delta(step.delta),
            update_run(frame, knowledge),
            policy_run(frame),
        ) == Some(
            (ComponentsView {
                ecology: step.ecology,
                ledger: core.components.ledger.committed(step.delta),
                knowledge: match knowledge {
                    Some(knowledge) => knowledge,
                    None => core.components.knowledge,
                },
                policy: match policy {
                    Some((state, _)) => state,
                    None => core.components.policy,
                },
            }),
        ),
        policy is Some <==> frame.policy is Some,
{
    let ledger = core.components.ledger.committed(step.delta);
    lemma_causal_step(core, frame);
    if step.edits.len() > 0 {
        lemma_edits_replayed(core.limits, core.components.ecology, step.edits, step.ecology);
    }
    lemma_delta_replayed(core, frame, step.delta);
    lemma_updates_replayed(core, frame, ledger, knowledge);
    lemma_comparison_replayed::<P>(core, frame, ledger, policy);
}

/// A staged step, taken apart.
proof fn lemma_staged_apart<P: PolicyEngine>(core: CoreView, frame: FrameView) -> (parts: (
    CausalStep,
    Option<CompilerView>,
    Option<(Seq<u8>, RuntimePolicyDecision)>,
))
    requires
        core.staged::<P>(frame) is Ok,
    ensures
        core.causal_step(frame) == Ok::<CausalStep, IntelligenceError>(parts.0),
        core.knowledge_step(frame, core.components.ledger.committed(parts.0.delta)) == Ok::<
            Option<CompilerView>,
            IntelligenceError,
        >(parts.1),
        core.policy_step::<P>(frame, core.components.ledger.committed(parts.0.delta)) == Ok::<
            Option<(Seq<u8>, RuntimePolicyDecision)>,
            IntelligenceError,
        >(parts.2),
        core.staged::<P>(frame) == core.sealed(frame, parts.0, parts.1, parts.2),
{
    let step = core.causal_step(frame)->Ok_0;
    let ledger = core.components.ledger.committed(step.delta);
    (
        step,
        core.knowledge_step(frame, ledger)->Ok_0,
        core.policy_step::<P>(frame, ledger)->Ok_0,
    )
}

/// What a step brings of records and knowledge is what its parts lead to.
pub proof fn lemma_step_parts<P: PolicyEngine>(core: CoreView, frame: FrameView, step: TransitionView)
    requires
        core.staged::<P>(frame) == Ok::<TransitionView, IntelligenceError>(step),
    ensures
        core.causal_step(frame) is Ok,
        step.delta == core.causal_step(frame)->Ok_0.delta,
        core.knowledge_step(frame, core.components.ledger.committed(step.delta)) == Ok::<
            Option<CompilerView>,
            IntelligenceError,
        >(step.knowledge),
{
    let _ = lemma_staged_apart::<P>(core, frame);
    reveal(CoreView::sealed);
}

/// What is written of a step, once it changes anything.
proof fn lemma_sealed(
    core: CoreView,
    frame: FrameView,
    step: CausalStep,
    knowledge: Option<CompilerView>,
    policy: Option<(Seq<u8>, RuntimePolicyDecision)>,
)
    requires
        core.sealed(frame, step, knowledge, policy) is Ok,
        policy is Some <==> frame.policy is Some,
    ensures
        ({
            let sealed = core.sealed(frame, step, knowledge, policy)->Ok_0;
            let record = checkpoint::step_record(
                edit_run(core, step),
                ledger::put_delta(step.delta),
                update_run(frame, knowledge),
                policy_run(frame),
            );
            let unchanged = step.delta.is_empty_spec() && step.edits.len() == 0 && knowledge is None
                && policy is None;
            &&& sealed.delta == step.delta
            &&& sealed.ecology == (if step.edits.len() == 0 {
                None
            } else {
                Some(step.ecology)
            })
            &&& sealed.knowledge == knowledge
            &&& sealed.policy == match policy {
                Some((state, _)) => Some(state),
                None => None,
            }
            &&& sealed.base_checkpoint == core.checkpoint
            &&& sealed.roots == replay::roots_after(
                core.roots,
                causal::combined_root(step.delta.roots),
                edit_run(core, step),
                update_run(frame, knowledge),
                policy_run(frame),
            )
            &&& sealed.revision == checkpoint::revision_of(true, core.limits, sealed.roots)
            &&& unchanged ==> sealed.record.len() == 0 && sealed.log_root == core.log_root
                && sealed.records == core.records
            &&& !unchanged ==> sealed.record == record && sealed.log_root == checkpoint::logged(
                core.log_root,
                record,
            ) && core.records < u64::MAX && sealed.records == core.records + 1
        }),
{
    reveal(CoreView::sealed);
}

/// Replaying the record of a step leads from the core to the core that has taken
/// the step.
#[verifier::spinoff_prover]
#[verifier::rlimit(40)]
proof fn lemma_step_replayed<P: PolicyEngine>(
    core: CoreView,
    frame: FrameView,
    step: TransitionView,
    rest: Seq<u8>,
)
    requires
        orderly(core),
        replayable(core, frame),
        core.components.ledger.consequences.len() + frame.consequences.len() <= usize::MAX,
        core.staged::<P>(frame) == Ok::<TransitionView, IntelligenceError>(step),
        step.record.len() > 0,
    ensures
        match codec::parse_u8(step.record + rest) {
            Some((2, behind)) => replay::stepped::<P>(
                CheckpointWire::current_spec(),
                core.limits,
                core.replay(),
                behind,
            ) == Some((core.committed(step).replay(), rest)),
            _ => false,
        },
{
    let (causal, knowledge, policy) = lemma_staged_apart::<P>(core, frame);
    lemma_components_replayed::<P>(core, frame, causal, knowledge, policy);
    lemma_sealed(core, frame, causal, knowledge, policy);
    let edits = edit_run(core, causal);
    let updates = update_run(frame, knowledge);
    let comparison = policy_run(frame);
    assert(comparison matches Some(bytes) ==> bytes.len() <= usize::MAX) by {
        match frame.policy {
            Some(update) => {
                digest::lemma_digest_len(update.campaign.0);
                digest::lemma_digest_len(update.challenger.0);
            },
            None => {},
        }
    }
    lemma_step_runs_read_back(edits, ledger::put_delta(causal.delta), updates, comparison, rest);
    reveal(replay::stepped);
    assert(causal.edits.len() == 0 ==> causal.ecology == core.components.ecology) by {
        lemma_causal_step(core, frame);
    }
}

/// Recording nothing leaves the roots of a ledger as they are.
proof fn lemma_nothing_recorded(core: CoreView, frame: FrameView, step: CausalStep)
    requires
        core.causal_step(frame) == Ok::<CausalStep, IntelligenceError>(step),
        core.components.ledger.valid(),
        core.components.ledger.consequences.len() + frame.consequences.len() <= usize::MAX,
        step.delta.is_empty_spec(),
    ensures
        core.components.ledger.committed(step.delta) == core.components.ledger,
{
    lemma_causal_step(core, frame);
    let base = core.components.ledger;
    assert(step.delta.receipts.len() == 0 && step.delta.settlements.len() == 0
        && step.delta.consequences.len() == 0 && step.delta.updates.len() == 0);
    assert(step.delta.receipts == frame.receipts && step.delta.settlements == frame.settlements);
    assert(step.delta.proposed is None);
    assert(step.delta.roots =~= base.roots);
    assert(base.committed(step.delta) =~= base);
}

/// The policy that a step leads to is what its comparison comes to.
pub proof fn lemma_step_policy<P: PolicyEngine>(
    core: CoreView,
    frame: FrameView,
    step: TransitionView,
)
    requires
        core.staged::<P>(frame) == Ok::<TransitionView, IntelligenceError>(step),
    ensures
        match core.policy_step::<P>(frame, core.components.ledger.committed(step.delta)) {
            Ok(Some((state, decision))) => step.policy == Some(state) && step.decision == Some(
                decision,
            ),
            Ok(None) => step.policy is None && step.decision is None,
            Err(_) => false,
        },
{
    let (causal, knowledge, policy) = lemma_staged_apart::<P>(core, frame);
    reveal(CoreView::sealed);
}

/// What a step does to the records of a core: it appends its own, or changes nothing
/// of what the footer says.
pub proof fn lemma_step_recorded<P: PolicyEngine>(
    core: CoreView,
    frame: FrameView,
    step: TransitionView,
)
    requires
        core.roots.experience == core.components.ledger.root(),
        core.revision == checkpoint::revision_of(true, core.limits, core.roots),
        core.staged::<P>(frame) == Ok::<TransitionView, IntelligenceError>(step),
    ensures
        step.base_checkpoint == core.checkpoint,
        step.revision == checkpoint::revision_of(true, core.limits, step.roots),
        step.roots.experience == causal::combined_root(step.delta.roots),
        step.record.len() > 0 ==> step.log_root == checkpoint::logged(core.log_root, step.record)
            && step.records == core.records + 1,
        step.record.len() == 0 ==> step.roots == core.roots && step.revision == core.revision
            && step.log_root == core.log_root && step.records == core.records
            && !step.delta.needs_room(),
{
    let (causal, knowledge, policy) = lemma_staged_apart::<P>(core, frame);
    assert(policy is Some <==> frame.policy is Some) by {
        reveal(CoreView::policy_step);
    }
    lemma_sealed(core, frame, causal, knowledge, policy);
    assert(causal.delta.is_empty_spec() ==> causal.delta.roots == core.components.ledger.roots) by {
        reveal(CoreView::causal_step);
        if causal.delta.is_empty_spec() {
            assert(causal.delta.roots =~= core.components.ledger.roots);
        }
    }
    if step.record.len() == 0 {
        assert(step.roots =~= core.roots);
    }
}

/// A step that changes nothing leaves the core as it is, its checkpoint with it, and
/// needs no room, so that its commit is not refused.
pub proof fn law_step_without_change<P: PolicyEngine>(
    core: CoreView,
    frame: FrameView,
    step: TransitionView,
)
    requires
        core.components.ledger.valid(),
        core.roots.experience == core.components.ledger.root(),
        core.revision == checkpoint::revision_of(true, core.limits, core.roots),
        core.components.ledger.consequences.len() + frame.consequences.len() <= usize::MAX,
        core.staged::<P>(frame) == Ok::<TransitionView, IntelligenceError>(step),
        step.record.len() == 0,
    ensures
        core.committed(step) == core,
        !step.delta.needs_room(),
{
    let (causal, knowledge, policy) = lemma_staged_apart::<P>(core, frame);
    lemma_comparison_replayed::<P>(
        core,
        frame,
        core.components.ledger.committed(causal.delta),
        policy,
    );
    lemma_sealed(core, frame, causal, knowledge, policy);
    let unchanged = causal.delta.is_empty_spec() && causal.edits.len() == 0 && knowledge is None
        && policy is None;
    assert(unchanged);
    lemma_nothing_recorded(core, frame, causal);
    assert(core.committed(step) =~= core);
}

/// A step that brings nothing is staged by every core whose ledger is within its
/// limits. It has no record and needs no room, and taking it leaves the core as it is.
pub proof fn law_empty_step_is_taken<P: PolicyEngine>(core: CoreView)
    requires
        core.components.ledger.valid(),
        core.components.ledger.counted(core.limits),
        core.roots.experience == core.components.ledger.root(),
        core.revision == checkpoint::revision_of(true, core.limits, core.roots),
    ensures
        core.staged::<P>(FrameView::empty()) matches Ok(step) && step.base_revision == core.revision
            && step.record.len() == 0 && !step.delta.needs_room() && core.committed(step) == core,
{
    let frame = FrameView::empty();
    let base = core.components.ledger;
    assert(base.receipts + frame.receipts =~= base.receipts);
    reveal(CoreView::causal_step);
    reveal(CoreView::knowledge_step);
    reveal(CoreView::policy_step);
    reveal(CoreView::sealed);
    assert(core.causal_step(frame) is Ok);
    if let Ok(step) = core.staged::<P>(frame) {
        law_step_without_change::<P>(core, frame, step);
    }
}

/// Taking a step keeps the core's ecology and ledger in order.
pub proof fn law_steps_keep_order<P: PolicyEngine>(
    core: CoreView,
    frame: FrameView,
    step: TransitionView,
)
    requires
        orderly(core),
        core.components.ledger.consequences.len() + frame.consequences.len() <= usize::MAX,
        core.staged::<P>(frame) == Ok::<TransitionView, IntelligenceError>(step),
        ledger::all_well_formed(frame.shadows),
        ecology::edits_valid(core.causal_step(frame)->Ok_0.edits),
    ensures
        orderly(core.committed(step)),
{
    let (causal, knowledge, policy) = lemma_staged_apart::<P>(core, frame);
    lemma_comparison_replayed::<P>(
        core,
        frame,
        core.components.ledger.committed(causal.delta),
        policy,
    );
    lemma_sealed(core, frame, causal, knowledge, policy);
    lemma_causal_step(core, frame);
    ecology::law_edits_keep_ecology_valid(core.components.ecology, causal.edits, core.limits);
    ledger::law_prepared_commit_is_valid(
        core.components.ledger,
        frame.receipts,
        frame.settlements,
        causal.delta.consequences,
        frame.shadows,
        core.limits,
    );
}

/// Bytes that lead to a core lead, with the record of a step behind them, to the
/// core that has taken the step.
proof fn lemma_record_leads_on<P: PolicyEngine>(
    core: CoreView,
    frame: FrameView,
    step: TransitionView,
    body: Seq<u8>,
)
    requires
        leads_to::<P>(body, core.limits, core.replay()),
        orderly(core),
        replayable(core, frame),
        core.components.ledger.consequences.len() + frame.consequences.len() <= usize::MAX,
        core.staged::<P>(frame) == Ok::<TransitionView, IntelligenceError>(step),
        step.record.len() > 0,
    ensures
        leads_to::<P>(body + step.record, core.limits, core.committed(step).replay()),
{
    let wire = CheckpointWire::current_spec();
    let next = core.committed(step).replay();
    reveal(leads_to);
    assert forall|rest: Seq<u8>| #[trigger]
        replay::whole::<P>(wire, (body + step.record) + rest) == replay::finished::<P>(
            wire,
            core.limits,
            next,
            rest,
        ) by {
        let input = step.record + rest;
        codec::lemma_concat_associates(body, step.record, rest);
        assert(replay::whole::<P>(wire, body + input) == replay::finished::<P>(
            wire,
            core.limits,
            core.replay(),
            input,
        ));
        lemma_step_replayed::<P>(core, frame, step, rest);
        lemma_replay_goes_on::<P>(core.limits, core.replay(), next, input, rest);
    }
}

proof fn lemma_replay_goes_on<P: PolicyEngine>(
    limits: IntelligenceLimits,
    state: ReplayView,
    next: ReplayView,
    input: Seq<u8>,
    rest: Seq<u8>,
)
    requires
        match codec::parse_u8(input) {
            Some((2, behind)) => replay::stepped::<P>(
                CheckpointWire::current_spec(),
                limits,
                state,
                behind,
            ) == Some((next, rest)),
            _ => false,
        },
        rest.len() < input.len(),
    ensures
        replay::replayed::<P>(CheckpointWire::current_spec(), limits, state, input)
            == replay::replayed::<P>(CheckpointWire::current_spec(), limits, next, rest),
{
}

/// A checkpoint with a record appended has that record at the end of its body.
proof fn lemma_appended_body(checkpoint: Seq<u8>, step: TransitionView)
    requires
        checkpoint.len() >= CHECKPOINT_FOOTER_BYTES,
        step.base_checkpoint == checkpoint,
        step.record.len() > 0,
    ensures
        step.checkpoint() == (checkpoint::body(checkpoint) + step.record) + checkpoint::footer(
            true,
            step.records,
            step.roots,
            step.revision,
            step.log_root,
        ),
        checkpoint::body(step.checkpoint()) == checkpoint::body(checkpoint) + step.record,
        step.checkpoint().len() >= CHECKPOINT_FOOTER_BYTES,
{
    checkpoint::lemma_footer_len(step.records, step.roots, step.revision, step.log_root);
    assert(checkpoint::body(step.checkpoint()) =~= checkpoint::body(checkpoint) + step.record);
}

/// A core that leads to itself still does once it has taken a step.
pub proof fn law_steps_keep_core_faithful<P: PolicyEngine>(
    core: CoreView,
    frame: FrameView,
    step: TransitionView,
)
    requires
        faithful::<P>(core),
        orderly(core),
        replayable(core, frame),
        core.components.ledger.consequences.len() + frame.consequences.len() <= usize::MAX,
        core.staged::<P>(frame) == Ok::<TransitionView, IntelligenceError>(step),
    ensures
        faithful::<P>(core.committed(step)),
        orderly(core.committed(step)),
{
    law_steps_keep_order::<P>(core, frame, step);
    if step.record.len() == 0 {
        law_step_without_change::<P>(core, frame, step);
    } else {
        let (causal, knowledge, policy) = lemma_staged_apart::<P>(core, frame);
        lemma_comparison_replayed::<P>(
            core,
            frame,
            core.components.ledger.committed(causal.delta),
            policy,
        );
        lemma_sealed(core, frame, causal, knowledge, policy);
        let body = checkpoint::body(core.checkpoint);
        lemma_appended_body(core.checkpoint, step);
        lemma_record_leads_on::<P>(core, frame, step, body);
        assert(restore::version_of(body + step.record) == Some(17u8));
    }
}

/// After any step that a core leading to itself has taken, its checkpoint restores
/// the core that has taken it.
pub proof fn law_step_is_restored<P: PolicyEngine>(
    core: CoreView,
    frame: FrameView,
    step: TransitionView,
)
    requires
        faithful::<P>(core),
        orderly(core),
        settled(core),
        replayable(core, frame),
        core.components.ledger.consequences.len() + frame.consequences.len() <= usize::MAX,
        core.staged::<P>(frame) == Ok::<TransitionView, IntelligenceError>(step),
    ensures
        restore::restored::<P>(step.checkpoint()) == Ok::<CoreView, IntelligenceError>(
            core.committed(step),
        ),
{
    law_steps_keep_core_faithful::<P>(core, frame, step);
    law_faithful_core_is_restored::<P>(core.committed(step));
}

// ---------------------------------------------------------------------------
// Beginnings
// ---------------------------------------------------------------------------
proof fn lemma_initial_knowledge_is_short()
    ensures
        compiler_wire::put_compiler(CompilerView::initial()).len() <= 1000,
{
    broadcast use digest::group_digest;

    assert(StateView::initial().revisions.len() == 1);
    reveal_with_fuel(codec::wire_all, 3);
    assert(compiler_wire::put_active(StateView::initial()).len() <= 500);
}

/// A core in which nothing has happened is what its checkpoint restores to, under
/// limits that its initial knowledge keeps to.
pub proof fn law_fresh_core_is_restored<P: PolicyEngine>(limits: IntelligenceLimits)
    requires
        limits.valid(),
        CompilerView::initial().fits(limits),
    ensures
        ({
            let core = CoreView::assembled(
                limits,
                intelligence::initial_components::<P>(),
                false,
                false,
                false,
            );
            &&& faithful::<P>(core)
            &&& orderly(core)
            &&& restore::restored::<P>(core.checkpoint) == Ok::<CoreView, IntelligenceError>(core)
        }),
{
    let components = intelligence::initial_components::<P>();
    P::lemma_initial();
    lemma_initial_knowledge_is_short();
    codec::lemma_put_u64_len(0);
    assert(ecology::put_ecology(components.ecology).len() == 16);
    assert(ledger::put_ledger(ReceiptFormat::Current, components.ledger).len() == 32);
    assert(components.ledger.valid());
    assert(components.ledger.contrasts =~= ledger::contrasts_in_order(components.ledger.shadows));
    assert(components.ecology.valid());
    assert(components.ecology.fits(limits));
    assert(compiler_wire::compiler_writable(limits, components.ledger, components.knowledge));
    law_assembled_core_is_faithful::<P>(limits, components, false, false, false);
    law_assembled_core_is_restored::<P>(limits, components);
}

} // verus!
