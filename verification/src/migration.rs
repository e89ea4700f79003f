//! What a checkpoint in an earlier format holds: the core that was written, in the
//! form in which it is written now.
use vstd::prelude::*;

use crate::checkpoint;
use crate::challenger::KnowledgeWireFormat;
use crate::checkpoint::{CheckpointWire, ComponentsView};
use crate::codec;
use crate::compiler::CompilerView;
use crate::compiler_wire;
use crate::consolidation::StateView;
use crate::continuity;
use crate::digest;
use crate::digest::Digest;
use crate::ecology;
use crate::ecology::EcologyView;
use crate::formats;
use crate::intelligence::CoreView;
use crate::ledger;
use crate::ledger::LedgerView;
use crate::policy::PolicyEngine;
use crate::receipt::ReceiptFormat;
use crate::replay;
use crate::replay::ReplayView;
use crate::restore;
use crate::types::{IntelligenceError, IntelligenceLimits};

verus! {

/// Knowledge that a format carries without loss.
pub open spec fn knowledge_carried(
    wire: CheckpointWire,
    limits: IntelligenceLimits,
    ledger: LedgerView,
    knowledge: CompilerView,
) -> bool {
    if wire.includes_pending_verification {
        compiler_wire::compiler_writable(limits, ledger, knowledge)
    } else if wire.includes_active_knowledge {
        compiler_wire::compiler_writable(limits, ledger, knowledge) && knowledge.pending is None
    } else {
        compiler_wire::records_writable(
            KnowledgeWireFormat::V8,
            limits,
            ledger,
            knowledge.records,
        ) && knowledge.active == StateView::initial() && knowledge.pending is None
    }
}

/// Components that a format carries without loss: it knows of everything that they
/// hold.
pub open spec fn carried<P: PolicyEngine>(
    wire: CheckpointWire,
    limits: IntelligenceLimits,
    components: ComponentsView,
) -> bool {
    &&& limits.valid()
    &&& components.ecology.valid()
    &&& components.ecology.fits(limits)
    &&& components.ledger.valid()
    &&& components.ledger.counted(limits)
    &&& components.ledger.contrasts == ledger::contrasts_in_order(components.ledger.shadows)
    &&& ledger::receipts_carried(wire.receipts(), components.ledger.receipts)
    &&& knowledge_carried(wire, limits, components.ledger, components.knowledge)
    &&& if wire.includes_policy {
        P::is_state(components.policy)
    } else {
        components.policy == P::initial()
    }
    &&& ecology::put_ecology(components.ecology).len() <= usize::MAX
    &&& ledger::put_ledger(wire.receipts(), components.ledger).len() <= usize::MAX
    &&& checkpoint::knowledge_bytes(wire, components.knowledge).len() <= usize::MAX
    &&& components.policy.len() <= usize::MAX
}

/// What a format says of a policy.
spec fn policy_run(wire: CheckpointWire, policy: Seq<u8>) -> Option<Seq<u8>> {
    if wire.includes_policy {
        Some(policy)
    } else {
        None
    }
}

/// The runs of a snapshot.
spec fn runs_of(e: Seq<u8>, x: Seq<u8>, k: Seq<u8>, policy: Option<Seq<u8>>) -> Seq<u8> {
    codec::put_sized(e) + (codec::put_sized(x) + (codec::put_sized(k) + match policy {
        Some(policy) => codec::put_sized(policy),
        None => Seq::empty(),
    }))
}

proof fn lemma_runs_read_back(
    wire: CheckpointWire,
    e: Seq<u8>,
    x: Seq<u8>,
    k: Seq<u8>,
    p: Seq<u8>,
    rest: Seq<u8>,
)
    requires
        e.len() <= usize::MAX,
        x.len() <= usize::MAX,
        k.len() <= usize::MAX,
        p.len() <= usize::MAX,
    ensures
        replay::parse_snapshot_runs(wire, runs_of(e, x, k, policy_run(wire, p)) + rest) == Some(
            (e, x, k, policy_run(wire, p), rest),
        ),
{
    let a = codec::put_sized(e);
    let b = codec::put_sized(x);
    let c = codec::put_sized(k);
    if wire.includes_policy {
        let d = codec::put_sized(p);
        codec::lemma_four_parts(a, b, c, d, rest);
        checkpoint::lemma_sized_round_trip(e, b + (c + (d + rest)));
        checkpoint::lemma_sized_round_trip(x, c + (d + rest));
        checkpoint::lemma_sized_round_trip(k, d + rest);
        checkpoint::lemma_sized_round_trip(p, rest);
    } else {
        let d = Seq::<u8>::empty();
        codec::lemma_four_parts(a, b, c, d, rest);
        assert(d + rest =~= rest);
        checkpoint::lemma_sized_round_trip(e, b + (c + rest));
        checkpoint::lemma_sized_round_trip(x, c + rest);
        checkpoint::lemma_sized_round_trip(k, rest);
    }
}

proof fn lemma_ledger_read_back(
    format: ReceiptFormat,
    limits: IntelligenceLimits,
    ledger: LedgerView,
)
    requires
        ledger.valid(),
        ledger.counted(limits),
        ledger.contrasts == ledger::contrasts_in_order(ledger.shadows),
        ledger::receipts_carried(format, ledger.receipts),
    ensures
        checkpoint::complete(
            ledger::parse_ledger(format, limits, ledger::put_ledger(format, ledger)),
        ) == Some(ledger),
{
    ledger::law_ledger_reads_back(format, limits, ledger, Seq::empty());
    codec::lemma_concat_empty(ledger::put_ledger(format, ledger));
}

proof fn lemma_knowledge_read_back(
    wire: CheckpointWire,
    limits: IntelligenceLimits,
    ledger: LedgerView,
    knowledge: CompilerView,
)
    requires
        knowledge_carried(wire, limits, ledger, knowledge),
    ensures
        checkpoint::complete(
            replay::parse_knowledge(
                wire,
                limits,
                ledger,
                checkpoint::knowledge_bytes(wire, knowledge),
            ),
        ) == Some(knowledge),
{
    if wire.includes_pending_verification {
        compiler_wire::law_compiler_reads_back(limits, ledger, knowledge, Seq::empty());
    } else if wire.includes_active_knowledge {
        compiler_wire::law_settled_compiler_reads_back(limits, ledger, knowledge, Seq::empty());
    } else {
        compiler_wire::law_recorded_compiler_reads_back(
            KnowledgeWireFormat::V8,
            limits,
            ledger,
            knowledge,
            Seq::empty(),
        );
    }
    codec::lemma_concat_empty(checkpoint::knowledge_bytes(wire, knowledge));
}

proof fn lemma_runs_hold<P: PolicyEngine>(
    wire: CheckpointWire,
    limits: IntelligenceLimits,
    components: ComponentsView,
    e: Seq<u8>,
    x: Seq<u8>,
    k: Seq<u8>,
)
    requires
        checkpoint::complete(ecology::parse_ecology(limits, e)) == Some(components.ecology),
        checkpoint::complete(ledger::parse_ledger(wire.receipts(), limits, x)) == Some(
            components.ledger,
        ),
        checkpoint::complete(replay::parse_knowledge(wire, limits, components.ledger, k)) == Some(
            components.knowledge,
        ),
        if wire.includes_policy {
            P::is_state(components.policy)
        } else {
            components.policy == P::initial()
        },
    ensures
        replay::snapshot_components::<P>(
            wire,
            limits,
            e,
            x,
            k,
            policy_run(wire, components.policy),
        ) == Some(components),
{
}

/// How far a snapshot leads.
spec fn opening<P: PolicyEngine>(
    wire: CheckpointWire,
    limits: IntelligenceLimits,
    components: ComponentsView,
) -> ReplayView {
    ReplayView {
        components,
        roots: checkpoint::roots_of(components),
        checked: checkpoint::snapshot_roots::<P>(wire, components),
        log_root: checkpoint::snapshot_log(wire, limits, components),
        records: 1,
    }
}

proof fn lemma_opens<P: PolicyEngine>(
    wire: CheckpointWire,
    limits: IntelligenceLimits,
    components: ComponentsView,
    e: Seq<u8>,
    x: Seq<u8>,
    k: Seq<u8>,
    input: Seq<u8>,
    rest: Seq<u8>,
)
    requires
        limits.valid(),
        e.len() <= usize::MAX,
        x.len() <= usize::MAX,
        k.len() <= usize::MAX,
        components.policy.len() <= usize::MAX,
        replay::snapshot_components::<P>(
            wire,
            limits,
            e,
            x,
            k,
            policy_run(wire, components.policy),
        ) == Some(components),
        checkpoint::framed_snapshot(e, x, k, policy_run(wire, components.policy))
            == checkpoint::snapshot_record(wire, components),
        input.take(61) == checkpoint::header(wire.version, limits),
        input.skip(5) == checkpoint::put_sizes(checkpoint::limit_list(limits)) + (codec::put_u8(1)
            + (runs_of(e, x, k, policy_run(wire, components.policy)) + rest)),
    ensures
        replay::opened::<P>(wire, input) == Some(
            (limits, opening::<P>(wire, limits, components), rest),
        ),
{
    let runs = runs_of(e, x, k, policy_run(wire, components.policy));
    reveal(replay::opened);
    continuity::lemma_limits_read_back(limits, codec::put_u8(1) + (runs + rest));
    codec::lemma_parse_u8(1, runs + rest);
    lemma_runs_read_back(wire, e, x, k, components.policy, rest);
}

proof fn lemma_snapshot_opens<P: PolicyEngine>(
    wire: CheckpointWire,
    limits: IntelligenceLimits,
    components: ComponentsView,
    rest: Seq<u8>,
)
    requires
        carried::<P>(wire, limits, components),
    ensures
        replay::opened::<P>(
            wire,
            checkpoint::snapshot_body(wire, limits, components) + rest,
        ) == Some((limits, opening::<P>(wire, limits, components), rest)),
{
    let magic = checkpoint::magic(wire.version);
    let sizes = checkpoint::put_sizes(checkpoint::limit_list(limits));
    let e = ecology::put_ecology(components.ecology);
    let x = ledger::put_ledger(wire.receipts(), components.ledger);
    let k = checkpoint::knowledge_bytes(wire, components.knowledge);
    let runs = runs_of(e, x, k, policy_run(wire, components.policy));
    let body = checkpoint::snapshot_body(wire, limits, components);
    assert(body == (magic + sizes) + (codec::put_u8(1) + runs));
    checkpoint::lemma_sizes_round_trip(checkpoint::limit_list(limits), rest);
    continuity::lemma_header_apart(magic, sizes, codec::put_u8(1), runs, rest);
    continuity::lemma_ecology_read_back(limits, components.ecology);
    lemma_ledger_read_back(wire.receipts(), limits, components.ledger);
    lemma_knowledge_read_back(wire, limits, components.ledger, components.knowledge);
    lemma_runs_hold::<P>(wire, limits, components, e, x, k);
    lemma_opens::<P>(wire, limits, components, e, x, k, body + rest, rest);
}

proof fn lemma_footer_follows<P: PolicyEngine>(
    wire: CheckpointWire,
    limits: IntelligenceLimits,
    state: ReplayView,
    input: Seq<u8>,
    footer: Seq<u8>,
)
    requires
        replay::opened::<P>(wire, input) == Some((limits, state, footer)),
        footer == codec::put_u8(0) + replay::seal(wire, limits, state),
    ensures
        replay::whole::<P>(wire, input) == Some((limits, state)),
{
    let tail = replay::seal(wire, limits, state);
    codec::lemma_parse_u8(0, tail);
    assert(replay::replayed::<P>(wire, limits, state, footer) == Some((state, tail)));
}

proof fn lemma_version_is_announced(
    wire: CheckpointWire,
    limits: IntelligenceLimits,
    components: ComponentsView,
    rest: Seq<u8>,
)
    ensures
        restore::version_of(checkpoint::snapshot_body(wire, limits, components) + rest) == Some(
            wire.version,
        ),
{
    let magic = checkpoint::magic(wire.version);
    let sizes = checkpoint::put_sizes(checkpoint::limit_list(limits));
    let record = checkpoint::snapshot_record(wire, components);
    let bytes = checkpoint::snapshot_body(wire, limits, components) + rest;
    assert(bytes == ((magic + sizes) + record) + rest);
    assert(forall|i: int| 0 <= i < 5 ==> bytes[i] == magic[i]);
}

proof fn lemma_snapshot_is_whole<P: PolicyEngine>(
    wire: CheckpointWire,
    limits: IntelligenceLimits,
    components: ComponentsView,
)
    requires
        carried::<P>(wire, limits, components),
    ensures
        ({
            let roots = checkpoint::snapshot_roots::<P>(wire, components);
            replay::whole::<P>(
                wire,
                checkpoint::snapshot(
                    wire,
                    limits,
                    components,
                    roots,
                    checkpoint::revision_of(wire.includes_policy, limits, roots),
                ),
            ) == Some((limits, opening::<P>(wire, limits, components)))
        }),
{
    let state = opening::<P>(wire, limits, components);
    let body = checkpoint::snapshot_body(wire, limits, components);
    let footer = codec::put_u8(0) + replay::seal(wire, limits, state);
    lemma_snapshot_opens::<P>(wire, limits, components, footer);
    lemma_footer_follows::<P>(wire, limits, state, body + footer, footer);
}

/// A checkpoint with segments in an earlier format restores to the core that was
/// written, in today's form, where the format knew of everything that the core
/// held. What the format did not know of yet may then be imported.
pub proof fn law_earlier_checkpoint_is_restored<P: PolicyEngine>(
    wire: CheckpointWire,
    core: CoreView,
)
    requires
        CheckpointWire::of_version(wire.version) == Some(wire),
        wire.version < 17,
        carried::<P>(wire, core.limits, core.components),
    ensures
        restore::restored::<P>(formats::segmented_form::<P>(core, wire)) == Ok::<
            CoreView,
            IntelligenceError,
        >(
            CoreView::assembled(
                core.limits,
                core.components,
                !wire.includes_policy,
                !wire.includes_policy,
                !wire.includes_active_knowledge,
            ),
        ),
{
    let roots = checkpoint::snapshot_roots::<P>(wire, core.components);
    lemma_snapshot_is_whole::<P>(wire, core.limits, core.components);
    lemma_version_is_announced(
        wire,
        core.limits,
        core.components,
        checkpoint::footer(
            wire.includes_policy,
            1,
            roots,
            checkpoint::revision_of(wire.includes_policy, core.limits, roots),
            checkpoint::snapshot_log(wire, core.limits, core.components),
        ),
    );
}

// ---------------------------------------------------------------------------
// Formats without segments
// ---------------------------------------------------------------------------
/// The limits that a format without segments announces, and those that its ecology
/// is read under.
pub open spec fn announced(version: u8, limits: IntelligenceLimits) -> (
    IntelligenceLimits,
    IntelligenceLimits,
) {
    let base = IntelligenceLimits::new_spec(
        limits.maximum_opportunities,
        limits.maximum_investments,
        limits.maximum_bids,
        limits.maximum_forecast_cells,
        limits.maximum_specialists,
        limits.maximum_model_bytes,
    );
    (
        base,
        base.per_route_spec(
            if version == 9 {
                limits.maximum_specialists_per_route
            } else {
                limits.maximum_specialists
            },
        ),
    )
}

/// A core that a format without segments carries without loss: it knows of
/// everything that the core holds.
pub open spec fn carried_plain<P: PolicyEngine>(version: u8, core: CoreView) -> bool {
    let components = core.components;
    let (base, reading) = announced(version, core.limits);
    &&& 6 <= version <= 9
    &&& base.valid()
    &&& reading.valid()
    &&& restore::settled_limits(version, base, reading, components.ecology) == Some(core.limits)
    &&& components.ecology.valid()
    &&& components.ecology.fits(reading)
    &&& components.ledger.valid()
    &&& components.ledger.counted(core.limits)
    &&& components.ledger.contrasts == ledger::contrasts_in_order(components.ledger.shadows)
    &&& ledger::receipts_carried(ReceiptFormat::LegacyV11, components.ledger.receipts)
    &&& compiler_wire::records_writable(
        restore::knowledge_format(version),
        core.limits,
        components.ledger,
        components.knowledge.records,
    )
    &&& components.knowledge.active == StateView::initial()
    &&& components.knowledge.pending is None
    &&& components.policy == P::initial()
}

proof fn lemma_plain_components_read_back<P: PolicyEngine>(version: u8, core: CoreView)
    requires
        carried_plain::<P>(version, core),
    ensures
        ({
            let (base, reading) = announced(version, core.limits);
            restore::plain_components(
                version,
                base,
                reading,
                ecology::put_ecology(core.components.ecology) + (ledger::put_ledger(
                    ReceiptFormat::LegacyV11,
                    core.components.ledger,
                ) + compiler_wire::put_records(
                    restore::knowledge_format(version),
                    core.components.knowledge.records,
                )),
            ) == Some(
                (
                    core.limits,
                    core.components.ecology,
                    core.components.ledger,
                    core.components.knowledge,
                ),
            )
        }),
{
    let components = core.components;
    let format = restore::knowledge_format(version);
    let (base, reading) = announced(version, core.limits);
    let x = ledger::put_ledger(ReceiptFormat::LegacyV11, components.ledger);
    let k = compiler_wire::put_records(format, components.knowledge.records);
    ecology::law_ecology_reads_back(reading, components.ecology, x + k);
    ledger::law_ledger_reads_back(ReceiptFormat::LegacyV11, core.limits, components.ledger, k);
    compiler_wire::law_recorded_compiler_reads_back(
        format,
        core.limits,
        components.ledger,
        components.knowledge,
        Seq::empty(),
    );
    codec::lemma_concat_empty(k);
}

proof fn lemma_limits_are_announced<P: PolicyEngine>(version: u8, core: CoreView, rest: Seq<u8>)
    requires
        carried_plain::<P>(version, core),
    ensures
        ({
            let values = formats::plain_sizes(core, version);
            &&& values.len() == (if version == 9 {
                7nat
            } else {
                6nat
            })
            &&& checkpoint::parse_sizes(checkpoint::put_sizes(values) + rest, values.len()) == Some(
                (values, rest),
            )
            &&& restore::announced_limits(version, values) == Some(announced(version, core.limits))
        }),
{
    checkpoint::lemma_sizes_round_trip(formats::plain_sizes(core, version), rest);
}

proof fn lemma_plain_reads(
    version: u8,
    revision: Digest,
    values: Seq<usize>,
    parts: Seq<u8>,
    announcement: (IntelligenceLimits, IntelligenceLimits),
    limits: IntelligenceLimits,
    ecology: EcologyView,
    ledger: LedgerView,
    knowledge: CompilerView,
)
    requires
        values.len() == (if version == 9 {
            7nat
        } else {
            6nat
        }),
        checkpoint::parse_sizes(checkpoint::put_sizes(values) + parts, values.len()) == Some(
            (values, parts),
        ),
        restore::announced_limits(version, values) == Some(announcement),
        restore::plain_components(version, announcement.0, announcement.1, parts) == Some(
            (limits, ecology, ledger, knowledge),
        ),
        restore::plain_revision(version, limits, ecology, ledger, knowledge) == Some(revision),
    ensures
        restore::plain_whole(version, revision.bytes() + (checkpoint::put_sizes(values) + parts))
            == Some((limits, ecology, ledger, knowledge)),
{
    digest::lemma_parse_digest(revision, checkpoint::put_sizes(values) + parts);
    reveal(restore::plain_whole);
}

proof fn lemma_plain_is_named<P: PolicyEngine>(version: u8, core: CoreView)
    requires
        carried_plain::<P>(version, core),
    ensures
        restore::plain_revision(
            version,
            core.limits,
            core.components.ecology,
            core.components.ledger,
            core.components.knowledge,
        ) is Some,
{
    assert(compiler_wire::all_expressible(
        restore::knowledge_format(version),
        core.components.knowledge.records,
    ));
}

proof fn lemma_magic_apart(version: u8, rest: Seq<u8>)
    ensures
        (checkpoint::magic(version) + rest).len() >= 5,
        (checkpoint::magic(version) + rest).take(5) == checkpoint::magic(version),
        (checkpoint::magic(version) + rest).skip(5) == rest,
{
    assert((checkpoint::magic(version) + rest).take(5) =~= checkpoint::magic(version));
    assert((checkpoint::magic(version) + rest).skip(5) =~= rest);
}

proof fn lemma_plain_is_whole<P: PolicyEngine>(version: u8, core: CoreView)
    requires
        carried_plain::<P>(version, core),
    ensures
        formats::plain_payload(core, version) matches Some(payload) && payload.len() >= 5
            && payload.take(5) == checkpoint::magic(version) && restore::plain_whole(
            version,
            payload.skip(5),
        ) == Some(
            (
                core.limits,
                core.components.ecology,
                core.components.ledger,
                core.components.knowledge,
            ),
        ),
{
    let components = core.components;
    let parts = ecology::put_ecology(components.ecology) + (ledger::put_ledger(
        ReceiptFormat::LegacyV11,
        components.ledger,
    ) + compiler_wire::put_records(
        restore::knowledge_format(version),
        components.knowledge.records,
    ));
    let values = formats::plain_sizes(core, version);
    lemma_plain_is_named::<P>(version, core);
    let revision = restore::plain_revision(
        version,
        core.limits,
        components.ecology,
        components.ledger,
        components.knowledge,
    )->Some_0;
    lemma_limits_are_announced::<P>(version, core, parts);
    lemma_plain_components_read_back::<P>(version, core);
    lemma_plain_reads(
        version,
        revision,
        values,
        parts,
        announced(version, core.limits),
        core.limits,
        components.ecology,
        components.ledger,
        components.knowledge,
    );
    lemma_magic_apart(version, revision.bytes() + (checkpoint::put_sizes(values) + parts));
}

proof fn lemma_checksum_apart(payload: Seq<u8>, checksum: Seq<u8>)
    requires
        checksum.len() == 32,
    ensures
        (payload + checksum).len() == payload.len() + 32,
        (payload + checksum).take((payload + checksum).len() - 32) == payload,
        (payload + checksum).skip((payload + checksum).len() - 32) == checksum,
{
    assert((payload + checksum).take(payload.len() as int) =~= payload);
    assert((payload + checksum).skip(payload.len() as int) =~= checksum);
}

proof fn lemma_payload_announces(version: u8, payload: Seq<u8>, rest: Seq<u8>)
    requires
        payload.len() >= 5,
        payload.take(5) == checkpoint::magic(version),
    ensures
        restore::version_of(payload) == Some(version),
        restore::version_of(payload + rest) == Some(version),
{
    let magic = checkpoint::magic(version);
    assert forall|i: int| 0 <= i < 5 implies payload[i] == magic[i] && (payload + rest)[i]
        == magic[i] by {
        assert(payload.take(5)[i] == payload[i]);
    }
}

proof fn lemma_payload_is_restored<P: PolicyEngine>(
    version: u8,
    payload: Seq<u8>,
    limits: IntelligenceLimits,
    ecology: EcologyView,
    ledger: LedgerView,
    knowledge: CompilerView,
)
    requires
        6 <= version <= 9,
        payload.len() >= 5,
        payload.take(5) == checkpoint::magic(version),
        restore::plain_whole(version, payload.skip(5)) == Some((limits, ecology, ledger, knowledge)),
    ensures
        restore::restored::<P>(payload + digest::hash(payload).bytes()) == Ok::<
            CoreView,
            IntelligenceError,
        >(
            CoreView::assembled(
                limits,
                (ComponentsView { ecology, ledger, knowledge, policy: P::initial() }),
                true,
                true,
                true,
            ),
        ),
{
    let checksum = digest::hash(payload).bytes();
    digest::lemma_digest_len(digest::hash(payload));
    lemma_checksum_apart(payload, checksum);
    lemma_payload_announces(version, payload, checksum);
}

/// A checkpoint in a format without segments restores to the core that was written,
/// in today's form, where the format knew of everything that the core held. What
/// the format did not know of yet may then be imported.
pub proof fn law_plain_checkpoint_is_restored<P: PolicyEngine>(version: u8, core: CoreView)
    requires
        carried_plain::<P>(version, core),
    ensures
        formats::plain_form(core, version) matches Some(bytes) && restore::restored::<P>(bytes)
            == Ok::<CoreView, IntelligenceError>(
            CoreView::assembled(core.limits, core.components, true, true, true),
        ),
{
    lemma_plain_is_whole::<P>(version, core);
    let payload = formats::plain_payload(core, version)->Some_0;
    lemma_payload_is_restored::<P>(
        version,
        payload,
        core.limits,
        core.components.ecology,
        core.components.ledger,
        core.components.knowledge,
    );
    assert(core.components =~= (ComponentsView {
        ecology: core.components.ecology,
        ledger: core.components.ledger,
        knowledge: core.components.knowledge,
        policy: P::initial(),
    }));
}

} // verus!
