//! Names that follow from what they name: two things with one name are the same, unless
//! the two messages that were hashed for it clash.
use vstd::prelude::*;

use crate::causal;
use crate::causal::{AppendRoot, CausalRootState};
use crate::challenger;
use crate::challenger::{ChallengerView, KnowledgeWireFormat};
use crate::checkpoint;
use crate::checkpoint::ComponentRoots;
use crate::codec;
use crate::codec::Wire;
use crate::consolidation;
use crate::digest;
use crate::digest::Digest;
use crate::ecology::{RevisionView, SpecialistMandate};
use crate::forecast;
use crate::forecast::ForecastAxis;
use crate::integrity;
use crate::model::CompactModel;
use crate::planning;
use crate::receipt;
use crate::shadow;
use crate::shadow::CheckpointDigest;
use crate::types;
use crate::types::{AllocationSource, IntelligenceLimits, ResourceVector, SubjectId};

verus! {

/// What is hashed under a label.
pub open spec fn message(label: &str, content: Seq<u8>) -> Seq<u8> {
    digest::label_bytes(label) + content
}

proof fn lemma_messages_apart(label: &str, left: Seq<u8>, right: Seq<u8>)
    requires
        digest::labelled(label, left) == digest::labelled(label, right),
    ensures
        left == right || integrity::clash(message(label, left), message(label, right)),
{
    let prefix = digest::label_bytes(label);
    if prefix + left == prefix + right {
        assert((prefix + left).skip(prefix.len() as int) =~= left);
        assert((prefix + right).skip(prefix.len() as int) =~= right);
    }
}

/// A decision is named after the revision, the epoch, the rank, the investment and on
/// whose word it was made: two that differ in any of these have different names.
pub proof fn law_decisions_are_named_apart(
    revision: Digest,
    epoch: u64,
    rank: u32,
    investment: Digest,
    source: AllocationSource,
    other_revision: Digest,
    other_epoch: u64,
    other_rank: u32,
    other_investment: Digest,
    other_source: AllocationSource,
)
    requires
        receipt::decision_id_spec(revision, epoch, rank, investment, source)
            == receipt::decision_id_spec(
            other_revision,
            other_epoch,
            other_rank,
            other_investment,
            other_source,
        ),
    ensures
        ({
            ||| revision == other_revision && epoch == other_epoch && rank == other_rank
                && investment == other_investment && source == other_source
            ||| integrity::clash(
                message(
                    "reflex-investment-decision-v1\0",
                    receipt::decision_bytes(revision, epoch, rank, investment, source),
                ),
                message(
                    "reflex-investment-decision-v1\0",
                    receipt::decision_bytes(
                        other_revision,
                        other_epoch,
                        other_rank,
                        other_investment,
                        other_source,
                    ),
                ),
            )
        }),
{
    let left = receipt::decision_bytes(revision, epoch, rank, investment, source);
    let right = receipt::decision_bytes(
        other_revision,
        other_epoch,
        other_rank,
        other_investment,
        other_source,
    );
    lemma_messages_apart("reflex-investment-decision-v1\0", left, right);
    if left == right {
        let a = types::put_source(source);
        let b = types::put_source(other_source);
        let c = investment.bytes() + a;
        let d = other_investment.bytes() + b;
        let e = codec::put_u32(rank) + c;
        let f = codec::put_u32(other_rank) + d;
        let g = codec::put_u64(epoch) + e;
        let h = codec::put_u64(other_epoch) + f;
        digest::lemma_parse_digest(revision, g);
        digest::lemma_parse_digest(other_revision, h);
        codec::lemma_parse_u64(epoch, e);
        codec::lemma_parse_u64(other_epoch, f);
        codec::lemma_parse_u32(rank, c);
        codec::lemma_parse_u32(other_rank, d);
        digest::lemma_parse_digest(investment, a);
        digest::lemma_parse_digest(other_investment, b);
        types::lemma_source_round_trip(source, Seq::empty());
        types::lemma_source_round_trip(other_source, Seq::empty());
        assert(a + Seq::<u8>::empty() =~= a);
        assert(b + Seq::<u8>::empty() =~= b);
    }
}

/// An obligation is named after the product and the operator: no two operators of a
/// product, and no two products, share one.
pub proof fn law_obligations_are_named_apart(
    product: Digest,
    operator: Digest,
    other_product: Digest,
    other_operator: Digest,
)
    requires
        consolidation::obligation_identity(product, operator)
            == consolidation::obligation_identity(other_product, other_operator),
    ensures
        product == other_product && operator == other_operator || integrity::clash(
            message(
                "reflex-consolidation-obligation-v1\0",
                product.bytes() + operator.bytes(),
            ),
            message(
                "reflex-consolidation-obligation-v1\0",
                other_product.bytes() + other_operator.bytes(),
            ),
        ),
{
    let left = product.bytes() + operator.bytes();
    let right = other_product.bytes() + other_operator.bytes();
    lemma_messages_apart("reflex-consolidation-obligation-v1\0", left, right);
    if left == right {
        digest::lemma_parse_digest(product, operator.bytes());
        digest::lemma_parse_digest(other_product, other_operator.bytes());
        digest::lemma_bytes_injective(operator, other_operator);
    }
}

/// A campaign is named after the checkpoint that it starts from, its subject, what it
/// may take, its random stream and its axes: two that differ in any of these have
/// different names.
pub proof fn law_campaigns_are_named_apart(
    checkpoint: CheckpointDigest,
    subject: SubjectId,
    resources: ResourceVector,
    stream: SubjectId,
    axes: Seq<ForecastAxis>,
    other_checkpoint: CheckpointDigest,
    other_subject: SubjectId,
    other_resources: ResourceVector,
    other_stream: SubjectId,
    other_axes: Seq<ForecastAxis>,
)
    requires
        forecast::distinct_axes(axes),
        forecast::distinct_axes(other_axes),
        shadow::campaign_id(checkpoint, subject, resources, stream, axes) == shadow::campaign_id(
            other_checkpoint,
            other_subject,
            other_resources,
            other_stream,
            other_axes,
        ),
    ensures
        ({
            ||| checkpoint == other_checkpoint && subject == other_subject && resources
                == other_resources && stream == other_stream && axes == other_axes
            ||| integrity::clash(
                message(
                    "reflex-shadow-campaign-v1\0",
                    shadow::campaign_bytes(checkpoint, subject, resources, stream, axes),
                ),
                message(
                    "reflex-shadow-campaign-v1\0",
                    shadow::campaign_bytes(
                        other_checkpoint,
                        other_subject,
                        other_resources,
                        other_stream,
                        other_axes,
                    ),
                ),
            )
        }),
{
    let left = shadow::campaign_bytes(checkpoint, subject, resources, stream, axes);
    let right = shadow::campaign_bytes(
        other_checkpoint,
        other_subject,
        other_resources,
        other_stream,
        other_axes,
    );
    lemma_messages_apart("reflex-shadow-campaign-v1\0", left, right);
    if left == right {
        let a = codec::put_list::<(), ForecastAxis>((), axes);
        let b = codec::put_list::<(), ForecastAxis>((), other_axes);
        let c = stream.0.bytes() + a;
        let d = other_stream.0.bytes() + b;
        let e = types::put_resources(resources) + c;
        let f = types::put_resources(other_resources) + d;
        let g = subject.0.bytes() + e;
        let h = other_subject.0.bytes() + f;
        digest::lemma_parse_digest(checkpoint.0, g);
        digest::lemma_parse_digest(other_checkpoint.0, h);
        digest::lemma_parse_digest(subject.0, e);
        digest::lemma_parse_digest(other_subject.0, f);
        types::lemma_resources_round_trip(resources, c);
        types::lemma_resources_round_trip(other_resources, d);
        digest::lemma_parse_digest(stream.0, a);
        digest::lemma_parse_digest(other_stream.0, b);
        forecast::lemma_distinct_axes_bounded(axes);
        forecast::lemma_distinct_axes_bounded(other_axes);
        codec::lemma_list_round_trip::<(), ForecastAxis>((), axes, 9, 1, Seq::empty());
        codec::lemma_list_round_trip::<(), ForecastAxis>((), other_axes, 9, 1, Seq::empty());
        assert(a + Seq::<u8>::empty() =~= a);
        assert(b + Seq::<u8>::empty() =~= b);
    }
}

/// A specialist is named after its mandate and its model: two that differ in either
/// have different names.
pub proof fn law_specialists_are_named_apart(left: RevisionView, right: RevisionView)
    requires
        left.valid(),
        right.valid(),
        left.id == right.id,
    ensures
        ({
            ||| left.mandate == right.mandate && left.model == right.model
            ||| integrity::clash(
                message(
                    "reflex-specialist-revision-v1\0",
                    SpecialistMandate::wire((), left.mandate) + CompactModel::wire((), left.model),
                ),
                message(
                    "reflex-specialist-revision-v1\0",
                    SpecialistMandate::wire((), right.mandate) + CompactModel::wire(
                        (),
                        right.model,
                    ),
                ),
            )
        }),
{
    let a = SpecialistMandate::wire((), left.mandate);
    let b = CompactModel::wire((), left.model);
    let c = SpecialistMandate::wire((), right.mandate);
    let d = CompactModel::wire((), right.model);
    lemma_messages_apart("reflex-specialist-revision-v1\0", a + b, c + d);
    if a + b == c + d {
        SpecialistMandate::lemma_round_trip((), left.mandate, b);
        SpecialistMandate::lemma_round_trip((), right.mandate, d);
        CompactModel::lemma_round_trip((), left.model, Seq::empty());
        CompactModel::lemma_round_trip((), right.model, Seq::empty());
        assert(b + Seq::<u8>::empty() =~= b);
        assert(d + Seq::<u8>::empty() =~= d);
    }
}

/// A challenger is named after all that it states: two valid ones with one name are the
/// same.
pub proof fn law_challengers_are_named_apart(left: ChallengerView, right: ChallengerView)
    requires
        left.valid(),
        right.valid(),
        left.id == right.id,
    ensures
        left == right || integrity::clash(
            message(
                "reflex-knowledge-challenger-v3\0",
                challenger::challenger_content(KnowledgeWireFormat::V8, left),
            ),
            message(
                "reflex-knowledge-challenger-v3\0",
                challenger::challenger_content(KnowledgeWireFormat::V8, right),
            ),
        ),
{
    let format = KnowledgeWireFormat::V8;
    let a = challenger::challenger_content(format, left);
    let b = challenger::challenger_content(format, right);
    lemma_messages_apart("reflex-knowledge-challenger-v3\0", a, b);
    if a == b {
        let most = left.product.payload_len() + right.product.payload_len();
        challenger::law_challenger_reads_back(format, left, most, Seq::empty());
        challenger::law_challenger_reads_back(format, right, most, Seq::empty());
        assert(challenger::put_challenger(format, left) == challenger::put_challenger(
            format,
            right,
        ));
    }
}

/// A revision is named after the limits and the roots of all four components: two cores
/// that differ in any of these have different revisions.
pub proof fn law_revisions_are_named_apart(
    limits: IntelligenceLimits,
    roots: ComponentRoots,
    other_limits: IntelligenceLimits,
    other_roots: ComponentRoots,
)
    requires
        checkpoint::revision_of(true, limits, roots) == checkpoint::revision_of(
            true,
            other_limits,
            other_roots,
        ),
    ensures
        ({
            ||| limits == other_limits && roots.ecology == other_roots.ecology && roots.experience
                == other_roots.experience && roots.knowledge == other_roots.knowledge
                && roots.policy == other_roots.policy
            ||| integrity::clash(
                message(
                    "reflex-intelligence-revision-v5\0",
                    checkpoint::put_sizes(checkpoint::limit_list(limits)) + checkpoint::put_roots(
                        true,
                        roots,
                    ),
                ),
                message(
                    "reflex-intelligence-revision-v5\0",
                    checkpoint::put_sizes(checkpoint::limit_list(other_limits))
                        + checkpoint::put_roots(true, other_roots),
                ),
            )
        }),
{
    let a = checkpoint::limit_list(limits);
    let b = checkpoint::limit_list(other_limits);
    let c = checkpoint::put_roots(true, roots);
    let d = checkpoint::put_roots(true, other_roots);
    let left = checkpoint::put_sizes(a) + c;
    let right = checkpoint::put_sizes(b) + d;
    lemma_messages_apart("reflex-intelligence-revision-v5\0", left, right);
    if left == right {
        checkpoint::lemma_sizes_round_trip(a, c);
        checkpoint::lemma_sizes_round_trip(b, d);
        assert(a == b && c == d);
        assert(limits.maximum_opportunities == a[0] && other_limits.maximum_opportunities == b[0]);
        assert(limits.maximum_investments == a[1] && other_limits.maximum_investments == b[1]);
        assert(limits.maximum_bids == a[2] && other_limits.maximum_bids == b[2]);
        assert(limits.maximum_forecast_cells == a[3] && other_limits.maximum_forecast_cells
            == b[3]);
        assert(limits.maximum_specialists == a[4] && other_limits.maximum_specialists == b[4]);
        assert(limits.maximum_model_bytes == a[5] && other_limits.maximum_model_bytes == b[5]);
        assert(limits.maximum_specialists_per_route == a[6]
            && other_limits.maximum_specialists_per_route == b[6]);
        lemma_roots_apart(roots, other_roots);
    }
}

proof fn lemma_roots_apart(left: ComponentRoots, right: ComponentRoots)
    requires
        checkpoint::put_roots(true, left) == checkpoint::put_roots(true, right),
    ensures
        left.ecology == right.ecology,
        left.experience == right.experience,
        left.knowledge == right.knowledge,
        left.policy == right.policy,
{
    let c = left.knowledge.bytes() + left.policy.bytes();
    let d = right.knowledge.bytes() + right.policy.bytes();
    let e = left.experience.bytes() + c;
    let f = right.experience.bytes() + d;
    assert(checkpoint::put_roots(true, left) =~= left.ecology.bytes() + e);
    assert(checkpoint::put_roots(true, right) =~= right.ecology.bytes() + f);
    digest::lemma_parse_digest(left.ecology, e);
    digest::lemma_parse_digest(right.ecology, f);
    digest::lemma_parse_digest(left.experience, c);
    digest::lemma_parse_digest(right.experience, d);
    digest::lemma_parse_digest(left.knowledge, left.policy.bytes());
    digest::lemma_parse_digest(right.knowledge, right.policy.bytes());
    digest::lemma_bytes_injective(left.policy, right.policy);
}

/// The value of a digit in a name that is spelt out.
pub open spec fn digit_value(digit: u8) -> int {
    if 48 <= digit <= 57 {
        digit - 48
    } else {
        digit - 87
    }
}

/// The symbol of an operator spells out its name, byte by byte and in lower case, behind
/// a prefix of eight; two operators with one symbol are the same.
pub proof fn law_symbols_spell_names(id: Digest, other: Digest)
    ensures
        planning::symbol_of(id).len() == 72,
        forall|k: int|
            0 <= k < 32 ==> #[trigger] id.bytes()[k] == 16 * digit_value(
                planning::symbol_of(id)[8 + 2 * k],
            ) + digit_value(planning::symbol_of(id)[9 + 2 * k]),
        forall|i: int|
            8 <= i < 72 ==> 48 <= #[trigger] planning::symbol_of(id)[i] <= 57 || 97
                <= planning::symbol_of(id)[i] <= 102,
        planning::symbol_of(id) == planning::symbol_of(other) ==> id == other,
{
    lemma_spelt(id);
    lemma_spelt(other);
    if planning::symbol_of(id) == planning::symbol_of(other) {
        digest::lemma_digest_len(id);
        digest::lemma_digest_len(other);
        assert forall|k: int| 0 <= k < 32 implies id.bytes()[k] == other.bytes()[k] by {}
        assert(id.bytes() =~= other.bytes());
        digest::lemma_bytes_injective(id, other);
    }
}

proof fn lemma_spelt(id: Digest)
    ensures
        planning::symbol_of(id).len() == 72,
        forall|k: int|
            0 <= k < 32 ==> #[trigger] id.bytes()[k] == 16 * digit_value(
                planning::symbol_of(id)[8 + 2 * k],
            ) + digit_value(planning::symbol_of(id)[9 + 2 * k]),
        forall|i: int|
            8 <= i < 72 ==> 48 <= #[trigger] planning::symbol_of(id)[i] <= 57 || 97
                <= planning::symbol_of(id)[i] <= 102,
{
    digest::lemma_digest_len(id);
    let symbol = planning::symbol_of(id);
    assert forall|k: int| 0 <= k < 32 implies #[trigger] id.bytes()[k] == 16 * digit_value(
        symbol[8 + 2 * k],
    ) + digit_value(symbol[9 + 2 * k]) by {
        let spelt = planning::hex(id.bytes());
        assert(symbol[8 + 2 * k] == spelt[2 * k]);
        assert(symbol[9 + 2 * k] == spelt[2 * k + 1]);
    }
    assert forall|i: int| 8 <= i < 72 implies 48 <= #[trigger] symbol[i] <= 57 || 97 <= symbol[i]
        <= 102 by {
        let spelt = planning::hex(id.bytes());
        assert(symbol[i] == spelt[i - 8]);
    }
}

/// The token of a plan, and the random stream of its campaign, follow from everything
/// that the plan was made of: two that differ in any of it have different ones.
pub proof fn law_plans_are_told_apart(
    label: &str,
    revision: Digest,
    restart: CheckpointDigest,
    context: SubjectId,
    product: SubjectId,
    root: SubjectId,
    operator: Seq<u8>,
    attempts: Seq<Digest>,
    resources: ResourceVector,
    root_index: nat,
    other_revision: Digest,
    other_restart: CheckpointDigest,
    other_context: SubjectId,
    other_product: SubjectId,
    other_root: SubjectId,
    other_operator: Seq<u8>,
    other_attempts: Seq<Digest>,
    other_resources: ResourceVector,
    other_index: nat,
)
    requires
        operator.len() <= usize::MAX,
        other_operator.len() <= usize::MAX,
        attempts.len() <= usize::MAX,
        other_attempts.len() <= usize::MAX,
        root_index <= usize::MAX,
        other_index <= usize::MAX,
        ({
            let left = planning::token_bytes(
                revision,
                restart,
                context,
                product,
                root,
                operator,
                attempts,
                resources,
                root_index,
            );
            let right = planning::token_bytes(
                other_revision,
                other_restart,
                other_context,
                other_product,
                other_root,
                other_operator,
                other_attempts,
                other_resources,
                other_index,
            );
            &&& digest::labelled(label, left) == digest::labelled(label, right)
            &&& !integrity::clash(message(label, left), message(label, right))
        }),
    ensures
        revision == other_revision,
        restart == other_restart,
        context == other_context,
        product == other_product,
        root == other_root,
        operator == other_operator,
        attempts == other_attempts,
        resources == other_resources,
        root_index == other_index,
{
    let left = planning::token_bytes(
        revision,
        restart,
        context,
        product,
        root,
        operator,
        attempts,
        resources,
        root_index,
    );
    let right = planning::token_bytes(
        other_revision,
        other_restart,
        other_context,
        other_product,
        other_root,
        other_operator,
        other_attempts,
        other_resources,
        other_index,
    );
    lemma_messages_apart(label, left, right);
    let a8 = codec::put_count(root_index);
    let b8 = codec::put_count(other_index);
    let a7 = types::put_resources(resources) + a8;
    let b7 = types::put_resources(other_resources) + b8;
    let a6 = codec::put_list::<(), Digest>((), attempts) + a7;
    let b6 = codec::put_list::<(), Digest>((), other_attempts) + b7;
    let a5 = codec::put_sized(operator) + a6;
    let b5 = codec::put_sized(other_operator) + b6;
    let a4 = root.0.bytes() + a5;
    let b4 = other_root.0.bytes() + b5;
    let a3 = product.0.bytes() + a4;
    let b3 = other_product.0.bytes() + b4;
    let a2 = context.0.bytes() + a3;
    let b2 = other_context.0.bytes() + b3;
    let a1 = restart.0.bytes() + a2;
    let b1 = other_restart.0.bytes() + b2;
    digest::lemma_parse_digest(revision, a1);
    digest::lemma_parse_digest(other_revision, b1);
    digest::lemma_parse_digest(restart.0, a2);
    digest::lemma_parse_digest(other_restart.0, b2);
    digest::lemma_parse_digest(context.0, a3);
    digest::lemma_parse_digest(other_context.0, b3);
    digest::lemma_parse_digest(product.0, a4);
    digest::lemma_parse_digest(other_product.0, b4);
    digest::lemma_parse_digest(root.0, a5);
    digest::lemma_parse_digest(other_root.0, b5);
    checkpoint::lemma_sized_round_trip(operator, a6);
    checkpoint::lemma_sized_round_trip(other_operator, b6);
    let most: nat = attempts.len() + other_attempts.len();
    codec::lemma_list_round_trip::<(), Digest>((), attempts, most, 1, a7);
    codec::lemma_list_round_trip::<(), Digest>((), other_attempts, most, 1, b7);
    types::lemma_resources_round_trip(resources, a8);
    types::lemma_resources_round_trip(other_resources, b8);
    codec::lemma_parse_u64(root_index as u64, Seq::empty());
    codec::lemma_parse_u64(other_index as u64, Seq::empty());
    assert(a8 + Seq::<u8>::empty() =~= a8);
    assert(b8 + Seq::<u8>::empty() =~= b8);
}

/// The root of a component after a step follows from its root before, from what the step
/// wrote, and from which component it is: two that differ in any of these have different
/// roots after it.
pub proof fn law_roots_follow_steps(
    label: &str,
    previous: Digest,
    delta: Seq<u8>,
    other_label: &str,
    other_previous: Digest,
    other_delta: Seq<u8>,
)
    requires
        digest::label_bytes(label).len() <= usize::MAX,
        digest::label_bytes(other_label).len() <= usize::MAX,
        delta.len() <= usize::MAX,
        other_delta.len() <= usize::MAX,
        checkpoint::extended_root(label, previous, delta) == checkpoint::extended_root(
            other_label,
            other_previous,
            other_delta,
        ),
    ensures
        ({
            ||| digest::label_bytes(label) == digest::label_bytes(other_label) && previous
                == other_previous && delta == other_delta
            ||| integrity::clash(
                message(
                    "reflex-intelligence-component-delta-v1\0",
                    codec::put_sized(digest::label_bytes(label)) + (previous.bytes()
                        + codec::put_sized(delta)),
                ),
                message(
                    "reflex-intelligence-component-delta-v1\0",
                    codec::put_sized(digest::label_bytes(other_label)) + (other_previous.bytes()
                        + codec::put_sized(other_delta)),
                ),
            )
        }),
{
    let a = previous.bytes() + codec::put_sized(delta);
    let b = other_previous.bytes() + codec::put_sized(other_delta);
    let left = codec::put_sized(digest::label_bytes(label)) + a;
    let right = codec::put_sized(digest::label_bytes(other_label)) + b;
    lemma_messages_apart("reflex-intelligence-component-delta-v1\0", left, right);
    if left == right {
        checkpoint::lemma_sized_round_trip(digest::label_bytes(label), a);
        checkpoint::lemma_sized_round_trip(digest::label_bytes(other_label), b);
        digest::lemma_parse_digest(previous, codec::put_sized(delta));
        digest::lemma_parse_digest(other_previous, codec::put_sized(other_delta));
        lemma_sized_apart(delta, other_delta);
    }
}

proof fn lemma_sized_apart(left: Seq<u8>, right: Seq<u8>)
    requires
        left.len() <= usize::MAX,
        right.len() <= usize::MAX,
        codec::put_sized(left) == codec::put_sized(right),
    ensures
        left == right,
{
    checkpoint::lemma_sized_round_trip(left, Seq::empty());
    checkpoint::lemma_sized_round_trip(right, Seq::empty());
    assert(codec::put_sized(left) + Seq::<u8>::empty() =~= codec::put_sized(left));
    assert(codec::put_sized(right) + Seq::<u8>::empty() =~= codec::put_sized(right));
}

/// The head of a chain follows from the head before and from the record: two chains that
/// differ in either have different heads. Each record counts.
pub proof fn law_chains_follow_records(
    root: AppendRoot,
    other: AppendRoot,
    domain: &str,
    record: Seq<u8>,
    other_record: Seq<u8>,
)
    requires
        record.len() <= usize::MAX,
        other_record.len() <= usize::MAX,
        causal::appended(root, domain, record).digest == causal::appended(
            other,
            domain,
            other_record,
        ).digest,
    ensures
        root.count < u64::MAX ==> causal::appended(root, domain, record).count == root.count + 1,
        ({
            let count = causal::appended(root, domain, record).count;
            let other_count = causal::appended(other, domain, other_record).count;
            ||| root.digest == other.digest && record == other_record && count == other_count
            ||| integrity::clash(
                message(
                    domain,
                    root.digest.bytes() + (codec::put_u64(count) + codec::put_sized(record)),
                ),
                message(
                    domain,
                    other.digest.bytes() + (codec::put_u64(other_count) + codec::put_sized(
                        other_record,
                    )),
                ),
            )
        }),
{
    let count = causal::appended(root, domain, record).count;
    let other_count = causal::appended(other, domain, other_record).count;
    let a = codec::put_u64(count) + codec::put_sized(record);
    let b = codec::put_u64(other_count) + codec::put_sized(other_record);
    let left = root.digest.bytes() + a;
    let right = other.digest.bytes() + b;
    lemma_messages_apart(domain, left, right);
    if left == right {
        digest::lemma_parse_digest(root.digest, a);
        digest::lemma_parse_digest(other.digest, b);
        codec::lemma_parse_u64(count, codec::put_sized(record));
        codec::lemma_parse_u64(other_count, codec::put_sized(other_record));
        lemma_sized_apart(record, other_record);
    }
}

/// The root of a ledger follows from all of its commitments: two that differ in any of
/// them have different roots.
pub proof fn law_ledgers_are_told_apart(left: CausalRootState, right: CausalRootState)
    requires
        causal::combined_root(left) == causal::combined_root(right),
    ensures
        ({
            ||| left.receipts == right.receipts && left.settlements == right.settlements
                && left.consequences == right.consequences && left.shadows == right.shadows
            ||| integrity::clash(
                message("reflex-causal-ledger-root-v1\0", causal::combined_bytes(left)),
                message("reflex-causal-ledger-root-v1\0", causal::combined_bytes(right)),
            )
        }),
{
    let p = causal::combined_bytes(left);
    let q = causal::combined_bytes(right);
    lemma_messages_apart("reflex-causal-ledger-root-v1\0", p, q);
    if p == q {
        let a6 = left.shadows.bytes();
        let b6 = right.shadows.bytes();
        let a5 = left.consequences.digest.bytes() + a6;
        let b5 = right.consequences.digest.bytes() + b6;
        let a4 = codec::put_u64(left.consequences.count) + a5;
        let b4 = codec::put_u64(right.consequences.count) + b5;
        let a3 = left.settlements.digest.bytes() + a4;
        let b3 = right.settlements.digest.bytes() + b4;
        let a2 = codec::put_u64(left.settlements.count) + a3;
        let b2 = codec::put_u64(right.settlements.count) + b3;
        let a1 = left.receipts.digest.bytes() + a2;
        let b1 = right.receipts.digest.bytes() + b2;
        codec::lemma_parse_u64(left.receipts.count, a1);
        codec::lemma_parse_u64(right.receipts.count, b1);
        digest::lemma_parse_digest(left.receipts.digest, a2);
        digest::lemma_parse_digest(right.receipts.digest, b2);
        codec::lemma_parse_u64(left.settlements.count, a3);
        codec::lemma_parse_u64(right.settlements.count, b3);
        digest::lemma_parse_digest(left.settlements.digest, a4);
        digest::lemma_parse_digest(right.settlements.digest, b4);
        codec::lemma_parse_u64(left.consequences.count, a5);
        codec::lemma_parse_u64(right.consequences.count, b5);
        digest::lemma_parse_digest(left.consequences.digest, a6);
        digest::lemma_parse_digest(right.consequences.digest, b6);
        digest::lemma_bytes_injective(left.shadows, right.shadows);
    }
}

} // verus!
