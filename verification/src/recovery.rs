//! What has to be verified again before knowledge that was read back can be
//! relied on.
use vstd::prelude::*;

use crate::challenger::KnowledgeChallengerId;
use crate::codec;
use crate::codec::Wire;
use crate::compiler::{CompilerView, KnowledgeCompiler, RecordView};
use crate::consolidation;
use crate::consolidation::{ConsolidationChallenger, DerivedOperator, OperatorStep};
use crate::digest;
use crate::digest::{hash_labelled, write_digest, Digest, DIGEST_BYTES};
use crate::knowledge;
use crate::knowledge::{
    recovery_obligation, retained_consolidation, retained_revision_obligation,
    KnowledgeObligationWork, KnowledgeStatus, WorkItemView,
};
use crate::resident;
use crate::types::{IntelligenceError, IntelligenceLimits, SubjectId};

verus! {

// ---------------------------------------------------------------------------
// What is to be recovered
// ---------------------------------------------------------------------------
/// One thing to be verified, and where it comes from.
#[verifier::ext_equal]
pub struct SourceView {
    pub challenger: KnowledgeChallengerId,
    pub record_index: nat,
    pub obligation_index: nat,
    pub item: WorkItemView,
}

/// The record is relied on and has a consolidation.
pub open spec fn relied_on(record: RecordView) -> bool {
    &&& record.status is Verified || record.status is Promoted
    &&& knowledge::consolidation_of(record.challenger) is Some
}

/// Everything to be verified of some operators of a product.
pub open spec fn operator_sources(
    challenger: KnowledgeChallengerId,
    record_index: nat,
    product: Digest,
    operators: Seq<consolidation::OperatorView>,
) -> Seq<SourceView> {
    Seq::new(
        operators.len(),
        |i: int|
            SourceView {
                challenger,
                record_index,
                obligation_index: i as nat,
                item: knowledge::item_for(product, operators[i]),
            },
    )
}

pub open spec fn record_source(records: Seq<RecordView>, index: int) -> Seq<SourceView> {
    let record = records[index];
    match knowledge::consolidation_of(record.challenger) {
        Some(consolidation) => if relied_on(record) {
            operator_sources(
                record.challenger.id,
                index as nat,
                consolidation.product,
                consolidation.operators,
            )
        } else {
            Seq::empty()
        },
        None => Seq::empty(),
    }
}

/// Everything to be verified of the first `count` records.
pub open spec fn record_sources(records: Seq<RecordView>, count: nat) -> Seq<SourceView>
    decreases count,
{
    if count == 0 {
        Seq::empty()
    } else {
        record_sources(records, (count - 1) as nat) + record_source(records, count - 1)
    }
}

/// A record that is relied on and gave this product.
pub open spec fn gave(product: Digest) -> spec_fn(RecordView) -> bool {
    |record: RecordView|
        relied_on(record) && knowledge::consolidation_of(record.challenger)->Some_0.product
            == product
}

/// Some record that is relied on gave the product.
pub open spec fn covered(records: Seq<RecordView>, product: Digest) -> bool {
    exists|i: int| 0 <= i < records.len() && gave(product)(#[trigger] records[i])
}

pub open spec fn revision_source(value: CompilerView, index: int) -> Seq<SourceView> {
    let revision = value.active.revisions[index];
    if covered(value.records, revision.product) {
        Seq::empty()
    } else {
        operator_sources(
            KnowledgeChallengerId(revision.product),
            value.records.len() + index as nat,
            revision.product,
            revision.operators,
        )
    }
}

/// Everything to be verified of the first `count` revisions that no record
/// covers.
pub open spec fn revision_sources(value: CompilerView, count: nat) -> Seq<SourceView>
    decreases count,
{
    if count == 0 {
        Seq::empty()
    } else {
        revision_sources(value, (count - 1) as nat) + revision_source(value, count - 1)
    }
}

/// Everything to be verified: of the records, then of the retained revisions that
/// no record covers.
pub open spec fn sources(value: CompilerView) -> Seq<SourceView> {
    record_sources(value.records, value.records.len()) + revision_sources(
        value,
        value.active.revisions.len(),
    )
}

/// The obligations of a challenger are those of its consolidation.
pub open spec fn obligations_match(record: RecordView) -> bool {
    relied_on(record) ==> knowledge::item_subjects(
        knowledge::items_for(knowledge::consolidation_of(record.challenger)->Some_0),
    ) == record.challenger.obligations
}

/// How many things the limits let be recovered.
pub open spec fn recovery_limit(limits: IntelligenceLimits) -> nat {
    limits.maximum_opportunities as nat * 16 * 64
}

/// How many things are to be recovered, unless there are too many.
pub open spec fn counted(value: CompilerView, limits: IntelligenceLimits) -> Result<
    nat,
    IntelligenceError,
> {
    if recovery_limit(limits) > usize::MAX || sources(value).len() > usize::MAX {
        Err(IntelligenceError::ResourceOverflow)
    } else if sources(value).len() > recovery_limit(limits) {
        Err(IntelligenceError::CapacityExceeded)
    } else {
        Ok(sources(value).len())
    }
}

// ---------------------------------------------------------------------------
// Bindings
// ---------------------------------------------------------------------------
/// The bytes that a binding is named after.
pub open spec fn binding_bytes(
    core_revision: Digest,
    knowledge_root: Digest,
    source: SourceView,
) -> Seq<u8> {
    core_revision.bytes() + (knowledge_root.bytes() + (source.challenger.0.bytes() + (
    codec::put_count(source.record_index) + (codec::put_count(source.obligation_index) + (
    source.item.subject.0.bytes() + (codec::put_list::<(), OperatorStep>((), source.item.steps)
        + codec::put_list::<(), Digest>((), source.item.attempts)))))))
}

/// The name that ties a thing to be verified to its place.
pub open spec fn binding(
    core_revision: Digest,
    knowledge_root: Digest,
    source: SourceView,
) -> SubjectId {
    SubjectId(
        digest::labelled(
            "reflex-knowledge-recovery-obligation-v1\0",
            binding_bytes(core_revision, knowledge_root, source),
        ),
    )
}

/// One thing to be verified, tied to its place.
#[verifier::ext_equal]
pub struct ObligationView {
    pub binding: SubjectId,
    pub work: WorkItemView,
}

/// Everything to be verified, tied to its place.
pub open spec fn bound(
    core_revision: Digest,
    knowledge_root: Digest,
    sources: Seq<SourceView>,
) -> Seq<ObligationView> {
    Seq::new(
        sources.len(),
        |i: int|
            ObligationView {
                binding: binding(core_revision, knowledge_root, sources[i]),
                work: sources[i].item,
            },
    )
}

/// The bindings of some obligations, one after the other.
pub open spec fn binding_run(obligations: Seq<ObligationView>) -> Seq<u8>
    decreases obligations.len(),
{
    if obligations.len() == 0 {
        Seq::empty()
    } else {
        binding_run(obligations.drop_last()) + obligations.last().binding.0.bytes()
    }
}

/// The name of a manifest.
pub open spec fn manifest_identity(
    core_revision: Digest,
    knowledge_root: Digest,
    obligations: Seq<ObligationView>,
) -> SubjectId {
    SubjectId(
        digest::labelled(
            "reflex-knowledge-recovery-manifest-v1\0",
            core_revision.bytes() + (knowledge_root.bytes() + (codec::put_count(obligations.len())
                + binding_run(obligations))),
        ),
    )
}

/// Everything to be verified of a core, under a name that binds it.
#[verifier::ext_equal]
pub struct ManifestView {
    pub core_revision: Digest,
    pub knowledge_root: Digest,
    pub identity: SubjectId,
    pub obligations: Seq<ObligationView>,
}

/// Some revision that no record covers has no place that can be counted.
pub open spec fn misplaced(value: CompilerView, index: int) -> bool {
    !covered(value.records, value.active.revisions[index].product) && value.records.len() + index
        > usize::MAX
}

/// The manifest of a compiler.
pub open spec fn manifest_of(
    value: CompilerView,
    core_revision: Digest,
    knowledge_root: Digest,
    limits: IntelligenceLimits,
) -> Result<ManifestView, IntelligenceError> {
    let obligations = bound(core_revision, knowledge_root, sources(value));
    match counted(value, limits) {
        Err(error) => Err(error),
        Ok(_) => if exists|i: int|
            0 <= i < value.records.len() && !obligations_match(#[trigger] value.records[i]) {
            Err(IntelligenceError::InvalidKnowledge)
        } else if exists|i: int|
            0 <= i < value.active.revisions.len() && #[trigger] misplaced(value, i) {
            Err(IntelligenceError::ResourceOverflow)
        } else {
            Ok(
                ManifestView {
                    core_revision,
                    knowledge_root,
                    identity: manifest_identity(core_revision, knowledge_root, obligations),
                    obligations,
                },
            )
        },
    }
}

// ---------------------------------------------------------------------------
// Memory
// ---------------------------------------------------------------------------
/// The bytes of some steps.
pub open spec fn step_bytes(steps: Seq<Seq<u8>>) -> nat
    decreases steps.len(),
{
    if steps.len() == 0 {
        0
    } else {
        step_bytes(steps.drop_last()) + steps.last().len()
    }
}

/// The memory that steps and attempts take.
pub open spec fn shape_bytes(steps: Seq<Seq<u8>>, attempts: nat) -> nat {
    steps.len() * vstd::layout::size_of::<OperatorStep>() + step_bytes(steps) + attempts
        * (DIGEST_BYTES as nat)
}

/// The memory that one thing to be verified takes beside its own place.
pub open spec fn item_bytes(item: WorkItemView) -> nat {
    shape_bytes(item.steps, item.attempts.len())
}

/// The memory that the things to be verified take beside their own places.
pub open spec fn source_bytes(sources: Seq<SourceView>) -> nat
    decreases sources.len(),
{
    if sources.len() == 0 {
        0
    } else {
        source_bytes(sources.drop_last()) + item_bytes(sources.last().item)
    }
}

/// The memory that a manifest takes.
pub open spec fn manifest_bytes(sources: Seq<SourceView>) -> nat {
    sources.len() * vstd::layout::size_of::<KnowledgeRecoveryObligation>() + source_bytes(sources)
}

proof fn lemma_source_bytes_join(left: Seq<SourceView>, right: Seq<SourceView>)
    ensures
        source_bytes(left + right) == source_bytes(left) + source_bytes(right),
    decreases right.len(),
{
    if right.len() == 0 {
        assert(left + right =~= left);
    } else {
        assert((left + right).drop_last() =~= left + right.drop_last());
        lemma_source_bytes_join(left, right.drop_last());
    }
}

proof fn lemma_step_bytes_join(left: Seq<Seq<u8>>, right: Seq<Seq<u8>>)
    ensures
        step_bytes(left + right) == step_bytes(left) + step_bytes(right),
    decreases right.len(),
{
    if right.len() == 0 {
        assert(left + right =~= left);
    } else {
        assert((left + right).drop_last() =~= left + right.drop_last());
        lemma_step_bytes_join(left, right.drop_last());
    }
}

#[derive(Clone, Debug, PartialEq, Eq)]
pub struct KnowledgeRecoveryObligation {
    binding: SubjectId,
    work: KnowledgeObligationWork,
}

impl View for KnowledgeRecoveryObligation {
    type V = ObligationView;

    closed spec fn view(&self) -> ObligationView {
        ObligationView { binding: self.binding, work: self.work@ }
    }
}

impl KnowledgeRecoveryObligation {
    pub fn work(&self) -> (work: &KnowledgeObligationWork)
        ensures
            work@ == self@.work,
    {
        &self.work
    }
}

#[derive(Clone, Debug, PartialEq, Eq)]
pub struct KnowledgeRecoveryManifest {
    core_revision: Digest,
    knowledge_root: Digest,
    identity: SubjectId,
    obligations: Vec<KnowledgeRecoveryObligation>,
}

impl View for KnowledgeRecoveryManifest {
    type V = ManifestView;

    closed spec fn view(&self) -> ManifestView {
        ManifestView {
            core_revision: self.core_revision,
            knowledge_root: self.knowledge_root,
            identity: self.identity,
            obligations: codec::views(self.obligations@),
        }
    }
}

fn recovery_obligation_binding(
    core_revision: Digest,
    knowledge_root: Digest,
    challenger: KnowledgeChallengerId,
    record_index: usize,
    obligation_index: usize,
    work: &KnowledgeObligationWork,
) -> (name: SubjectId)
    ensures
        name == binding(
            core_revision,
            knowledge_root,
            (SourceView {
                challenger,
                record_index: record_index as nat,
                obligation_index: obligation_index as nat,
                item: work@,
            }),
        ),
{
    let mut bytes: Vec<u8> = Vec::new();
    write_digest(core_revision, &mut bytes);
    write_digest(knowledge_root, &mut bytes);
    write_digest(challenger.0, &mut bytes);
    codec::write_count(record_index, &mut bytes);
    codec::write_count(obligation_index, &mut bytes);
    write_digest(work.subject().0, &mut bytes);
    codec::write_list::<(), OperatorStep>(&(), work.operator_steps(), &mut bytes);
    codec::write_list::<(), Digest>(&(), work.supporting_attempts(), &mut bytes);
    proof {
        assert(codec::views(work@.attempts) =~= work@.attempts);
        assert(bytes@ =~= binding_bytes(
            core_revision,
            knowledge_root,
            (SourceView {
                challenger,
                record_index: record_index as nat,
                obligation_index: obligation_index as nat,
                item: work@,
            }),
        ));
    }
    SubjectId(hash_labelled("reflex-knowledge-recovery-obligation-v1\0", bytes.as_slice()))
}

fn recovery_manifest_identity(
    core_revision: Digest,
    knowledge_root: Digest,
    obligations: &[KnowledgeRecoveryObligation],
) -> (name: SubjectId)
    ensures
        name == manifest_identity(core_revision, knowledge_root, codec::views(obligations@)),
{
    let ghost all = codec::views(obligations@);
    let mut bytes: Vec<u8> = Vec::new();
    write_digest(core_revision, &mut bytes);
    write_digest(knowledge_root, &mut bytes);
    codec::write_count(obligations.len(), &mut bytes);
    let ghost start = bytes@;
    let mut index: usize = 0;
    assert(all.take(0) =~= Seq::empty());
    assert(start + binding_run(all.take(0)) =~= start);
    while index < obligations.len()
        invariant
            index <= obligations@.len(),
            all == codec::views(obligations@),
            bytes@ == start + binding_run(all.take(index as int)),
        decreases obligations@.len() - index,
    {
        assert(all.take(index + 1).drop_last() =~= all.take(index as int));
        assert(all.take(index + 1).last() == obligations@[index as int]@);
        write_digest(obligations[index].binding.0, &mut bytes);
        proof {
            codec::lemma_concat_associates(
                start,
                binding_run(all.take(index as int)),
                all[index as int].binding.0.bytes(),
            );
        }
        index = index + 1;
    }
    proof {
        assert(all.take(all.len() as int) =~= all);
        assert(bytes@ =~= core_revision.bytes() + (knowledge_root.bytes() + (codec::put_count(
            all.len(),
        ) + binding_run(all))));
    }
    SubjectId(hash_labelled("reflex-knowledge-recovery-manifest-v1\0", bytes.as_slice()))
}

impl ManifestView {
    /// It is about this revision and this root, and its name says so.
    pub open spec fn about(self, core_revision: Digest, knowledge_root: Digest) -> bool {
        &&& self.core_revision == core_revision
        &&& self.knowledge_root == knowledge_root
        &&& self.identity == manifest_identity(core_revision, knowledge_root, self.obligations)
    }
}

/// The memory that some obligations take beside their own places.
pub open spec fn obligation_bytes(obligations: Seq<ObligationView>) -> nat
    decreases obligations.len(),
{
    if obligations.len() == 0 {
        0
    } else {
        obligation_bytes(obligations.drop_last()) + item_bytes(obligations.last().work)
    }
}

/// The memory that a manifest takes.
pub open spec fn memory_of(manifest: ManifestView) -> nat {
    manifest.obligations.len() * vstd::layout::size_of::<KnowledgeRecoveryObligation>()
        + obligation_bytes(manifest.obligations)
}

pub fn work_bytes(work: &KnowledgeObligationWork) -> (bytes: usize)
    ensures
        bytes == resident::capped(item_bytes(work@)),
{
    let steps = work.operator_steps();
    let ghost all = work@.steps;
    let mut total: usize = resident::bytes_for::<OperatorStep>(steps.len());
    let ghost places = all.len() * vstd::layout::size_of::<OperatorStep>();
    let mut index: usize = 0;
    assert(all.take(0) =~= Seq::empty());
    while index < steps.len()
        invariant
            index <= steps@.len(),
            all == codec::views(steps@),
            all == work@.steps,
            places == all.len() * vstd::layout::size_of::<OperatorStep>(),
            total == resident::capped(places + step_bytes(all.take(index as int))),
        decreases steps@.len() - index,
    {
        assert(all.take(index + 1).drop_last() =~= all.take(index as int));
        assert(all.take(index + 1).last() == steps@[index as int]@);
        total = total.saturating_add(steps[index].bytes.len());
        index = index + 1;
    }
    assert(all.take(all.len() as int) =~= all);
    total.saturating_add(
        codec::saturating_multiply(work.supporting_attempts().len(), DIGEST_BYTES),
    )
}

impl KnowledgeRecoveryManifest {
    /// The memory that the manifest takes, or the largest count.
    pub fn heap_bytes(&self) -> (bytes: usize)
        ensures
            bytes == resident::capped(memory_of(self@)),
    {
        let ghost all = self@.obligations;
        let mut total: usize = resident::bytes_for::<KnowledgeRecoveryObligation>(
            self.obligations.len(),
        );
        let ghost places = all.len() * vstd::layout::size_of::<KnowledgeRecoveryObligation>();
        let mut index: usize = 0;
        assert(all.take(0) =~= Seq::empty());
        while index < self.obligations.len()
            invariant
                index <= self.obligations@.len(),
                all == codec::views(self.obligations@),
                places == all.len() * vstd::layout::size_of::<KnowledgeRecoveryObligation>(),
                total == resident::capped(places + obligation_bytes(all.take(index as int))),
            decreases self.obligations@.len() - index,
        {
            assert(all.take(index + 1).drop_last() =~= all.take(index as int));
            assert(all.take(index + 1).last() == self.obligations@[index as int]@);
            total = total.saturating_add(work_bytes(&self.obligations[index].work));
            index = index + 1;
        }
        assert(all.take(all.len() as int) =~= all);
        total
    }

    pub fn obligation_count(&self) -> (count: usize)
        ensures
            count == self@.obligations.len(),
    {
        self.obligations.len()
    }

    pub fn obligations(&self) -> (obligations: &[KnowledgeRecoveryObligation])
        ensures
            codec::views(obligations@) == self@.obligations,
    {
        self.obligations.as_slice()
    }

    pub fn matches(&self, core_revision: Digest, knowledge_root: Digest) -> (result: bool)
        ensures
            result == self@.about(core_revision, knowledge_root),
    {
        self.core_revision == core_revision && self.knowledge_root == knowledge_root
            && self.identity == recovery_manifest_identity(
            core_revision,
            knowledge_root,
            self.obligations.as_slice(),
        )
    }
}

// ---------------------------------------------------------------------------
// Recovery of a compiler
// ---------------------------------------------------------------------------
proof fn lemma_record_sources_grow(records: Seq<RecordView>, count: nat, whole: nat)
    requires
        count <= whole,
    ensures
        record_sources(records, count).len() <= record_sources(records, whole).len(),
        source_bytes(record_sources(records, count)) <= source_bytes(
            record_sources(records, whole),
        ),
    decreases whole - count,
{
    if count < whole {
        lemma_record_sources_grow(records, count, (whole - 1) as nat);
        lemma_source_bytes_join(
            record_sources(records, (whole - 1) as nat),
            record_source(records, whole - 1),
        );
    }
}

proof fn lemma_revision_sources_grow(value: CompilerView, count: nat, whole: nat)
    requires
        count <= whole,
    ensures
        revision_sources(value, count).len() <= revision_sources(value, whole).len(),
        source_bytes(revision_sources(value, count)) <= source_bytes(
            revision_sources(value, whole),
        ),
    decreases whole - count,
{
    if count < whole {
        lemma_revision_sources_grow(value, count, (whole - 1) as nat);
        lemma_source_bytes_join(
            revision_sources(value, (whole - 1) as nat),
            revision_source(value, whole - 1),
        );
    }
}

/// The sources of a prefix of the records are no more than all sources.
proof fn lemma_records_within(value: CompilerView, count: nat)
    requires
        count <= value.records.len(),
    ensures
        record_sources(value.records, count).len() <= sources(value).len(),
        source_bytes(record_sources(value.records, count)) <= source_bytes(sources(value)),
{
    let records = record_sources(value.records, value.records.len());
    lemma_record_sources_grow(value.records, count, value.records.len());
    lemma_source_bytes_join(records, revision_sources(value, value.active.revisions.len()));
}

/// The sources of the records and of a prefix of the revisions are no more than
/// all sources.
proof fn lemma_revisions_within(value: CompilerView, count: nat)
    requires
        count <= value.active.revisions.len(),
    ensures
        record_sources(value.records, value.records.len()).len() + revision_sources(
            value,
            count,
        ).len() <= sources(value).len(),
        source_bytes(record_sources(value.records, value.records.len())) + source_bytes(
            revision_sources(value, count),
        ) <= source_bytes(sources(value)),
{
    let records = record_sources(value.records, value.records.len());
    let revisions = revision_sources(value, value.active.revisions.len());
    lemma_revision_sources_grow(value, count, value.active.revisions.len());
    lemma_source_bytes_join(records, revisions);
}

/// The memory of one operator's obligation, unless it cannot be counted.
fn operator_bytes(operator: &DerivedOperator) -> (bytes: Option<usize>)
    ensures
        match bytes {
            Some(bytes) => bytes == shape_bytes(operator@.steps, operator@.support.len()),
            None => shape_bytes(operator@.steps, operator@.support.len()) > usize::MAX,
        },
{
    let steps = operator.steps();
    let ghost all = operator@.steps;
    assert(all.len() == steps@.len());
    let mut total: usize = match steps.len().checked_mul(core::mem::size_of::<OperatorStep>()) {
        Some(total) => total,
        None => return None,
    };
    let ghost places = total as nat;
    let mut index: usize = 0;
    assert(all.take(0) =~= Seq::empty());
    while index < steps.len()
        invariant
            index <= steps@.len(),
            all == codec::views(steps@),
            all == operator@.steps,
            places == all.len() * vstd::layout::size_of::<OperatorStep>(),
            total == places + step_bytes(all.take(index as int)),
        decreases steps@.len() - index,
    {
        assert(all.take(index + 1).drop_last() =~= all.take(index as int));
        assert(all.take(index + 1).last() == steps@[index as int]@);
        total =
        match total.checked_add(steps[index].bytes.len()) {
            Some(total) => total,
            None => {
                proof {
                    lemma_step_bytes_join(all.take(index + 1), all.skip(index + 1));
                    assert(all.take(index + 1) + all.skip(index + 1) =~= all);
                }
                return None;
            },
        };
        index = index + 1;
    }
    assert(all.take(all.len() as int) =~= all);
    let attempts: usize = match operator.support().len().checked_mul(DIGEST_BYTES) {
        Some(attempts) => attempts,
        None => return None,
    };
    total.checked_add(attempts)
}

/// The memory of the obligations of some operators on top of what was counted.
fn add_operator_bytes(
    start: usize,
    challenger: Ghost<KnowledgeChallengerId>,
    record_index: Ghost<nat>,
    product: Ghost<Digest>,
    operators: &[DerivedOperator],
) -> (bytes: Option<usize>)
    ensures
        match bytes {
            Some(bytes) => bytes == start + source_bytes(
                operator_sources(
                    challenger@,
                    record_index@,
                    product@,
                    codec::views(operators@),
                ),
            ),
            None => start + source_bytes(
                operator_sources(
                    challenger@,
                    record_index@,
                    product@,
                    codec::views(operators@),
                ),
            ) > usize::MAX,
        },
{
    let ghost all = operator_sources(
        challenger@,
        record_index@,
        product@,
        codec::views(operators@),
    );
    let mut total: usize = start;
    let mut index: usize = 0;
    assert(all.take(0) =~= Seq::empty());
    while index < operators.len()
        invariant
            index <= operators@.len(),
            all == operator_sources(
                challenger@,
                record_index@,
                product@,
                codec::views(operators@),
            ),
            total == start + source_bytes(all.take(index as int)),
        decreases operators@.len() - index,
    {
        let ghost item = knowledge::item_for(product@, operators@[index as int]@);
        assert(all.take(index + 1).drop_last() =~= all.take(index as int));
        assert(all.take(index + 1).last().item == item);
        proof {
            lemma_source_bytes_join(all.take(index + 1), all.skip(index + 1));
            assert(all.take(index + 1) + all.skip(index + 1) =~= all);
        }
        let more: usize = match operator_bytes(&operators[index]) {
            Some(more) => more,
            None => return None,
        };
        assert(more == item_bytes(item));
        total =
        match total.checked_add(more) {
            Some(total) => total,
            None => return None,
        };
        index = index + 1;
    }
    assert(all.take(all.len() as int) =~= all);
    Some(total)
}

impl KnowledgeCompiler {
    /// The consolidation of a record that is relied on.
    fn relied_consolidation(&self, index: usize) -> (result: Option<ConsolidationChallenger>)
        requires
            index < self@.records.len(),
        ensures
            match result {
                Some(consolidation) => relied_on(self@.records[index as int])
                    && knowledge::consolidation_of(self@.records[index as int].challenger) == Some(
                    consolidation@,
                ),
                None => !relied_on(self@.records[index as int]),
            },
    {
        let records = self.records();
        assert(self@.records.len() == records@.len());
        assert(self@.records[index as int] == records@[index as int]@);
        let status = records[index].status();
        if status != KnowledgeStatus::Verified && status != KnowledgeStatus::Promoted {
            return None;
        }
        retained_consolidation(records[index].challenger())
    }

    fn covers(&self, product: Digest) -> (result: bool)
        ensures
            result == covered(self@.records, product),
    {
        let count: usize = self.records().len();
        assert(self@.records.len() == count);
        let mut index: usize = 0;
        while index < count
            invariant
                index <= count,
                self@.records.len() == count,
                forall|i: int| 0 <= i < index ==> !gave(product)(#[trigger] self@.records[i]),
            decreases count - index,
        {
            match self.relied_consolidation(index) {
                Some(consolidation) => {
                    if consolidation.product == product {
                        assert(gave(product)(self@.records[index as int]));
                        return true;
                    }
                },
                None => {},
            }
            index = index + 1;
        }
        false
    }

    fn recovery_obligation_count(&self, limits: IntelligenceLimits) -> (result: Result<
        usize,
        IntelligenceError,
    >)
        ensures
            match result {
                Ok(count) => counted(self@, limits) == Ok::<nat, IntelligenceError>(count as nat),
                Err(error) => counted(self@, limits) == Err::<nat, IntelligenceError>(error),
            },
    {
        let records_limit: usize = match limits.maximum_opportunities.checked_mul(16) {
            Some(limit) => limit,
            None => return Err(IntelligenceError::ResourceOverflow),
        };
        let maximum: usize = match records_limit.checked_mul(64) {
            Some(limit) => limit,
            None => return Err(IntelligenceError::ResourceOverflow),
        };
        let ghost value = self@;
        let records: usize = self.records().len();
        let mut count: usize = 0;
        let mut index: usize = 0;
        assert(value.records.len() == records);
        while index < records
            invariant
                index <= records,
                value == self@,
                value.records.len() == records,
                limits.maximum_opportunities * 16 * 64 <= usize::MAX,
                count == record_sources(value.records, index as nat).len(),
            decreases records - index,
        {
            proof {
                lemma_records_within(value, (index + 1) as nat);
            }
            match self.relied_consolidation(index) {
                Some(consolidation) => {
                    assert(consolidation@.operators.len() == consolidation.operators@.len());
                    count =
                    match count.checked_add(consolidation.operators.len()) {
                        Some(count) => count,
                        None => return Err(IntelligenceError::ResourceOverflow),
                    };
                },
                None => {},
            }
            index = index + 1;
        }
        let revisions = self.active().retained_revisions();
        let mut place: usize = 0;
        assert(value.active.revisions.len() == revisions@.len());
        while place < revisions.len()
            invariant
                place <= revisions@.len(),
                value == self@,
                value.records.len() == records,
                codec::views(revisions@) == value.active.revisions,
                limits.maximum_opportunities * 16 * 64 <= usize::MAX,
                count == record_sources(value.records, records as nat).len() + revision_sources(
                    value,
                    place as nat,
                ).len(),
            decreases revisions@.len() - place,
        {
            proof {
                assert(value.active.revisions.len() == revisions@.len());
                assert(value.active.revisions[place as int] == revisions@[place as int]@);
                lemma_revisions_within(value, (place + 1) as nat);
            }
            if !self.covers(revisions[place].product) {
                count =
                match count.checked_add(revisions[place].operators().len()) {
                    Some(count) => count,
                    None => return Err(IntelligenceError::ResourceOverflow),
                };
            }
            place = place + 1;
        }
        if count > maximum {
            return Err(IntelligenceError::CapacityExceeded);
        }
        Ok(count)
    }

    /// The memory that the manifest will take.
    pub fn recovery_manifest_resident_bytes(&self, limits: IntelligenceLimits) -> (result: Result<
        usize,
        IntelligenceError,
    >)
        ensures
            result == match counted(self@, limits) {
                Err(error) => Err::<usize, IntelligenceError>(error),
                Ok(_) => if manifest_bytes(sources(self@)) > usize::MAX {
                    Err(IntelligenceError::ResourceOverflow)
                } else {
                    Ok(manifest_bytes(sources(self@)) as usize)
                },
            },
    {
        let count: usize = match self.recovery_obligation_count(limits) {
            Ok(count) => count,
            Err(error) => return Err(error),
        };
        let ghost value = self@;
        let mut bytes: usize = match count.checked_mul(
            core::mem::size_of::<KnowledgeRecoveryObligation>(),
        ) {
            Some(bytes) => bytes,
            None => return Err(IntelligenceError::ResourceOverflow),
        };
        let ghost places = bytes as nat;
        let records: usize = self.records().len();
        let mut index: usize = 0;
        assert(value.records.len() == records);
        while index < records
            invariant
                index <= records,
                value == self@,
                value.records.len() == records,
                counted(value, limits) is Ok,
                places == sources(value).len() * vstd::layout::size_of::<
                    KnowledgeRecoveryObligation,
                >(),
                bytes == places + source_bytes(record_sources(value.records, index as nat)),
            decreases records - index,
        {
            proof {
                lemma_records_within(value, (index + 1) as nat);
                lemma_source_bytes_join(
                    record_sources(value.records, index as nat),
                    record_source(value.records, index as int),
                );
            }
            match self.relied_consolidation(index) {
                Some(consolidation) => {
                    let ghost id = value.records[index as int].challenger.id;
                    bytes =
                    match add_operator_bytes(
                        bytes,
                        Ghost(id),
                        Ghost(index as nat),
                        Ghost(consolidation.product),
                        consolidation.operators.as_slice(),
                    ) {
                        Some(bytes) => bytes,
                        None => return Err(IntelligenceError::ResourceOverflow),
                    };
                },
                None => {},
            }
            index = index + 1;
        }
        let revisions = self.active().retained_revisions();
        let mut place: usize = 0;
        assert(value.active.revisions.len() == revisions@.len());
        while place < revisions.len()
            invariant
                place <= revisions@.len(),
                value == self@,
                value.records.len() == records,
                counted(value, limits) is Ok,
                codec::views(revisions@) == value.active.revisions,
                places == sources(value).len() * vstd::layout::size_of::<
                    KnowledgeRecoveryObligation,
                >(),
                bytes == places + source_bytes(record_sources(value.records, records as nat))
                    + source_bytes(revision_sources(value, place as nat)),
            decreases revisions@.len() - place,
        {
            proof {
                assert(value.active.revisions.len() == revisions@.len());
                assert(value.active.revisions[place as int] == revisions@[place as int]@);
                lemma_revisions_within(value, (place + 1) as nat);
                lemma_source_bytes_join(
                    revision_sources(value, place as nat),
                    revision_source(value, place as int),
                );
            }
            let product = revisions[place].product;
            if !self.covers(product) {
                bytes =
                match add_operator_bytes(
                    bytes,
                    Ghost(KnowledgeChallengerId(product)),
                    Ghost((records + place) as nat),
                    Ghost(product),
                    revisions[place].operators(),
                ) {
                    Some(bytes) => bytes,
                    None => return Err(IntelligenceError::ResourceOverflow),
                };
            }
            place = place + 1;
        }
        proof {
            lemma_source_bytes_join(
                record_sources(value.records, records as nat),
                revision_sources(value, revisions@.len()),
            );
        }
        Ok(bytes)
    }

    /// Everything to be verified again, bound to a revision and to a root.
    pub fn recovery_manifest(
        &self,
        core_revision: Digest,
        knowledge_root: Digest,
        limits: IntelligenceLimits,
    ) -> (result: Result<KnowledgeRecoveryManifest, IntelligenceError>)
        ensures
            match result {
                Ok(manifest) => manifest_of(self@, core_revision, knowledge_root, limits) == Ok::<
                    ManifestView,
                    IntelligenceError,
                >(manifest@),
                Err(error) => manifest_of(self@, core_revision, knowledge_root, limits) == Err::<
                    ManifestView,
                    IntelligenceError,
                >(error),
            },
    {
        match self.recovery_obligation_count(limits) {
            Ok(_) => {},
            Err(error) => return Err(error),
        }
        let ghost value = self@;
        let mut obligations: Vec<KnowledgeRecoveryObligation> = Vec::new();
        let records: usize = self.records().len();
        let mut index: usize = 0;
        assert(value.records.len() == records);
        assert(codec::views(obligations@) =~= bound(
            core_revision,
            knowledge_root,
            record_sources(value.records, 0),
        ));
        while index < records
            invariant
                index <= records,
                value == self@,
                value.records.len() == records,
                counted(value, limits) is Ok,
                forall|i: int| 0 <= i < index ==> obligations_match(#[trigger] value.records[i]),
                codec::views(obligations@) == bound(
                    core_revision,
                    knowledge_root,
                    record_sources(value.records, index as nat),
                ),
            decreases records - index,
        {
            match self.relied_consolidation(index) {
                Some(consolidation) => {
                    let all = self.records();
                    assert(value.records[index as int] == all@[index as int]@);
                    let challenger = all[index].challenger();
                    if !subjects_match(&consolidation, challenger.obligations()) {
                        assert(!obligations_match(value.records[index as int]));
                        return Err(IntelligenceError::InvalidKnowledge);
                    }
                    bind_operators(
                        core_revision,
                        knowledge_root,
                        challenger.id(),
                        index,
                        consolidation.product,
                        consolidation.operators.as_slice(),
                        &mut obligations,
                    );
                },
                None => {},
            }
            proof {
                lemma_bound_join(
                    core_revision,
                    knowledge_root,
                    record_sources(value.records, index as nat),
                    record_source(value.records, index as int),
                );
                assert(bound(core_revision, knowledge_root, Seq::empty()) =~= Seq::empty());
                assert(codec::views(obligations@) =~= bound(
                    core_revision,
                    knowledge_root,
                    record_sources(value.records, (index + 1) as nat),
                ));
            }
            index = index + 1;
        }
        let revisions = self.active().retained_revisions();
        let ghost first = record_sources(value.records, records as nat);
        let mut place: usize = 0;
        assert(value.active.revisions.len() == revisions@.len());
        assert(first + revision_sources(value, 0) =~= first);
        while place < revisions.len()
            invariant
                place <= revisions@.len(),
                value == self@,
                value.records.len() == records,
                counted(value, limits) is Ok,
                codec::views(revisions@) == value.active.revisions,
                first == record_sources(value.records, records as nat),
                forall|i: int|
                    0 <= i < records ==> obligations_match(#[trigger] value.records[i]),
                forall|i: int| 0 <= i < place ==> !#[trigger] misplaced(value, i),
                codec::views(obligations@) == bound(
                    core_revision,
                    knowledge_root,
                    first + revision_sources(value, place as nat),
                ),
            decreases revisions@.len() - place,
        {
            let ghost before = first + revision_sources(value, place as nat);
            proof {
                assert(value.active.revisions.len() == revisions@.len());
                assert(value.active.revisions[place as int] == revisions@[place as int]@);
            }
            let product = revisions[place].product;
            if !self.covers(product) {
                let record_index: usize = match records.checked_add(place) {
                    Some(index) => index,
                    None => {
                        assert(misplaced(value, place as int));
                        return Err(IntelligenceError::ResourceOverflow);
                    },
                };
                bind_operators(
                    core_revision,
                    knowledge_root,
                    KnowledgeChallengerId(product),
                    record_index,
                    product,
                    revisions[place].operators(),
                    &mut obligations,
                );
            }
            proof {
                let more = revision_source(value, place as int);
                lemma_bound_join(core_revision, knowledge_root, before, more);
                assert(bound(core_revision, knowledge_root, Seq::empty()) =~= Seq::empty());
                assert(first + revision_sources(value, (place + 1) as nat) =~= before + more);
                assert(codec::views(obligations@) =~= bound(
                    core_revision,
                    knowledge_root,
                    first + revision_sources(value, (place + 1) as nat),
                ));
            }
            place = place + 1;
        }
        let identity = recovery_manifest_identity(
            core_revision,
            knowledge_root,
            obligations.as_slice(),
        );
        Ok(KnowledgeRecoveryManifest { core_revision, knowledge_root, identity, obligations })
    }
}

proof fn lemma_bound_join(
    core_revision: Digest,
    knowledge_root: Digest,
    left: Seq<SourceView>,
    right: Seq<SourceView>,
)
    ensures
        bound(core_revision, knowledge_root, left + right) == bound(
            core_revision,
            knowledge_root,
            left,
        ) + bound(core_revision, knowledge_root, right),
{
    assert(bound(core_revision, knowledge_root, left + right) =~= bound(
        core_revision,
        knowledge_root,
        left,
    ) + bound(core_revision, knowledge_root, right));
}

/// Binds what is to be verified of some operators.
fn bind_operators(
    core_revision: Digest,
    knowledge_root: Digest,
    challenger: KnowledgeChallengerId,
    record_index: usize,
    product: Digest,
    operators: &[DerivedOperator],
    obligations: &mut Vec<KnowledgeRecoveryObligation>,
)
    ensures
        codec::views(final(obligations)@) == codec::views(old(obligations)@) + bound(
            core_revision,
            knowledge_root,
            operator_sources(
                challenger,
                record_index as nat,
                product,
                codec::views(operators@),
            ),
        ),
{
    let ghost more = bound(
        core_revision,
        knowledge_root,
        operator_sources(challenger, record_index as nat, product, codec::views(operators@)),
    );
    let ghost start = codec::views(obligations@);
    let mut index: usize = 0;
    assert(start + more.take(0) =~= start);
    while index < operators.len()
        invariant
            index <= operators@.len(),
            more == bound(
                core_revision,
                knowledge_root,
                operator_sources(
                    challenger,
                    record_index as nat,
                    product,
                    codec::views(operators@),
                ),
            ),
            codec::views(obligations@) == start + more.take(index as int),
        decreases operators@.len() - index,
    {
        let work = retained_revision_obligation(product, &operators[index]);
        let binding = recovery_obligation_binding(
            core_revision,
            knowledge_root,
            challenger,
            record_index,
            index,
            &work,
        );
        let ghost before = obligations@;
        obligations.push(KnowledgeRecoveryObligation { binding, work });
        proof {
            assert(codec::views(obligations@) =~= codec::views(before).push(
                more[index as int],
            ));
            assert(more.take(index + 1) =~= more.take(index as int).push(more[index as int]));
            assert(codec::views(obligations@) =~= start + more.take(index + 1));
        }
        index = index + 1;
    }
    assert(more.take(more.len() as int) =~= more);
}

/// Whether the obligations of a consolidation are the given ones.
fn subjects_match(consolidation: &ConsolidationChallenger, expected: &[SubjectId]) -> (result: bool)
    ensures
        result == (knowledge::item_subjects(knowledge::items_for(consolidation@)) == expected@),
{
    let ghost subjects = knowledge::item_subjects(knowledge::items_for(consolidation@));
    assert(subjects.len() == consolidation.operators@.len());
    if consolidation.operators.len() != expected.len() {
        return false;
    }
    let mut index: usize = 0;
    while index < expected.len()
        invariant
            index <= expected@.len(),
            subjects == knowledge::item_subjects(knowledge::items_for(consolidation@)),
            subjects.len() == expected@.len(),
            consolidation@.operators.len() == expected@.len(),
            forall|i: int| 0 <= i < index ==> #[trigger] subjects[i] == expected@[i],
        decreases expected@.len() - index,
    {
        let work = recovery_obligation(consolidation, index);
        if work.subject() != expected[index] {
            assert(subjects[index as int] != expected@[index as int]);
            return false;
        }
        index = index + 1;
    }
    assert(subjects =~= expected@);
    true
}

/// A manifest is about the revision and the root that it was made for, and about
/// no others.
pub proof fn law_manifest_is_bound(
    value: CompilerView,
    core_revision: Digest,
    knowledge_root: Digest,
    limits: IntelligenceLimits,
    other_revision: Digest,
    other_root: Digest,
)
    requires
        manifest_of(value, core_revision, knowledge_root, limits) is Ok,
    ensures
        manifest_of(value, core_revision, knowledge_root, limits)->Ok_0.about(
            other_revision,
            other_root,
        ) <==> other_revision == core_revision && other_root == knowledge_root,
{
}

/// Every operator of a record that is relied on is part of the manifest.
pub proof fn law_manifest_is_complete(
    value: CompilerView,
    core_revision: Digest,
    knowledge_root: Digest,
    limits: IntelligenceLimits,
    record: int,
    operator: int,
)
    requires
        manifest_of(value, core_revision, knowledge_root, limits) is Ok,
        0 <= record < value.records.len(),
        relied_on(value.records[record]),
        0 <= operator < knowledge::consolidation_of(
            value.records[record].challenger,
        )->Some_0.operators.len(),
    ensures
        exists|i: int|
            0 <= i < manifest_of(
                value,
                core_revision,
                knowledge_root,
                limits,
            )->Ok_0.obligations.len() && (#[trigger] manifest_of(
                value,
                core_revision,
                knowledge_root,
                limits,
            )->Ok_0.obligations[i]).work == knowledge::items_for(
                knowledge::consolidation_of(value.records[record].challenger)->Some_0,
            )[operator],
{
    let place = lemma_record_source_place(
        value.records,
        value.records.len(),
        record,
        operator,
    );
    let all = sources(value);
    assert(all[place] == record_sources(value.records, value.records.len())[place]);
    let obligations = manifest_of(value, core_revision, knowledge_root, limits)->Ok_0.obligations;
    assert(obligations[place].work == all[place].item);
}

proof fn lemma_record_source_place(
    records: Seq<RecordView>,
    count: nat,
    record: int,
    operator: int,
) -> (place: int)
    requires
        0 <= record < count <= records.len(),
        relied_on(records[record]),
        0 <= operator < knowledge::consolidation_of(
            records[record].challenger,
        )->Some_0.operators.len(),
    ensures
        0 <= place < record_sources(records, count).len(),
        record_sources(records, count)[place].item == knowledge::items_for(
            knowledge::consolidation_of(records[record].challenger)->Some_0,
        )[operator],
    decreases count,
{
    let front = record_sources(records, (count - 1) as nat);
    let last = record_source(records, count - 1);
    if record == count - 1 {
        assert((front + last)[front.len() + operator] == last[operator]);
        front.len() + operator
    } else {
        let place = lemma_record_source_place(records, (count - 1) as nat, record, operator);
        assert((front + last)[place] == front[place]);
        place
    }
}

proof fn lemma_bound_bytes(
    core_revision: Digest,
    knowledge_root: Digest,
    sources: Seq<SourceView>,
)
    ensures
        obligation_bytes(bound(core_revision, knowledge_root, sources)) == source_bytes(sources),
    decreases sources.len(),
{
    if sources.len() > 0 {
        lemma_bound_bytes(core_revision, knowledge_root, sources.drop_last());
        assert(bound(core_revision, knowledge_root, sources).drop_last() =~= bound(
            core_revision,
            knowledge_root,
            sources.drop_last(),
        ));
    }
}

/// A manifest takes exactly the memory that was counted for it beforehand.
pub proof fn law_manifest_takes_what_was_counted(
    value: CompilerView,
    core_revision: Digest,
    knowledge_root: Digest,
    limits: IntelligenceLimits,
)
    requires
        manifest_of(value, core_revision, knowledge_root, limits) is Ok,
    ensures
        memory_of(manifest_of(value, core_revision, knowledge_root, limits)->Ok_0)
            == manifest_bytes(sources(value)),
{
    lemma_bound_bytes(core_revision, knowledge_root, sources(value));
}

/// The bytes that some obligations refer to: those of their steps, and thirty-two for
/// each supporting attempt.
pub open spec fn content_bytes(obligations: Seq<ObligationView>) -> nat
    decreases obligations.len(),
{
    if obligations.len() == 0 {
        0
    } else {
        let work = obligations.last().work;
        content_bytes(obligations.drop_last()) + step_bytes(work.steps) + work.attempts.len()
            * (DIGEST_BYTES as nat)
    }
}

proof fn lemma_content_counted(obligations: Seq<ObligationView>)
    ensures
        content_bytes(obligations) <= obligation_bytes(obligations),
    decreases obligations.len(),
{
    if obligations.len() > 0 {
        let work = obligations.last().work;
        lemma_content_counted(obligations.drop_last());
        assert(work.steps.len() * vstd::layout::size_of::<OperatorStep>() >= 0) by (nonlinear_arith);
    }
}

/// A manifest takes no less memory than what its obligations refer to.
pub proof fn law_manifest_holds_what_it_refers_to(manifest: ManifestView)
    ensures
        content_bytes(manifest.obligations) <= memory_of(manifest),
{
    lemma_content_counted(manifest.obligations);
    assert(manifest.obligations.len() * vstd::layout::size_of::<KnowledgeRecoveryObligation>() >= 0)
        by (nonlinear_arith);
}

} // verus!
