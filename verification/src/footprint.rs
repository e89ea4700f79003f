//! How much memory the core, its steps and its workflows take.
use vstd::prelude::*;

use std::collections::BTreeMap;

use crate::causal::{ConsequenceEdge, InvestmentSettlement};
use crate::challenger;
use crate::challenger::KnowledgeChallenger;
use crate::codec;
use crate::compiler_steps::write_opened;
use crate::compiler::{CompilerView, KnowledgeCompiler, KnowledgeRecord, RecordView};
use crate::consolidation;
use crate::consolidation::{ConsolidationChallenger, DerivedOperator, KnowledgeRevision};
use crate::digest::Digest;
use crate::intelligence;
use crate::intelligence::{CoreView, IntelligenceCore};
use crate::knowledge;
use crate::knowledge::{
    KnowledgeObligationWork, KnowledgeReview, KnowledgeWork, OpenedKnowledgeWork, WorkItemView,
    WorkView,
};
use crate::ledger::LedgerView;
use crate::planning::KnowledgeShadowOpened;
use crate::policy::RuntimePolicyState;
use crate::receipt::{DecisionId, InvestmentReceipt};
use crate::recovery;
use crate::resident;
use crate::resident::{bytes_for, capacity_of, growth_bytes, resident_u64};
use crate::shadow::{ContextualContrast, ShadowCampaignState, ShadowUpdate};
use crate::transition;
use crate::types::{IntelligenceError, ResourceVector};
use crate::workflow;
use crate::workflow::valid_verification_settlement_batch;

verus! {

broadcast use intelligence::lemma_core_view;

// ---------------------------------------------------------------------------
// Counting
// ---------------------------------------------------------------------------
fn added(left: u64, right: u64) -> (result: Result<u64, IntelligenceError>)
    ensures
        result == (if left + right > u64::MAX {
            Err::<u64, IntelligenceError>(IntelligenceError::ResourceOverflow)
        } else {
            Ok((left + right) as u64)
        }),
{
    match left.checked_add(right) {
        Some(total) => Ok(total),
        None => Err(IntelligenceError::ResourceOverflow),
    }
}

fn multiplied(left: u64, right: u64) -> (result: Result<u64, IntelligenceError>)
    ensures
        result == (if left * right > u64::MAX {
            Err::<u64, IntelligenceError>(IntelligenceError::ResourceOverflow)
        } else {
            Ok((left * right) as u64)
        }),
{
    match left.checked_mul(right) {
        Some(product) => Ok(product),
        None => Err(IntelligenceError::ResourceOverflow),
    }
}

/// A count as a number of bytes, where it is small enough to be one.
pub open spec fn counted(bytes: nat) -> Result<u64, IntelligenceError> {
    if bytes > u64::MAX {
        Err(IntelligenceError::ResourceOverflow)
    } else {
        Ok(bytes as u64)
    }
}

/// What a list of so many items takes.
pub open spec fn vector_total<T>(count: nat) -> nat {
    vstd::layout::size_of::<Vec<T>>() + count * vstd::layout::size_of::<T>()
}

pub fn vector_capacity_bytes<T>(count: u64) -> (result: Result<u64, IntelligenceError>)
    ensures
        result == counted(vector_total::<T>(count as nat)),
{
    let header: u64 = core::mem::size_of::<Vec<T>>() as u64;
    let element: u64 = core::mem::size_of::<T>() as u64;
    let product: u64 = multiplied(count, element)?;
    added(product, header)
}

/// What one item of a search tree takes; four words cover what the tree keeps
/// beside it.
pub open spec fn tree_entry<T>() -> nat {
    vstd::layout::size_of::<T>() + 4 * vstd::layout::size_of::<usize>()
}

/// What a search tree of so many items takes.
pub open spec fn tree_total<T>(count: nat) -> nat {
    vstd::layout::size_of::<BTreeMap<T, u8>>() + count * tree_entry::<T>()
}

pub fn btree_capacity_bytes<T>(count: u64) -> (result: Result<u64, IntelligenceError>)
    ensures
        result == (if tree_entry::<T>() > u64::MAX {
            Err::<u64, IntelligenceError>(IntelligenceError::ResourceOverflow)
        } else {
            counted(tree_total::<T>(count as nat))
        }),
{
    let header: u64 = core::mem::size_of::<BTreeMap<T, u8>>() as u64;
    let words: u64 = multiplied(core::mem::size_of::<usize>() as u64, 4)?;
    let entry: u64 = added(core::mem::size_of::<T>() as u64, words)?;
    let product: u64 = multiplied(count, entry)?;
    added(product, header)
}

// ---------------------------------------------------------------------------
// Compilations
// ---------------------------------------------------------------------------
/// A derivation that was observed.
#[derive(Debug)]
pub struct DerivationObservation {
    pub identity: Vec<u8>,
    pub parent: Digest,
    pub child: Digest,
    pub attempt: Digest,
    pub steps: Vec<Vec<u8>>,
}

/// How much there is to compile.
#[derive(Clone, Copy, Debug, PartialEq, Eq, Structural)]
pub struct KnowledgeCompilationShape {
    pub observations: u64,
    pub identity_bytes: u64,
    pub steps: u64,
    pub step_bytes: u64,
}

impl Default for KnowledgeCompilationShape {
    fn default() -> (shape: Self)
        ensures
            shape == (KnowledgeCompilationShape {
                observations: 0,
                identity_bytes: 0,
                steps: 0,
                step_bytes: 0,
            }),
    {
        Self { observations: 0, identity_bytes: 0, steps: 0, step_bytes: 0 }
    }
}

/// The bytes with those of some steps, as far as they can be counted, and whether
/// all of them could.
pub open spec fn with_steps(start: u64, steps: Seq<Seq<u8>>) -> (u64, bool)
    decreases steps.len(),
{
    if steps.len() == 0 {
        (start, true)
    } else {
        match with_steps(start, steps.drop_last()) {
            (bytes, false) => (bytes, false),
            (bytes, true) => if bytes + steps.last().len() > u64::MAX {
                (bytes, false)
            } else {
                ((bytes + steps.last().len()) as u64, true)
            },
        }
    }
}

proof fn lemma_steps_stop(start: u64, steps: Seq<Seq<u8>>, count: int)
    requires
        0 <= count <= steps.len(),
        !with_steps(start, steps.take(count)).1,
    ensures
        with_steps(start, steps) == with_steps(start, steps.take(count)),
    decreases steps.len() - count,
{
    if count < steps.len() {
        assert(steps.take(count + 1).drop_last() =~= steps.take(count));
        lemma_steps_stop(start, steps, count + 1);
    } else {
        assert(steps.take(count) =~= steps);
    }
}

impl KnowledgeCompilationShape {
    /// The shape with one derivation more, as far as it can be counted, and whether
    /// all of it could.
    pub open spec fn observed(self, identity: Seq<u8>, steps: Seq<Seq<u8>>) -> (
        KnowledgeCompilationShape,
        bool,
    ) {
        let first = KnowledgeCompilationShape {
            observations: (self.observations + 1) as u64,
            ..self
        };
        let second = KnowledgeCompilationShape {
            identity_bytes: (self.identity_bytes + identity.len()) as u64,
            ..first
        };
        let third = KnowledgeCompilationShape {
            steps: (self.steps + steps.len()) as u64,
            ..second
        };
        let (bytes, all) = with_steps(self.step_bytes, steps);
        if self.observations == u64::MAX {
            (self, false)
        } else if self.identity_bytes + identity.len() > u64::MAX {
            (first, false)
        } else if self.steps + steps.len() > u64::MAX {
            (second, false)
        } else {
            (KnowledgeCompilationShape { step_bytes: bytes, ..third }, all)
        }
    }

    /// Counts one derivation. What cannot be counted any more ends the count.
    pub fn observe(&mut self, identity: &[u8], steps: &[Vec<u8>]) -> (result: Result<
        (),
        IntelligenceError,
    >)
        ensures
            old(self).observed(identity@, codec::views(steps@)) == (*final(self), result is Ok),
            result matches Err(error) ==> error is ResourceOverflow,
    {
        let ghost start = *self;
        let ghost all = codec::views(steps@);
        self.observations = added(self.observations, 1)?;
        self.identity_bytes = added(self.identity_bytes, identity.len() as u64)?;
        self.steps = added(self.steps, steps.len() as u64)?;
        let ghost counted = *self;
        assert(all.take(0) =~= Seq::empty());
        let mut index: usize = 0;
        while index < steps.len()
            invariant
                index <= steps@.len(),
                start == *old(self),
                all == codec::views(steps@),
                counted == (KnowledgeCompilationShape {
                    observations: (start.observations + 1) as u64,
                    identity_bytes: (start.identity_bytes + identity@.len()) as u64,
                    steps: (start.steps + all.len()) as u64,
                    step_bytes: start.step_bytes,
                }),
                start.observations < u64::MAX,
                start.identity_bytes + identity@.len() <= u64::MAX,
                start.steps + all.len() <= u64::MAX,
                with_steps(start.step_bytes, all.take(index as int)) == (self.step_bytes, true),
                *self == (KnowledgeCompilationShape { step_bytes: self.step_bytes, ..counted }),
            decreases steps@.len() - index,
        {
            proof {
                assert(all.take(index + 1).drop_last() =~= all.take(index as int));
                assert(all.take(index + 1).last() == steps@[index as int]@);
            }
            self.step_bytes =
            match added(self.step_bytes, steps[index].len() as u64) {
                Ok(bytes) => bytes,
                Err(error) => {
                    proof {
                        lemma_steps_stop(start.step_bytes, all, index + 1);
                    }
                    return Err(error);
                },
            };
            index = index + 1;
        }
        assert(all.take(all.len() as int) =~= all);
        Ok(())
    }
}

/// What every expanded sequence of operators takes.
pub open spec fn expanded_total(shape: KnowledgeCompilationShape) -> nat {
    (vector_total::<Vec<u8>>(shape.steps as nat) + shape.step_bytes as nat) * (
    if shape.observations == 0 {
        1
    } else {
        shape.observations as nat
    })
}

/// What the observations take.
pub open spec fn source_total(shape: KnowledgeCompilationShape) -> nat {
    vector_total::<DerivationObservation>(shape.observations as nat) + shape.identity_bytes
        as nat + vector_total::<Vec<u8>>(shape.steps as nat) + shape.step_bytes as nat
}

/// What the indexes of a compilation take.
pub open spec fn index_total(shape: KnowledgeCompilationShape, roots: nat) -> nat {
    let observations = shape.observations as nat;
    tree_total::<(Digest, Digest, usize)>(observations) + tree_total::<
        (Vec<Vec<u8>>, (Vec<Digest>, Vec<Digest>)),
    >(observations) + 2 * tree_total::<Digest>(observations) + 2 * tree_total::<Digest>(roots)
        + tree_total::<(Digest, u64)>(2 * observations) + vector_total::<(Digest, u64)>(
        2 * observations,
    )
}

/// What the outcome of a compilation takes.
pub open spec fn outcome_total(
    shape: KnowledgeCompilationShape,
    maximum_operators: nat,
    maximum_active: nat,
) -> nat {
    vstd::layout::size_of::<KnowledgeRevision>() + vector_total::<Digest>(maximum_active)
        + vector_total::<DerivedOperator>(maximum_operators) + 72 * maximum_operators
        + expanded_total(shape) + vector_total::<Digest>(shape.observations as nat)
        + vstd::layout::size_of::<ConsolidationChallenger>() + vector_total::<Digest>(
        maximum_operators,
    )
}

/// The parts of the indexes can be counted.
pub open spec fn index_counts(shape: KnowledgeCompilationShape) -> bool {
    &&& tree_entry::<(Digest, Digest, usize)>() <= u64::MAX
    &&& tree_entry::<(Vec<Vec<u8>>, (Vec<Digest>, Vec<Digest>))>() <= u64::MAX
    &&& tree_entry::<Digest>() <= u64::MAX
    &&& tree_entry::<(Digest, u64)>() <= u64::MAX
    &&& 2 * shape.observations <= u64::MAX
}

/// What a compilation takes at most, beside so much that the core holds already.
pub open spec fn compilation_bound(
    shape: KnowledgeCompilationShape,
    roots: nat,
    maximum_operators: nat,
    maximum_active: nat,
    held: nat,
) -> Result<u64, IntelligenceError> {
    let total = source_total(shape) + expanded_total(shape) + index_total(shape, roots) + held + 3
        * outcome_total(shape, maximum_operators, maximum_active);
    if !index_counts(shape) {
        Err(IntelligenceError::ResourceOverflow)
    } else {
        counted(total)
    }
}

fn expanded_bytes(shape: KnowledgeCompilationShape) -> (result: Result<u64, IntelligenceError>)
    ensures
        result == counted(expanded_total(shape)),
{
    let factor: u64 = if shape.observations == 0 {
        1
    } else {
        shape.observations
    };
    let ghost inner = vector_total::<Vec<u8>>(shape.steps as nat) + shape.step_bytes as nat;
    assert(inner * (factor as nat) >= inner) by (nonlinear_arith)
        requires
            factor >= 1,
            inner >= 0,
    ;
    let steps: u64 = vector_capacity_bytes::<Vec<u8>>(shape.steps)?;
    let bytes: u64 = added(steps, shape.step_bytes)?;
    multiplied(bytes, factor)
}

fn source_bytes(shape: KnowledgeCompilationShape) -> (result: Result<u64, IntelligenceError>)
    ensures
        result == counted(source_total(shape)),
{
    let observations: u64 = vector_capacity_bytes::<DerivationObservation>(shape.observations)?;
    let named: u64 = added(observations, shape.identity_bytes)?;
    let steps: u64 = vector_capacity_bytes::<Vec<u8>>(shape.steps)?;
    let listed: u64 = added(named, steps)?;
    added(listed, shape.step_bytes)
}

fn index_bytes(shape: KnowledgeCompilationShape, roots: u64) -> (result: Result<
    u64,
    IntelligenceError,
>)
    ensures
        result == (if !index_counts(shape) {
            Err::<u64, IntelligenceError>(IntelligenceError::ResourceOverflow)
        } else {
            counted(index_total(shape, roots as nat))
        }),
{
    let observations: u64 = shape.observations;
    let accepted: u64 = btree_capacity_bytes::<(Digest, Digest, usize)>(observations)?;
    let discovered: u64 = btree_capacity_bytes::<
        (Vec<Vec<u8>>, (Vec<Digest>, Vec<Digest>)),
    >(observations)?;
    let support: u64 = multiplied(btree_capacity_bytes::<Digest>(observations)?, 2)?;
    let root_sets: u64 = multiplied(btree_capacity_bytes::<Digest>(roots)?, 2)?;
    let scored: u64 = multiplied(observations, 2)?;
    let score_index: u64 = btree_capacity_bytes::<(Digest, u64)>(scored)?;
    let score_order: u64 = vector_capacity_bytes::<(Digest, u64)>(scored)?;
    let first: u64 = added(accepted, discovered)?;
    let second: u64 = added(first, support)?;
    let third: u64 = added(second, root_sets)?;
    let fourth: u64 = added(third, score_index)?;
    added(fourth, score_order)
}

fn outcome_bytes(
    shape: KnowledgeCompilationShape,
    maximum_operators: u64,
    maximum_active: u64,
) -> (result: Result<u64, IntelligenceError>)
    ensures
        result == counted(
            outcome_total(shape, maximum_operators as nat, maximum_active as nat),
        ),
{
    let revision: u64 = core::mem::size_of::<KnowledgeRevision>() as u64;
    let active: u64 = vector_capacity_bytes::<Digest>(maximum_active)?;
    let headers: u64 = vector_capacity_bytes::<DerivedOperator>(maximum_operators)?;
    let symbols: u64 = multiplied(maximum_operators, 72)?;
    let expanded: u64 = expanded_bytes(shape)?;
    let support: u64 = vector_capacity_bytes::<Digest>(shape.observations)?;
    let challenger: u64 = core::mem::size_of::<ConsolidationChallenger>() as u64;
    let obligations: u64 = vector_capacity_bytes::<Digest>(maximum_operators)?;
    let first: u64 = added(revision, active)?;
    let second: u64 = added(first, headers)?;
    let third: u64 = added(second, symbols)?;
    let fourth: u64 = added(third, expanded)?;
    let fifth: u64 = added(fourth, support)?;
    let sixth: u64 = added(challenger, fifth)?;
    added(sixth, obligations)
}

impl IntelligenceCore {
    /// What a compilation of that shape takes at most, where so many operators can
    /// be derived and so many artifacts be active. The active knowledge counts with
    /// the length of its byte form.
    pub fn knowledge_compilation_resident_bound(
        &self,
        shape: KnowledgeCompilationShape,
        root_count: usize,
        maximum_operators: u64,
        maximum_active: u64,
    ) -> (result: Result<u64, IntelligenceError>)
        ensures
            result == compilation_bound(
                shape,
                root_count as nat,
                maximum_operators as nat,
                maximum_active as nat,
                consolidation::put_state(self@.components.knowledge.active).len(),
            ),
    {
        let source: u64 = source_bytes(shape)?;
        let expanded: u64 = expanded_bytes(shape)?;
        let indexes: u64 = index_bytes(shape, root_count as u64)?;
        let held: u64 = self.knowledge.active().encode().len() as u64;
        let challenger: u64 = outcome_bytes(shape, maximum_operators, maximum_active)?;
        let encoded: u64 = multiplied(challenger, 2)?;
        let first: u64 = added(source, expanded)?;
        let second: u64 = added(first, indexes)?;
        let third: u64 = added(second, held)?;
        let fourth: u64 = added(third, challenger)?;
        added(fourth, encoded)
    }
}

// ---------------------------------------------------------------------------
// Ledgers
// ---------------------------------------------------------------------------
/// The memory that the lists of a ledger take, where they have room for so many
/// items.
pub open spec fn ledger_memory(
    receipts: nat,
    settlements: nat,
    consequences: nat,
    contrasts: nat,
    shadows: nat,
) -> nat {
    resident::capped_sum(
        resident::capped_sum(
            resident::capped_sum(
                resident::capped_sum(
                    resident::room::<InvestmentReceipt>(receipts),
                    resident::room::<InvestmentSettlement>(settlements),
                ),
                resident::room::<ConsequenceEdge>(consequences),
            ),
            resident::room::<ContextualContrast>(contrasts),
        ),
        resident::room::<ShadowCampaignState>(shadows),
    )
}

pub fn ledger_bytes(
    receipts: usize,
    settlements: usize,
    consequences: usize,
    contrasts: usize,
    shadows: usize,
) -> (bytes: usize)
    ensures
        bytes == ledger_memory(
            receipts as nat,
            settlements as nat,
            consequences as nat,
            contrasts as nat,
            shadows as nat,
        ),
{
    bytes_for::<InvestmentReceipt>(receipts).saturating_add(
        bytes_for::<InvestmentSettlement>(settlements),
    ).saturating_add(bytes_for::<ConsequenceEdge>(consequences)).saturating_add(
        bytes_for::<ContextualContrast>(contrasts),
    ).saturating_add(bytes_for::<ShadowCampaignState>(shadows))
}

/// Room that the lists of a ledger may have: enough for what each holds.
pub open spec fn ledger_rooms(
    ledger: LedgerView,
    receipts: usize,
    settlements: usize,
    consequences: usize,
    contrasts: usize,
    shadows: usize,
) -> bool {
    &&& receipts >= ledger.receipts.len()
    &&& settlements >= ledger.settlements.len()
    &&& consequences >= ledger.consequences.len()
    &&& contrasts >= ledger.contrasts.len()
    &&& shadows >= ledger.shadows.len()
}

/// Memory that a ledger may take.
pub open spec fn ledger_takes(ledger: LedgerView, bytes: nat) -> bool {
    exists|a: usize, b: usize, c: usize, d: usize, e: usize| #[trigger]
        ledger_rooms(ledger, a, b, c, d, e) && bytes == ledger_memory(
            a as nat,
            b as nat,
            c as nat,
            d as nat,
            e as nat,
        )
}

/// The memory by which the lists of a ledger grow for a step. Of each list it is
/// given how much it holds, for how much it has room, and how much is added.
pub open spec fn reservation_memory(
    receipts: (nat, nat, nat),
    settlements: (nat, nat, nat),
    consequences: (nat, nat, nat),
) -> nat {
    resident::capped_sum(
        resident::capped_sum(
            resident::growth::<InvestmentReceipt>(receipts.0, receipts.1, receipts.2),
            resident::growth::<InvestmentSettlement>(settlements.0, settlements.1, settlements.2),
        ),
        resident::growth::<ConsequenceEdge>(consequences.0, consequences.1, consequences.2),
    )
}

pub fn reservation_bytes(
    receipts: (usize, usize, usize),
    settlements: (usize, usize, usize),
    consequences: (usize, usize, usize),
) -> (bytes: usize)
    ensures
        bytes == reservation_memory(
            (receipts.0 as nat, receipts.1 as nat, receipts.2 as nat),
            (settlements.0 as nat, settlements.1 as nat, settlements.2 as nat),
            (consequences.0 as nat, consequences.1 as nat, consequences.2 as nat),
        ),
{
    growth_bytes::<InvestmentReceipt>(receipts.0, receipts.1, receipts.2).saturating_add(
        growth_bytes::<InvestmentSettlement>(settlements.0, settlements.1, settlements.2),
    ).saturating_add(
        growth_bytes::<ConsequenceEdge>(consequences.0, consequences.1, consequences.2),
    )
}

/// Room that the lists of a ledger may have that a step adds to.
pub open spec fn growing_rooms(
    ledger: LedgerView,
    receipts: usize,
    settlements: usize,
    consequences: usize,
) -> bool {
    &&& receipts >= ledger.receipts.len()
    &&& settlements >= ledger.settlements.len()
    &&& consequences >= ledger.consequences.len()
}

/// Memory that room for a step may take.
pub open spec fn reservation_takes(
    ledger: LedgerView,
    delta: crate::ledger::DeltaView,
    bytes: nat,
) -> bool {
    exists|a: usize, b: usize, c: usize| #[trigger]
        growing_rooms(ledger, a, b, c) && bytes == reservation_memory(
            (ledger.receipts.len(), a as nat, delta.receipts.len()),
            (ledger.settlements.len(), b as nat, delta.settlements.len()),
            (ledger.consequences.len(), c as nat, delta.consequences.len()),
        )
}

// ---------------------------------------------------------------------------
// Knowledge
// ---------------------------------------------------------------------------
/// The memory that a challenger's lists and payload take.
pub open spec fn challenger_bytes(challenger: challenger::ChallengerView) -> nat {
    resident::capped_sum(
        resident::capped_sum(
            resident::capped_sum(
                resident::room::<crate::types::SubjectId>(challenger.sources.len()),
                resident::room::<crate::types::SubjectId>(challenger.obligations.len()),
            ),
            resident::room::<challenger::ContextualRequirement>(challenger.promotion.len()),
        ),
        challenger.product.payload_len(),
    )
}

/// The memory that the items of some work take.
pub open spec fn items_bytes(items: Seq<WorkItemView>) -> nat
    decreases items.len(),
{
    if items.len() == 0 {
        0
    } else {
        resident::capped_sum(
            resident::capped_sum(
                items_bytes(items.drop_last()),
                vstd::layout::size_of::<KnowledgeObligationWork>(),
            ),
            resident::capped(recovery::item_bytes(items.last())),
        )
    }
}

/// The memory that some work takes.
pub open spec fn work_memory(work: WorkView) -> nat {
    resident::capped_sum(challenger_bytes(work.challenger), items_bytes(work.obligations))
}

/// The memory that an open verification takes.
pub open spec fn pending_memory(pending: knowledge::PendingView) -> nat {
    resident::capped_sum(
        work_memory(pending.work),
        resident::room::<InvestmentReceipt>(pending.receipts.len()),
    )
}

/// The memory that some records take.
pub open spec fn records_bytes(records: Seq<RecordView>) -> nat
    decreases records.len(),
{
    if records.len() == 0 {
        0
    } else {
        resident::capped_sum(
            resident::capped_sum(
                resident::capped_sum(
                    records_bytes(records.drop_last()),
                    vstd::layout::size_of::<KnowledgeRecord>(),
                ),
                challenger_bytes(records.last().challenger),
            ),
            resident::room::<KnowledgeReview>(records.last().reviews.len()),
        )
    }
}

/// The memory that knowledge takes: its active part by the length of its byte form,
/// its records and what is open by what they hold.
pub open spec fn knowledge_memory(knowledge: CompilerView) -> nat {
    resident::capped_sum(
        resident::capped_sum(
            consolidation::put_state(knowledge.active).len(),
            records_bytes(knowledge.records),
        ),
        match knowledge.pending {
            Some(pending) => resident::capped_sum(
                challenger_bytes(pending.work.challenger),
                resident::room::<InvestmentReceipt>(pending.receipts.len()),
            ),
            None => 0,
        },
    )
}

impl KnowledgeChallenger {
    /// How long the canonical byte form is.
    pub fn canonical_encoded_len(&self) -> (length: usize)
        ensures
            length == challenger::put_challenger(
                challenger::KnowledgeWireFormat::V8,
                self@,
            ).len(),
    {
        let mut bytes: Vec<u8> = Vec::new();
        self.encode_canonical(&mut bytes);
        assert(bytes@ =~= challenger::put_challenger(challenger::KnowledgeWireFormat::V8, self@));
        bytes.len()
    }
}

impl KnowledgeWork {
    /// The memory that the work takes.
    pub fn heap_bytes(&self) -> (bytes: usize)
        ensures
            bytes == work_memory(self@),
    {
        let items = self.obligations();
        let ghost all = self@.obligations;
        let mut total: usize = 0;
        let mut index: usize = 0;
        assert(all.take(0) =~= Seq::empty());
        while index < items.len()
            invariant
                index <= items@.len(),
                all == codec::views(items@),
                total == items_bytes(all.take(index as int)),
            decreases items@.len() - index,
        {
            assert(all.take(index + 1).drop_last() =~= all.take(index as int));
            assert(all.take(index + 1).last() == items@[index as int]@);
            total =
            total.saturating_add(core::mem::size_of::<KnowledgeObligationWork>()).saturating_add(
                recovery::work_bytes(&items[index]),
            );
            index = index + 1;
        }
        assert(all.take(all.len() as int) =~= all);
        self.challenger().heap_bytes().saturating_add(total)
    }
}

impl OpenedKnowledgeWork {
    /// The memory that the verification takes.
    pub fn heap_bytes(&self) -> (bytes: usize)
        ensures
            bytes == pending_memory(self@),
    {
        self.work().heap_bytes().saturating_add(
            bytes_for::<InvestmentReceipt>(self.receipts().len()),
        )
    }
}

impl KnowledgeCompiler {
    /// The memory that knowledge takes.
    pub fn heap_bytes(&self) -> (bytes: usize)
        ensures
            bytes == knowledge_memory(self@),
    {
        let records = self.records();
        let ghost all = self@.records;
        let mut total: usize = 0;
        let mut index: usize = 0;
        assert(all.take(0) =~= Seq::empty());
        while index < records.len()
            invariant
                index <= records@.len(),
                all == codec::views(records@),
                total == records_bytes(all.take(index as int)),
            decreases records@.len() - index,
        {
            assert(all.take(index + 1).drop_last() =~= all.take(index as int));
            assert(all.take(index + 1).last() == records@[index as int]@);
            total =
            total.saturating_add(core::mem::size_of::<KnowledgeRecord>()).saturating_add(
                records[index].challenger().heap_bytes(),
            ).saturating_add(bytes_for::<KnowledgeReview>(records[index].reviews().len()));
            index = index + 1;
        }
        assert(all.take(all.len() as int) =~= all);
        let open: usize = match self.pending() {
            Some(pending) => pending.work().challenger().heap_bytes().saturating_add(
                bytes_for::<InvestmentReceipt>(pending.receipts().len()),
            ),
            None => 0,
        };
        self.active().encode().len().saturating_add(total).saturating_add(open)
    }
}

// ---------------------------------------------------------------------------
// The core and its steps
// ---------------------------------------------------------------------------
/// A product in `u64`, or the largest count.
pub open spec fn product_u64(left: nat, right: nat) -> nat {
    if left * right > u64::MAX {
        u64::MAX as nat
    } else {
        left * right
    }
}

fn times(count: u64, size: u64) -> (total: u64)
    ensures
        total == product_u64(count as nat, size as nat),
{
    match count.checked_mul(size) {
        Some(total) => total,
        None => u64::MAX,
    }
}

/// The bytes that a shared list takes beside its items.
pub open spec fn shared_list_overhead() -> nat {
    transition::capped_u64(
        vstd::layout::size_of::<Vec<u8>>(),
        product_u64(vstd::layout::size_of::<usize>(), 2),
    )
}

pub fn arc_vec_allocation_bytes() -> (bytes: u64)
    ensures
        bytes == shared_list_overhead(),
{
    resident_u64(core::mem::size_of::<Vec<u8>>()).saturating_add(
        times(resident_u64(core::mem::size_of::<usize>()), 2),
    )
}

/// The bytes that a core takes, where its ecology, its records and its knowledge take
/// so many and its policy and its checkpoint have room for so many.
pub open spec fn core_memory(
    ecology: nat,
    records: nat,
    knowledge: nat,
    policy_room: nat,
    checkpoint_room: nat,
) -> nat {
    resident::capped_sum(
        resident::capped_sum(
            resident::capped_sum(
                resident::capped_sum(
                    resident::capped_sum(vstd::layout::size_of::<IntelligenceCore>(), ecology),
                    records,
                ),
                knowledge,
            ),
            policy_room,
        ),
        checkpoint_room,
    )
}

pub fn core_bytes(
    ecology: usize,
    records: usize,
    knowledge: usize,
    policy_room: usize,
    checkpoint_room: usize,
) -> (bytes: u64)
    ensures
        bytes == core_memory(
            ecology as nat,
            records as nat,
            knowledge as nat,
            policy_room as nat,
            checkpoint_room as nat,
        ),
{
    resident_u64(
        core::mem::size_of::<IntelligenceCore>().saturating_add(ecology).saturating_add(
            records,
        ).saturating_add(knowledge).saturating_add(policy_room).saturating_add(checkpoint_room),
    )
}

/// The bytes that a core may take.
pub open spec fn core_takes(core: CoreView, bytes: nat) -> bool {
    exists|ecology: usize, records: usize, policy_room: usize, checkpoint_room: usize|
        bytes == #[trigger] core_memory(
            ecology as nat,
            records as nat,
            knowledge_memory(core.components.knowledge),
            policy_room as nat,
            checkpoint_room as nat,
        ) && crate::ecology::society_takes(core.components.ecology, ecology as nat) && ledger_takes(
            core.components.ledger,
            records as nat,
        ) && policy_room >= core.components.policy.len() && checkpoint_room
            >= core.checkpoint.len()
}

/// The bytes that interrupting campaigns takes, where a step and the records take so
/// many.
pub open spec fn interruption_memory(step: nat, records: nat, updates: nat) -> nat {
    transition::capped_u64(
        transition::capped_u64(step, records),
        product_u64(updates, vstd::layout::size_of::<ShadowUpdate>()),
    )
}

pub fn interruption_bytes(step: u64, records: usize, update_count: usize) -> (bytes: u64)
    ensures
        bytes == interruption_memory(step as nat, records as nat, update_count as nat),
{
    step.saturating_add(resident_u64(records)).saturating_add(
        times(resident_u64(update_count), resident_u64(core::mem::size_of::<ShadowUpdate>())),
    )
}

/// The bytes that taking a step adds: those of its checkpoint, where it has a record,
/// and those by which the records of the core grow.
pub open spec fn materialization_memory(base: nat, record: nat, growth: nat) -> nat {
    transition::capped_u64(
        if record == 0 {
            0
        } else {
            transition::capped_u64(resident::capped_sum(base, record), shared_list_overhead())
        },
        growth,
    )
}

pub fn materialization_bytes(base: usize, record: usize, growth: u64) -> (bytes: u64)
    ensures
        bytes == materialization_memory(base as nat, record as nat, growth as nat),
{
    let checkpoint: u64 = if record == 0 {
        0
    } else {
        resident_u64(base.saturating_add(record)).saturating_add(arc_vec_allocation_bytes())
    };
    checkpoint.saturating_add(growth)
}

/// The bytes that a step with so many records takes. A trained plan adds its own
/// and those of a copy of the ecology.
pub open spec fn step_memory(
    core: CoreView,
    receipts: nat,
    settlements: nat,
    consequences: nat,
    training: Option<u64>,
    maximum_policy_bytes: usize,
) -> nat {
    let observations = resident::capped_sum(
        resident::capped_sum(
            resident::room::<InvestmentReceipt>(receipts),
            resident::room::<InvestmentSettlement>(settlements),
        ),
        resident::room::<ConsequenceEdge>(consequences),
    );
    let index = codec::saturating_product(resident::room::<DecisionId>(receipts), 2);
    let trained = match training {
        Some(bytes) => transition::capped_u64(
            bytes as nat,
            crate::ecology::specialist_bytes(core.components.ecology.specialists),
        ),
        None => 0,
    };
    let policy = resident::capped_sum(
        maximum_policy_bytes as nat,
        vstd::layout::size_of::<RuntimePolicyState>(),
    );
    transition::capped_u64(
        transition::capped_u64(
            transition::capped_u64(
                transition::capped_u64(codec::saturating_product(observations, 4), index),
                trained,
            ),
            policy,
        ),
        16 * 1024,
    )
}

/// The bytes that opening a verification takes.
pub open spec fn opening_memory(
    core: CoreView,
    work: WorkView,
    receipts: Seq<InvestmentReceipt>,
    reserved: ResourceVector,
    maximum_policy_bytes: usize,
) -> nat {
    let pending = knowledge::PendingView { work, receipts, reserved };
    transition::capped_u64(
        transition::capped_u64(
            transition::capped_u64(
                transition::capped_u64(
                    step_memory(core, 0, 0, 0, None, maximum_policy_bytes),
                    knowledge_memory(core.components.knowledge),
                ),
                work_memory(work),
            ),
            resident::room::<InvestmentReceipt>(receipts.len()),
        ),
        product_u64(
            resident::capped_sum(9, crate::compiler_steps::put_opened(pending).len()),
            3,
        ),
    )
}

/// The bytes that settling an open verification takes.
pub open spec fn settling_memory(
    core: CoreView,
    opened: knowledge::PendingView,
    maximum_policy_bytes: usize,
) -> nat {
    transition::capped_u64(
        transition::capped_u64(
            transition::capped_u64(
                step_memory(
                    core,
                    opened.receipts.len(),
                    opened.receipts.len(),
                    0,
                    None,
                    maximum_policy_bytes,
                ),
                knowledge_memory(core.components.knowledge),
            ),
            pending_memory(opened),
        ),
        3 * 128,
    )
}

impl IntelligenceCore {
    /// The bytes that the core takes with all the room that was allocated for it.
    pub fn resident_bytes(&self) -> (bytes: u64)
        ensures
            core_takes(self@, bytes as nat),
    {
        let ecology: usize = self.ecology.heap_bytes();
        let records: usize = self.experience.heap_bytes();
        let knowledge: usize = self.knowledge.heap_bytes();
        let policy_room: usize = capacity_of(&self.policy.encoded);
        let checkpoint_room: usize = capacity_of(&self.checkpoint_bytes);
        let bytes: u64 = core_bytes(ecology, records, knowledge, policy_room, checkpoint_room);
        assert(bytes == core_memory(
            ecology as nat,
            records as nat,
            knowledge_memory(self@.components.knowledge),
            policy_room as nat,
            checkpoint_room as nat,
        ));
        bytes
    }

    /// The bytes that a step takes. `training` is what a trained plan takes, and no
    /// policy is longer than `maximum_policy_bytes`.
    pub fn transition_resident_bytes(
        &self,
        maximum_receipts: usize,
        maximum_settlements: usize,
        maximum_consequences: usize,
        training: Option<u64>,
        maximum_policy_bytes: usize,
    ) -> (bytes: u64)
        ensures
            bytes == step_memory(
                self@,
                maximum_receipts as nat,
                maximum_settlements as nat,
                maximum_consequences as nat,
                training,
                maximum_policy_bytes,
            ),
    {
        let observations: usize = bytes_for::<InvestmentReceipt>(maximum_receipts).saturating_add(
            bytes_for::<InvestmentSettlement>(maximum_settlements),
        ).saturating_add(bytes_for::<ConsequenceEdge>(maximum_consequences));
        let index: usize = codec::saturating_multiply(
            bytes_for::<DecisionId>(maximum_receipts),
            2,
        );
        let trained: u64 = match training {
            Some(bytes) => bytes.saturating_add(
                resident_u64(self.ecology.staging_clone_bytes()),
            ),
            None => 0,
        };
        let policy: usize = maximum_policy_bytes.saturating_add(
            core::mem::size_of::<RuntimePolicyState>(),
        );
        resident_u64(codec::saturating_multiply(observations, 4)).saturating_add(
            resident_u64(index),
        ).saturating_add(trained).saturating_add(resident_u64(policy)).saturating_add(16 * 1024)
    }

    /// The bytes that interrupting campaigns takes: a step, a copy of the records and
    /// the updates.
    pub fn shadow_interruption_transition_resident_bytes(
        &self,
        update_count: usize,
        maximum_policy_bytes: usize,
    ) -> (bytes: u64)
        ensures
            exists|records: usize| #[trigger]
                ledger_takes(self@.components.ledger, records as nat) && bytes
                    == interruption_memory(
                    step_memory(self@, 0, 0, 0, None, maximum_policy_bytes),
                    records as nat,
                    update_count as nat,
                ),
    {
        let step: u64 = self.transition_resident_bytes(0, 0, 0, None, maximum_policy_bytes);
        let records: usize = self.experience.heap_bytes();
        assert(ledger_takes(self@.components.ledger, records as nat));
        interruption_bytes(step, records, update_count)
    }

    /// The bytes that opening a verification takes: a step, a copy of the knowledge,
    /// the work with its receipts, and three times their byte form. The work has to
    /// be planned under the core's revision and fit its receipts.
    pub fn knowledge_open_transition_resident_bytes(
        &self,
        work: &KnowledgeWork,
        receipts: &[InvestmentReceipt],
        reserved: ResourceVector,
        maximum_policy_bytes: usize,
    ) -> (result: Result<u64, IntelligenceError>)
        ensures
            result is Ok <==> work@.base_revision == self@.revision && workflow::batch_is_valid(
                work@,
                receipts@,
                reserved,
                None,
            ),
            match result {
                Ok(bytes) => bytes == opening_memory(
                    self@,
                    work@,
                    receipts@,
                    reserved,
                    maximum_policy_bytes,
                ),
                Err(error) => error is InvalidSettlement,
            },
    {
        if work.base_revision() != self.revision || !valid_verification_settlement_batch(
            work,
            receipts,
            reserved,
            None,
        ) {
            return Err(IntelligenceError::InvalidSettlement);
        }
        let mut encoded: Vec<u8> = Vec::new();
        write_opened(work, receipts, reserved, &mut encoded);
        let ghost pending = knowledge::PendingView { work: work@, receipts: receipts@, reserved };
        assert(encoded@ =~= crate::compiler_steps::put_opened(pending));
        let length: usize = encoded.len().saturating_add(9);
        Ok(
            self.transition_resident_bytes(0, 0, 0, None, maximum_policy_bytes).saturating_add(
                resident_u64(self.knowledge.heap_bytes()),
            ).saturating_add(resident_u64(work.heap_bytes())).saturating_add(
                resident_u64(bytes_for::<InvestmentReceipt>(receipts.len())),
            ).saturating_add(times(resident_u64(length), 3)),
        )
    }

    /// The bytes that settling an open verification takes: a step, a copy of the
    /// knowledge, the open work, and a constant for its digests. The work has to be
    /// what the core has open, and there has to be one settlement for each receipt.
    pub fn knowledge_settlement_transition_resident_bytes(
        &self,
        opened: &OpenedKnowledgeWork,
        settlement_count: usize,
        maximum_policy_bytes: usize,
    ) -> (result: Result<u64, IntelligenceError>)
        ensures
            result is Ok <==> opened.opened_under() == self@.revision
                && self@.components.knowledge.awaits(opened@) && settlement_count
                == opened@.receipts.len(),
            match result {
                Ok(bytes) => bytes == settling_memory(self@, opened@, maximum_policy_bytes),
                Err(error) => error is StaleTransition,
            },
    {
        if opened.opened_revision() != self.revision || !self.knowledge.matches_opened_verification(
            opened,
        ) || settlement_count != opened.receipts().len() {
            return Err(IntelligenceError::StaleTransition);
        }
        Ok(
            self.transition_resident_bytes(
                settlement_count,
                settlement_count,
                0,
                None,
                maximum_policy_bytes,
            ).saturating_add(resident_u64(self.knowledge.heap_bytes())).saturating_add(
                resident_u64(opened.heap_bytes()),
            ).saturating_add(3 * 128),
        )
    }

    /// The bytes that settling a campaign takes: a step, a copy of the knowledge, and
    /// what a promotion carries over.
    pub fn knowledge_shadow_settlement_transition_resident_bytes(
        &self,
        opened: &KnowledgeShadowOpened,
        maximum_policy_bytes: usize,
    ) -> (result: Result<u64, IntelligenceError>)
        ensures
            result == (if !self@.shadow_is_open(opened.opened_under(), opened.plan().campaign) {
                Err::<u64, IntelligenceError>(IntelligenceError::StaleTransition)
            } else {
                match self@.components.knowledge.rebase_bytes(opened.plan().challenger) {
                    Err(error) => Err(error),
                    Ok(rebase) => Ok(
                        transition::capped_u64(
                            transition::capped_u64(
                                step_memory(self@, 0, 0, 0, None, maximum_policy_bytes),
                                knowledge_memory(self@.components.knowledge),
                            ),
                            rebase as nat,
                        ) as u64,
                    ),
                }
            }),
    {
        match self.validate_knowledge_shadow_opened(opened) {
            Ok(_) => {},
            Err(error) => return Err(error),
        }
        let rebase: usize = match self.knowledge.promotion_rebase_bytes(opened.challenger()) {
            Ok(rebase) => rebase,
            Err(error) => return Err(error),
        };
        Ok(
            self.transition_resident_bytes(0, 0, 0, None, maximum_policy_bytes).saturating_add(
                resident_u64(self.knowledge.heap_bytes()),
            ).saturating_add(resident_u64(rebase)),
        )
    }
}

} // verus!
