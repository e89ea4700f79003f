//! How a core moves on: a step is staged, prepared and committed, or refused as a
//! whole.
use vstd::prelude::*;

use std::sync::Arc;

use crate::causal::{ConsequenceEdge, InvestmentSettlement};
use crate::challenger::share_payload;
use crate::checkpoint;
use crate::checkpoint::{
    build_delta_checkpoint, checkpoint_log_root, encode_delta_record, extend_component_root,
    revision_digest, ComponentRoots, ComponentsView, CHECKPOINT_FOOTER_BYTES,
};
use crate::codec;
use crate::compiler::{CompilerView, KnowledgeCompiler, KnowledgeUpdate, UpdateView};
use crate::compiler_steps;
use crate::digest::Digest;
use crate::ecology;
use crate::ecology::{duplicate_edits, EcologyEdit, EcologyView, EditView, ModelEcology};
use crate::evidence;
use crate::evidence::CausalEvidence;
use crate::footprint;
use crate::footprint::materialization_bytes;
use crate::intelligence;
use crate::intelligence::{CoreView, IntelligenceCheckpoint, IntelligenceCore};
use crate::knowledge::{OpenedKnowledgeWork, PendingView};
use crate::ledger;
use crate::ledger::{CausalDelta, DeltaView, LedgerView};
use crate::policy;
use crate::policy::{
    PolicyEngine, PolicyUpdate, RuntimePolicyDecision, RuntimePolicyRevision, RuntimePolicyState,
};
use crate::receipt;
use crate::receipt::{same_receipts, InvestmentReceipt};
use crate::replay;
use crate::resident::resident_u64;
use crate::shadow::ShadowUpdate;
use crate::types::{IntelligenceError, SubjectId};

verus! {

broadcast use intelligence::lemma_core_view;

// ---------------------------------------------------------------------------
// Training plans
// ---------------------------------------------------------------------------
/// What training proposes: edits of the ecology, and the corpora it has used up to
/// choose them.
#[verifier::ext_equal]
pub struct PlanView {
    pub identity: Digest,
    pub selection_cases: Seq<Digest>,
    pub edits: Seq<EditView>,
    pub resident_bytes: usize,
}

/// A plan as the trainer hands it over.
#[derive(Debug)]
pub struct NativeEcologyPlan {
    pub identity: Digest,
    pub selection_cases: Vec<Digest>,
    pub edits: Vec<EcologyEdit>,
    pub resident_bytes: usize,
}

impl View for NativeEcologyPlan {
    type V = PlanView;

    open spec fn view(&self) -> PlanView {
        PlanView {
            identity: self.identity,
            selection_cases: self.selection_cases@,
            edits: codec::views(self.edits@),
            resident_bytes: self.resident_bytes,
        }
    }
}

/// A plan that was made for a core and for evidence that the core is to learn.
#[verifier::ext_equal]
pub struct PreparedView {
    pub base_revision: Digest,
    pub evidence_root: Digest,
    pub receipt_count: usize,
    pub settlement_count: usize,
    pub consequence_count: usize,
    pub shadow_count: usize,
    pub scratch_bytes: u64,
    pub plan: PlanView,
}

#[derive(Debug)]
pub struct PreparedNativeEcologyPlan {
    base_revision: Digest,
    evidence_root: Digest,
    receipt_count: usize,
    settlement_count: usize,
    consequence_count: usize,
    shadow_count: usize,
    scratch_bytes: u64,
    plan: NativeEcologyPlan,
}

impl View for PreparedNativeEcologyPlan {
    type V = PreparedView;

    closed spec fn view(&self) -> PreparedView {
        PreparedView {
            base_revision: self.base_revision,
            evidence_root: self.evidence_root,
            receipt_count: self.receipt_count,
            settlement_count: self.settlement_count,
            consequence_count: self.consequence_count,
            shadow_count: self.shadow_count,
            scratch_bytes: self.scratch_bytes,
            plan: self.plan@,
        }
    }
}

/// The sum, or the largest count.
pub open spec fn capped_u64(left: nat, right: nat) -> nat {
    if left + right > u64::MAX {
        u64::MAX as nat
    } else {
        left + right
    }
}

impl PreparedNativeEcologyPlan {
    pub fn identity(&self) -> (identity: Digest)
        ensures
            identity == self@.plan.identity,
    {
        self.plan.identity
    }

    pub fn resident_bytes(&self) -> (bytes: u64)
        ensures
            bytes == self@.plan.resident_bytes,
    {
        self.plan.resident_bytes as u64
    }

    /// What it takes to hold the plan beside another one that is made for
    /// comparison, which may come to so many bytes.
    pub fn comparison_resident_bytes(&self, maximum_output_bytes: u64) -> (bytes: u64)
        ensures
            bytes == capped_u64(
                capped_u64(self@.plan.resident_bytes as nat, self@.scratch_bytes as nat),
                maximum_output_bytes as nat,
            ),
    {
        self.resident_bytes().saturating_add(self.scratch_bytes).saturating_add(
            maximum_output_bytes,
        )
    }

    pub fn scratch_bytes(&self) -> (bytes: u64)
        ensures
            bytes == self@.scratch_bytes,
    {
        self.scratch_bytes
    }
}

// ---------------------------------------------------------------------------
// Frames
// ---------------------------------------------------------------------------
/// What a step is to bring.
#[verifier::ext_equal]
pub struct FrameView {
    pub edits: Seq<EditView>,
    pub receipts: Seq<InvestmentReceipt>,
    pub settlements: Seq<InvestmentSettlement>,
    pub consequences: Seq<ConsequenceEdge>,
    pub shadows: Seq<ShadowUpdate>,
    pub knowledge: Seq<UpdateView>,
    pub policy: Option<PolicyUpdate>,
    pub native_training: Option<PlanView>,
    pub prepared_native_training: Option<PreparedView>,
    pub opened_verification: Option<(Digest, PendingView)>,
}

#[derive(Clone, Copy)]
pub struct SettlementFrame<'a> {
    edits: &'a [EcologyEdit],
    receipts: &'a [InvestmentReceipt],
    settlements: &'a [InvestmentSettlement],
    consequences: &'a [ConsequenceEdge],
    shadows: &'a [ShadowUpdate],
    knowledge: &'a [KnowledgeUpdate],
    policy: Option<&'a PolicyUpdate>,
    native_training: Option<&'a NativeEcologyPlan>,
    prepared_native_training: Option<&'a PreparedNativeEcologyPlan>,
    opened_verification: Option<&'a OpenedKnowledgeWork>,
}

impl<'a> View for SettlementFrame<'a> {
    type V = FrameView;

    closed spec fn view(&self) -> FrameView {
        FrameView {
            edits: codec::views(self.edits@),
            receipts: self.receipts@,
            settlements: self.settlements@,
            consequences: self.consequences@,
            shadows: self.shadows@,
            knowledge: codec::views(self.knowledge@),
            policy: match self.policy {
                Some(update) => Some(*update),
                None => None,
            },
            native_training: match self.native_training {
                Some(plan) => Some(plan@),
                None => None,
            },
            prepared_native_training: match self.prepared_native_training {
                Some(prepared) => Some(prepared@),
                None => None,
            },
            opened_verification: match self.opened_verification {
                Some(opened) => Some((opened.opened_under(), opened@)),
                None => None,
            },
        }
    }
}

impl FrameView {
    /// A step that brings nothing.
    pub open spec fn empty() -> FrameView {
        FrameView {
            edits: Seq::empty(),
            receipts: Seq::empty(),
            settlements: Seq::empty(),
            consequences: Seq::empty(),
            shadows: Seq::empty(),
            knowledge: Seq::empty(),
            policy: None,
            native_training: None,
            prepared_native_training: None,
            opened_verification: None,
        }
    }

    /// The step brings observations and nothing else.
    pub open spec fn observes_only(self) -> bool {
        &&& self.edits.len() == 0
        &&& self.knowledge.len() == 0
        &&& self.policy is None
        &&& self.native_training is None
        &&& self.prepared_native_training is None
        &&& self.opened_verification is None
    }
}

impl<'a> SettlementFrame<'a> {
    pub fn empty() -> (frame: Self)
        ensures
            frame@ == FrameView::empty(),
    {
        let frame = Self {
            edits: &[],
            receipts: &[],
            settlements: &[],
            consequences: &[],
            shadows: &[],
            knowledge: &[],
            policy: None,
            native_training: None,
            prepared_native_training: None,
            opened_verification: None,
        };
        assert(frame@ =~= FrameView::empty());
        frame
    }

    pub fn edits(edits: &'a [EcologyEdit]) -> (frame: Self)
        ensures
            frame@ == (FrameView { edits: codec::views(edits@), ..FrameView::empty() }),
    {
        Self { edits, ..Self::empty() }
    }

    pub fn observations(
        receipts: &'a [InvestmentReceipt],
        settlements: &'a [InvestmentSettlement],
        consequences: &'a [ConsequenceEdge],
        shadows: &'a [ShadowUpdate],
    ) -> (frame: Self)
        ensures
            frame@ == (FrameView {
                receipts: receipts@,
                settlements: settlements@,
                consequences: consequences@,
                shadows: shadows@,
                ..FrameView::empty()
            }),
    {
        Self { receipts, settlements, consequences, shadows, ..Self::empty() }
    }

    pub fn knowledge(knowledge: &'a [KnowledgeUpdate]) -> (frame: Self)
        ensures
            frame@ == (FrameView { knowledge: codec::views(knowledge@), ..FrameView::empty() }),
    {
        Self { knowledge, ..Self::empty() }
    }

    pub fn with_observations(
        self,
        receipts: &'a [InvestmentReceipt],
        settlements: &'a [InvestmentSettlement],
        consequences: &'a [ConsequenceEdge],
        shadows: &'a [ShadowUpdate],
    ) -> (frame: Self)
        ensures
            frame@ == (FrameView {
                receipts: receipts@,
                settlements: settlements@,
                consequences: consequences@,
                shadows: shadows@,
                ..self@
            }),
    {
        Self { receipts, settlements, consequences, shadows, ..self }
    }

    pub fn with_knowledge_updates(self, knowledge: &'a [KnowledgeUpdate]) -> (frame: Self)
        ensures
            frame@ == (FrameView { knowledge: codec::views(knowledge@), ..self@ }),
    {
        Self { knowledge, ..self }
    }

    pub fn with_opened_verification(self, opened: &'a OpenedKnowledgeWork) -> (frame: Self)
        ensures
            frame@ == (FrameView {
                opened_verification: Some((opened.opened_under(), opened@)),
                ..self@
            }),
    {
        Self { opened_verification: Some(opened), ..self }
    }

    pub fn with_native_training(self, plan: &'a NativeEcologyPlan) -> (frame: Self)
        ensures
            frame@ == (FrameView { native_training: Some(plan@), ..self@ }),
    {
        Self { native_training: Some(plan), ..self }
    }

    pub fn with_prepared_native_training(self, prepared: &'a PreparedNativeEcologyPlan) -> (frame:
        Self)
        ensures
            frame@ == (FrameView { prepared_native_training: Some(prepared@), ..self@ }),
    {
        Self { prepared_native_training: Some(prepared), ..self }
    }

    pub fn with_policy_update(self, update: &'a PolicyUpdate) -> (frame: Self)
        ensures
            frame@ == (FrameView { policy: Some(*update), ..self@ }),
    {
        Self { policy: Some(update), ..self }
    }
}

// ---------------------------------------------------------------------------
// Staging
// ---------------------------------------------------------------------------
/// What staging a step comes to.
#[verifier::ext_equal]
pub struct TransitionView {
    pub base_revision: Digest,
    pub ecology: Option<EcologyView>,
    pub delta: DeltaView,
    pub knowledge: Option<CompilerView>,
    pub policy: Option<Seq<u8>>,
    pub decision: Option<RuntimePolicyDecision>,
    pub roots: ComponentRoots,
    pub revision: Digest,
    pub base_checkpoint: Seq<u8>,
    pub record: Seq<u8>,
    pub log_root: Digest,
    pub records: u64,
}

/// The records of a step and the ecology it leads to.
#[verifier::ext_equal]
pub struct CausalStep {
    pub delta: DeltaView,
    pub ecology: EcologyView,
    pub edits: Seq<EditView>,
}

impl CoreView {
    /// A receipt of the step was issued under another revision, and the step does
    /// not settle the verification that is open.
    pub open spec fn stale(self, frame: FrameView) -> bool {
        &&& exists|i: int|
            0 <= i < frame.receipts.len() && (#[trigger] frame.receipts[i]).active_revision
                != self.revision
        &&& match frame.opened_verification {
            Some((revision, opened)) => !(revision == self.revision
                && self.components.knowledge.awaits(opened) && receipt::receipts_agree(
                frame.receipts,
                opened.receipts,
            )),
            None => true,
        }
    }

    /// The plan that a step carries, if it is still good.
    pub open spec fn plan_for(self, frame: FrameView) -> Result<
        Option<PlanView>,
        IntelligenceError,
    > {
        match frame.prepared_native_training {
            None => Ok(frame.native_training),
            Some(prepared) => if frame.native_training is Some {
                Err(IntelligenceError::InvalidModel)
            } else if prepared.base_revision != self.revision || prepared.receipt_count
                > frame.receipts.len() || prepared.settlement_count > frame.settlements.len()
                || prepared.consequence_count > frame.consequences.len() || prepared.shadow_count
                > frame.shadows.len() {
                Err(IntelligenceError::StaleTransition)
            } else {
                match self.components.ledger.prepared(
                    frame.receipts.take(prepared.receipt_count as int),
                    frame.settlements.take(prepared.settlement_count as int),
                    frame.consequences.take(prepared.consequence_count as int),
                    frame.shadows.take(prepared.shadow_count as int),
                    self.limits,
                ) {
                    Err(error) => Err(error),
                    Ok(evidence) => if crate::causal::combined_root(evidence.roots)
                        != prepared.evidence_root {
                        Err(IntelligenceError::StaleTransition)
                    } else {
                        Ok(Some(prepared.plan))
                    },
                }
            },
        }
    }

    /// The records of a step and the ecology it leads to, with what its plan adds.
    #[verifier::opaque]
    pub open spec fn causal_step(self, frame: FrameView) -> Result<CausalStep, IntelligenceError> {
        if self.stale(frame) {
            Err(IntelligenceError::StaleTransition)
        } else {
            match self.components.ledger.prepared(
                frame.receipts,
                frame.settlements,
                frame.consequences,
                frame.shadows,
                self.limits,
            ) {
                Err(error) => Err(error),
                Ok(delta) => match self.components.ecology.applied_all(frame.edits, self.limits) {
                    Err(error) => Err(error),
                    Ok(edited) => match self.plan_for(frame) {
                        Err(error) => Err(error),
                        Ok(None) => Ok(
                            CausalStep { delta, ecology: edited, edits: frame.edits },
                        ),
                        Ok(Some(plan)) => match delta.with_uses(
                            self.components.ledger,
                            plan.selection_cases,
                            self.limits,
                        ) {
                            Err(error) => Err(error),
                            Ok(delta) => match edited.applied_all(plan.edits, self.limits) {
                                Err(error) => Err(error),
                                Ok(ecology) => Ok(
                                    CausalStep { delta, ecology, edits: frame.edits + plan.edits },
                                ),
                            },
                        },
                    },
                },
            }
        }
    }

    /// How many specialists and how many records of knowledge are copied to stage a
    /// step: all of them where it edits the one or changes the other.
    pub open spec fn copied(self, frame: FrameView, step: TransitionView) -> (nat, nat) {
        (
            if self.causal_step(frame)->Ok_0.edits.len() > 0 {
                self.components.ecology.specialists.len()
            } else {
                0
            },
            if step.knowledge is Some {
                self.components.knowledge.records.len()
            } else {
                0
            },
        )
    }

    /// The knowledge that a step leads to, if it changes it.
    #[verifier::opaque]
    pub open spec fn knowledge_step(self, frame: FrameView, ledger: LedgerView) -> Result<
        Option<CompilerView>,
        IntelligenceError,
    > {
        if frame.knowledge.len() == 0 && frame.shadows.len() == 0 {
            Ok(None)
        } else {
            match self.components.knowledge.reconciled(ledger) {
                (_, Err(error)) => Err(error),
                (middle, Ok(reconciled)) => match middle.updated_all(
                    frame.knowledge,
                    ledger,
                    self.limits,
                ) {
                    (_, Err(error)) => Err(error),
                    (next, Ok(applied)) => if reconciled || applied {
                        Ok(Some(next))
                    } else {
                        Ok(None)
                    },
                },
            }
        }
    }

    /// The policy that a step leads to, if it compares any.
    #[verifier::opaque]
    pub open spec fn policy_step<P: PolicyEngine>(
        self,
        frame: FrameView,
        ledger: LedgerView,
    ) -> Result<Option<(Seq<u8>, RuntimePolicyDecision)>, IntelligenceError> {
        match frame.policy {
            None => Ok(None),
            Some(update) => {
                let challenger = SubjectId(update.challenger.0);
                match evidence::policy_evidence(ledger.shadows, update.campaign, challenger) {
                    Err(error) => Err(error),
                    Ok((incumbent_evidence, challenger_evidence)) => match P::compared(
                        self.components.policy,
                        challenger,
                        incumbent_evidence,
                        challenger_evidence,
                    ) {
                        None => Err(IntelligenceError::InvalidPolicy),
                        Some(next) => Ok(Some(next)),
                    },
                }
            },
        }
    }

    /// The step with its roots, its revision and its record.
    #[verifier::opaque]
    pub open spec fn sealed(
        self,
        frame: FrameView,
        step: CausalStep,
        knowledge: Option<CompilerView>,
        policy: Option<(Seq<u8>, RuntimePolicyDecision)>,
    ) -> Result<TransitionView, IntelligenceError> {
        let edit_bytes = if step.edits.len() == 0 {
            None
        } else {
            Some(ecology::put_edits(self.limits, step.edits))
        };
        let update_bytes = match knowledge {
            None => None,
            Some(_) => Some(compiler_steps::put_updates(frame.knowledge)),
        };
        let policy_bytes = match (policy, frame.policy) {
            (Some(_), Some(update)) => Some(policy::put_update(update)),
            _ => None,
        };
        let roots = replay::roots_after(
            self.roots,
            crate::causal::combined_root(step.delta.roots),
            edit_bytes,
            update_bytes,
            policy_bytes,
        );
        let unchanged = step.delta.is_empty_spec() && edit_bytes is None && update_bytes is None
            && policy_bytes is None;
        let record = if unchanged {
            Seq::empty()
        } else {
            checkpoint::step_record(
                edit_bytes,
                ledger::put_delta(step.delta),
                update_bytes,
                policy_bytes,
            )
        };
        if !unchanged && self.records == u64::MAX {
            Err(IntelligenceError::ResourceOverflow)
        } else {
            Ok(
                TransitionView {
                    base_revision: self.revision,
                    ecology: if step.edits.len() == 0 {
                        None
                    } else {
                        Some(step.ecology)
                    },
                    delta: step.delta,
                    knowledge,
                    policy: match policy {
                        Some((state, _)) => Some(state),
                        None => None,
                    },
                    decision: match policy {
                        Some((_, decision)) => Some(decision),
                        None => None,
                    },
                    roots,
                    revision: checkpoint::revision_of(true, self.limits, roots),
                    base_checkpoint: self.checkpoint,
                    record,
                    log_root: if unchanged {
                        self.log_root
                    } else {
                        checkpoint::logged(self.log_root, record)
                    },
                    records: if unchanged {
                        self.records
                    } else {
                        (self.records + 1) as u64
                    },
                },
            )
        }
    }

    /// What staging a step comes to, or why it is refused.
    pub open spec fn staged<P: PolicyEngine>(self, frame: FrameView) -> Result<
        TransitionView,
        IntelligenceError,
    > {
        match self.causal_step(frame) {
            Err(error) => Err(error),
            Ok(step) => {
                let ledger = self.components.ledger.committed(step.delta);
                match self.knowledge_step(frame, ledger) {
                    Err(error) => Err(error),
                    Ok(knowledge) => match self.policy_step::<P>(frame, ledger) {
                        Err(error) => Err(error),
                        Ok(policy) => self.sealed(frame, step, knowledge, policy),
                    },
                }
            },
        }
    }
}

impl TransitionView {
    /// The checkpoint once the step is taken.
    pub open spec fn checkpoint(self) -> Seq<u8> {
        if self.record.len() == 0 {
            self.base_checkpoint
        } else {
            checkpoint::appended(
                self.base_checkpoint,
                self.record,
                self.records,
                self.roots,
                self.revision,
                self.log_root,
            )
        }
    }
}

impl CoreView {
    /// The core once a step is taken.
    pub open spec fn committed(self, step: TransitionView) -> CoreView {
        CoreView {
            components: ComponentsView {
                ecology: match step.ecology {
                    Some(ecology) => ecology,
                    None => self.components.ecology,
                },
                ledger: self.components.ledger.committed(step.delta),
                knowledge: match step.knowledge {
                    Some(knowledge) => knowledge,
                    None => self.components.knowledge,
                },
                policy: match step.policy {
                    Some(policy) => policy,
                    None => self.components.policy,
                },
            },
            policy_import_eligible: self.policy_import_eligible && step.policy is None,
            roots: step.roots,
            revision: step.revision,
            checkpoint: step.checkpoint(),
            log_root: step.log_root,
            records: step.records,
            ..self
        }
    }
}

// ---------------------------------------------------------------------------
// Transitions
// ---------------------------------------------------------------------------
/// A staged step.
#[derive(Debug)]
pub struct IntelligenceTransition {
    base_revision: Digest,
    ecology: Option<ModelEcology>,
    experience: CausalDelta,
    knowledge: Option<KnowledgeCompiler>,
    policy: Option<RuntimePolicyState>,
    policy_decision: Option<RuntimePolicyDecision>,
    roots: ComponentRoots,
    revision: Digest,
    base_checkpoint: Arc<Vec<u8>>,
    checkpoint_record: Vec<u8>,
    checkpoint_log_root: Digest,
    checkpoint_records: u64,
    ecology_items_cloned: usize,
    knowledge_items_cloned: usize,
}

/// The view of a value that may be there.
pub open spec fn seen<T: View>(value: Option<T>) -> Option<T::V> {
    match value {
        Some(value) => Some(value@),
        None => None,
    }
}

impl View for IntelligenceTransition {
    type V = TransitionView;

    closed spec fn view(&self) -> TransitionView {
        TransitionView {
            base_revision: self.base_revision,
            ecology: seen(self.ecology),
            delta: self.experience@,
            knowledge: seen(self.knowledge),
            policy: seen(self.policy),
            decision: self.policy_decision,
            roots: self.roots,
            revision: self.revision,
            base_checkpoint: self.base_checkpoint@,
            record: self.checkpoint_record@,
            log_root: self.checkpoint_log_root,
            records: self.checkpoint_records,
        }
    }
}

/// A step as far as its records and its ecology go.
struct StagedCausal {
    delta: CausalDelta,
    ecology: Option<ModelEcology>,
    edits: Vec<EcologyEdit>,
}

spec fn staged_view(core: CoreView, staged: StagedCausal) -> CausalStep {
    CausalStep {
        delta: staged.delta@,
        ecology: match staged.ecology {
            Some(ecology) => ecology@,
            None => core.components.ecology,
        },
        edits: codec::views(staged.edits@),
    }
}

fn first_of<T>(items: &[T], count: usize) -> (front: &[T])
    requires
        count <= items@.len(),
    ensures
        front@ == items@.take(count as int),
{
    let front = vstd::slice::slice_subrange(items, 0, count);
    assert(front@ =~= items@.take(count as int));
    front
}

impl IntelligenceCore {
    fn is_stale(&self, frame: &SettlementFrame<'_>) -> (result: bool)
        ensures
            result == self@.stale(frame@),
    {
        let mut index: usize = 0;
        let mut foreign = false;
        while index < frame.receipts.len()
            invariant
                index <= frame.receipts@.len(),
                foreign == exists|i: int|
                    0 <= i < index && (#[trigger] frame.receipts@[i]).active_revision
                        != self.revision,
            decreases frame.receipts@.len() - index,
        {
            let differs = frame.receipts[index].issued_under() != self.revision;
            proof {
                if differs {
                    assert(frame.receipts@[index as int].active_revision != self.revision);
                }
            }
            foreign = foreign || differs;
            index = index + 1;
        }
        let settles = match frame.opened_verification {
            Some(opened) => opened.opened_revision() == self.revision
                && self.knowledge.matches_opened_verification(opened) && same_receipts(
                frame.receipts,
                opened.receipts(),
            ),
            None => false,
        };
        foreign && !settles
    }

    fn checked_plan<'a>(&self, frame: &SettlementFrame<'a>) -> (result: Result<
        Option<&'a NativeEcologyPlan>,
        IntelligenceError,
    >)
        requires
            self@.well_formed(),
        ensures
            match result {
                Ok(plan) => self@.plan_for(frame@) == Ok::<Option<PlanView>, IntelligenceError>(
                    match plan {
                        Some(plan) => Some(plan@),
                        None => None,
                    },
                ),
                Err(error) => self@.plan_for(frame@) == Err::<Option<PlanView>, IntelligenceError>(
                    error,
                ),
            },
    {
        let prepared = match frame.prepared_native_training {
            Some(prepared) => prepared,
            None => return Ok(frame.native_training),
        };
        if frame.native_training.is_some() {
            return Err(IntelligenceError::InvalidModel);
        }
        if prepared.base_revision != self.revision || prepared.receipt_count
            > frame.receipts.len() || prepared.settlement_count > frame.settlements.len()
            || prepared.consequence_count > frame.consequences.len() || prepared.shadow_count
            > frame.shadows.len() {
            return Err(IntelligenceError::StaleTransition);
        }
        let evidence = self.experience.prepare_delta(
            first_of(frame.receipts, prepared.receipt_count),
            first_of(frame.settlements, prepared.settlement_count),
            first_of(frame.consequences, prepared.consequence_count),
            first_of(frame.shadows, prepared.shadow_count),
            self.limits,
        );
        match evidence {
            Ok(evidence) => if evidence.canonical_root() != prepared.evidence_root {
                Err(IntelligenceError::StaleTransition)
            } else {
                Ok(Some(&prepared.plan))
            },
            Err(error) => Err(error),
        }
    }

    fn edited(&self, ecology: Option<ModelEcology>, edits: &[EcologyEdit]) -> (result: Result<
        Option<ModelEcology>,
        IntelligenceError,
    >)
        ensures
            ({
                let start = match ecology {
                    Some(ecology) => ecology@,
                    None => self@.components.ecology,
                };
                match result {
                    Ok(next) => start.applied_all(codec::views(edits@), self@.limits) == Ok::<
                        EcologyView,
                        IntelligenceError,
                    >(
                        match next {
                            Some(next) => next@,
                            None => self@.components.ecology,
                        },
                    ) && (next is Some <==> ecology is Some || edits@.len() > 0),
                    Err(error) => start.applied_all(codec::views(edits@), self@.limits) == Err::<
                        EcologyView,
                        IntelligenceError,
                    >(error),
                }
            }),
    {
        if edits.len() == 0 {
            return Ok(ecology);
        }
        let next = match &ecology {
            Some(ecology) => ecology.with_edits(edits, self.limits),
            None => self.ecology.with_edits(edits, self.limits),
        };
        match next {
            Ok(next) => Ok(Some(next)),
            Err(error) => Err(error),
        }
    }

    fn stage_causal(&self, frame: &SettlementFrame<'_>) -> (result: Result<
        StagedCausal,
        IntelligenceError,
    >)
        requires
            self@.well_formed(),
        ensures
            match result {
                Ok(staged) => self@.causal_step(frame@) == Ok::<CausalStep, IntelligenceError>(
                    staged_view(self@, staged),
                ) && (staged.ecology is Some <==> staged.edits@.len() > 0) && evidence::fits(
                    self@.components.ledger,
                    staged.delta@,
                ),
                Err(error) => self@.causal_step(frame@) == Err::<CausalStep, IntelligenceError>(
                    error,
                ),
            },
    {
        proof {
            reveal(CoreView::causal_step);
        }
        if self.is_stale(frame) {
            return Err(IntelligenceError::StaleTransition);
        }
        let mut delta = match self.experience.prepare_delta(
            frame.receipts,
            frame.settlements,
            frame.consequences,
            frame.shadows,
            self.limits,
        ) {
            Ok(delta) => delta,
            Err(error) => return Err(error),
        };
        let ecology = match self.edited(None, frame.edits) {
            Ok(ecology) => ecology,
            Err(error) => return Err(error),
        };
        let plan = match self.checked_plan(frame) {
            Ok(plan) => plan,
            Err(error) => return Err(error),
        };
        let mut edits: Vec<EcologyEdit> = Vec::new();
        duplicate_edits(frame.edits, &mut edits);
        assert(codec::views(edits@) =~= frame@.edits);
        let plan = match plan {
            None => return Ok(StagedCausal { delta, ecology, edits }),
            Some(plan) => plan,
        };
        match delta.record_selection_uses(
            &self.experience,
            plan.selection_cases.as_slice(),
            self.limits,
        ) {
            Ok(_) => {},
            Err(error) => return Err(error),
        }
        let ecology = match self.edited(ecology, plan.edits.as_slice()) {
            Ok(ecology) => ecology,
            Err(error) => return Err(error),
        };
        duplicate_edits(plan.edits.as_slice(), &mut edits);
        assert(codec::views(edits@) == frame@.edits + plan@.edits);
        assert(codec::views(edits@).len() == edits@.len());
        assert(plan@.edits.len() == plan.edits@.len());
        assert(frame@.edits.len() == frame.edits@.len());
        Ok(StagedCausal { delta, ecology, edits })
    }

    fn stage_knowledge(&self, frame: &SettlementFrame<'_>, delta: &CausalDelta) -> (result: Result<
        Option<KnowledgeCompiler>,
        IntelligenceError,
    >)
        requires
            self@.well_formed(),
            evidence::fits(self@.components.ledger, delta@),
        ensures
            match result {
                Ok(next) => self@.knowledge_step(
                    frame@,
                    self@.components.ledger.committed(delta@),
                ) == Ok::<Option<CompilerView>, IntelligenceError>(seen(next)) && (next matches Some(
                    knowledge,
                ) ==> knowledge@.well_formed()),
                Err(error) => self@.knowledge_step(
                    frame@,
                    self@.components.ledger.committed(delta@),
                ) == Err::<Option<CompilerView>, IntelligenceError>(error),
            },
    {
        proof {
            reveal(CoreView::knowledge_step);
        }
        if frame.knowledge.len() == 0 && frame.shadows.len() == 0 {
            return Ok(None);
        }
        let overlay = self.experience.overlay(delta);
        let mut proposed = self.knowledge.duplicate();
        let reconciled = match proposed.reconcile_promotions(&overlay) {
            Ok(reconciled) => reconciled,
            Err(error) => return Err(error),
        };
        match proposed.apply(frame.knowledge, &overlay, self.limits) {
            Ok(applied) => if reconciled || applied {
                Ok(Some(proposed))
            } else {
                Ok(None)
            },
            Err(error) => Err(error),
        }
    }

    fn stage_policy<P: PolicyEngine>(&self, frame: &SettlementFrame<'_>, delta: &CausalDelta) -> (result:
        Result<Option<(RuntimePolicyState, RuntimePolicyDecision)>, IntelligenceError>)
        ensures
            match result {
                Ok(next) => self@.policy_step::<P>(
                    frame@,
                    self@.components.ledger.committed(delta@),
                ) == Ok::<Option<(Seq<u8>, RuntimePolicyDecision)>, IntelligenceError>(
                    match next {
                        Some((state, decision)) => Some((state@, decision)),
                        None => None,
                    },
                ),
                Err(error) => self@.policy_step::<P>(
                    frame@,
                    self@.components.ledger.committed(delta@),
                ) == Err::<Option<(Seq<u8>, RuntimePolicyDecision)>, IntelligenceError>(error),
            },
    {
        proof {
            reveal(CoreView::policy_step);
        }
        let update = match frame.policy {
            Some(update) => update,
            None => return Ok(None),
        };
        let overlay = self.experience.overlay(delta);
        let challenger = SubjectId(update.challenger.0);
        let (incumbent_evidence, challenger_evidence) = match overlay.runtime_policy_evidence(
            update.campaign,
            challenger,
        ) {
            Ok(evidence) => evidence,
            Err(error) => return Err(error),
        };
        match P::compare(
            self.policy.encode(),
            challenger,
            incumbent_evidence,
            challenger_evidence,
        ) {
            Some((next, decision)) => Ok(Some((RuntimePolicyState { encoded: next }, decision))),
            None => Err(IntelligenceError::InvalidPolicy),
        }
    }
}

fn extended(label: &str, root: Digest, part: &Option<Vec<u8>>) -> (next: Digest)
    ensures
        next == replay::root_after(label, root, seen(*part)),
{
    match part {
        Some(bytes) => extend_component_root(label, root, bytes.as_slice()),
        None => root,
    }
}

fn part_of(part: &Option<Vec<u8>>) -> (slice: Option<&[u8]>)
    ensures
        checkpoint::content(slice) == seen(*part),
{
    match part {
        Some(bytes) => Some(bytes.as_slice()),
        None => None,
    }
}

impl IntelligenceCore {
    fn seal(
        &self,
        frame: &SettlementFrame<'_>,
        staged: StagedCausal,
        knowledge: Option<KnowledgeCompiler>,
        policy: Option<(RuntimePolicyState, RuntimePolicyDecision)>,
    ) -> (result: Result<IntelligenceTransition, IntelligenceError>)
        requires
            staged.ecology is Some <==> staged.edits@.len() > 0,
            policy is Some <==> frame@.policy is Some,
        ensures
            ({
                let expected = self@.sealed(
                    frame@,
                    staged_view(self@, staged),
                    seen(knowledge),
                    match policy {
                        Some((state, decision)) => Some((state@, decision)),
                        None => None,
                    },
                );
                match result {
                    Ok(transition) => expected == Ok::<TransitionView, IntelligenceError>(
                        transition@,
                    ) && transition.cloned() == (
                        (if staged.edits@.len() > 0 {
                            self@.components.ecology.specialists.len()
                        } else {
                            0
                        }),
                        (if knowledge is Some {
                            self@.components.knowledge.records.len()
                        } else {
                            0
                        }),
                    ),
                    Err(error) => expected == Err::<TransitionView, IntelligenceError>(error),
                }
            }),
    {
        proof {
            reveal(CoreView::sealed);
        }
        let ghost step = staged_view(self@, staged);
        let edit_bytes: Option<Vec<u8>> = if staged.edits.len() == 0 {
            None
        } else {
            let mut bytes: Vec<u8> = Vec::new();
            ModelEcology::encode_edits(staged.edits.as_slice(), self.limits, &mut bytes);
            assert(bytes@ =~= ecology::put_edits(self@.limits, step.edits));
            Some(bytes)
        };
        let update_bytes: Option<Vec<u8>> = if knowledge.is_some() {
            let mut bytes: Vec<u8> = Vec::new();
            KnowledgeCompiler::encode_updates(frame.knowledge, &mut bytes);
            assert(bytes@ =~= compiler_steps::put_updates(frame@.knowledge));
            Some(bytes)
        } else {
            None
        };
        let policy_bytes: Option<Vec<u8>> = match frame.policy {
            Some(update) => {
                let mut bytes: Vec<u8> = Vec::new();
                update.encode_canonical(&mut bytes);
                assert(bytes@ =~= policy::put_update(*update));
                Some(bytes)
            },
            None => None,
        };
        let roots = ComponentRoots {
            ecology: extended("ecology", self.roots.ecology, &edit_bytes),
            experience: staged.delta.canonical_root(),
            knowledge: extended("knowledge", self.roots.knowledge, &update_bytes),
            policy: extended("policy", self.roots.policy, &policy_bytes),
        };
        let revision: Digest = revision_digest(self.limits, roots);
        let unchanged = staged.delta.is_empty() && edit_bytes.is_none() && update_bytes.is_none()
            && policy_bytes.is_none();
        let record: Vec<u8> = if unchanged {
            Vec::new()
        } else {
            encode_delta_record(
                part_of(&edit_bytes),
                &staged.delta,
                part_of(&update_bytes),
                part_of(&policy_bytes),
            )
        };
        if !unchanged && self.checkpoint_records == u64::MAX {
            return Err(IntelligenceError::ResourceOverflow);
        }
        let log_root: Digest = if unchanged {
            self.checkpoint_log_root
        } else {
            checkpoint_log_root(self.checkpoint_log_root, record.as_slice())
        };
        let records: u64 = if unchanged {
            self.checkpoint_records
        } else {
            self.checkpoint_records + 1
        };
        let (policy, policy_decision) = match policy {
            Some((state, decision)) => (Some(state), Some(decision)),
            None => (None, None),
        };
        let ecology_items_cloned: usize = if staged.edits.len() > 0 {
            self.ecology.retained_item_count()
        } else {
            0
        };
        let knowledge_items_cloned: usize = if knowledge.is_some() {
            self.knowledge.retained_item_count()
        } else {
            0
        };
        Ok(
            IntelligenceTransition {
                base_revision: self.revision,
                ecology: staged.ecology,
                experience: staged.delta,
                knowledge,
                policy,
                policy_decision,
                roots,
                revision,
                base_checkpoint: share_payload(&self.checkpoint_bytes),
                checkpoint_record: record,
                checkpoint_log_root: log_root,
                checkpoint_records: records,
                ecology_items_cloned,
                knowledge_items_cloned,
            },
        )
    }

    /// Stages a step. The core itself stays as it is; what is refused leaves
    /// nothing behind.
    pub fn stage<P: PolicyEngine>(&self, frame: SettlementFrame<'_>) -> (result: Result<
        IntelligenceTransition,
        IntelligenceError,
    >)
        requires
            self@.well_formed(),
        ensures
            match result {
                Ok(transition) => self@.staged::<P>(frame@) == Ok::<
                    TransitionView,
                    IntelligenceError,
                >(transition@) && self@.committed(transition@).well_formed()
                    && transition.cloned() == self@.copied(frame@, transition@),
                Err(error) => self@.staged::<P>(frame@) == Err::<TransitionView, IntelligenceError>(
                    error,
                ),
            },
    {
        let staged = match self.stage_causal(&frame) {
            Ok(staged) => staged,
            Err(error) => return Err(error),
        };
        let knowledge = match self.stage_knowledge(&frame, &staged.delta) {
            Ok(knowledge) => knowledge,
            Err(error) => return Err(error),
        };
        let policy = match self.stage_policy::<P>(&frame, &staged.delta) {
            Ok(policy) => policy,
            Err(error) => return Err(error),
        };
        assert(policy is Some <==> frame@.policy is Some) by {
            reveal(CoreView::policy_step);
        }
        let ghost delta = staged.delta@;
        let ghost compiled = seen(knowledge);
        let result = self.seal(&frame, staged, knowledge, policy);
        proof {
            replay::lemma_commit_settled(self@.components.ledger, delta);
            match &result {
                Ok(transition) => {
                    assert(transition@.delta == delta && transition@.knowledge == compiled
                        && transition@.base_checkpoint == self@.checkpoint) by {
                        reveal(CoreView::sealed);
                    }
                    checkpoint::lemma_footer_len(
                        transition@.records,
                        transition@.roots,
                        transition@.revision,
                        transition@.log_root,
                    );
                },
                Err(_) => {},
            }
        }
        result
    }
}

impl IntelligenceTransition {
    /// How many items were copied to stage the step.
    pub closed spec fn cloned(self) -> (nat, nat) {
        (self.ecology_items_cloned as nat, self.knowledge_items_cloned as nat)
    }

    pub fn revision(&self) -> (revision: Digest)
        ensures
            revision == self@.revision,
    {
        self.revision
    }

    /// The verification that is open once the step is taken, if the step changes
    /// knowledge.
    pub fn opened_verification(&self) -> (result: Option<OpenedKnowledgeWork>)
        ensures
            match (
                result,
                match self@.knowledge {
                    Some(knowledge) => knowledge.pending,
                    None => None,
                },
            ) {
                (Some(opened), Some(pending)) => opened@ == pending && opened.opened_under()
                    == self@.revision,
                (None, None) => true,
                _ => false,
            },
    {
        match &self.knowledge {
            Some(knowledge) => knowledge.opened_verification(self.revision),
            None => None,
        }
    }

    pub fn policy_decision(&self) -> (decision: Option<RuntimePolicyDecision>)
        ensures
            decision == self@.decision,
    {
        self.policy_decision
    }
}

/// What it took to stage a step.
#[derive(Clone, Copy, Debug, PartialEq, Eq, Structural)]
pub struct StageWork {
    pub causal_items: usize,
    pub ecology_recomputed: bool,
    pub knowledge_recomputed: bool,
    pub checkpoint_delta_bytes: usize,
    pub historical_items_reencoded: usize,
    pub ecology_items_cloned: usize,
    pub knowledge_items_cloned: usize,
}

impl IntelligenceTransition {
    pub fn stage_work(&self) -> (work: StageWork)
        ensures
            work.causal_items == ledger::saturating_sum(
                ledger::saturating_sum(
                    ledger::saturating_sum(
                        self@.delta.receipts.len(),
                        self@.delta.settlements.len(),
                    ),
                    self@.delta.consequences.len(),
                ),
                self@.delta.updates.len(),
            ),
            work.ecology_recomputed == (self@.ecology is Some),
            work.knowledge_recomputed == (self@.knowledge is Some),
            work.checkpoint_delta_bytes == self@.record.len(),
            work.historical_items_reencoded == 0,
            work.ecology_items_cloned == self.cloned().0,
            work.knowledge_items_cloned == self.cloned().1,
    {
        StageWork {
            causal_items: self.experience.staged_item_count(),
            ecology_recomputed: self.ecology.is_some(),
            knowledge_recomputed: self.knowledge.is_some(),
            checkpoint_delta_bytes: self.checkpoint_record.len(),
            historical_items_reencoded: 0,
            ecology_items_cloned: self.ecology_items_cloned,
            knowledge_items_cloned: self.knowledge_items_cloned,
        }
    }

    /// How long the checkpoint will be.
    pub fn checkpoint_encoded_len(&self) -> (length: usize)
        ensures
            length == crate::resident::capped_sum(
                self@.base_checkpoint.len(),
                self@.record.len(),
            ),
    {
        self.base_checkpoint.len().saturating_add(self.checkpoint_record.len())
    }

    /// The bytes that taking the step adds: those of its checkpoint, where it has a
    /// record, and those by which the records of the core grow.
    pub fn materialization_resident_bytes(&self, core: &IntelligenceCore) -> (bytes: u64)
        ensures
            exists|growth: u64| #[trigger]
                footprint::reservation_takes(core@.components.ledger, self@.delta, growth as nat)
                    && bytes == footprint::materialization_memory(
                    self@.base_checkpoint.len(),
                    self@.record.len(),
                    growth as nat,
                ),
    {
        let growth: u64 = core.experience.reservation_resident_bytes(&self.experience);
        assert(footprint::reservation_takes(core@.components.ledger, self@.delta, growth as nat));
        materialization_bytes(self.base_checkpoint.len(), self.checkpoint_record.len(), growth)
    }

    /// The checkpoint once the step is taken. Where there is no room for it, or the
    /// step was staged on a checkpoint without a footer, it is refused.
    pub fn checkpoint(&self) -> (result: Result<IntelligenceCheckpoint, IntelligenceError>)
        ensures
            match result {
                Ok(checkpoint) => checkpoint@ == self@.checkpoint(),
                Err(error) => self@.record.len() > 0 && (if self@.base_checkpoint.len()
                    < CHECKPOINT_FOOTER_BYTES {
                    error is CorruptState
                } else {
                    error is CapacityExceeded
                }),
            },
    {
        if self.checkpoint_record.len() == 0 {
            return Ok(IntelligenceCheckpoint::of(share_payload(&self.base_checkpoint)));
        }
        match build_delta_checkpoint(
            self.base_checkpoint.as_slice(),
            self.checkpoint_record.as_slice(),
            self.checkpoint_records,
            self.roots,
            self.revision,
            self.checkpoint_log_root,
        ) {
            Ok(bytes) => Ok(IntelligenceCheckpoint::of(Arc::new(bytes))),
            Err(error) => Err(error),
        }
    }

    /// Makes everything ready for the commit, so that the commit cannot fail. The
    /// core stays as it is.
    pub fn prepare(self, core: &mut IntelligenceCore) -> (result: Result<
        PreparedIntelligenceCommit,
        IntelligenceError,
    >)
        ensures
            final(core)@ == old(core)@,
            match result {
                Ok(prepared) => old(core)@.revision == self@.base_revision && prepared.step()
                    == self@,
                Err(error) => if old(core)@.revision != self@.base_revision {
                    error is StaleTransition
                } else if self@.record.len() == 0 {
                    error is CapacityExceeded && self@.delta.needs_room()
                } else if self@.base_checkpoint.len() < CHECKPOINT_FOOTER_BYTES {
                    error is CorruptState || (error is CapacityExceeded
                        && self@.delta.needs_room())
                } else {
                    error is CapacityExceeded
                },
            },
    {
        if core.revision != self.base_revision {
            return Err(IntelligenceError::StaleTransition);
        }
        let ghost before = core@;
        match core.experience.reserve_for_delta(&self.experience) {
            Ok(_) => {},
            Err(error) => return Err(error),
        }
        assert(core@ =~= before);
        match self.checkpoint() {
            Ok(checkpoint) => Ok(PreparedIntelligenceCommit { transition: self, checkpoint }),
            Err(error) => Err(error),
        }
    }

    /// Prepares and commits in one go; what is refused changes nothing.
    pub fn commit(self, core: &mut IntelligenceCore) -> (result: Result<(), IntelligenceError>)
        ensures
            match result {
                Ok(_) => old(core)@.revision == self@.base_revision && final(core)@ == old(
                    core,
                )@.committed(self@),
                Err(error) => final(core)@ == old(core)@ && if old(core)@.revision
                    != self@.base_revision {
                    error is StaleTransition
                } else if self@.record.len() == 0 {
                    error is CapacityExceeded && self@.delta.needs_room()
                } else if self@.base_checkpoint.len() < CHECKPOINT_FOOTER_BYTES {
                    error is CorruptState || (error is CapacityExceeded
                        && self@.delta.needs_room())
                } else {
                    error is CapacityExceeded
                },
            },
    {
        match self.prepare(core) {
            Ok(prepared) => {
                prepared.commit(core);
                Ok(())
            },
            Err(error) => Err(error),
        }
    }
}

/// A step for whose commit everything is ready.
#[derive(Debug)]
pub struct PreparedIntelligenceCommit {
    transition: IntelligenceTransition,
    checkpoint: IntelligenceCheckpoint,
}

impl PreparedIntelligenceCommit {
    #[verifier::type_invariant]
    spec fn complete(self) -> bool {
        self.checkpoint@ == self.transition@.checkpoint()
    }

    /// The step.
    pub closed spec fn step(self) -> TransitionView {
        self.transition@
    }

    pub fn proposed<'a>(&'a self, base: &'a IntelligenceCore) -> (view: ProposedIntelligenceView<
        'a,
    >)
        ensures
            view.step() == self.step(),
            view.base() == base@,
    {
        proof {
            use_type_invariant(self);
        }
        ProposedIntelligenceView { transition: &self.transition, base, checkpoint: &self.checkpoint }
    }

    /// Takes the step.
    pub fn commit(self, core: &mut IntelligenceCore)
        requires
            old(core)@.revision == self.step().base_revision,
        ensures
            final(core)@ == old(core)@.committed(self.step()),
    {
        proof {
            use_type_invariant(&self);
        }
        let ghost step = self.step();
        let ghost before = core@;
        let PreparedIntelligenceCommit { transition, checkpoint } = self;
        core.experience.commit_reserved_delta(transition.experience);
        match transition.ecology {
            Some(ecology) => {
                core.ecology = ecology;
            },
            None => {},
        }
        match transition.knowledge {
            Some(knowledge) => {
                core.knowledge = knowledge;
            },
            None => {},
        }
        match transition.policy {
            Some(policy) => {
                core.policy = policy;
                core.policy_import_eligible = false;
            },
            None => {},
        }
        core.roots = transition.roots;
        core.revision = transition.revision;
        core.checkpoint_bytes = checkpoint.into_bytes();
        core.checkpoint_log_root = transition.checkpoint_log_root;
        core.checkpoint_records = transition.checkpoint_records;
        assert(core@ =~= before.committed(step));
    }
}

/// What a core will be once a prepared step is taken.
#[derive(Clone, Copy)]
pub struct ProposedIntelligenceView<'a> {
    transition: &'a IntelligenceTransition,
    base: &'a IntelligenceCore,
    checkpoint: &'a IntelligenceCheckpoint,
}

impl<'a> ProposedIntelligenceView<'a> {
    #[verifier::type_invariant]
    spec fn complete(self) -> bool {
        self.checkpoint@ == self.transition@.checkpoint()
    }

    pub closed spec fn step(self) -> TransitionView {
        self.transition@
    }

    pub closed spec fn base(self) -> CoreView {
        self.base@
    }

    pub fn checkpoint_bytes(&self) -> (bytes: &[u8])
        ensures
            bytes@ == self.step().checkpoint(),
    {
        proof {
            use_type_invariant(self);
        }
        self.checkpoint.as_bytes()
    }

    pub fn revision(&self) -> (revision: Digest)
        ensures
            revision == self.step().revision,
    {
        self.transition.revision
    }

    pub fn model_ecology_identity(&self) -> (identity: Digest)
        ensures
            identity == self.step().roots.ecology,
    {
        self.transition.roots.ecology
    }

    /// The identity of the product that will be active.
    pub fn knowledge_product_identity(&self) -> (identity: Digest)
        requires
            self.base().committed(self.step()).components.knowledge.well_formed(),
        ensures
            identity
                == self.base().committed(self.step()).components.knowledge.active.active_product(),
    {
        match &self.transition.knowledge {
            Some(knowledge) => knowledge.product(),
            None => self.base.knowledge.product(),
        }
    }

    pub fn runtime_policy_revision<P: PolicyEngine>(&self) -> (revision: RuntimePolicyRevision)
        ensures
            revision == P::in_force(self.base().committed(self.step()).components.policy),
    {
        match &self.transition.policy {
            Some(policy) => P::active(policy.encode()),
            None => P::active(self.base.policy.encode()),
        }
    }
}

// ---------------------------------------------------------------------------
// Training
// ---------------------------------------------------------------------------
impl CoreView {
    /// A plan bound to a core and to evidence that the core is to learn.
    pub open spec fn plan_prepared(
        self,
        evidence: FrameView,
        plan: Option<PlanView>,
        scratch_bytes: u64,
    ) -> Result<Option<PreparedView>, IntelligenceError> {
        if !evidence.observes_only() {
            Err(IntelligenceError::InvalidModel)
        } else {
            match self.components.ledger.prepared(
                evidence.receipts,
                evidence.settlements,
                evidence.consequences,
                evidence.shadows,
                self.limits,
            ) {
                Err(error) => Err(error),
                Ok(delta) => match plan {
                    None => Ok(None),
                    Some(plan) => Ok(
                        Some(
                            PreparedView {
                                base_revision: self.revision,
                                evidence_root: crate::causal::combined_root(delta.roots),
                                receipt_count: evidence.receipts.len() as usize,
                                settlement_count: evidence.settlements.len() as usize,
                                consequence_count: evidence.consequences.len() as usize,
                                shadow_count: evidence.shadows.len() as usize,
                                scratch_bytes,
                                plan,
                            },
                        ),
                    ),
                },
            }
        }
    }

    /// Whether a plan that was made again is the one that was prepared.
    pub open spec fn plan_reproduced(
        self,
        evidence: FrameView,
        prepared: PreparedView,
        again: Option<PlanView>,
    ) -> Result<bool, IntelligenceError> {
        if prepared.base_revision != self.revision || prepared.receipt_count
            != evidence.receipts.len() || prepared.settlement_count != evidence.settlements.len()
            || prepared.consequence_count != evidence.consequences.len() || prepared.shadow_count
            != evidence.shadows.len() {
            Err(IntelligenceError::StaleTransition)
        } else {
            match self.plan_prepared(evidence, again, prepared.scratch_bytes) {
                Err(error) => Err(error),
                Ok(None) => Ok(false),
                Ok(Some(reproduced)) => Ok(
                    reproduced.evidence_root == prepared.evidence_root && reproduced.plan.identity
                        == prepared.plan.identity,
                ),
            }
        }
    }
}

impl IntelligenceCore {
    /// Binds what the trainer proposes to the core and to the evidence it was made
    /// from. The trainer works on the prepared evidence, and takes so much memory.
    pub fn prepare_native_training(
        &self,
        evidence: SettlementFrame<'_>,
        plan: Option<NativeEcologyPlan>,
        scratch_bytes: u64,
    ) -> (result: Result<Option<PreparedNativeEcologyPlan>, IntelligenceError>)
        requires
            self@.well_formed(),
        ensures
            match result {
                Ok(prepared) => self@.plan_prepared(evidence@, seen(plan), scratch_bytes) == Ok::<
                    Option<PreparedView>,
                    IntelligenceError,
                >(seen(prepared)),
                Err(error) => self@.plan_prepared(evidence@, seen(plan), scratch_bytes) == Err::<
                    Option<PreparedView>,
                    IntelligenceError,
                >(error),
            },
    {
        if evidence.edits.len() != 0 || evidence.knowledge.len() != 0 || evidence.policy.is_some()
            || evidence.native_training.is_some() || evidence.prepared_native_training.is_some()
            || evidence.opened_verification.is_some() {
            return Err(IntelligenceError::InvalidModel);
        }
        let delta = match self.experience.prepare_delta(
            evidence.receipts,
            evidence.settlements,
            evidence.consequences,
            evidence.shadows,
            self.limits,
        ) {
            Ok(delta) => delta,
            Err(error) => return Err(error),
        };
        match plan {
            None => Ok(None),
            Some(plan) => Ok(
                Some(
                    PreparedNativeEcologyPlan {
                        base_revision: self.revision,
                        evidence_root: delta.canonical_root(),
                        receipt_count: evidence.receipts.len(),
                        settlement_count: evidence.settlements.len(),
                        consequence_count: evidence.consequences.len(),
                        shadow_count: evidence.shadows.len(),
                        scratch_bytes,
                        plan,
                    },
                ),
            ),
        }
    }

    /// Whether what the trainer proposes again is the plan that was prepared.
    pub fn reproduce_prepared_native_training(
        &self,
        evidence: SettlementFrame<'_>,
        prepared: &PreparedNativeEcologyPlan,
        again: Option<NativeEcologyPlan>,
    ) -> (result: Result<bool, IntelligenceError>)
        requires
            self@.well_formed(),
        ensures
            result == self@.plan_reproduced(evidence@, prepared@, seen(again)),
    {
        if prepared.base_revision != self.revision || prepared.receipt_count
            != evidence.receipts.len() || prepared.settlement_count != evidence.settlements.len()
            || prepared.consequence_count != evidence.consequences.len() || prepared.shadow_count
            != evidence.shadows.len() {
            return Err(IntelligenceError::StaleTransition);
        }
        match self.prepare_native_training(evidence, again, prepared.scratch_bytes) {
            Err(error) => Err(error),
            Ok(None) => Ok(false),
            Ok(Some(reproduced)) => Ok(
                reproduced.evidence_root == prepared.evidence_root && reproduced.plan.identity
                    == prepared.plan.identity,
            ),
        }
    }
}

} // verus!
