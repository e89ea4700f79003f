//! What a core tells of itself.
use vstd::prelude::*;

use crate::allocation;
use crate::allocation::{PortfolioBuffer, PortfolioView};
use crate::challenger::share_payload;
use crate::checkpoint;
use crate::checkpoint::{component_roots, ComponentRoots};
use crate::codec;
use crate::compiler::{KnowledgeCompiler, RecordView};
use crate::compiler_wire;
use crate::consolidation::KnowledgeRevision;
use crate::digest;
use crate::digest::{hash_bytes, Digest};
use crate::ecology;
use crate::ecology::ModelEcologyManifest;
use crate::evidence::CausalExperienceView;
use crate::forecast::ScoredForecast;
use crate::intelligence;
use crate::intelligence::{IntelligenceCheckpoint, IntelligenceCore};
use crate::knowledge::KnowledgeStatus;
use crate::ledger;
use crate::market::MarketFrame;
use crate::policy;
use crate::policy::{PolicyEngine, RuntimePolicyRevision};
use crate::portfolio;
use crate::receipt::{DecisionId, ReceiptFormat};
use crate::recovery;
use crate::recovery::{KnowledgeRecoveryManifest, ManifestView};
use crate::types::{IntelligenceError, IntelligenceLimits};

verus! {

broadcast use intelligence::lemma_core_view;

/// How many challengers stand where.
#[derive(Clone, Copy, Debug, PartialEq, Eq, Hash, Structural)]
pub struct KnowledgeStatistics {
    pub provisional: usize,
    pub verified: usize,
    pub promoted: usize,
    pub invalidated: usize,
}

/// How many records have a standing: a refuted challenger counts as provisional.
pub open spec fn standing(records: Seq<RecordView>) -> (nat, nat, nat, nat)
    decreases records.len(),
{
    if records.len() == 0 {
        (0, 0, 0, 0)
    } else {
        let (provisional, verified, promoted, invalidated) = standing(records.drop_last());
        match records.last().status {
            KnowledgeStatus::Provisional => (provisional + 1, verified, promoted, invalidated),
            KnowledgeStatus::Refuted => (provisional + 1, verified, promoted, invalidated),
            KnowledgeStatus::Verified => (provisional, verified + 1, promoted, invalidated),
            KnowledgeStatus::Promoted => (provisional, verified, promoted + 1, invalidated),
            KnowledgeStatus::Invalidated(_) => (provisional, verified, promoted, invalidated + 1),
        }
    }
}

/// Every record is counted once.
pub proof fn law_every_record_is_counted(records: Seq<RecordView>)
    ensures
        standing(records).0 + standing(records).1 + standing(records).2 + standing(records).3
            == records.len(),
    decreases records.len(),
{
    if records.len() > 0 {
        law_every_record_is_counted(records.drop_last());
    }
}

impl KnowledgeCompiler {
    /// Counts the challengers by where they stand.
    pub fn statistics(&self) -> (statistics: KnowledgeStatistics)
        ensures
            standing(self@.records) == (
                statistics.provisional as nat,
                statistics.verified as nat,
                statistics.promoted as nat,
                statistics.invalidated as nat,
            ),
    {
        let records = self.records();
        let ghost all = self@.records;
        let mut statistics = KnowledgeStatistics {
            provisional: 0,
            verified: 0,
            promoted: 0,
            invalidated: 0,
        };
        let mut index: usize = 0;
        assert(all.take(0) =~= Seq::empty());
        while index < records.len()
            invariant
                index <= records@.len(),
                all == codec::views(records@),
                standing(all.take(index as int)) == (
                    statistics.provisional as nat,
                    statistics.verified as nat,
                    statistics.promoted as nat,
                    statistics.invalidated as nat,
                ),
            decreases records@.len() - index,
        {
            proof {
                law_every_record_is_counted(all.take(index as int));
                assert(all.take(index + 1).drop_last() =~= all.take(index as int));
                assert(all.take(index + 1).last() == records@[index as int]@);
            }
            match records[index].status() {
                KnowledgeStatus::Provisional | KnowledgeStatus::Refuted => {
                    statistics.provisional = statistics.provisional + 1;
                },
                KnowledgeStatus::Verified => {
                    statistics.verified = statistics.verified + 1;
                },
                KnowledgeStatus::Promoted => {
                    statistics.promoted = statistics.promoted + 1;
                },
                KnowledgeStatus::Invalidated(_) => {
                    statistics.invalidated = statistics.invalidated + 1;
                },
            }
            index = index + 1;
        }
        assert(all.take(all.len() as int) =~= all);
        statistics
    }
}

/// What the parts of a core come to: their roots as of a snapshot, the digests of
/// their byte forms, how many challengers there are, whether a verification is open,
/// and how many operators are active.
#[derive(Clone, Copy, Debug, PartialEq, Eq, Structural)]
pub struct ComponentInspection {
    pub roots: ComponentRoots,
    pub contents: ComponentRoots,
    pub challengers: usize,
    pub verification_open: bool,
    pub active_operators: usize,
}

impl IntelligenceCore {
    /// Chooses what to invest in; see `PortfolioBuffer::allocate`.
    pub fn allocate(
        &self,
        frame: MarketFrame<'_>,
        limit: usize,
        evaluations: &[Vec<ScoredForecast>],
        output: &mut PortfolioBuffer,
    ) -> (result: Result<(), IntelligenceError>)
        requires
            frame.market.well_formed(),
        ensures
            match result {
                Ok(_) => allocation::portfolio_of(
                    self@.revision,
                    self@.limits,
                    self@.components.ecology.specialists,
                    frame.market@,
                    frame.allowance,
                    frame.epoch,
                    limit as nat,
                    codec::views(evaluations@),
                ) == Ok::<PortfolioView, IntelligenceError>(final(output)@) && match
                    portfolio::bids_for(
                    frame.market@,
                    self@.components.ecology.specialists,
                    self@.limits,
                    codec::views(evaluations@),
                    frame.market@.investments.len(),
                ) {
                    Ok(bids) => final(output).evaluated() == bids.len(),
                    Err(_) => false,
                },
                Err(error) => allocation::portfolio_of(
                    self@.revision,
                    self@.limits,
                    self@.components.ecology.specialists,
                    frame.market@,
                    frame.allowance,
                    frame.epoch,
                    limit as nat,
                    codec::views(evaluations@),
                ) == Err::<PortfolioView, IntelligenceError>(error) && final(output)@
                    == allocation::no_portfolio(),
            },
    {
        output.allocate(self.revision, self.limits, &self.ecology, frame, limit, evaluations)
    }

    pub fn manifest<'a>(&'a self) -> (manifest: ModelEcologyManifest<'a>)
        ensures
            manifest.ecology@ == self@.components.ecology,
    {
        self.ecology.manifest()
    }

    pub fn model_ecology_identity(&self) -> (identity: Digest)
        ensures
            identity == self@.roots.ecology,
    {
        self.roots.ecology
    }

    pub fn experience<'a>(&'a self) -> (experience: CausalExperienceView<'a>)
        ensures
            experience.ledger@ == self@.components.ledger,
    {
        self.experience.experience()
    }

    pub fn knowledge(&self) -> (knowledge: &KnowledgeCompiler)
        ensures
            knowledge@ == self@.components.knowledge,
    {
        &self.knowledge
    }

    pub fn pinned_knowledge_revision(&self) -> (revision: &KnowledgeRevision)
        requires
            self@.well_formed(),
        ensures
            revision@ == self@.components.knowledge.active.revisions.last(),
    {
        self.knowledge.pinned_revision()
    }

    pub fn knowledge_product(&self) -> (product: Digest)
        requires
            self@.well_formed(),
        ensures
            product == self@.components.knowledge.active.active_product(),
    {
        self.knowledge.product()
    }

    pub fn knowledge_generation(&self) -> (generation: u64)
        ensures
            generation == self@.components.knowledge.active.generation,
    {
        self.knowledge.generation()
    }

    pub fn knowledge_recovery_manifest_resident_bytes(&self) -> (result: Result<
        usize,
        IntelligenceError,
    >)
        ensures
            result == match recovery::counted(self@.components.knowledge, self@.limits) {
                Err(error) => Err::<usize, IntelligenceError>(error),
                Ok(_) => if recovery::manifest_bytes(
                    recovery::sources(self@.components.knowledge),
                ) > usize::MAX {
                    Err(IntelligenceError::ResourceOverflow)
                } else {
                    Ok(
                        recovery::manifest_bytes(
                            recovery::sources(self@.components.knowledge),
                        ) as usize,
                    )
                },
            },
    {
        self.knowledge.recovery_manifest_resident_bytes(self.limits)
    }

    pub fn knowledge_recovery_manifest(&self) -> (result: Result<
        KnowledgeRecoveryManifest,
        IntelligenceError,
    >)
        ensures
            ({
                let expected = recovery::manifest_of(
                    self@.components.knowledge,
                    self@.revision,
                    self@.roots.knowledge,
                    self@.limits,
                );
                match result {
                    Ok(manifest) => expected == Ok::<ManifestView, IntelligenceError>(manifest@),
                    Err(error) => expected == Err::<ManifestView, IntelligenceError>(error),
                }
            }),
    {
        self.knowledge.recovery_manifest(self.revision, self.roots.knowledge, self.limits)
    }

    pub fn knowledge_recovery_manifest_matches(&self, manifest: &KnowledgeRecoveryManifest) -> (result:
        bool)
        ensures
            result == manifest@.about(self@.revision, self@.roots.knowledge),
    {
        manifest.matches(self.revision, self.roots.knowledge)
    }

    pub fn knowledge_statistics(&self) -> (statistics: KnowledgeStatistics)
        ensures
            standing(self@.components.knowledge.records) == (
                statistics.provisional as nat,
                statistics.verified as nat,
                statistics.promoted as nat,
                statistics.invalidated as nat,
            ),
    {
        self.knowledge.statistics()
    }

    pub fn runtime_policy_revision<P: PolicyEngine>(&self) -> (revision: RuntimePolicyRevision)
        ensures
            revision == P::in_force(self@.components.policy),
    {
        P::active(self.policy.encode())
    }

    pub fn runtime_policy_identity(&self) -> (identity: Digest)
        ensures
            identity == policy::policy_root(self@.components.policy),
    {
        self.policy.canonical_root()
    }

    pub fn completed_candidate_production(&self, decision: DecisionId) -> (result: bool)
        ensures
            result == exists|i: int|
                0 <= i < self@.components.ledger.receipts.len() && i
                    < self@.components.ledger.settlements.len() && (
                #[trigger] self@.components.ledger.receipts[i]).decision == decision
                    && self@.components.ledger.settlements[i].decision == decision
                    && ledger::produced(
                    self@.components.ledger.receipts[i],
                    self@.components.ledger.settlements[i],
                ),
    {
        self.experience.completed_candidate_production(decision)
    }

    pub fn limits(&self) -> (limits: IntelligenceLimits)
        ensures
            limits == self@.limits,
    {
        self.limits
    }

    pub fn active_revision(&self) -> (revision: Digest)
        ensures
            revision == self@.revision,
    {
        self.revision
    }

    /// The checkpoint, which is shared and not copied.
    pub fn checkpoint(&self) -> (checkpoint: IntelligenceCheckpoint)
        ensures
            checkpoint@ == self@.checkpoint,
    {
        IntelligenceCheckpoint::of(share_payload(&self.checkpoint_bytes))
    }

    pub fn checkpoint_bytes(&self) -> (bytes: &[u8])
        ensures
            bytes@ == self@.checkpoint,
    {
        self.checkpoint_bytes.as_slice()
    }

    /// Inspects the parts of the core.
    pub fn treatment_component_inspection(&self) -> (inspection: ComponentInspection)
        requires
            self@.well_formed(),
        ensures
            inspection.roots == checkpoint::roots_of(self@.components),
            inspection.contents.ecology == digest::hash(
                ecology::put_ecology(self@.components.ecology),
            ),
            inspection.contents.experience == digest::hash(
                ledger::put_ledger(ReceiptFormat::Current, self@.components.ledger),
            ),
            inspection.contents.knowledge == digest::hash(
                compiler_wire::put_compiler(self@.components.knowledge),
            ),
            inspection.contents.policy == digest::hash(self@.components.policy),
            inspection.challengers == self@.components.knowledge.records.len(),
            inspection.verification_open == (self@.components.knowledge.pending is Some),
            inspection.active_operators
                == self@.components.knowledge.active.revisions.last().operators.len(),
    {
        let mut ecology: Vec<u8> = Vec::new();
        self.ecology.encode_canonical(&mut ecology);
        let mut experience: Vec<u8> = Vec::new();
        self.experience.encode_canonical(&mut experience);
        let mut knowledge: Vec<u8> = Vec::new();
        self.knowledge.encode_canonical(&mut knowledge);
        assert(ecology@ =~= ecology::put_ecology(self@.components.ecology));
        assert(experience@ =~= ledger::put_ledger(
            ReceiptFormat::Current,
            self@.components.ledger,
        ));
        assert(knowledge@ =~= compiler_wire::put_compiler(self@.components.knowledge));
        let challengers: usize = self.knowledge.records().len();
        let operators = self.knowledge.pinned_revision().operators();
        assert(operators@.len()
            == self@.components.knowledge.active.revisions.last().operators.len());
        let roots = component_roots(
            &self.ecology,
            &self.experience,
            &self.knowledge,
            &self.policy,
        );
        let contents = ComponentRoots {
            ecology: hash_bytes(ecology.as_slice()),
            experience: hash_bytes(experience.as_slice()),
            knowledge: hash_bytes(knowledge.as_slice()),
            policy: hash_bytes(self.policy.encode()),
        };
        let verification_open = match self.knowledge.pending() {
            Some(_) => true,
            None => false,
        };
        ComponentInspection {
            roots,
            contents,
            challengers,
            verification_open,
            active_operators: operators.len(),
        }
    }
}

} // verus!
