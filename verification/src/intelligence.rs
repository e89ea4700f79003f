//! The core: its components, the limits they keep to, and the checkpoint that holds
//! all of it.
use vstd::prelude::*;

use std::sync::Arc;

use crate::challenger::{same_allocation, share_payload};
use crate::checkpoint;
use crate::checkpoint::{
    component_roots, revision_digest, snapshot_checkpoint, CheckpointWire, ComponentRoots,
    ComponentsView, CHECKPOINT_FOOTER_BYTES,
};
use crate::codec::Decoder;
use crate::compiler::{CompilerView, KnowledgeCompiler};
use crate::digest;
use crate::digest::Digest;
use crate::ecology;
use crate::ecology::{EcologyView, ModelEcology};
use crate::ledger;
use crate::ledger::{copied, CausalLedger, LedgerView};
use crate::policy;
use crate::policy::{PolicyEngine, RuntimePolicyState};
use crate::replay;
use crate::replay::{ReplayState, ReplayView};
use crate::resident::capacity_of;
use crate::shadow::CheckpointDigest;
use crate::types::{IntelligenceError, IntelligenceLimits};

verus! {

// ---------------------------------------------------------------------------
// The core
// ---------------------------------------------------------------------------
/// What a core consists of.
#[verifier::ext_equal]
pub struct CoreView {
    pub limits: IntelligenceLimits,
    pub components: ComponentsView,
    pub policy_import_eligible: bool,
    pub legacy_ftrl_import_eligible: bool,
    pub legacy_knowledge_import_eligible: bool,
    pub roots: ComponentRoots,
    pub revision: Digest,
    pub checkpoint: Seq<u8>,
    pub log_root: Digest,
    pub records: u64,
}

impl CoreView {
    /// A core with the given components and a checkpoint that holds nothing else.
    pub open spec fn assembled(
        limits: IntelligenceLimits,
        components: ComponentsView,
        policy_import_eligible: bool,
        legacy_ftrl_import_eligible: bool,
        legacy_knowledge_import_eligible: bool,
    ) -> CoreView {
        let wire = CheckpointWire::current_spec();
        let roots = checkpoint::roots_of(components);
        let revision = checkpoint::revision_of(true, limits, roots);
        CoreView {
            limits,
            components,
            policy_import_eligible,
            legacy_ftrl_import_eligible,
            legacy_knowledge_import_eligible,
            roots,
            revision,
            checkpoint: checkpoint::snapshot(wire, limits, components, roots, revision),
            log_root: checkpoint::snapshot_log(wire, limits, components),
            records: 1,
        }
    }

    /// What a core works on, and how far its checkpoint leads.
    pub open spec fn replay(self) -> ReplayView {
        ReplayView {
            components: self.components,
            roots: self.roots,
            checked: self.roots,
            log_root: self.log_root,
            records: self.records,
        }
    }
}

/// The components that everything begins with.
pub open spec fn initial_components<P: PolicyEngine>() -> ComponentsView {
    ComponentsView {
        ecology: EcologyView::empty(),
        ledger: LedgerView::empty(),
        knowledge: CompilerView::initial(),
        policy: P::initial(),
    }
}

/// A checkpoint as it is handed out.
#[derive(Clone, Debug, PartialEq, Eq)]
pub struct IntelligenceCheckpoint {
    bytes: Arc<Vec<u8>>,
}

impl View for IntelligenceCheckpoint {
    type V = Seq<u8>;

    closed spec fn view(&self) -> Seq<u8> {
        self.bytes@
    }
}

/// The last bytes of a checkpoint.
pub open spec fn checkpoint_identity(bytes: Seq<u8>) -> Digest {
    digest::digest_of(bytes.skip(bytes.len() - 32))
}

impl IntelligenceCheckpoint {
    pub(crate) fn of(bytes: Arc<Vec<u8>>) -> (checkpoint: Self)
        ensures
            checkpoint@ == bytes@,
    {
        Self { bytes }
    }

    pub(crate) fn into_bytes(self) -> (bytes: Arc<Vec<u8>>)
        ensures
            bytes@ == self@,
    {
        self.bytes
    }

    pub fn as_bytes(&self) -> (bytes: &[u8])
        ensures
            bytes@ == self@,
    {
        self.bytes.as_slice()
    }

    /// The checksum that the checkpoint ends with.
    pub fn identity(&self) -> (identity: Digest)
        requires
            self@.len() >= 32,
        ensures
            identity == checkpoint_identity(self@),
    {
        let length: usize = self.bytes.len();
        let tail = vstd::slice::slice_subrange(self.bytes.as_slice(), length - 32, length);
        let mut input = Decoder::new(tail);
        assert(input@ =~= self@.skip(self@.len() - 32));
        proof {
            reveal(digest::parse_digest);
        }
        match input.read_digest() {
            Ok(identity) => identity,
            Err(_) => Digest { first: 0, second: 0, third: 0, fourth: 0 },
        }
    }

    pub fn digest(&self) -> (digest: CheckpointDigest)
        requires
            self@.len() >= 32,
        ensures
            digest == CheckpointDigest(checkpoint_identity(self@)),
    {
        CheckpointDigest(self.identity())
    }

    /// Whether two checkpoints lie in one place, in which case they are the same.
    pub fn shares_storage_with(&self, other: &Self) -> (shares: bool)
        ensures
            shares ==> self@ == other@,
    {
        same_allocation(&self.bytes, &other.bytes)
    }

    /// How many bytes are allocated.
    pub fn allocation_capacity(&self) -> (capacity: usize)
        ensures
            capacity >= self@.len(),
    {
        capacity_of(&self.bytes)
    }
}

/// The core of the intelligence.
#[derive(Debug)]
pub struct IntelligenceCore {
    pub(crate) limits: IntelligenceLimits,
    pub(crate) ecology: ModelEcology,
    pub(crate) experience: CausalLedger,
    pub(crate) knowledge: KnowledgeCompiler,
    pub(crate) policy: RuntimePolicyState,
    pub(crate) policy_import_eligible: bool,
    pub(crate) legacy_ftrl_import_eligible: bool,
    pub(crate) legacy_knowledge_import_eligible: bool,
    pub(crate) roots: ComponentRoots,
    pub(crate) revision: Digest,
    pub(crate) checkpoint_bytes: Arc<Vec<u8>>,
    pub(crate) checkpoint_log_root: Digest,
    pub(crate) checkpoint_records: u64,
}

impl View for IntelligenceCore {
    type V = CoreView;

    closed spec fn view(&self) -> CoreView {
        CoreView {
            limits: self.limits,
            components: ComponentsView {
                ecology: self.ecology@,
                ledger: self.experience@,
                knowledge: self.knowledge@,
                policy: self.policy@,
            },
            policy_import_eligible: self.policy_import_eligible,
            legacy_ftrl_import_eligible: self.legacy_ftrl_import_eligible,
            legacy_knowledge_import_eligible: self.legacy_knowledge_import_eligible,
            roots: self.roots,
            revision: self.revision,
            checkpoint: self.checkpoint_bytes@,
            log_root: self.checkpoint_log_root,
            records: self.checkpoint_records,
        }
    }
}

/// What each part of a core's view is.
pub(crate) broadcast proof fn lemma_core_view(core: IntelligenceCore)
    ensures
        #[trigger] core@ == (CoreView {
            limits: core.limits,
            components: ComponentsView {
                ecology: core.ecology@,
                ledger: core.experience@,
                knowledge: core.knowledge@,
                policy: core.policy@,
            },
            policy_import_eligible: core.policy_import_eligible,
            legacy_ftrl_import_eligible: core.legacy_ftrl_import_eligible,
            legacy_knowledge_import_eligible: core.legacy_knowledge_import_eligible,
            roots: core.roots,
            revision: core.revision,
            checkpoint: core.checkpoint_bytes@,
            log_root: core.checkpoint_log_root,
            records: core.checkpoint_records,
        }),
{
}

impl CoreView {
    /// Further steps can be taken on the core, and its checkpoint has a footer.
    pub open spec fn well_formed(self) -> bool {
        replay::sound(self.components) && self.checkpoint.len() >= CHECKPOINT_FOOTER_BYTES
    }
}

pub proof fn lemma_assembled_well_formed(
    limits: IntelligenceLimits,
    components: ComponentsView,
    policy: bool,
    ftrl: bool,
    knowledge: bool,
)
    requires
        replay::sound(components),
    ensures
        CoreView::assembled(limits, components, policy, ftrl, knowledge).well_formed(),
{
    let core = CoreView::assembled(limits, components, policy, ftrl, knowledge);
    checkpoint::lemma_footer_len(1, core.roots, core.revision, core.log_root);
}

impl IntelligenceCore {
    pub(crate) fn from_components(
        limits: IntelligenceLimits,
        ecology: ModelEcology,
        experience: CausalLedger,
        knowledge: KnowledgeCompiler,
        policy: RuntimePolicyState,
        policy_import_eligible: bool,
        legacy_ftrl_import_eligible: bool,
        legacy_knowledge_import_eligible: bool,
    ) -> (core: Self)
        ensures
            ({
                let components = ComponentsView {
                    ecology: ecology@,
                    ledger: experience@,
                    knowledge: knowledge@,
                    policy: policy@,
                };
                &&& core@ == CoreView::assembled(
                    limits,
                    components,
                    policy_import_eligible,
                    legacy_ftrl_import_eligible,
                    legacy_knowledge_import_eligible,
                )
                &&& replay::sound(components) ==> core@.well_formed()
            }),
    {
        let ghost components = ComponentsView {
            ecology: ecology@,
            ledger: experience@,
            knowledge: knowledge@,
            policy: policy@,
        };
        let roots = component_roots(&ecology, &experience, &knowledge, &policy);
        let revision: Digest = revision_digest(limits, roots);
        let (bytes, log_root): (Vec<u8>, Digest) = snapshot_checkpoint(
            limits,
            &ecology,
            &experience,
            &knowledge,
            &policy,
            roots,
            revision,
        );
        proof {
            if replay::sound(components) {
                lemma_assembled_well_formed(
                    limits,
                    components,
                    policy_import_eligible,
                    legacy_ftrl_import_eligible,
                    legacy_knowledge_import_eligible,
                );
            }
        }
        Self {
            limits,
            ecology,
            experience,
            knowledge,
            policy,
            policy_import_eligible,
            legacy_ftrl_import_eligible,
            legacy_knowledge_import_eligible,
            roots,
            revision,
            checkpoint_bytes: Arc::new(bytes),
            checkpoint_log_root: log_root,
            checkpoint_records: 1,
        }
    }

    /// A core that continues where a checkpoint ends.
    pub(crate) fn resumed(
        limits: IntelligenceLimits,
        state: ReplayState,
        legacy_knowledge_import_eligible: bool,
        revision: Digest,
        bytes: &[u8],
    ) -> (core: Self)
        ensures
            core@ == (CoreView {
                limits,
                components: state@.components,
                policy_import_eligible: false,
                legacy_ftrl_import_eligible: false,
                legacy_knowledge_import_eligible,
                roots: state@.roots,
                revision,
                checkpoint: bytes@,
                log_root: state@.log_root,
                records: state@.records,
            }),
    {
        Self {
            limits,
            ecology: state.ecology,
            experience: state.experience,
            knowledge: state.knowledge,
            policy: state.policy,
            policy_import_eligible: false,
            legacy_ftrl_import_eligible: false,
            legacy_knowledge_import_eligible,
            roots: state.roots,
            revision,
            checkpoint_bytes: Arc::new(copied(bytes)),
            checkpoint_log_root: state.log_root,
            checkpoint_records: state.records,
        }
    }

    /// A core in which nothing has happened yet.
    pub fn fresh<P: PolicyEngine>(limits: IntelligenceLimits) -> (core: Self)
        ensures
            core@ == CoreView::assembled(limits, initial_components::<P>(), false, false, false),
            core@.well_formed(),
    {
        Self::from_components(
            limits,
            ModelEcology::default(),
            CausalLedger::default(),
            KnowledgeCompiler::default(),
            RuntimePolicyState { encoded: P::bootstrap() },
            false,
            false,
            false,
        )
    }

    /// The same core again, its checkpoint shared.
    pub fn duplicate(&self) -> (copy: Self)
        ensures
            copy@ == self@,
    {
        Self {
            limits: self.limits,
            ecology: self.ecology.duplicate(),
            experience: self.experience.duplicate(),
            knowledge: self.knowledge.duplicate(),
            policy: self.policy.duplicate(),
            policy_import_eligible: self.policy_import_eligible,
            legacy_ftrl_import_eligible: self.legacy_ftrl_import_eligible,
            legacy_knowledge_import_eligible: self.legacy_knowledge_import_eligible,
            roots: self.roots,
            revision: self.revision,
            checkpoint_bytes: share_payload(&self.checkpoint_bytes),
            checkpoint_log_root: self.checkpoint_log_root,
            checkpoint_records: self.checkpoint_records,
        }
    }

    /// The core under other limits, if everything it holds keeps to them.
    pub fn fork_with_limits(&self, limits: IntelligenceLimits) -> (result: Result<
        Self,
        IntelligenceError,
    >)
        requires
            self@.well_formed(),
        ensures
            match result {
                Ok(fork) => self@.forked(limits) == Ok::<CoreView, IntelligenceError>(fork@)
                    && fork@.well_formed(),
                Err(error) => self@.forked(limits) == Err::<CoreView, IntelligenceError>(error),
            },
    {
        self.duplicate().into_fork_with_limits(limits)
    }

    pub fn into_fork_with_limits(self, limits: IntelligenceLimits) -> (result: Result<
        Self,
        IntelligenceError,
    >)
        requires
            self@.well_formed(),
        ensures
            match result {
                Ok(fork) => self@.forked(limits) == Ok::<CoreView, IntelligenceError>(fork@)
                    && fork@.well_formed(),
                Err(error) => self@.forked(limits) == Err::<CoreView, IntelligenceError>(error),
            },
    {
        let limits = match limits.validated() {
            Ok(limits) => limits,
            Err(error) => return Err(error),
        };
        if !self.ecology.fits_limits(limits) || !self.experience.fits_limits(limits)
            || !self.knowledge.fits_limits(limits) {
            return Err(IntelligenceError::CapacityExceeded);
        }
        Ok(
            Self::from_components(
                limits,
                self.ecology,
                self.experience,
                self.knowledge,
                self.policy,
                self.policy_import_eligible,
                self.legacy_ftrl_import_eligible,
                self.legacy_knowledge_import_eligible,
            ),
        )
    }
}

impl CoreView {
    /// The core under other limits.
    pub open spec fn forked(self, limits: IntelligenceLimits) -> Result<
        CoreView,
        IntelligenceError,
    > {
        if !limits.valid() {
            Err(IntelligenceError::InvalidLimits)
        } else if !self.components.ecology.fits(limits) || !self.components.ledger.within(limits)
            || !self.components.knowledge.fits(limits) {
            Err(IntelligenceError::CapacityExceeded)
        } else {
            Ok(
                CoreView::assembled(
                    limits,
                    self.components,
                    self.policy_import_eligible,
                    self.legacy_ftrl_import_eligible,
                    self.legacy_knowledge_import_eligible,
                ),
            )
        }
    }
}

} // verus!
