//! Replay: steps that were never valid are refused, whatever their checksums say.
use reflex_intelligence::checkpoint::{
    ComponentRoots, append_delta_checkpoint, checkpoint_log_root, component_roots,
    encode_delta_record, extend_component_root, revision_digest, snapshot_checkpoint,
};
use reflex_intelligence::compiler::KnowledgeCompiler;
use reflex_intelligence::digest::Digest;
use reflex_intelligence::ecology::{EcologyEdit, ModelEcology};
use reflex_intelligence::intelligence::IntelligenceCore;
use reflex_intelligence::ledger::CausalLedger;
use reflex_intelligence::policy::{PinnedPolicy, PolicyEngine, PolicyUpdate, RuntimePolicyState};
use reflex_intelligence::shadow::ShadowCampaignId;
use reflex_intelligence::types::{IntelligenceError, IntelligenceLimits, SpecialistRevisionId};

fn fresh(limits: IntelligenceLimits) -> IntelligenceCore {
    IntelligenceCore::fresh::<PinnedPolicy>(limits)
}

fn restore(bytes: &[u8]) -> Result<IntelligenceCore, IntelligenceError> {
    IntelligenceCore::restore::<PinnedPolicy>(bytes)
}

/// The log root of a core in which nothing has happened yet.
fn log_root_of(limits: IntelligenceLimits, roots: ComponentRoots) -> Digest {
    snapshot_checkpoint(
        limits,
        &ModelEcology::default(),
        &CausalLedger::default(),
        &KnowledgeCompiler::default(),
        &RuntimePolicyState { encoded: PinnedPolicy::bootstrap() },
        roots,
        revision_digest(limits, roots),
    )
    .1
}

/// The roots of a core in which nothing has happened yet.
fn initial_roots() -> ComponentRoots {
    component_roots(
        &ModelEcology::default(),
        &CausalLedger::default(),
        &KnowledgeCompiler::default(),
        &RuntimePolicyState { encoded: PinnedPolicy::bootstrap() },
    )
}

#[test]
fn authenticated_delta_replay_rejects_an_invalid_intermediate_ecology_edit() {
    let limits = IntelligenceLimits::new(8, 8, 8, 32, 4, 64 * 1024).unwrap();
    let core = fresh(limits);
    let base = initial_roots();
    let causal_delta = CausalLedger::default()
        .prepare_delta(&[], &[], &[], &[], limits)
        .unwrap();
    let mut ecology_delta = Vec::new();
    ModelEcology::encode_edits(
        &[EcologyEdit::Retire(SpecialistRevisionId::new([0x5a; 32]))],
        limits,
        &mut ecology_delta,
    );
    let record = encode_delta_record(Some(&ecology_delta), &causal_delta, None, None);
    let roots = ComponentRoots {
        ecology: extend_component_root("ecology", base.ecology, &ecology_delta),
        experience: causal_delta.canonical_root(),
        knowledge: base.knowledge,
        policy: base.policy,
    };
    let revision = revision_digest(limits, roots);
    let log_root = checkpoint_log_root(log_root_of(limits, base), &record);
    let mut hostile = core.checkpoint_bytes().to_vec();
    append_delta_checkpoint(&mut hostile, &record, 2, roots, revision, log_root);

    assert_eq!(
        restore(&hostile).unwrap_err(),
        IntelligenceError::CorruptState
    );
}

#[test]
fn authenticated_delta_replay_rejects_an_invalid_policy_comparison() {
    let limits = IntelligenceLimits::new(8, 8, 8, 32, 4, 64 * 1024).unwrap();
    let core = fresh(limits);
    let base = initial_roots();
    let causal_delta = CausalLedger::default()
        .prepare_delta(&[], &[], &[], &[], limits)
        .unwrap();
    let update = PolicyUpdate::comparison(
        ShadowCampaignId::from_identity([99; 32]),
        core.runtime_policy_revision::<PinnedPolicy>(),
    );
    let mut policy_delta = Vec::new();
    update.encode_canonical(&mut policy_delta);
    let record = encode_delta_record(None, &causal_delta, None, Some(&policy_delta));
    let roots = ComponentRoots {
        ecology: base.ecology,
        experience: causal_delta.canonical_root(),
        knowledge: base.knowledge,
        policy: extend_component_root("policy", base.policy, &policy_delta),
    };
    let revision = revision_digest(limits, roots);
    let log_root = checkpoint_log_root(log_root_of(limits, base), &record);
    let mut hostile = core.checkpoint_bytes().to_vec();
    append_delta_checkpoint(&mut hostile, &record, 2, roots, revision, log_root);

    assert_eq!(
        restore(&hostile).unwrap_err(),
        IntelligenceError::CorruptState
    );
}
