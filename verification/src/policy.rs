//! The runtime policy as the rest of the library sees it: a state in its byte form,
//! and comparisons that may replace it.
use vstd::prelude::*;

use crate::codec;
use crate::codec::Decoder;
use crate::digest;
use crate::digest::{hash_bytes, write_digest, Digest};
use crate::evidence::OperationalEvidence;
use crate::ledger::copied;
use crate::shadow::ShadowCampaignId;
use crate::types::SubjectId;

verus! {

/// The policy that is in force.
#[derive(Clone, Copy, Debug, PartialEq, Eq, Hash, Structural)]
pub struct RuntimePolicyRevision(pub Digest);

impl RuntimePolicyRevision {
    pub fn identity(self) -> (identity: Digest)
        ensures
            identity == self.0,
    {
        self.0
    }
}

/// What a comparison came to.
#[derive(Clone, Copy, Debug, PartialEq, Eq, Hash, Structural)]
pub enum RuntimePolicyDecision {
    Promote,
    RetainSpecialist,
    Reject,
}

/// A comparison to be made: a challenger, and the campaign that tried it.
#[derive(Clone, Copy, Debug, PartialEq, Eq, Hash, Structural)]
pub struct PolicyUpdate {
    pub campaign: ShadowCampaignId,
    pub challenger: RuntimePolicyRevision,
}

/// The bytes of a comparison.
pub open spec fn put_update(update: PolicyUpdate) -> Seq<u8> {
    update.campaign.0.bytes() + update.challenger.0.bytes()
}

/// The comparison at the front of some bytes.
pub open spec fn parse_update(input: Seq<u8>) -> Option<(PolicyUpdate, Seq<u8>)> {
    match digest::parse_digest(input) {
        None => None,
        Some((campaign, rest)) => match digest::parse_digest(rest) {
            None => None,
            Some((challenger, rest)) => Some(
                (
                    PolicyUpdate {
                        campaign: ShadowCampaignId(campaign),
                        challenger: RuntimePolicyRevision(challenger),
                    },
                    rest,
                ),
            ),
        },
    }
}

/// A comparison reads back as it was written.
pub proof fn law_update_reads_back(update: PolicyUpdate, rest: Seq<u8>)
    ensures
        parse_update(put_update(update) + rest) == Some((update, rest)),
{
    let campaign = update.campaign.0;
    let challenger = update.challenger.0;
    codec::lemma_concat_associates(campaign.bytes(), challenger.bytes(), rest);
    digest::lemma_parse_digest(campaign, challenger.bytes() + rest);
    digest::lemma_parse_digest(challenger, rest);
}

impl PolicyUpdate {
    pub fn comparison(campaign: ShadowCampaignId, challenger: RuntimePolicyRevision) -> (update:
        Self)
        ensures
            update == (PolicyUpdate { campaign, challenger }),
    {
        Self { campaign, challenger }
    }

    pub fn encode_canonical(&self, output: &mut Vec<u8>)
        ensures
            final(output)@ == old(output)@ + put_update(*self),
    {
        write_digest(self.campaign.0, output);
        write_digest(self.challenger.0, output);
        assert(output@ =~= old(output)@ + put_update(*self));
    }

    pub fn decode_canonical(input: &mut Decoder<'_>) -> (result: Result<Self, ()>)
        ensures
            codec::reads(result, final(input)@, parse_update(old(input)@)),
    {
        let campaign: Digest = input.read_digest()?;
        let challenger: Digest = input.read_digest()?;
        Ok(
            Self {
                campaign: ShadowCampaignId(campaign),
                challenger: RuntimePolicyRevision(challenger),
            },
        )
    }
}

/// The state of the policy in its byte form.
#[derive(Debug)]
pub struct RuntimePolicyState {
    pub encoded: Vec<u8>,
}

impl View for RuntimePolicyState {
    type V = Seq<u8>;

    open spec fn view(&self) -> Seq<u8> {
        self.encoded@
    }
}

/// A state is named after its bytes.
pub open spec fn policy_root(state: Seq<u8>) -> Digest {
    digest::hash(state)
}

impl RuntimePolicyState {
    pub fn duplicate(&self) -> (copy: Self)
        ensures
            copy@ == self@,
    {
        Self { encoded: copied(self.encoded.as_slice()) }
    }

    pub fn encode(&self) -> (bytes: &[u8])
        ensures
            bytes@ == self@,
    {
        self.encoded.as_slice()
    }

    pub fn canonical_root(&self) -> (root: Digest)
        ensures
            root == policy_root(self@),
    {
        hash_bytes(self.encoded.as_slice())
    }
}

/// The rules by which a policy changes. The library keeps the state, binds each
/// comparison to the evidence of a finished campaign and replays it; what a state
/// is, and what a comparison comes to, is the rules' own.
pub trait PolicyEngine {
    /// Bytes that are a state.
    spec fn is_state(bytes: Seq<u8>) -> bool;

    /// The state that everything begins with.
    spec fn initial() -> Seq<u8>;

    /// The policy that a state puts in force.
    spec fn in_force(state: Seq<u8>) -> RuntimePolicyRevision;

    /// The state that a comparison leads to, and what it came to; some comparisons
    /// cannot be made.
    spec fn compared(
        state: Seq<u8>,
        challenger: SubjectId,
        incumbent_evidence: OperationalEvidence,
        challenger_evidence: OperationalEvidence,
    ) -> Option<(Seq<u8>, RuntimePolicyDecision)>;

    /// A comparison that was written with its evidence, before evidence was taken
    /// from campaigns.
    spec fn unbound(bytes: Seq<u8>) -> Option<
        (SubjectId, OperationalEvidence, OperationalEvidence),
    >;

    proof fn lemma_initial()
        ensures
            Self::is_state(Self::initial()),
            Self::initial().len() <= usize::MAX,
    ;

    proof fn lemma_compared(
        state: Seq<u8>,
        challenger: SubjectId,
        incumbent_evidence: OperationalEvidence,
        challenger_evidence: OperationalEvidence,
    )
        requires
            Self::is_state(state),
        ensures
            Self::compared(state, challenger, incumbent_evidence, challenger_evidence) matches Some(
                next,
            ) ==> Self::is_state(next.0),
    ;

    fn bootstrap() -> (state: Vec<u8>)
        ensures
            state@ == Self::initial(),
    ;

    fn accepts(bytes: &[u8]) -> (result: bool)
        ensures
            result == Self::is_state(bytes@),
    ;

    fn active(state: &[u8]) -> (revision: RuntimePolicyRevision)
        ensures
            revision == Self::in_force(state@),
    ;

    fn compare(
        state: &[u8],
        challenger: SubjectId,
        incumbent_evidence: OperationalEvidence,
        challenger_evidence: OperationalEvidence,
    ) -> (result: Option<(Vec<u8>, RuntimePolicyDecision)>)
        ensures
            match result {
                Some((next, decision)) => Self::compared(
                    state@,
                    challenger,
                    incumbent_evidence,
                    challenger_evidence,
                ) == Some((next@, decision)),
                None => Self::compared(state@, challenger, incumbent_evidence, challenger_evidence)
                    is None,
            },
    ;

    fn decode_unbound(bytes: &[u8]) -> (result: Option<
        (SubjectId, OperationalEvidence, OperationalEvidence),
    >)
        ensures
            result == Self::unbound(bytes@),
    ;
}

/// Rules under which the policy never changes: its state is the name of the policy
/// that is in force, and no comparison can be made.
pub struct PinnedPolicy;

/// The policy that is in force from the beginning.
pub open spec fn pinned_revision() -> Digest {
    Digest { first: 0, second: 0, third: 0, fourth: 0 }
}

impl PolicyEngine for PinnedPolicy {
    open spec fn is_state(bytes: Seq<u8>) -> bool {
        bytes.len() == 32
    }

    open spec fn initial() -> Seq<u8> {
        pinned_revision().bytes()
    }

    open spec fn in_force(state: Seq<u8>) -> RuntimePolicyRevision {
        match digest::parse_digest(state) {
            Some((revision, _)) => RuntimePolicyRevision(revision),
            None => RuntimePolicyRevision(pinned_revision()),
        }
    }

    open spec fn compared(
        state: Seq<u8>,
        challenger: SubjectId,
        incumbent_evidence: OperationalEvidence,
        challenger_evidence: OperationalEvidence,
    ) -> Option<(Seq<u8>, RuntimePolicyDecision)> {
        None
    }

    open spec fn unbound(bytes: Seq<u8>) -> Option<
        (SubjectId, OperationalEvidence, OperationalEvidence),
    > {
        None
    }

    proof fn lemma_initial() {
        digest::lemma_digest_len(pinned_revision());
    }

    proof fn lemma_compared(
        state: Seq<u8>,
        challenger: SubjectId,
        incumbent_evidence: OperationalEvidence,
        challenger_evidence: OperationalEvidence,
    ) {
    }

    fn bootstrap() -> (state: Vec<u8>) {
        let mut state: Vec<u8> = Vec::new();
        write_digest(Digest { first: 0, second: 0, third: 0, fourth: 0 }, &mut state);
        assert(state@ =~= pinned_revision().bytes());
        state
    }

    fn accepts(bytes: &[u8]) -> (result: bool) {
        bytes.len() == 32
    }

    fn active(state: &[u8]) -> (revision: RuntimePolicyRevision) {
        let mut input = Decoder::new(state);
        match input.read_digest() {
            Ok(revision) => RuntimePolicyRevision(revision),
            Err(_) => RuntimePolicyRevision(Digest { first: 0, second: 0, third: 0, fourth: 0 }),
        }
    }

    fn compare(
        state: &[u8],
        challenger: SubjectId,
        incumbent_evidence: OperationalEvidence,
        challenger_evidence: OperationalEvidence,
    ) -> (result: Option<(Vec<u8>, RuntimePolicyDecision)>) {
        None
    }

    fn decode_unbound(bytes: &[u8]) -> (result: Option<
        (SubjectId, OperationalEvidence, OperationalEvidence),
    >) {
        None
    }
}

// ---------------------------------------------------------------------------
// Rules under which the better policy takes over
// ---------------------------------------------------------------------------
/// Some evidence is nowhere worse than other evidence: it has found and covered as
/// much and cost no more.
pub open spec fn nowhere_worse(evidence: OperationalEvidence, other: OperationalEvidence) -> bool {
    &&& evidence.verified_discoveries >= other.verified_discoveries
    &&& evidence.covered_claims >= other.covered_claims
    &&& evidence.useful_descendants >= other.useful_descendants
    &&& evidence.cpu_time_ns <= other.cpu_time_ns
    &&& evidence.verification_requests <= other.verification_requests
    &&& evidence.durable_bytes <= other.durable_bytes
}

fn is_nowhere_worse(evidence: OperationalEvidence, other: OperationalEvidence) -> (result: bool)
    ensures
        result == nowhere_worse(evidence, other),
{
    evidence.verified_discoveries >= other.verified_discoveries && evidence.covered_claims
        >= other.covered_claims && evidence.useful_descendants >= other.useful_descendants
        && evidence.cpu_time_ns <= other.cpu_time_ns && evidence.verification_requests
        <= other.verification_requests && evidence.durable_bytes <= other.durable_bytes
}

/// What a comparison comes to. A challenger that fails more often, or that is
/// nowhere better, is rejected; one that is nowhere worse takes over; one that is
/// better in some ways and worse in others is kept aside.
pub open spec fn preference(
    incumbent: OperationalEvidence,
    challenger: OperationalEvidence,
) -> RuntimePolicyDecision {
    if challenger.correctness_failures > incumbent.correctness_failures || nowhere_worse(
        incumbent,
        challenger,
    ) {
        RuntimePolicyDecision::Reject
    } else if nowhere_worse(challenger, incumbent) {
        RuntimePolicyDecision::Promote
    } else {
        RuntimePolicyDecision::RetainSpecialist
    }
}

/// A policy that was just promoted is not ousted by the one it ousted.
pub proof fn law_promotion_is_not_undone(
    incumbent: OperationalEvidence,
    challenger: OperationalEvidence,
)
    requires
        preference(incumbent, challenger) is Promote,
    ensures
        preference(challenger, incumbent) is Reject,
{
}

/// Rules under which the better policy takes over. A state names the policy that is
/// in force, and behind it those that are kept aside.
pub struct ParetoPolicy;

impl PolicyEngine for ParetoPolicy {
    open spec fn is_state(bytes: Seq<u8>) -> bool {
        bytes.len() >= 32 && bytes.len() % 32 == 0
    }

    open spec fn initial() -> Seq<u8> {
        pinned_revision().bytes()
    }

    open spec fn in_force(state: Seq<u8>) -> RuntimePolicyRevision {
        match digest::parse_digest(state) {
            Some((revision, _)) => RuntimePolicyRevision(revision),
            None => RuntimePolicyRevision(pinned_revision()),
        }
    }

    open spec fn compared(
        state: Seq<u8>,
        challenger: SubjectId,
        incumbent_evidence: OperationalEvidence,
        challenger_evidence: OperationalEvidence,
    ) -> Option<(Seq<u8>, RuntimePolicyDecision)> {
        let decision = preference(incumbent_evidence, challenger_evidence);
        if state.len() < 32 || Self::in_force(state).0 == challenger.0 {
            None
        } else {
            match decision {
                RuntimePolicyDecision::Promote => Some(
                    (challenger.0.bytes() + state.skip(32), decision),
                ),
                RuntimePolicyDecision::RetainSpecialist => Some(
                    (state + challenger.0.bytes(), decision),
                ),
                RuntimePolicyDecision::Reject => Some((state, decision)),
            }
        }
    }

    open spec fn unbound(bytes: Seq<u8>) -> Option<
        (SubjectId, OperationalEvidence, OperationalEvidence),
    > {
        None
    }

    proof fn lemma_initial() {
        digest::lemma_digest_len(pinned_revision());
    }

    proof fn lemma_compared(
        state: Seq<u8>,
        challenger: SubjectId,
        incumbent_evidence: OperationalEvidence,
        challenger_evidence: OperationalEvidence,
    ) {
        digest::lemma_digest_len(challenger.0);
    }

    fn bootstrap() -> (state: Vec<u8>) {
        PinnedPolicy::bootstrap()
    }

    fn accepts(bytes: &[u8]) -> (result: bool) {
        bytes.len() >= 32 && bytes.len() % 32 == 0
    }

    fn active(state: &[u8]) -> (revision: RuntimePolicyRevision) {
        PinnedPolicy::active(state)
    }

    fn compare(
        state: &[u8],
        challenger: SubjectId,
        incumbent_evidence: OperationalEvidence,
        challenger_evidence: OperationalEvidence,
    ) -> (result: Option<(Vec<u8>, RuntimePolicyDecision)>) {
        if state.len() < 32 || Self::active(state).0 == challenger.0 {
            return None;
        }
        if challenger_evidence.correctness_failures > incumbent_evidence.correctness_failures
            || is_nowhere_worse(incumbent_evidence, challenger_evidence) {
            return Some((copied(state), RuntimePolicyDecision::Reject));
        }
        if is_nowhere_worse(challenger_evidence, incumbent_evidence) {
            let mut next: Vec<u8> = Vec::new();
            write_digest(challenger.0, &mut next);
            let aside = vstd::slice::slice_subrange(state, 32, state.len());
            assert(aside@ =~= state@.skip(32));
            codec::write_bytes(aside, &mut next);
            assert(next@ =~= challenger.0.bytes() + state@.skip(32));
            return Some((next, RuntimePolicyDecision::Promote));
        }
        let mut next = copied(state);
        write_digest(challenger.0, &mut next);
        assert(next@ =~= state@ + challenger.0.bytes());
        Some((next, RuntimePolicyDecision::RetainSpecialist))
    }

    fn decode_unbound(bytes: &[u8]) -> (result: Option<
        (SubjectId, OperationalEvidence, OperationalEvidence),
    >) {
        None
    }
}

} // verus!
