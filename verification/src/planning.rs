//! Campaigns that compare a verified product with the active one.
use vstd::prelude::*;

use crate::causal::InvestmentSettlement;
use crate::challenger::KnowledgeChallengerId;
use crate::codec;
use crate::compiler;
use crate::compiler::{CompilerView, KnowledgeCompiler};
use crate::consolidation;
use crate::consolidation::{
    ConsolidationChallenger, ConsolidationView, DerivedOperator, KnowledgeRevision, OperatorView,
    RetainedView,
};
use crate::digest;
use crate::digest::{hash_labelled, write_digest, Digest};
use crate::forecast;
use crate::forecast::ForecastAxis;
use crate::knowledge;
use crate::ledger::copied;
use crate::order;
use crate::search;
use crate::shadow;
use crate::shadow::{
    CheckpointDigest, ShadowArm, ShadowArmOutcome, ShadowCampaignId, ShadowCampaignLifecycle,
    ShadowCampaignSpec, ShadowCampaignState, ShadowInvalidationReason, ShadowUpdate, TypedOutcome,
};
use crate::types;
use crate::types::{
    encode_resources, IntelligenceError, IntelligenceLimits, ResourceVector, SubjectId,
};

verus! {

// ---------------------------------------------------------------------------
// Reports on verifications
// ---------------------------------------------------------------------------
/// What became of an open verification.
#[derive(Clone, Copy)]
pub enum KnowledgeVerificationReport<'a> {
    Settled(&'a [InvestmentSettlement]),
    Interrupted,
}

impl<'a> KnowledgeVerificationReport<'a> {
    pub fn settled(settlements: &'a [InvestmentSettlement]) -> (report: Self)
        ensures
            report == KnowledgeVerificationReport::Settled(settlements),
    {
        KnowledgeVerificationReport::Settled(settlements)
    }

    pub fn interrupted() -> (report: Self)
        ensures
            report == KnowledgeVerificationReport::<'a>::Interrupted,
    {
        KnowledgeVerificationReport::Interrupted
    }
}

/// Why work could not be planned.
#[derive(Clone, Copy, Debug, PartialEq, Eq, Structural)]
pub enum KnowledgePlanningFailure {
    WitnessUnavailable(SubjectId),
}

// ---------------------------------------------------------------------------
// Facts that a plan rests on
// ---------------------------------------------------------------------------
/// A root on which products can be compared.
#[derive(Clone, Copy, Debug, PartialEq, Eq, Structural)]
pub struct KnowledgeShadowRootFact {
    pub root: SubjectId,
    pub claim: SubjectId,
    pub preference_rank: u32,
}

impl KnowledgeShadowRootFact {
    pub fn new(root: SubjectId, claim: SubjectId, preference_rank: u32) -> (fact: Self)
        ensures
            fact == (KnowledgeShadowRootFact { root, claim, preference_rank }),
    {
        Self { root, claim, preference_rank }
    }

    /// By what the root is preferred: its rank, then its place.
    pub fn selection_key(self, ordinal: usize) -> (key: (u32, usize))
        ensures
            key == (self.preference_rank, ordinal),
    {
        (self.preference_rank, ordinal)
    }

    pub fn root(self) -> (root: SubjectId)
        ensures
            root == self.root,
    {
        self.root
    }

    pub fn claim(self) -> (claim: SubjectId)
        ensures
            claim == self.claim,
    {
        self.claim
    }
}

/// The claim that an attempt was about.
#[derive(Clone, Copy, Debug, PartialEq, Eq, Structural)]
pub struct KnowledgeShadowSupportFact {
    pub attempt: Digest,
    pub claim: SubjectId,
}

impl KnowledgeShadowSupportFact {
    pub fn new(attempt: Digest, claim: SubjectId) -> (fact: Self)
        ensures
            fact == (KnowledgeShadowSupportFact { attempt, claim }),
    {
        Self { attempt, claim }
    }
}

/// No root occurs twice.
pub open spec fn distinct_roots(roots: Seq<KnowledgeShadowRootFact>) -> bool {
    forall|i: int, j: int|
        0 <= i < j < roots.len() ==> (#[trigger] roots[i]).root != (#[trigger] roots[j]).root
}

/// No attempt occurs twice.
pub open spec fn distinct_attempts(facts: Seq<KnowledgeShadowSupportFact>) -> bool {
    forall|i: int, j: int|
        0 <= i < j < facts.len() ==> (#[trigger] facts[i]).attempt != (#[trigger] facts[j]).attempt
}

fn roots_are_distinct(roots: &[KnowledgeShadowRootFact]) -> (result: bool)
    ensures
        result == distinct_roots(roots@),
{
    let mut index: usize = 0;
    while index < roots.len()
        invariant
            index <= roots@.len(),
            forall|i: int, j: int|
                0 <= i < j < index ==> (#[trigger] roots@[i]).root != (#[trigger] roots@[j]).root,
        decreases roots@.len() - index,
    {
        let mut prior: usize = 0;
        while prior < index
            invariant
                prior <= index < roots@.len(),
                forall|i: int|
                    0 <= i < prior ==> (#[trigger] roots@[i]).root != roots@[index as int].root,
            decreases index - prior,
        {
            if roots[prior].root == roots[index].root {
                assert(roots@[prior as int].root == roots@[index as int].root);
                return false;
            }
            prior = prior + 1;
        }
        index = index + 1;
    }
    true
}

fn attempts_are_distinct(facts: &[KnowledgeShadowSupportFact]) -> (result: bool)
    ensures
        result == distinct_attempts(facts@),
{
    let mut index: usize = 0;
    while index < facts.len()
        invariant
            index <= facts@.len(),
            forall|i: int, j: int|
                0 <= i < j < index ==> (#[trigger] facts@[i]).attempt != (
                #[trigger] facts@[j]).attempt,
        decreases facts@.len() - index,
    {
        let mut prior: usize = 0;
        while prior < index
            invariant
                prior <= index < facts@.len(),
                forall|i: int|
                    0 <= i < prior ==> (#[trigger] facts@[i]).attempt
                        != facts@[index as int].attempt,
            decreases index - prior,
        {
            if facts[prior].attempt == facts[index].attempt {
                assert(facts@[prior as int].attempt == facts@[index as int].attempt);
                return false;
            }
            prior = prior + 1;
        }
        index = index + 1;
    }
    true
}

// ---------------------------------------------------------------------------
// What a plan is made of
// ---------------------------------------------------------------------------
/// The attempts that support some operators, one operator after the other.
pub open spec fn support_run(operators: Seq<OperatorView>) -> Seq<Digest>
    decreases operators.len(),
{
    if operators.len() == 0 {
        Seq::empty()
    } else {
        support_run(operators.drop_last()) + operators.last().support
    }
}

/// The attempts that support a consolidation, each once and in order.
pub open spec fn supporting(consolidation: ConsolidationView) -> Seq<Digest> {
    order::collected(support_run(consolidation.operators))
}

/// Some supporting attempt was about the claim.
pub open spec fn supported(
    claim: SubjectId,
    attempts: Seq<Digest>,
    facts: Seq<KnowledgeShadowSupportFact>,
) -> bool {
    exists|i: int|
        0 <= i < facts.len() && (#[trigger] facts[i]).claim == claim && attempts.contains(
            facts[i].attempt,
        )
}

/// The preferred root among the first `count` whose claim no supporting attempt
/// was about.
pub open spec fn preferred(
    roots: Seq<KnowledgeShadowRootFact>,
    attempts: Seq<Digest>,
    facts: Seq<KnowledgeShadowSupportFact>,
    count: nat,
) -> Option<int>
    decreases count,
{
    if count == 0 {
        None
    } else {
        let before = preferred(roots, attempts, facts, (count - 1) as nat);
        if supported(roots[count - 1].claim, attempts, facts) {
            before
        } else {
            match before {
                None => Some(count - 1),
                Some(best) => if roots[count - 1].preference_rank < roots[best].preference_rank {
                    Some(count - 1)
                } else {
                    Some(best)
                },
            }
        }
    }
}

/// The preferred root is free of support, and no free root has a lower rank, nor
/// the same rank at an earlier place. There is one wherever some root is free.
pub proof fn law_root_is_preferred(
    roots: Seq<KnowledgeShadowRootFact>,
    attempts: Seq<Digest>,
    facts: Seq<KnowledgeShadowSupportFact>,
    count: nat,
)
    requires
        count <= roots.len(),
    ensures
        match preferred(roots, attempts, facts, count) {
            Some(best) => {
                &&& 0 <= best < count
                &&& !supported(roots[best].claim, attempts, facts)
                &&& forall|i: int|
                    0 <= i < count && !supported((#[trigger] roots[i]).claim, attempts, facts)
                        ==> roots[best].preference_rank < roots[i].preference_rank
                        || roots[best].preference_rank == roots[i].preference_rank && best <= i
            },
            None => forall|i: int|
                0 <= i < count ==> supported((#[trigger] roots[i]).claim, attempts, facts),
        },
    decreases count,
{
    if count > 0 {
        law_root_is_preferred(roots, attempts, facts, (count - 1) as nat);
    }
}

fn is_supported(
    claim: SubjectId,
    attempts: &[Digest],
    facts: &[KnowledgeShadowSupportFact],
) -> (result: bool)
    ensures
        result == supported(claim, attempts@, facts@),
{
    let mut index: usize = 0;
    while index < facts.len()
        invariant
            index <= facts@.len(),
            forall|i: int|
                0 <= i < index ==> !((#[trigger] facts@[i]).claim == claim && attempts@.contains(
                    facts@[i].attempt,
                )),
        decreases facts@.len() - index,
    {
        if facts[index].claim == claim && order::contains(attempts, facts[index].attempt) {
            assert(facts@[index as int].claim == claim);
            return true;
        }
        index = index + 1;
    }
    false
}

fn choose_root(
    roots: &[KnowledgeShadowRootFact],
    attempts: &[Digest],
    facts: &[KnowledgeShadowSupportFact],
) -> (place: Option<usize>)
    ensures
        match place {
            Some(index) => index < roots@.len() && preferred(
                roots@,
                attempts@,
                facts@,
                roots@.len(),
            ) == Some(index as int),
            None => preferred(roots@, attempts@, facts@, roots@.len()) is None,
        },
{
    let mut best: Option<usize> = None;
    let mut index: usize = 0;
    while index < roots.len()
        invariant
            index <= roots@.len(),
            match best {
                Some(place) => place < index && preferred(
                    roots@,
                    attempts@,
                    facts@,
                    index as nat,
                ) == Some(place as int),
                None => preferred(roots@, attempts@, facts@, index as nat) is None,
            },
        decreases roots@.len() - index,
    {
        if !is_supported(roots[index].claim, attempts, facts) {
            let better = match best {
                None => true,
                Some(place) => roots[index].preference_rank < roots[place].preference_rank,
            };
            if better {
                best = Some(index);
            }
        }
        index = index + 1;
    }
    best
}

fn supporting_attempts_of(consolidation: &ConsolidationChallenger) -> (attempts: Vec<Digest>)
    ensures
        attempts@ == supporting(consolidation@),
{
    let ghost all = consolidation@.operators;
    let mut run: Vec<Digest> = Vec::new();
    let mut index: usize = 0;
    assert(all.take(0) =~= Seq::empty());
    while index < consolidation.operators.len()
        invariant
            index <= consolidation.operators@.len(),
            all == codec::views(consolidation.operators@),
            run@ == support_run(all.take(index as int)),
        decreases consolidation.operators@.len() - index,
    {
        assert(all.take(index + 1).drop_last() =~= all.take(index as int));
        assert(all.take(index + 1).last() == consolidation.operators@[index as int]@);
        let mut support = copied(consolidation.operators[index].support());
        run.append(&mut support);
        index = index + 1;
    }
    assert(all.take(all.len() as int) =~= all);
    order::collect(run.as_slice())
}

/// The lower-case digit of a number below sixteen.
pub open spec fn hex_digit(value: int) -> u8 {
    if value < 10 {
        (48 + value) as u8
    } else {
        (87 + value) as u8
    }
}

/// Two digits for each byte.
pub open spec fn hex(bytes: Seq<u8>) -> Seq<u8> {
    Seq::new(
        bytes.len() * 2,
        |i: int|
            if i % 2 == 0 {
                hex_digit(bytes[i / 2] as int / 16)
            } else {
                hex_digit(bytes[i / 2] as int % 16)
            },
    )
}

/// What stands before the name of a derived operator.
pub const SYMBOL_PREFIX: [u8; 8] = [0x64, 0x65, 0x72, 0x69, 0x76, 0x65, 0x64, 0x3a];

/// The symbol of a derived operator.
pub open spec fn symbol_of(id: Digest) -> Seq<u8> {
    SYMBOL_PREFIX@ + hex(id.bytes())
}

fn write_hex_digit(value: u8) -> (digit: u8)
    requires
        value < 16,
    ensures
        digit == hex_digit(value as int),
{
    if value < 10 {
        48 + value
    } else {
        87 + value
    }
}

/// The symbol of a derived operator: its name behind a fixed prefix.
pub fn operator_symbol(operator: &DerivedOperator) -> (symbol: Vec<u8>)
    ensures
        symbol@ == symbol_of(operator@.id),
{
    let bytes = operator.id().to_bytes();
    let mut symbol: Vec<u8> = Vec::new();
    codec::write_bytes(SYMBOL_PREFIX.as_slice(), &mut symbol);
    assert(symbol@ =~= SYMBOL_PREFIX@);
    let mut index: usize = 0;
    while index < 32
        invariant
            index <= 32,
            bytes@ == operator@.id.bytes(),
            bytes@.len() == 32,
            symbol@.len() == 8 + 2 * index,
            forall|i: int| 0 <= i < 8 ==> symbol@[i] == SYMBOL_PREFIX@[i],
            forall|i: int|
                0 <= i < 2 * index ==> #[trigger] symbol@[8 + i] == hex(bytes@)[i],
        decreases 32 - index,
    {
        let ghost before = symbol@;
        symbol.push(write_hex_digit(bytes[index] / 16));
        symbol.push(write_hex_digit(bytes[index] % 16));
        assert forall|i: int| 0 <= i < 2 * (index + 1) implies #[trigger] symbol@[8 + i] == hex(
            bytes@,
        )[i] by {
            if i < 2 * index {
                assert(symbol@[8 + i] == before[8 + i]);
            }
        }
        index = index + 1;
    }
    assert(symbol@ =~= symbol_of(operator@.id)) by {
        assert forall|i: int| 0 <= i < symbol@.len() implies symbol@[i] == symbol_of(
            operator@.id,
        )[i] by {
            if i >= 8 {
                assert(symbol@[8 + (i - 8)] == hex(bytes@)[i - 8]);
            }
        }
    }
    symbol
}

/// The bytes that tie a plan to its conditions.
pub open spec fn token_bytes(
    revision: Digest,
    restart: CheckpointDigest,
    context: SubjectId,
    product: SubjectId,
    root: SubjectId,
    operator: Seq<u8>,
    attempts: Seq<Digest>,
    resources: ResourceVector,
    root_index: nat,
) -> Seq<u8> {
    revision.bytes() + (restart.0.bytes() + (context.0.bytes() + (product.0.bytes() + (
    root.0.bytes() + (codec::put_sized(operator) + (codec::put_list::<(), Digest>((), attempts) + (
    types::put_resources(resources) + codec::put_count(root_index))))))))
}

fn token_message(
    revision: Digest,
    restart: CheckpointDigest,
    context: SubjectId,
    product: SubjectId,
    root: SubjectId,
    operator: &[u8],
    attempts: &[Digest],
    resources: ResourceVector,
    root_index: usize,
) -> (bytes: Vec<u8>)
    ensures
        bytes@ == token_bytes(
            revision,
            restart,
            context,
            product,
            root,
            operator@,
            attempts@,
            resources,
            root_index as nat,
        ),
{
    let mut bytes: Vec<u8> = Vec::new();
    write_digest(revision, &mut bytes);
    write_digest(restart.0, &mut bytes);
    write_digest(context.0, &mut bytes);
    write_digest(product.0, &mut bytes);
    write_digest(root.0, &mut bytes);
    codec::write_sized(operator, &mut bytes);
    codec::write_list::<(), Digest>(&(), attempts, &mut bytes);
    encode_resources(resources, &mut bytes);
    codec::write_count(root_index, &mut bytes);
    proof {
        assert(codec::views(attempts@) =~= attempts@);
        assert(bytes@ =~= token_bytes(
            revision,
            restart,
            context,
            product,
            root,
            operator@,
            attempts@,
            resources,
            root_index as nat,
        ));
    }
    bytes
}

/// The axes on which products are compared.
pub open spec fn compared_axes() -> Seq<ForecastAxis> {
    seq![ForecastAxis::UsefulDescendants, ForecastAxis::CompressionValue]
}

/// A campaign that is planned.
#[verifier::ext_equal]
pub struct PlanView {
    pub base_revision: Digest,
    pub challenger: KnowledgeChallengerId,
    pub campaign: ShadowCampaignSpec,
    pub root: SubjectId,
    pub scheduling_token: SubjectId,
    pub subject_operator: Seq<u8>,
    pub supporting_attempts: Seq<Digest>,
    pub treatment: RetainedView,
    pub control: RetainedView,
}

/// Some campaign is open.
pub open spec fn some_open(shadows: Seq<ShadowCampaignState>) -> bool {
    exists|i: int| 0 <= i < shadows.len() && (#[trigger] shadows[i]).lifecycle is Open
}

/// Facts that a plan can be made from.
pub open spec fn facts_valid(
    limits: IntelligenceLimits,
    roots: Seq<KnowledgeShadowRootFact>,
    facts: Seq<KnowledgeShadowSupportFact>,
    allowance: ResourceVector,
) -> bool {
    &&& 0 < roots.len() <= limits.maximum_opportunities
    &&& facts.len() <= codec::saturating_product(limits.maximum_investments as nat, 64)
    &&& allowance.verification_requests > 0
    &&& distinct_roots(roots)
    &&& distinct_attempts(facts)
}

/// The plan that compares a verified consolidation with the active product on
/// one root.
pub open spec fn plan_for(
    revision: Digest,
    value: CompilerView,
    challenger: KnowledgeChallengerId,
    consolidation: ConsolidationView,
    restart: CheckpointDigest,
    context: SubjectId,
    root: SubjectId,
    root_index: nat,
    allowance: ResourceVector,
) -> PlanView {
    let product = SubjectId(consolidation.product);
    let operator = symbol_of(consolidation.operators[0].id);
    let attempts = supporting(consolidation);
    let message = token_bytes(
        revision,
        restart,
        context,
        product,
        root,
        operator,
        attempts,
        allowance,
        root_index,
    );
    PlanView {
        base_revision: revision,
        challenger,
        campaign: ShadowCampaignSpec::of(
            restart,
            product,
            allowance,
            SubjectId(digest::labelled("reflex-knowledge-shadow-random-v2\0", message)),
            compared_axes(),
        ),
        root,
        scheduling_token: SubjectId(
            digest::labelled("reflex-knowledge-shadow-scheduling-v2\0", message),
        ),
        subject_operator: operator,
        supporting_attempts: attempts,
        treatment: RetainedView {
            product: consolidation.product,
            operators: consolidation.operators,
        },
        control: value.active.revisions.last(),
    }
}

/// The plan for the next campaign. There is none while one is open, without a
/// verified consolidation on the active product, or without a root that is free of
/// support.
pub open spec fn planned(
    revision: Digest,
    limits: IntelligenceLimits,
    shadows: Seq<ShadowCampaignState>,
    value: CompilerView,
    restart: CheckpointDigest,
    context: SubjectId,
    roots: Seq<KnowledgeShadowRootFact>,
    facts: Seq<KnowledgeShadowSupportFact>,
    allowance: ResourceVector,
) -> Result<Option<PlanView>, IntelligenceError> {
    if !facts_valid(limits, roots, facts, allowance) {
        Err(IntelligenceError::InvalidKnowledge)
    } else if some_open(shadows) {
        Ok(None)
    } else {
        match search::first(value.records, compiler::verified_on(value.active.active_product())) {
            None => Ok(None),
            Some(index) => {
                let record = value.records[index];
                let consolidation = knowledge::consolidation_of(record.challenger)->Some_0;
                if consolidation.operators.len() == 0 {
                    Err(IntelligenceError::InvalidKnowledge)
                } else {
                    match preferred(roots, supporting(consolidation), facts, roots.len()) {
                        None => Ok(None),
                        Some(best) => Ok(
                            Some(
                                plan_for(
                                    revision,
                                    value,
                                    record.challenger.id,
                                    consolidation,
                                    restart,
                                    context,
                                    roots[best].root,
                                    best as nat,
                                    allowance,
                                ),
                            ),
                        ),
                    }
                }
            },
        }
    }
}

#[derive(Clone, Debug, PartialEq, Eq)]
pub struct KnowledgeShadowPlan {
    base_revision: Digest,
    challenger: KnowledgeChallengerId,
    campaign: ShadowCampaignSpec,
    root: SubjectId,
    scheduling_token: SubjectId,
    subject_operator: Vec<u8>,
    supporting_attempts: Vec<Digest>,
    treatment: KnowledgeRevision,
    control: KnowledgeRevision,
}

impl View for KnowledgeShadowPlan {
    type V = PlanView;

    closed spec fn view(&self) -> PlanView {
        PlanView {
            base_revision: self.base_revision,
            challenger: self.challenger,
            campaign: self.campaign,
            root: self.root,
            scheduling_token: self.scheduling_token,
            subject_operator: self.subject_operator@,
            supporting_attempts: self.supporting_attempts@,
            treatment: self.treatment@,
            control: self.control@,
        }
    }
}

pub fn campaign_is_open(shadows: &[ShadowCampaignState]) -> (result: bool)
    ensures
        result == some_open(shadows@),
{
    let mut index: usize = 0;
    while index < shadows.len()
        invariant
            index <= shadows@.len(),
            forall|i: int| 0 <= i < index ==> !((#[trigger] shadows@[i]).lifecycle is Open),
        decreases shadows@.len() - index,
    {
        if shadows[index].lifecycle == ShadowCampaignLifecycle::Open {
            assert(shadows@[index as int].lifecycle is Open);
            return true;
        }
        index = index + 1;
    }
    false
}

/// Plans the next campaign.
pub fn plan_shadow(
    revision: Digest,
    limits: IntelligenceLimits,
    shadows: &[ShadowCampaignState],
    knowledge: &KnowledgeCompiler,
    restart: CheckpointDigest,
    context: SubjectId,
    roots: &[KnowledgeShadowRootFact],
    facts: &[KnowledgeShadowSupportFact],
    allowance: ResourceVector,
) -> (result: Result<Option<KnowledgeShadowPlan>, IntelligenceError>)
    requires
        knowledge@.well_formed(),
    ensures
        plan_matches(
            result,
            planned(
                revision,
                limits,
                shadows@,
                knowledge@,
                restart,
                context,
                roots@,
                facts@,
                allowance,
            ),
        ),
        result matches Ok(Some(plan)) ==> plan@.campaign.well_formed()
            && plan@.campaign.axis_list() == seq![
            ForecastAxis::UsefulDescendants,
            ForecastAxis::CompressionValue,
        ],
{
    let support_limit: usize = codec::saturating_multiply(limits.maximum_investments, 64);
    if roots.len() == 0 || roots.len() > limits.maximum_opportunities || facts.len()
        > support_limit || allowance.verification_requests == 0 || !roots_are_distinct(roots)
        || !attempts_are_distinct(facts) {
        return Err(IntelligenceError::InvalidKnowledge);
    }
    if campaign_is_open(shadows) {
        return Ok(None);
    }
    let (challenger, consolidation) = match knowledge.eligible_shadow() {
        Some(eligible) => eligible,
        None => return Ok(None),
    };
    assert(consolidation@.operators.len() == consolidation.operators@.len());
    if consolidation.operators.len() == 0 {
        return Err(IntelligenceError::InvalidKnowledge);
    }
    let subject_operator = operator_symbol(&consolidation.operators[0]);
    let supporting_attempts = supporting_attempts_of(&consolidation);
    let index: usize = match choose_root(roots, supporting_attempts.as_slice(), facts) {
        Some(index) => index,
        None => return Ok(None),
    };
    let root = roots[index].root;
    let product = SubjectId(consolidation.product);
    let message = token_message(
        revision,
        restart,
        context,
        product,
        root,
        subject_operator.as_slice(),
        supporting_attempts.as_slice(),
        allowance,
        index,
    );
    let random_stream = SubjectId(
        hash_labelled("reflex-knowledge-shadow-random-v2\0", message.as_slice()),
    );
    let scheduling_token = SubjectId(
        hash_labelled("reflex-knowledge-shadow-scheduling-v2\0", message.as_slice()),
    );
    let axes = [ForecastAxis::UsefulDescendants, ForecastAxis::CompressionValue];
    assert(axes@ =~= compared_axes());
    let campaign = match ShadowCampaignSpec::new(
        restart,
        product,
        allowance,
        random_stream,
        &axes,
    ) {
        Ok(campaign) => campaign,
        Err(error) => {
            assert(shadow::valid_axes(compared_axes()));
            return Err(error);
        },
    };
    let treatment = KnowledgeRevision {
        product: consolidation.product,
        operators: consolidation::duplicate_operators(consolidation.operators.as_slice()),
    };
    Ok(
        Some(
            KnowledgeShadowPlan {
                base_revision: revision,
                challenger,
                campaign,
                root,
                scheduling_token,
                subject_operator,
                supporting_attempts,
                treatment,
                control: knowledge.pinned_revision().duplicate(),
            },
        ),
    )
}

/// The result is the expected plan.
pub open spec fn plan_matches(
    result: Result<Option<KnowledgeShadowPlan>, IntelligenceError>,
    expected: Result<Option<PlanView>, IntelligenceError>,
) -> bool {
    match (result, expected) {
        (Ok(Some(plan)), Ok(Some(view))) => plan@ == view,
        (Ok(None), Ok(None)) => true,
        (Err(error), Err(other)) => error == other,
        _ => false,
    }
}

impl KnowledgeShadowPlan {
    pub fn base_revision(&self) -> (revision: Digest)
        ensures
            revision == self@.base_revision,
    {
        self.base_revision
    }

    pub fn challenger(&self) -> (challenger: KnowledgeChallengerId)
        ensures
            challenger == self@.challenger,
    {
        self.challenger
    }

    pub fn campaign(&self) -> (campaign: &ShadowCampaignSpec)
        ensures
            *campaign == self@.campaign,
    {
        &self.campaign
    }

    pub fn product(&self) -> (product: SubjectId)
        ensures
            product == self@.campaign.subject,
    {
        self.campaign.subject
    }

    pub fn root(&self) -> (root: SubjectId)
        ensures
            root == self@.root,
    {
        self.root
    }

    pub fn per_arm_allowance(&self) -> (allowance: ResourceVector)
        ensures
            allowance == self@.campaign.resources,
    {
        self.campaign.resources
    }

    /// The campaign once it has been opened under a revision.
    pub fn into_opened(self, opened_revision: Digest) -> (opened: KnowledgeShadowOpened)
        ensures
            opened.opened_under() == opened_revision,
            opened.plan() == self@,
    {
        KnowledgeShadowOpened { opened_revision, plan: self }
    }
}

/// A campaign that has been opened.
#[derive(Clone, Debug, PartialEq, Eq)]
pub struct KnowledgeShadowOpened {
    opened_revision: Digest,
    plan: KnowledgeShadowPlan,
}

impl KnowledgeShadowOpened {
    /// The revision that the core had once the campaign was open.
    pub closed spec fn opened_under(self) -> Digest {
        self.opened_revision
    }

    pub closed spec fn plan(self) -> PlanView {
        self.plan@
    }

    pub fn opened_revision(&self) -> (revision: Digest)
        ensures
            revision == self.opened_under(),
    {
        self.opened_revision
    }

    pub fn challenger(&self) -> (challenger: KnowledgeChallengerId)
        ensures
            challenger == self.plan().challenger,
    {
        self.plan.challenger
    }

    pub fn campaign(&self) -> (campaign: ShadowCampaignId)
        ensures
            campaign == self.plan().campaign.id,
    {
        self.plan.campaign.id
    }

    pub fn campaign_specification(&self) -> (specification: &ShadowCampaignSpec)
        ensures
            *specification == self.plan().campaign,
    {
        &self.plan.campaign
    }

    pub fn scheduling_token(&self) -> (token: SubjectId)
        ensures
            token == self.plan().scheduling_token,
    {
        self.plan.scheduling_token
    }

    pub fn subject_operator(&self) -> (operator: &[u8])
        ensures
            operator@ == self.plan().subject_operator,
    {
        self.plan.subject_operator.as_slice()
    }

    pub fn supporting_attempts(&self) -> (attempts: &[Digest])
        ensures
            attempts@ == self.plan().supporting_attempts,
    {
        self.plan.supporting_attempts.as_slice()
    }

    /// The revision that an arm runs with.
    pub fn pinned_revision(&self, arm: ShadowArm) -> (revision: &KnowledgeRevision)
        ensures
            revision@ == match arm {
                ShadowArm::Treatment => self.plan().treatment,
                ShadowArm::Control => self.plan().control,
            },
    {
        match arm {
            ShadowArm::Treatment => &self.plan.treatment,
            ShadowArm::Control => &self.plan.control,
        }
    }
}

// ---------------------------------------------------------------------------
// Reports on campaigns
// ---------------------------------------------------------------------------
/// What one arm used and achieved; the achievements are bit patterns.
#[derive(Clone, Copy, Debug, PartialEq, Eq, Structural)]
pub struct KnowledgeShadowArmReport {
    pub arm: ShadowArm,
    pub actual_resources: ResourceVector,
    pub useful_descendants: u32,
    pub compression_value: u32,
}

impl KnowledgeShadowArmReport {
    /// Accepts finite achievements.
    pub fn new(
        arm: ShadowArm,
        actual_resources: ResourceVector,
        useful_descendants: u32,
        compression_value: u32,
    ) -> (result: Result<Self, IntelligenceError>)
        ensures
            result == (if forecast::finite(useful_descendants) && forecast::finite(
                compression_value,
            ) {
                Ok::<Self, IntelligenceError>(
                    (KnowledgeShadowArmReport {
                        arm,
                        actual_resources,
                        useful_descendants,
                        compression_value,
                    }),
                )
            } else {
                Err(IntelligenceError::InvalidForecast)
            }),
    {
        if !forecast::is_finite(useful_descendants) || !forecast::is_finite(compression_value) {
            return Err(IntelligenceError::InvalidForecast);
        }
        Ok(Self { arm, actual_resources, useful_descendants, compression_value })
    }

    /// What the arm achieved, axis by axis.
    pub open spec fn achieved(self) -> Seq<TypedOutcome> {
        seq![
            TypedOutcome { axis: ForecastAxis::UsefulDescendants, value: self.useful_descendants },
            TypedOutcome { axis: ForecastAxis::CompressionValue, value: self.compression_value },
        ]
    }

    pub fn outcomes(self) -> (result: Result<[TypedOutcome; 2], IntelligenceError>)
        ensures
            match result {
                Ok(outcomes) => forecast::finite(self.useful_descendants) && forecast::finite(
                    self.compression_value,
                ) && outcomes@ == self.achieved(),
                Err(error) => error is InvalidForecast && !(forecast::finite(
                    self.useful_descendants,
                ) && forecast::finite(self.compression_value)),
            },
    {
        let useful = match TypedOutcome::new(
            ForecastAxis::UsefulDescendants,
            self.useful_descendants,
        ) {
            Ok(outcome) => outcome,
            Err(error) => return Err(error),
        };
        let compression = match TypedOutcome::new(
            ForecastAxis::CompressionValue,
            self.compression_value,
        ) {
            Ok(outcome) => outcome,
            Err(error) => return Err(error),
        };
        let outcomes = [useful, compression];
        assert(outcomes@ =~= self.achieved());
        Ok(outcomes)
    }
}

/// What became of a campaign.
#[derive(Clone, Copy, Debug, PartialEq, Eq, Structural)]
pub enum KnowledgeShadowReport {
    Paired { treatment: KnowledgeShadowArmReport, control: KnowledgeShadowArmReport },
    Invalidated(ShadowInvalidationReason),
}

impl KnowledgeShadowReport {
    pub fn paired(
        treatment: KnowledgeShadowArmReport,
        control: KnowledgeShadowArmReport,
    ) -> (report: Self)
        ensures
            report == (KnowledgeShadowReport::Paired { treatment, control }),
    {
        KnowledgeShadowReport::Paired { treatment, control }
    }

    pub fn invalidated(reason: ShadowInvalidationReason) -> (report: Self)
        ensures
            report == KnowledgeShadowReport::Invalidated(reason),
    {
        KnowledgeShadowReport::Invalidated(reason)
    }
}

/// The outcome of an arm as the ledger records it.
pub open spec fn arm_outcome(
    campaign: ShadowCampaignSpec,
    report: KnowledgeShadowArmReport,
) -> Result<ShadowUpdate, IntelligenceError> {
    if forecast::finite(report.useful_descendants) && forecast::finite(report.compression_value) {
        Ok(
            ShadowUpdate::Outcome(
                ShadowArmOutcome::of(
                    campaign.id,
                    report.arm,
                    campaign.checkpoint,
                    report.actual_resources,
                    campaign.random_stream,
                    report.achieved(),
                ),
            ),
        )
    } else {
        Err(IntelligenceError::InvalidForecast)
    }
}

pub fn shadow_arm_outcome(
    opened: &KnowledgeShadowOpened,
    report: KnowledgeShadowArmReport,
) -> (result: Result<ShadowUpdate, IntelligenceError>)
    ensures
        result == arm_outcome(opened.plan().campaign, report),
{
    let outcomes = match report.outcomes() {
        Ok(outcomes) => outcomes,
        Err(error) => return Err(error),
    };
    let campaign = opened.campaign_specification();
    match ShadowArmOutcome::new(
        campaign.id,
        report.arm,
        campaign.checkpoint,
        report.actual_resources,
        campaign.random_stream,
        &outcomes,
    ) {
        Ok(outcome) => Ok(ShadowUpdate::Outcome(outcome)),
        Err(error) => {
            assert(shadow::valid_outcomes(report.achieved()));
            Err(error)
        },
    }
}

} // verus!
