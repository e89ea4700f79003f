//! The knowledge compiler: which challengers are proposed, verified, promoted
//! and withdrawn, and what is active in consequence.
use vstd::prelude::*;

use crate::arena::OpportunityKind;
use crate::causal::InvestmentOutcome;
use crate::challenger;
use crate::challenger::{
    ChallengerView, CompilerRecipe, ContextualRequirement, KnowledgeChallenger,
    KnowledgeChallengerId, KnowledgeProduct, KnowledgeProductKind, KnowledgeProductMeaning,
    ProductView, PromotionGate,
};
use crate::codec;
use crate::codec::{Decoder, Wire};
use crate::consolidation;
use crate::consolidation::{
    duplicate_steps, obligation_of, same_bytes, same_digests, same_steps, ConsolidationChallenger,
    ConsolidationView, OperatorStep, CONSOLIDATION_MAGIC,
};
use crate::digest;
use crate::digest::Digest;
use crate::evidence::CausalEvidence;
use crate::forecast::ForecastAxis;
use crate::investment::InvestmentTag;
use crate::ledger::{copied, LedgerView};
use crate::order;
use crate::receipt;
use crate::receipt::{DecisionId, InvestmentReceipt};
use crate::search;
use crate::types::{IntelligenceError, ResourceVector, SubjectId};

verus! {
// ---------------------------------------------------------------------------
// Work
// ---------------------------------------------------------------------------
/// One thing that has to be verified of a product.
#[verifier::ext_equal]
pub struct WorkItemView {
    pub subject: SubjectId,
    pub steps: Seq<Seq<u8>>,
    pub attempts: Seq<Digest>,
}

#[derive(Clone, Debug, PartialEq, Eq)]
pub struct KnowledgeObligationWork {
    subject: SubjectId,
    operator_steps: Vec<OperatorStep>,
    supporting_attempts: Vec<Digest>,
}

impl View for KnowledgeObligationWork {
    type V = WorkItemView;

    closed spec fn view(&self) -> WorkItemView {
        WorkItemView {
            subject: self.subject,
            steps: codec::views(self.operator_steps@),
            attempts: self.supporting_attempts@,
        }
    }
}

impl KnowledgeObligationWork {
    pub fn new(
        subject: SubjectId,
        operator_steps: Vec<OperatorStep>,
        supporting_attempts: Vec<Digest>,
    ) -> (work: Self)
        ensures
            work@ == (WorkItemView {
                subject,
                steps: codec::views(operator_steps@),
                attempts: supporting_attempts@,
            }),
    {
        Self { subject, operator_steps, supporting_attempts }
    }

    pub fn duplicate(&self) -> (copy: Self)
        ensures
            copy@ == self@,
    {
        Self {
            subject: self.subject,
            operator_steps: duplicate_steps(self.operator_steps.as_slice()),
            supporting_attempts: copied(self.supporting_attempts.as_slice()),
        }
    }

    pub fn subject(&self) -> (subject: SubjectId)
        ensures
            subject == self@.subject,
    {
        self.subject
    }

    pub fn operator_steps(&self) -> (steps: &[OperatorStep])
        ensures
            codec::views(steps@) == self@.steps,
    {
        self.operator_steps.as_slice()
    }

    pub fn supporting_attempts(&self) -> (attempts: &[Digest])
        ensures
            attempts@ == self@.attempts,
    {
        self.supporting_attempts.as_slice()
    }

    fn same(&self, other: &Self) -> (result: bool)
        ensures
            result == (self@ == other@),
    {
        let result = self.subject == other.subject && same_steps(
            self.operator_steps.as_slice(),
            other.operator_steps.as_slice(),
        ) && same_digests(
            self.supporting_attempts.as_slice(),
            other.supporting_attempts.as_slice(),
        );
        result
    }
}

/// What has to be verified of one operator of a product.
pub open spec fn item_for(product: Digest, operator: consolidation::OperatorView) -> WorkItemView {
    WorkItemView {
        subject: consolidation::obligation_identity(product, operator.id),
        steps: operator.steps,
        attempts: operator.support,
    }
}

/// Everything that has to be verified of a consolidation.
pub open spec fn items_for(consolidation: ConsolidationView) -> Seq<WorkItemView> {
    Seq::new(
        consolidation.operators.len(),
        |i: int| item_for(consolidation.product, consolidation.operators[i]),
    )
}

/// The subjects of some items, in order.
pub open spec fn item_subjects(items: Seq<WorkItemView>) -> Seq<SubjectId> {
    Seq::new(items.len(), |i: int| items[i].subject)
}

/// What has to be verified of an operator that a revision retains.
pub fn retained_revision_obligation(
    product: Digest,
    operator: &consolidation::DerivedOperator,
) -> (work: KnowledgeObligationWork)
    ensures
        work@ == item_for(product, operator@),
{
    KnowledgeObligationWork {
        subject: obligation_of(product, operator.id()),
        operator_steps: duplicate_steps(operator.steps()),
        supporting_attempts: copied(operator.support()),
    }
}

/// What has to be verified of one operator of a consolidation.
pub fn recovery_obligation(
    consolidation: &ConsolidationChallenger,
    obligation: usize,
) -> (work: KnowledgeObligationWork)
    requires
        obligation < consolidation@.operators.len(),
    ensures
        work@ == items_for(consolidation@)[obligation as int],
{
    assert(consolidation@.operators.len() == consolidation.operators@.len());
    retained_revision_obligation(consolidation.product, &consolidation.operators[obligation])
}

pub fn recovery_obligations(consolidation: &ConsolidationChallenger) -> (work: Vec<
    KnowledgeObligationWork,
>)
    ensures
        codec::views(work@) == items_for(consolidation@),
{
    let mut work: Vec<KnowledgeObligationWork> = Vec::new();
    let mut index: usize = 0;
    assert(consolidation@.operators.len() == consolidation.operators@.len());
    while index < consolidation.operators.len()
        invariant
            index <= consolidation.operators@.len(),
            consolidation@.operators.len() == consolidation.operators@.len(),
            work@.len() == index,
            forall|i: int|
                0 <= i < index ==> (#[trigger] work@[i])@ == items_for(consolidation@)[i],
        decreases consolidation.operators@.len() - index,
    {
        work.push(recovery_obligation(consolidation, index));
        index = index + 1;
    }
    assert(codec::views(work@) =~= items_for(consolidation@));
    work
}

/// One hundredth, the least gain in useful descendants that promotes an operator.
pub const LEAST_DESCENDANT_GAIN: u32 = 0x3c23_d70a;

/// What a derived operator has to gain.
pub open spec fn operator_gate() -> Seq<ContextualRequirement> {
    seq![
        ContextualRequirement {
            axis: ForecastAxis::UsefulDescendants,
            minimum_advantage: LEAST_DESCENDANT_GAIN,
        },
        ContextualRequirement { axis: ForecastAxis::CompressionValue, minimum_advantage: 0 },
    ]
}

/// Where a consolidation comes from, in order and without repetition.
pub open spec fn operator_sources(consolidation: ConsolidationView) -> Seq<SubjectId> {
    let source = SubjectId(consolidation.source);
    let support = SubjectId(consolidation.support);
    if source == support {
        seq![source]
    } else {
        order::sorted(seq![source, support])
    }
}

/// Work on a challenger, begun under a revision.
#[verifier::ext_equal]
pub struct WorkView {
    pub base_revision: Digest,
    pub challenger: ChallengerView,
    pub obligations: Seq<WorkItemView>,
}

/// The identity that stands for none.
pub open spec fn no_challenger() -> KnowledgeChallengerId {
    KnowledgeChallengerId(Digest { first: 0, second: 0, third: 0, fourth: 0 })
}

/// The challenger that proposes a consolidation, before it has its name.
pub open spec fn proposal_of(consolidation: ConsolidationView) -> ChallengerView {
    challenger::with_id(
        no_challenger(),
        CompilerRecipe::DeriveOperator,
        operator_sources(consolidation),
        (ProductView {
            kind: KnowledgeProductKind::DerivedOperator,
            subject: SubjectId(consolidation.product),
            meaning: KnowledgeProductMeaning::Semantic,
            bytes: Some(consolidation::put_consolidation(consolidation)),
        }),
        item_subjects(items_for(consolidation)),
        operator_gate(),
    )
}

/// The work that verifies a consolidation.
pub open spec fn work_for(base_revision: Digest, consolidation: ConsolidationView) -> Result<
    WorkView,
    IntelligenceError,
> {
    let proposal = proposal_of(consolidation);
    if challenger::valid_payload(consolidation::put_consolidation(consolidation))
        && proposal.acceptable() {
        Ok(
            WorkView {
                base_revision,
                challenger: proposal.named(),
                obligations: items_for(consolidation),
            },
        )
    } else {
        Err(IntelligenceError::InvalidKnowledge)
    }
}

/// The consolidation that a challenger carries.
pub open spec fn carried_consolidation(challenger: ChallengerView) -> Result<
    ConsolidationView,
    IntelligenceError,
> {
    match challenger.product.bytes {
        None => Err(IntelligenceError::InvalidKnowledge),
        Some(bytes) => match consolidation::consolidation_in(bytes) {
            None => Err(IntelligenceError::InvalidKnowledge),
            Some(consolidation) => if challenger.product.kind is DerivedOperator
                && challenger.product.meaning is Semantic && challenger.product.subject.0
                == consolidation.product {
                Ok(consolidation)
            } else {
                Err(IntelligenceError::InvalidKnowledge)
            },
        },
    }
}

/// The work that a challenger gives rise to.
pub open spec fn work_from(base_revision: Digest, challenger: ChallengerView) -> Result<
    WorkView,
    IntelligenceError,
> {
    match carried_consolidation(challenger) {
        Err(error) => Err(error),
        Ok(consolidation) => match work_for(base_revision, consolidation) {
            Err(error) => Err(error),
            Ok(work) => if work.challenger.agrees(challenger) {
                Ok(work)
            } else {
                Err(IntelligenceError::InvalidKnowledge)
            },
        },
    }
}

/// The payload announces a consolidation.
pub open spec fn announces_consolidation(product: ProductView) -> bool {
    &&& product.kind is DerivedOperator
    &&& product.bytes matches Some(bytes) && bytes.len() >= 5 && bytes.take(5)
        == CONSOLIDATION_MAGIC@
}

/// The consolidation of a challenger that announces one.
pub open spec fn announced(challenger: ChallengerView) -> Result<
    Option<ConsolidationView>,
    IntelligenceError,
> {
    if announces_consolidation(challenger.product) {
        match carried_consolidation(challenger) {
            Ok(consolidation) => Ok(Some(consolidation)),
            Err(error) => Err(error),
        }
    } else {
        Ok(None)
    }
}

/// The consolidation of an accepted challenger, if it has one.
pub open spec fn consolidation_of(challenger: ChallengerView) -> Option<ConsolidationView> {
    match announced(challenger) {
        Ok(consolidation) => consolidation,
        Err(_) => None,
    }
}

pub fn decode_consolidation_product(challenger: &KnowledgeChallenger) -> (result: Result<
    ConsolidationChallenger,
    IntelligenceError,
>)
    ensures
        match result {
            Ok(consolidation) => carried_consolidation(challenger@) == Ok::<
                ConsolidationView,
                IntelligenceError,
            >(consolidation@),
            Err(error) => carried_consolidation(challenger@) == Err::<
                ConsolidationView,
                IntelligenceError,
            >(error),
        },
{
    let product = challenger.product();
    if product.kind() != KnowledgeProductKind::DerivedOperator || product.meaning()
        != KnowledgeProductMeaning::Semantic {
        return Err(IntelligenceError::InvalidKnowledge);
    }
    let bytes = match product.bytes() {
        Some(bytes) => bytes,
        None => return Err(IntelligenceError::InvalidKnowledge),
    };
    let consolidation = match ConsolidationChallenger::decode(bytes) {
        Ok(consolidation) => consolidation,
        Err(_) => return Err(IntelligenceError::InvalidKnowledge),
    };
    if product.subject().0 != consolidation.product {
        return Err(IntelligenceError::InvalidKnowledge);
    }
    Ok(consolidation)
}

pub fn cached_consolidation(challenger: &KnowledgeChallenger) -> (result: Result<
    Option<ConsolidationChallenger>,
    IntelligenceError,
>)
    ensures
        match result {
            Ok(Some(consolidation)) => announced(challenger@) == Ok::<
                Option<ConsolidationView>,
                IntelligenceError,
            >(Some(consolidation@)),
            Ok(None) => announced(challenger@) == Ok::<
                Option<ConsolidationView>,
                IntelligenceError,
            >(None),
            Err(error) => announced(challenger@) == Err::<
                Option<ConsolidationView>,
                IntelligenceError,
            >(error),
        },
{
    if challenger.product().kind() != KnowledgeProductKind::DerivedOperator {
        return Ok(None);
    }
    let bytes = match challenger.product().bytes() {
        Some(bytes) => bytes,
        None => return Ok(None),
    };
    if bytes.len() < 5 {
        return Ok(None);
    }
    let (magic, _rest) = bytes.split_at(5);
    assert(magic@ =~= bytes@.take(5));
    if !same_bytes(magic, CONSOLIDATION_MAGIC.as_slice()) {
        return Ok(None);
    }
    match decode_consolidation_product(challenger) {
        Ok(consolidation) => Ok(Some(consolidation)),
        Err(error) => Err(error),
    }
}

/// The consolidation of an accepted challenger.
pub fn retained_consolidation(challenger: &KnowledgeChallenger) -> (result: Option<
    ConsolidationChallenger,
>)
    ensures
        match result {
            Some(consolidation) => consolidation_of(challenger@) == Some(consolidation@),
            None => consolidation_of(challenger@) is None,
        },
{
    match cached_consolidation(challenger) {
        Ok(consolidation) => consolidation,
        Err(_) => None,
    }
}

#[derive(Clone, Debug, PartialEq, Eq)]
pub struct KnowledgeWork {
    base_revision: Digest,
    challenger: KnowledgeChallenger,
    obligations: Vec<KnowledgeObligationWork>,
}

impl View for KnowledgeWork {
    type V = WorkView;

    closed spec fn view(&self) -> WorkView {
        WorkView {
            base_revision: self.base_revision,
            challenger: self.challenger@,
            obligations: codec::views(self.obligations@),
        }
    }
}

fn sources_of(consolidation: &ConsolidationChallenger) -> (sources: Vec<SubjectId>)
    ensures
        sources@ == operator_sources(consolidation@),
{
    let source = SubjectId(consolidation.source);
    let support = SubjectId(consolidation.support);
    if source == support {
        let sources = vec![source];
        assert(sources@ =~= seq![source]);
        sources
    } else {
        let both = [source, support];
        assert(both@ =~= seq![source, support]);
        order::sort(&both)
    }
}

fn gate_of_operators() -> (gate: PromotionGate)
    ensures
        gate@ == operator_gate(),
{
    let requirements = [
        ContextualRequirement {
            axis: ForecastAxis::UsefulDescendants,
            minimum_advantage: LEAST_DESCENDANT_GAIN,
        },
        ContextualRequirement { axis: ForecastAxis::CompressionValue, minimum_advantage: 0 },
    ];
    proof {
        lemma_operator_gate_valid();
        assert(requirements@ =~= operator_gate());
    }
    match PromotionGate::all(&requirements) {
        Ok(gate) => gate,
        Err(_) => {
            assert(false);
            loop
                invariant
                    false,
                decreases 0int,
            {
            }
        },
    }
}

proof fn lemma_operator_gate_valid()
    ensures
        challenger::valid_gate(operator_gate()),
        challenger::requirements_valid(operator_gate()),
{
    let gate = operator_gate();
    assert(gate[0].downstream());
    let axes = challenger::requirement_axes(gate);
    assert(axes =~= seq![ForecastAxis::UsefulDescendants, ForecastAxis::CompressionValue]);
}

fn subjects_of(items: &[KnowledgeObligationWork]) -> (subjects: Vec<SubjectId>)
    ensures
        subjects@ == item_subjects(codec::views(items@)),
{
    let mut subjects: Vec<SubjectId> = Vec::new();
    let mut index: usize = 0;
    while index < items.len()
        invariant
            index <= items@.len(),
            subjects@.len() == index,
            forall|i: int| 0 <= i < index ==> subjects@[i] == (#[trigger] items@[i])@.subject,
        decreases items@.len() - index,
    {
        subjects.push(items[index].subject);
        index = index + 1;
    }
    assert(subjects@ =~= item_subjects(codec::views(items@)));
    subjects
}

impl KnowledgeWork {
    /// The work that verifies a consolidation.
    pub fn verification(base_revision: Digest, consolidation: &ConsolidationChallenger) -> (result:
        Result<Self, IntelligenceError>)
        ensures
            match result {
                Ok(work) => work_for(base_revision, consolidation@) == Ok::<
                    WorkView,
                    IntelligenceError,
                >(work@),
                Err(error) => work_for(base_revision, consolidation@) == Err::<
                    WorkView,
                    IntelligenceError,
                >(error),
            },
    {
        let obligations = recovery_obligations(consolidation);
        let subjects = subjects_of(obligations.as_slice());
        let sources = sources_of(consolidation);
        let product = match KnowledgeProduct::derived_operator(
            SubjectId(consolidation.product),
        ).with_bytes(consolidation.encode()) {
            Ok(product) => product,
            Err(error) => return Err(error),
        };
        let ghost proposal = proposal_of(consolidation@);
        let gate = gate_of_operators();
        assert(proposal == challenger::with_id(
            no_challenger(),
            CompilerRecipe::DeriveOperator,
            sources@,
            product@,
            subjects@,
            gate@,
        ));
        match KnowledgeChallenger::new(
            CompilerRecipe::DeriveOperator,
            sources.as_slice(),
            product,
            subjects.as_slice(),
            gate,
        ) {
            Ok(challenger) => Ok(Self { base_revision, challenger, obligations }),
            Err(error) => Err(error),
        }
    }

    /// The work that a challenger gives rise to.
    pub fn from_challenger(base_revision: Digest, challenger: &KnowledgeChallenger) -> (result: Result<
        Self,
        IntelligenceError,
    >)
        ensures
            match result {
                Ok(work) => work_from(base_revision, challenger@) == Ok::<
                    WorkView,
                    IntelligenceError,
                >(work@),
                Err(error) => work_from(base_revision, challenger@) == Err::<
                    WorkView,
                    IntelligenceError,
                >(error),
            },
    {
        let consolidation = match decode_consolidation_product(challenger) {
            Ok(consolidation) => consolidation,
            Err(error) => return Err(error),
        };
        let work = match Self::verification(base_revision, &consolidation) {
            Ok(work) => work,
            Err(error) => return Err(error),
        };
        if !work.challenger.agrees_with(challenger) {
            return Err(IntelligenceError::InvalidKnowledge);
        }
        Ok(work)
    }

    pub fn duplicate(&self) -> (copy: Self)
        ensures
            copy@ == self@,
    {
        let mut obligations: Vec<KnowledgeObligationWork> = Vec::new();
        let mut index: usize = 0;
        while index < self.obligations.len()
            invariant
                index <= self.obligations@.len(),
                obligations@.len() == index,
                forall|i: int|
                    0 <= i < index ==> (#[trigger] obligations@[i])@ == self.obligations@[i]@,
            decreases self.obligations@.len() - index,
        {
            obligations.push(self.obligations[index].duplicate());
            index = index + 1;
        }
        let copy = Self {
            base_revision: self.base_revision,
            challenger: self.challenger.duplicate(),
            obligations,
        };
        assert(copy@ =~= self@);
        copy
    }

    pub fn base_revision(&self) -> (revision: Digest)
        ensures
            revision == self@.base_revision,
    {
        self.base_revision
    }

    pub fn challenger(&self) -> (challenger: &KnowledgeChallenger)
        ensures
            challenger@ == self@.challenger,
    {
        &self.challenger
    }

    pub fn id(&self) -> (id: KnowledgeChallengerId)
        ensures
            id == self@.challenger.id,
    {
        self.challenger.id()
    }

    pub fn product(&self) -> (subject: SubjectId)
        ensures
            subject == self@.challenger.product.subject,
    {
        self.challenger.product().subject()
    }

    pub fn obligations(&self) -> (obligations: &[KnowledgeObligationWork])
        ensures
            codec::views(obligations@) == self@.obligations,
    {
        self.obligations.as_slice()
    }

    /// Whether two pieces of work state the same.
    pub fn agrees_with(&self, other: &Self) -> (result: bool)
        ensures
            result == works_agree(self@, other@),
    {
        if self.base_revision != other.base_revision || !self.challenger.agrees_with(
            &other.challenger,
        ) || self.obligations.len() != other.obligations.len() {
            assert(self@.obligations.len() == self.obligations@.len());
            assert(other@.obligations.len() == other.obligations@.len());
            return false;
        }
        let mut index: usize = 0;
        while index < self.obligations.len()
            invariant
                index <= self.obligations@.len(),
                self.obligations@.len() == other.obligations@.len(),
                forall|i: int|
                    0 <= i < index ==> (#[trigger] self.obligations@[i])@ == other.obligations@[i]@,
            decreases self.obligations@.len() - index,
        {
            if !self.obligations[index].same(&other.obligations[index]) {
                assert(self@.obligations[index as int] != other@.obligations[index as int]);
                return false;
            }
            index = index + 1;
        }
        assert(self@.obligations =~= other@.obligations);
        true
    }
}

/// Two pieces of work that state the same.
pub open spec fn works_agree(left: WorkView, right: WorkView) -> bool {
    &&& left.base_revision == right.base_revision
    &&& left.challenger.agrees(right.challenger)
    &&& left.obligations == right.obligations
}

// ---------------------------------------------------------------------------
// Open verifications
// ---------------------------------------------------------------------------
/// What some receipts allow in sum, if it can be counted.
pub open spec fn total_resources(receipts: Seq<InvestmentReceipt>) -> Option<ResourceVector>
    decreases receipts.len(),
{
    if receipts.len() == 0 {
        Some(ResourceVector::zero())
    } else {
        match total_resources(receipts.drop_last()) {
            Some(total) => total.sum(receipts.last().resources),
            None => None,
        }
    }
}

/// A receipt that pays for the verification of one item; only the first of them
/// carries memory and elapsed time.
pub open spec fn pays_for(
    receipt: InvestmentReceipt,
    item: WorkItemView,
    base_revision: Digest,
    index: int,
) -> bool {
    &&& receipt.active_revision == base_revision
    &&& receipt.opportunity_kind is Candidate
    &&& receipt.tag is Verify
    &&& receipt.opportunity == item.subject.0
    &&& receipt.resources.verification_requests == 1
    &&& index > 0 ==> receipt.resources.resident_bytes == 0 && receipt.resources.elapsed_time_ns
        == 0
}

/// One receipt for each item, under decisions of their own, that together allow
/// what is reserved.
pub open spec fn open_is_valid(
    work: WorkView,
    receipts: Seq<InvestmentReceipt>,
    reserved: ResourceVector,
) -> bool {
    &&& receipts.len() == work.obligations.len()
    &&& receipts.len() > 0
    &&& forall|i: int|
        0 <= i < receipts.len() ==> pays_for(
            #[trigger] receipts[i],
            work.obligations[i],
            work.base_revision,
            i,
        )
    &&& crate::ledger::distinct_decisions(receipts)
    &&& total_resources(receipts) == Some(reserved)
}

proof fn lemma_total_stays_lost(receipts: Seq<InvestmentReceipt>, count: int)
    requires
        0 <= count <= receipts.len(),
        total_resources(receipts.take(count)) is None,
    ensures
        total_resources(receipts) is None,
    decreases receipts.len() - count,
{
    if count < receipts.len() {
        assert(receipts.take(count + 1).drop_last() =~= receipts.take(count));
        lemma_total_stays_lost(receipts, count + 1);
    } else {
        assert(receipts.take(count) =~= receipts);
    }
}

pub fn valid_open_verification(
    work: &KnowledgeWork,
    receipts: &[InvestmentReceipt],
    reserved: ResourceVector,
) -> (result: bool)
    ensures
        result == open_is_valid(work@, receipts@, reserved),
{
    if receipts.len() != work.obligations.len() || receipts.len() == 0 {
        assert(receipts@.len() != work@.obligations.len() || receipts@.len() == 0);
        return false;
    }
    let mut aggregate = ResourceVector::default();
    let mut index: usize = 0;
    assert(receipts@.take(0) =~= Seq::empty());
    while index < receipts.len()
        invariant
            index <= receipts@.len(),
            receipts@.len() == work.obligations@.len(),
            forall|i: int|
                0 <= i < index ==> pays_for(
                    #[trigger] receipts@[i],
                    work@.obligations[i],
                    work@.base_revision,
                    i,
                ),
            forall|i: int, j: int|
                0 <= i < j < index ==> (#[trigger] receipts@[i]).decision != (
                #[trigger] receipts@[j]).decision,
            total_resources(receipts@.take(index as int)) == Some(aggregate),
        decreases receipts@.len() - index,
    {
        let receipt = &receipts[index];
        let resources = receipt.resources;
        assert(work@.obligations[index as int] == work.obligations@[index as int]@);
        if receipt.active_revision != work.base_revision || receipt.opportunity_kind
            != OpportunityKind::Candidate || receipt.tag != InvestmentTag::Verify
            || receipt.opportunity != work.obligations[index].subject.0
            || resources.verification_requests != 1 || index > 0 && (resources.resident_bytes != 0
            || resources.elapsed_time_ns != 0) {
            assert(!pays_for(
                receipts@[index as int],
                work@.obligations[index as int],
                work@.base_revision,
                index as int,
            ));
            return false;
        }
        let mut prior: usize = 0;
        while prior < index
            invariant
                prior <= index < receipts@.len(),
                *receipt == receipts@[index as int],
                forall|i: int|
                    0 <= i < prior ==> (#[trigger] receipts@[i]).decision != receipt.decision,
            decreases index - prior,
        {
            if receipts[prior].decision == receipt.decision {
                assert(receipts@[prior as int].decision == receipts@[index as int].decision);
                return false;
            }
            prior = prior + 1;
        }
        assert(receipts@.take(index + 1).drop_last() =~= receipts@.take(index as int));
        assert(receipts@.take(index + 1).last() == receipts@[index as int]);
        aggregate =
        match aggregate.checked_add(resources) {
            Some(next) => next,
            None => {
                proof {
                    lemma_total_stays_lost(receipts@, (index + 1) as int);
                }
                return false;
            },
        };
        index = index + 1;
    }
    assert(receipts@.take(receipts@.len() as int) =~= receipts@);
    aggregate == reserved
}

/// A verification that has been opened and not settled.
#[verifier::ext_equal]
pub struct PendingView {
    pub work: WorkView,
    pub receipts: Seq<InvestmentReceipt>,
    pub reserved: ResourceVector,
}

/// An opened verification as its caller holds it.
#[derive(Clone, Debug, PartialEq, Eq)]
pub struct OpenedKnowledgeWork {
    opened_revision: Digest,
    work: KnowledgeWork,
    receipts: Vec<InvestmentReceipt>,
    reserved: ResourceVector,
}

impl View for OpenedKnowledgeWork {
    type V = PendingView;

    closed spec fn view(&self) -> PendingView {
        PendingView { work: self.work@, receipts: self.receipts@, reserved: self.reserved }
    }
}

impl OpenedKnowledgeWork {
    pub fn new(
        opened_revision: Digest,
        work: KnowledgeWork,
        receipts: Vec<InvestmentReceipt>,
        reserved: ResourceVector,
    ) -> (opened: Self)
        ensures
            opened@ == (PendingView { work: work@, receipts: receipts@, reserved }),
            opened.opened_under() == opened_revision,
    {
        Self { opened_revision, work, receipts, reserved }
    }

    /// The revision that the core had once the verification was open.
    pub closed spec fn opened_under(self) -> Digest {
        self.opened_revision
    }

    pub fn opened_revision(&self) -> (revision: Digest)
        ensures
            revision == self.opened_under(),
    {
        self.opened_revision
    }

    pub fn work(&self) -> (work: &KnowledgeWork)
        ensures
            work@ == self@.work,
    {
        &self.work
    }

    pub fn receipts(&self) -> (receipts: &[InvestmentReceipt])
        ensures
            receipts@ == self@.receipts,
    {
        self.receipts.as_slice()
    }

    pub fn reserved_resources(&self) -> (resources: ResourceVector)
        ensures
            resources == self@.reserved,
    {
        self.reserved
    }

    pub fn reserved_verification_requests(&self) -> (requests: u64)
        ensures
            requests == self@.reserved.verification_requests,
    {
        self.reserved.verification_requests
    }

    pub fn id(&self) -> (id: KnowledgeChallengerId)
        ensures
            id == self@.work.challenger.id,
    {
        self.work.id()
    }
}

// ---------------------------------------------------------------------------
// Records
// ---------------------------------------------------------------------------
/// A verification that speaks for an obligation of a challenger.
#[derive(Clone, Copy, Debug, PartialEq, Eq, Structural)]
pub struct KnowledgeReview {
    pub challenger: KnowledgeChallengerId,
    pub obligation: SubjectId,
    pub decision: DecisionId,
}

impl View for KnowledgeReview {
    type V = KnowledgeReview;

    open spec fn view(&self) -> KnowledgeReview {
        *self
    }
}

impl KnowledgeReview {
    pub fn new(
        challenger: KnowledgeChallengerId,
        obligation: SubjectId,
        decision: DecisionId,
    ) -> (review: Self)
        ensures
            review == (KnowledgeReview { challenger, obligation, decision }),
    {
        Self { challenger, obligation, decision }
    }

    pub fn decision(&self) -> (decision: DecisionId)
        ensures
            decision == self.decision,
    {
        self.decision
    }
}

/// Why a challenger counts for nothing any more.
#[derive(Clone, Copy, Debug, PartialEq, Eq, Structural)]
pub enum KnowledgeInvalidationReason {
    Structure,
    Product,
    Witness,
}

impl View for KnowledgeInvalidationReason {
    type V = KnowledgeInvalidationReason;

    open spec fn view(&self) -> KnowledgeInvalidationReason {
        *self
    }
}

impl KnowledgeInvalidationReason {
    /// The wire tag, counted from one in declaration order.
    pub open spec fn tag_spec(self) -> u8 {
        match self {
            KnowledgeInvalidationReason::Structure => 1,
            KnowledgeInvalidationReason::Product => 2,
            KnowledgeInvalidationReason::Witness => 3,
        }
    }

    pub open spec fn decode_spec(tag: u8) -> Option<KnowledgeInvalidationReason> {
        match tag {
            1 => Some(KnowledgeInvalidationReason::Structure),
            2 => Some(KnowledgeInvalidationReason::Product),
            3 => Some(KnowledgeInvalidationReason::Witness),
            _ => None,
        }
    }

    pub fn tag(self) -> (tag: u8)
        ensures
            tag == self.tag_spec(),
    {
        match self {
            KnowledgeInvalidationReason::Structure => 1,
            KnowledgeInvalidationReason::Product => 2,
            KnowledgeInvalidationReason::Witness => 3,
        }
    }

    pub fn decode(value: u8) -> (result: Result<Self, ()>)
        ensures
            match result {
                Ok(item) => Self::decode_spec(value) == Some(item),
                Err(_) => Self::decode_spec(value) is None,
            },
    {
        match value {
            1 => Ok(KnowledgeInvalidationReason::Structure),
            2 => Ok(KnowledgeInvalidationReason::Product),
            3 => Ok(KnowledgeInvalidationReason::Witness),
            _ => Err(()),
        }
    }
}

impl Wire<()> for KnowledgeInvalidationReason {
    open spec fn wire(format: (), value: KnowledgeInvalidationReason) -> Seq<u8> {
        codec::put_u8(value.tag_spec())
    }

    open spec fn parse(format: (), input: Seq<u8>) -> Option<(KnowledgeInvalidationReason, Seq<u8>)> {
        match codec::parse_u8(input) {
            None => None,
            Some((tag, rest)) => match KnowledgeInvalidationReason::decode_spec(tag) {
                None => None,
                Some(item) => Some((item, rest)),
            },
        }
    }

    open spec fn admissible(format: (), value: KnowledgeInvalidationReason) -> bool {
        true
    }

    open spec fn least_bytes(format: ()) -> nat {
        1
    }

    proof fn lemma_round_trip(format: (), value: KnowledgeInvalidationReason, rest: Seq<u8>) {
        broadcast use digest::group_digest;
    }

    proof fn lemma_least_bytes(format: (), value: KnowledgeInvalidationReason) {
    }

    fn write(&self, format: &(), output: &mut Vec<u8>) {
        codec::write_u8(self.tag(), output);
    }

    fn read(format: &(), input: &mut Decoder<'_>) -> (result: Result<Self, ()>) {
        let tag: u8 = input.read_u8()?;
        KnowledgeInvalidationReason::decode(tag)
    }
}

/// Where a challenger stands.
#[derive(Clone, Copy, Debug, PartialEq, Eq, Structural)]
pub enum KnowledgeStatus {
    Provisional,
    Refuted,
    Verified,
    Promoted,
    Invalidated(KnowledgeInvalidationReason),
}

/// A review that settles the matter by itself: a refutation, or an error.
pub open spec fn decisive(ledger: LedgerView) -> spec_fn(KnowledgeReview) -> bool {
    |review: KnowledgeReview|
        match ledger.authority(review.decision, review.obligation) {
            Ok(InvestmentOutcome::VerifiedAccepted { .. }) => false,
            Ok(InvestmentOutcome::VerifiedUnknown) => false,
            _ => true,
        }
}

/// Some review accepts the obligation.
pub open spec fn accepted(
    reviews: Seq<KnowledgeReview>,
    ledger: LedgerView,
    obligation: SubjectId,
) -> bool {
    exists|i: int|
        0 <= i < reviews.len() && (#[trigger] reviews[i]).obligation == obligation
            && ledger.authority(reviews[i].decision, obligation) matches Ok(
            InvestmentOutcome::VerifiedAccepted { .. },
        )
}

/// The status that reviews give a challenger: refuted by the first refutation,
/// verified once every obligation is accepted.
pub open spec fn status_by_reviews(
    obligations: Seq<SubjectId>,
    reviews: Seq<KnowledgeReview>,
    ledger: LedgerView,
) -> Result<KnowledgeStatus, IntelligenceError> {
    match search::first(reviews, decisive(ledger)) {
        Some(index) => match ledger.authority(reviews[index].decision, reviews[index].obligation) {
            Err(error) => Err(error),
            Ok(InvestmentOutcome::VerifiedRefuted) => Ok(KnowledgeStatus::Refuted),
            Ok(_) => Err(IntelligenceError::InvalidKnowledge),
        },
        None => if forall|k: int|
            0 <= k < obligations.len() ==> accepted(reviews, ledger, #[trigger] obligations[k]) {
            Ok(KnowledgeStatus::Verified)
        } else {
            Ok(KnowledgeStatus::Provisional)
        },
    }
}

} // verus!
