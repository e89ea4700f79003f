//! Consolidated knowledge as plain data: derived operators, the challenger that
//! proposes them and the chain of revisions that have been active.
use vstd::prelude::*;

use crate::codec;
use crate::codec::{Decoder, Wire};
use crate::digest;
use crate::digest::{hash_labelled, write_digest, Digest};
use crate::ledger::copied;
use crate::types::{IntelligenceError, SubjectId};

verus! {

// ---------------------------------------------------------------------------
// Runs of bytes
// ---------------------------------------------------------------------------
/// A run of bytes behind its length.
pub open spec fn parse_sized(input: Seq<u8>) -> Option<(Seq<u8>, Seq<u8>)> {
    match codec::parse_u64(input) {
        None => None,
        Some((count, rest)) => if count > usize::MAX {
            None
        } else {
            codec::parse_bytes(rest, count as nat)
        },
    }
}

pub proof fn lemma_sized_round_trip(bytes: Seq<u8>, rest: Seq<u8>)
    requires
        bytes.len() <= usize::MAX,
    ensures
        parse_sized(codec::put_sized(bytes) + rest) == Some((bytes, rest)),
{
    broadcast use digest::group_digest;

    assert(bytes.len() as u64 as nat == bytes.len());
    codec::lemma_parse_bytes(bytes, bytes.len(), rest);
}

fn read_run(input: &mut Decoder<'_>) -> (result: Result<Vec<u8>, ()>)
    ensures
        match result {
            Ok(bytes) => parse_sized(old(input)@) == Some((bytes@, final(input)@)),
            Err(_) => parse_sized(old(input)@) is None,
        },
{
    let count: u64 = input.read_u64()?;
    if count > usize::MAX as u64 {
        return Err(());
    }
    match input.take(count as usize) {
        Ok(bytes) => Ok(copied(bytes)),
        Err(_) => Err(()),
    }
}

/// One step of a derived operator.
#[derive(Clone, Debug, PartialEq, Eq)]
pub struct OperatorStep {
    pub bytes: Vec<u8>,
}

impl View for OperatorStep {
    type V = Seq<u8>;

    open spec fn view(&self) -> Seq<u8> {
        self.bytes@
    }
}

impl Wire<()> for OperatorStep {
    open spec fn wire(format: (), value: Seq<u8>) -> Seq<u8> {
        codec::put_sized(value)
    }

    open spec fn parse(format: (), input: Seq<u8>) -> Option<(Seq<u8>, Seq<u8>)> {
        parse_sized(input)
    }

    open spec fn admissible(format: (), value: Seq<u8>) -> bool {
        value.len() <= usize::MAX
    }

    open spec fn least_bytes(format: ()) -> nat {
        8
    }

    proof fn lemma_round_trip(format: (), value: Seq<u8>, rest: Seq<u8>) {
        lemma_sized_round_trip(value, rest);
    }

    proof fn lemma_least_bytes(format: (), value: Seq<u8>) {
        broadcast use digest::group_digest;

    }

    fn write(&self, format: &(), output: &mut Vec<u8>) {
        codec::write_sized(self.bytes.as_slice(), output);
    }

    fn read(format: &(), input: &mut Decoder<'_>) -> (result: Result<Self, ()>) {
        let bytes = read_run(input)?;
        Ok(OperatorStep { bytes })
    }
}

/// A list of its own with the same steps.
pub fn duplicate_steps(steps: &[OperatorStep]) -> (copy: Vec<OperatorStep>)
    ensures
        codec::views(copy@) == codec::views(steps@),
{
    let mut copy: Vec<OperatorStep> = Vec::new();
    let mut index: usize = 0;
    while index < steps.len()
        invariant
            index <= steps@.len(),
            copy@.len() == index,
            forall|i: int| 0 <= i < index ==> (#[trigger] copy@[i])@ == steps@[i]@,
        decreases steps@.len() - index,
    {
        copy.push(OperatorStep { bytes: copied(steps[index].bytes.as_slice()) });
        index = index + 1;
    }
    assert(codec::views(copy@) =~= codec::views(steps@));
    copy
}

/// Whether two lists hold the same steps.
pub fn same_steps(left: &[OperatorStep], right: &[OperatorStep]) -> (result: bool)
    ensures
        result == (codec::views(left@) == codec::views(right@)),
{
    if left.len() != right.len() {
        assert(codec::views(left@).len() != codec::views(right@).len());
        return false;
    }
    let mut index: usize = 0;
    while index < left.len()
        invariant
            index <= left@.len(),
            left@.len() == right@.len(),
            forall|i: int| 0 <= i < index ==> (#[trigger] left@[i])@ == right@[i]@,
        decreases left@.len() - index,
    {
        if !same_bytes(left[index].bytes.as_slice(), right[index].bytes.as_slice()) {
            assert(codec::views(left@)[index as int] != codec::views(right@)[index as int]);
            return false;
        }
        index = index + 1;
    }
    assert(codec::views(left@) =~= codec::views(right@));
    true
}

/// Whether two runs of bytes are the same.
pub fn same_bytes(left: &[u8], right: &[u8]) -> (result: bool)
    ensures
        result == (left@ == right@),
{
    if left.len() != right.len() {
        return false;
    }
    let mut index: usize = 0;
    while index < left.len()
        invariant
            index <= left@.len(),
            left@.len() == right@.len(),
            forall|i: int| 0 <= i < index ==> left@[i] == right@[i],
        decreases left@.len() - index,
    {
        if left[index] != right[index] {
            assert(left@[index as int] != right@[index as int]);
            return false;
        }
        index = index + 1;
    }
    assert(left@ =~= right@);
    true
}

/// Whether two lists hold the same identities.
pub fn same_digests(left: &[Digest], right: &[Digest]) -> (result: bool)
    ensures
        result == (left@ == right@),
{
    if left.len() != right.len() {
        return false;
    }
    let mut index: usize = 0;
    while index < left.len()
        invariant
            index <= left@.len(),
            left@.len() == right@.len(),
            forall|i: int| 0 <= i < index ==> left@[i] == right@[i],
        decreases left@.len() - index,
    {
        if left[index] != right[index] {
            assert(left@[index as int] != right@[index as int]);
            return false;
        }
        index = index + 1;
    }
    assert(left@ =~= right@);
    true
}

// ---------------------------------------------------------------------------
// Operators
// ---------------------------------------------------------------------------
/// What an operator consists of.
#[verifier::ext_equal]
pub struct OperatorView {
    pub id: Digest,
    pub steps: Seq<Seq<u8>>,
    pub support: Seq<Digest>,
}

impl OperatorView {
    /// Its lists have lengths that a machine can hold.
    pub open spec fn holdable(self) -> bool {
        &&& self.steps.len() <= usize::MAX
        &&& self.support.len() <= usize::MAX
        &&& forall|i: int| 0 <= i < self.steps.len() ==> (#[trigger] self.steps[i]).len() <= usize::MAX
    }
}

/// An operator derived from observations.
#[derive(Clone, Debug, PartialEq, Eq)]
pub struct DerivedOperator {
    pub id: Digest,
    pub steps: Vec<OperatorStep>,
    pub support: Vec<Digest>,
}

impl View for DerivedOperator {
    type V = OperatorView;

    open spec fn view(&self) -> OperatorView {
        OperatorView { id: self.id, steps: codec::views(self.steps@), support: self.support@ }
    }
}

impl DerivedOperator {
    pub fn duplicate(&self) -> (copy: Self)
        ensures
            copy@ == self@,
    {
        DerivedOperator {
            id: self.id,
            steps: duplicate_steps(self.steps.as_slice()),
            support: copied(self.support.as_slice()),
        }
    }

    pub fn id(&self) -> (id: Digest)
        ensures
            id == self@.id,
    {
        self.id
    }

    pub fn steps(&self) -> (steps: &[OperatorStep])
        ensures
            codec::views(steps@) == self@.steps,
    {
        self.steps.as_slice()
    }

    pub fn support(&self) -> (support: &[Digest])
        ensures
            support@ == self@.support,
    {
        self.support.as_slice()
    }
}

impl Wire<()> for DerivedOperator {
    open spec fn wire(format: (), value: OperatorView) -> Seq<u8> {
        value.id.bytes() + (codec::put_list::<(), OperatorStep>((), value.steps)
            + codec::put_list::<(), Digest>((), value.support))
    }

    open spec fn parse(format: (), input: Seq<u8>) -> Option<(OperatorView, Seq<u8>)> {
        match digest::parse_digest(input) {
            None => None,
            Some((id, rest)) => match codec::parse_list::<(), OperatorStep>(
                (),
                rest,
                usize::MAX as nat,
                8,
            ) {
                None => None,
                Some((steps, rest)) => match codec::parse_list::<(), Digest>(
                    (),
                    rest,
                    usize::MAX as nat,
                    32,
                ) {
                    None => None,
                    Some((support, rest)) => Some((OperatorView { id, steps, support }, rest)),
                },
            },
        }
    }

    open spec fn admissible(format: (), value: OperatorView) -> bool {
        value.holdable()
    }

    open spec fn least_bytes(format: ()) -> nat {
        48
    }

    proof fn lemma_round_trip(format: (), value: OperatorView, rest: Seq<u8>) {
        broadcast use digest::group_digest;

        codec::lemma_list_round_trip::<(), OperatorStep>(
            (),
            value.steps,
            usize::MAX as nat,
            8,
            codec::put_list::<(), Digest>((), value.support) + rest,
        );
        codec::lemma_list_round_trip::<(), Digest>((), value.support, usize::MAX as nat, 32, rest);
    }

    proof fn lemma_least_bytes(format: (), value: OperatorView) {
        broadcast use digest::group_digest;

    }

    fn write(&self, format: &(), output: &mut Vec<u8>) {
        broadcast use digest::group_digest;

        assert(codec::views(self.support@) =~= self.support@);
        write_digest(self.id, output);
        codec::write_list::<(), OperatorStep>(&(), self.steps.as_slice(), output);
        codec::write_list::<(), Digest>(&(), self.support.as_slice(), output);
    }

    fn read(format: &(), input: &mut Decoder<'_>) -> (result: Result<Self, ()>) {
        let id = input.read_digest()?;
        let steps = codec::read_list::<(), OperatorStep>(&(), input, usize::MAX, 8)?;
        let support = codec::read_list::<(), Digest>(&(), input, usize::MAX, 32)?;
        assert(codec::views(support@) =~= support@);
        Ok(DerivedOperator { id, steps, support })
    }
}

/// A list of its own with the same operators.
pub fn duplicate_operators(operators: &[DerivedOperator]) -> (copy: Vec<DerivedOperator>)
    ensures
        codec::views(copy@) == codec::views(operators@),
{
    let mut copy: Vec<DerivedOperator> = Vec::new();
    let mut index: usize = 0;
    while index < operators.len()
        invariant
            index <= operators@.len(),
            copy@.len() == index,
            forall|i: int| 0 <= i < index ==> (#[trigger] copy@[i])@ == operators@[i]@,
        decreases operators@.len() - index,
    {
        copy.push(operators[index].duplicate());
        index = index + 1;
    }
    assert(codec::views(copy@) =~= codec::views(operators@));
    copy
}

pub open spec fn operators_holdable(operators: Seq<OperatorView>) -> bool {
    &&& operators.len() <= usize::MAX
    &&& forall|i: int| 0 <= i < operators.len() ==> (#[trigger] operators[i]).holdable()
}

/// What has to be verified of an operator before a product may contain it.
pub open spec fn obligation_identity(product: Digest, operator: Digest) -> SubjectId {
    SubjectId(
        digest::labelled(
            "reflex-consolidation-obligation-v1\0",
            product.bytes() + operator.bytes(),
        ),
    )
}

pub fn obligation_of(product: Digest, operator: Digest) -> (subject: SubjectId)
    ensures
        subject == obligation_identity(product, operator),
{
    let mut content: Vec<u8> = Vec::new();
    write_digest(product, &mut content);
    write_digest(operator, &mut content);
    assert(content@ =~= product.bytes() + operator.bytes());
    SubjectId(hash_labelled("reflex-consolidation-obligation-v1\0", content.as_slice()))
}

// ---------------------------------------------------------------------------
// Challengers
// ---------------------------------------------------------------------------
/// What opens the byte form of a challenger.
pub const CONSOLIDATION_MAGIC: [u8; 5] = [0x52, 0x46, 0x4b, 0x43, 0x01];

/// A product that is to take the place of another.
#[verifier::ext_equal]
pub struct ConsolidationView {
    pub product: Digest,
    pub base_product: Digest,
    pub source: Digest,
    pub support: Digest,
    pub operators: Seq<OperatorView>,
}

#[derive(Clone, Debug, PartialEq, Eq)]
pub struct ConsolidationChallenger {
    pub product: Digest,
    pub base_product: Digest,
    pub source: Digest,
    pub support: Digest,
    pub operators: Vec<DerivedOperator>,
}

impl View for ConsolidationChallenger {
    type V = ConsolidationView;

    open spec fn view(&self) -> ConsolidationView {
        ConsolidationView {
            product: self.product,
            base_product: self.base_product,
            source: self.source,
            support: self.support,
            operators: codec::views(self.operators@),
        }
    }
}

/// The bytes of a challenger.
pub open spec fn put_consolidation(value: ConsolidationView) -> Seq<u8> {
    CONSOLIDATION_MAGIC@ + (value.product.bytes() + (value.base_product.bytes() + (
    value.source.bytes() + (value.support.bytes() + codec::put_list::<(), DerivedOperator>(
        (),
        value.operators,
    )))))
}

/// The challenger that some bytes are, if they are one and nothing else.
pub open spec fn consolidation_in(bytes: Seq<u8>) -> Option<ConsolidationView> {
    match codec::parse_bytes(bytes, 5) {
        None => None,
        Some((magic, rest)) => if magic != CONSOLIDATION_MAGIC@ {
            None
        } else {
            match digest::parse_digest(rest) {
                None => None,
                Some((product, rest)) => match digest::parse_digest(rest) {
                    None => None,
                    Some((base_product, rest)) => match digest::parse_digest(rest) {
                        None => None,
                        Some((source, rest)) => match digest::parse_digest(rest) {
                            None => None,
                            Some((support, rest)) => match codec::parse_list::<
                                (),
                                DerivedOperator,
                            >((), rest, usize::MAX as nat, 48) {
                                None => None,
                                Some((operators, rest)) => if rest.len() == 0 {
                                    Some(
                                        ConsolidationView {
                                            product,
                                            base_product,
                                            source,
                                            support,
                                            operators,
                                        },
                                    )
                                } else {
                                    None
                                },
                            },
                        },
                    },
                },
            }
        },
    }
}

/// A challenger reads back as it was written.
pub proof fn law_consolidation_reads_back(value: ConsolidationView)
    requires
        operators_holdable(value.operators),
    ensures
        consolidation_in(put_consolidation(value)) == Some(value),
{
    broadcast use digest::group_digest;

    let list = codec::put_list::<(), DerivedOperator>((), value.operators);
    let fields = value.product.bytes() + (value.base_product.bytes() + (value.source.bytes() + (
    value.support.bytes() + list)));
    codec::lemma_parse_bytes(CONSOLIDATION_MAGIC@, 5, fields);
    codec::lemma_list_round_trip::<(), DerivedOperator>(
        (),
        value.operators,
        usize::MAX as nat,
        48,
        Seq::empty(),
    );
    assert(list + Seq::<u8>::empty() =~= list);
}

impl ConsolidationChallenger {
    pub fn duplicate(&self) -> (copy: Self)
        ensures
            copy@ == self@,
    {
        ConsolidationChallenger {
            product: self.product,
            base_product: self.base_product,
            source: self.source,
            support: self.support,
            operators: duplicate_operators(self.operators.as_slice()),
        }
    }

    pub fn encode(&self) -> (bytes: Vec<u8>)
        ensures
            bytes@ == put_consolidation(self@),
    {
        broadcast use digest::group_digest;

        let mut bytes: Vec<u8> = Vec::new();
        codec::write_bytes(CONSOLIDATION_MAGIC.as_slice(), &mut bytes);
        assert(bytes@ =~= CONSOLIDATION_MAGIC@);
        write_digest(self.product, &mut bytes);
        write_digest(self.base_product, &mut bytes);
        write_digest(self.source, &mut bytes);
        write_digest(self.support, &mut bytes);
        codec::write_list::<(), DerivedOperator>(&(), self.operators.as_slice(), &mut bytes);
        bytes
    }

    pub fn decode(bytes: &[u8]) -> (result: Result<Self, ()>)
        ensures
            match result {
                Ok(challenger) => consolidation_in(bytes@) == Some(challenger@),
                Err(_) => consolidation_in(bytes@) is None,
            },
    {
        let mut input = Decoder::new(bytes);
        let magic = match input.take(5) {
            Ok(magic) => magic,
            Err(_) => return Err(()),
        };
        if !same_bytes(magic, CONSOLIDATION_MAGIC.as_slice()) {
            return Err(());
        }
        let product = input.read_digest()?;
        let base_product = input.read_digest()?;
        let source = input.read_digest()?;
        let support = input.read_digest()?;
        let operators = codec::read_list::<(), DerivedOperator>(&(), &mut input, usize::MAX, 48)?;
        if !input.is_finished() {
            return Err(());
        }
        Ok(ConsolidationChallenger { product, base_product, source, support, operators })
    }
}

// ---------------------------------------------------------------------------
// Active knowledge
// ---------------------------------------------------------------------------
/// One product that has been active, and its operators.
#[verifier::ext_equal]
pub struct RetainedView {
    pub product: Digest,
    pub operators: Seq<OperatorView>,
}

#[derive(Clone, Debug, PartialEq, Eq)]
pub struct KnowledgeRevision {
    pub product: Digest,
    pub operators: Vec<DerivedOperator>,
}

impl View for KnowledgeRevision {
    type V = RetainedView;

    open spec fn view(&self) -> RetainedView {
        RetainedView { product: self.product, operators: codec::views(self.operators@) }
    }
}

impl KnowledgeRevision {
    pub fn duplicate(&self) -> (copy: Self)
        ensures
            copy@ == self@,
    {
        KnowledgeRevision {
            product: self.product,
            operators: duplicate_operators(self.operators.as_slice()),
        }
    }

    pub fn operators(&self) -> (operators: &[DerivedOperator])
        ensures
            codec::views(operators@) == self@.operators,
    {
        self.operators.as_slice()
    }
}

impl Wire<()> for KnowledgeRevision {
    open spec fn wire(format: (), value: RetainedView) -> Seq<u8> {
        value.product.bytes() + codec::put_list::<(), DerivedOperator>((), value.operators)
    }

    open spec fn parse(format: (), input: Seq<u8>) -> Option<(RetainedView, Seq<u8>)> {
        match digest::parse_digest(input) {
            None => None,
            Some((product, rest)) => match codec::parse_list::<(), DerivedOperator>(
                (),
                rest,
                usize::MAX as nat,
                48,
            ) {
                None => None,
                Some((operators, rest)) => Some((RetainedView { product, operators }, rest)),
            },
        }
    }

    open spec fn admissible(format: (), value: RetainedView) -> bool {
        operators_holdable(value.operators)
    }

    open spec fn least_bytes(format: ()) -> nat {
        40
    }

    proof fn lemma_round_trip(format: (), value: RetainedView, rest: Seq<u8>) {
        broadcast use digest::group_digest;

        codec::lemma_list_round_trip::<(), DerivedOperator>(
            (),
            value.operators,
            usize::MAX as nat,
            48,
            rest,
        );
    }

    proof fn lemma_least_bytes(format: (), value: RetainedView) {
        broadcast use digest::group_digest;

    }

    fn write(&self, format: &(), output: &mut Vec<u8>) {
        broadcast use digest::group_digest;

        write_digest(self.product, output);
        codec::write_list::<(), DerivedOperator>(&(), self.operators.as_slice(), output);
    }

    fn read(format: &(), input: &mut Decoder<'_>) -> (result: Result<Self, ()>) {
        let product = input.read_digest()?;
        let operators = codec::read_list::<(), DerivedOperator>(&(), input, usize::MAX, 48)?;
        Ok(KnowledgeRevision { product, operators })
    }
}

/// Everything that has been active, the present last.
#[verifier::ext_equal]
pub struct StateView {
    pub generation: u64,
    pub revisions: Seq<RetainedView>,
}

/// The product that is active before any other.
pub open spec fn initial_product() -> Digest {
    digest::labelled("reflex-knowledge-initial-product-v1\0", Seq::empty())
}

impl StateView {
    pub open spec fn initial() -> StateView {
        StateView {
            generation: 0,
            revisions: seq![
                RetainedView { product: initial_product(), operators: Seq::empty() },
            ],
        }
    }

    /// There is a present.
    pub open spec fn valid(self) -> bool {
        &&& 0 < self.revisions.len() <= usize::MAX
        &&& forall|i: int|
            0 <= i < self.revisions.len() ==> operators_holdable(
                (#[trigger] self.revisions[i]).operators,
            )
    }

    /// The active product.
    pub open spec fn active_product(self) -> Digest {
        self.revisions.last().product
    }

    /// The state after a challenger has taken over.
    pub open spec fn activated(self, challenger: ConsolidationView) -> Result<
        StateView,
        IntelligenceError,
    > {
        if challenger.base_product != self.active_product() {
            Err(IntelligenceError::StaleTransition)
        } else if challenger.product == self.active_product() || self.generation == u64::MAX {
            Err(IntelligenceError::InvalidKnowledge)
        } else {
            Ok(
                StateView {
                    generation: (self.generation + 1) as u64,
                    revisions: self.revisions.push(
                        RetainedView {
                            product: challenger.product,
                            operators: challenger.operators,
                        },
                    ),
                },
            )
        }
    }

    /// The state after the active product has been withdrawn.
    pub open spec fn rolled_back(self, product: Digest) -> Result<StateView, IntelligenceError> {
        if self.active_product() != product {
            Err(IntelligenceError::StaleTransition)
        } else if self.revisions.len() <= 1 || self.generation == u64::MAX {
            Err(IntelligenceError::InvalidKnowledge)
        } else {
            Ok(
                StateView {
                    generation: (self.generation + 1) as u64,
                    revisions: self.revisions.drop_last(),
                },
            )
        }
    }
}

/// Withdrawing a product brings back the revisions from before it was activated.
pub proof fn law_rollback_undoes_activation(state: StateView, challenger: ConsolidationView)
    requires
        state.valid(),
        state.activated(challenger) is Ok,
        state.generation < u64::MAX - 1,
    ensures
        ({
            let active = state.activated(challenger)->Ok_0;
            &&& active.rolled_back(challenger.product) matches Ok(back)
            &&& back.revisions == state.revisions
            &&& back.generation == state.generation + 2
        }),
{
    let active = state.activated(challenger)->Ok_0;
    assert(active.revisions.drop_last() =~= state.revisions);
}

/// The bytes of a state.
pub open spec fn put_state(state: StateView) -> Seq<u8> {
    codec::put_u64(state.generation) + codec::put_list::<(), KnowledgeRevision>(
        (),
        state.revisions,
    )
}

/// A state always takes some bytes.
pub proof fn lemma_state_has_bytes(state: StateView)
    ensures
        put_state(state).len() > 0,
{
    codec::lemma_put_u64_len(state.generation);
}

/// The state that some bytes are, if they are one and nothing else.
pub open spec fn state_in(bytes: Seq<u8>) -> Option<StateView> {
    match codec::parse_u64(bytes) {
        None => None,
        Some((generation, rest)) => match codec::parse_list::<(), KnowledgeRevision>(
            (),
            rest,
            usize::MAX as nat,
            40,
        ) {
            None => None,
            Some((revisions, rest)) => if rest.len() == 0 && revisions.len() > 0 {
                Some(StateView { generation, revisions })
            } else {
                None
            },
        },
    }
}

/// A state reads back as it was written.
pub proof fn law_state_reads_back(state: StateView)
    requires
        state.valid(),
    ensures
        state_in(put_state(state)) == Some(state),
{
    broadcast use digest::group_digest;

    let list = codec::put_list::<(), KnowledgeRevision>((), state.revisions);
    codec::lemma_list_round_trip::<(), KnowledgeRevision>(
        (),
        state.revisions,
        usize::MAX as nat,
        40,
        Seq::empty(),
    );
    assert(list + Seq::<u8>::empty() =~= list);
}

#[derive(Clone, Debug, PartialEq, Eq)]
pub struct KnowledgeState {
    generation: u64,
    revisions: Vec<KnowledgeRevision>,
}

impl View for KnowledgeState {
    type V = StateView;

    closed spec fn view(&self) -> StateView {
        StateView { generation: self.generation, revisions: codec::views(self.revisions@) }
    }
}

/// What is held in memory has lengths that memory can hold.
pub proof fn lemma_held(state: &KnowledgeState)
    requires
        state@.revisions.len() > 0,
    ensures
        state@.valid(),
{
    assert(state.revisions.len() == state@.revisions.len());
    assert forall|i: int| 0 <= i < state@.revisions.len() implies operators_holdable(
        (#[trigger] state@.revisions[i]).operators,
    ) by {
        let operators = state.revisions@[i].operators;
        assert(operators.len() == state@.revisions[i].operators.len());
        assert forall|j: int| 0 <= j < operators@.len() implies (
        #[trigger] state@.revisions[i].operators[j]).holdable() by {
            let operator = operators@[j];
            assert(operator.steps.len() == operator@.steps.len());
            assert(operator.support.len() == operator@.support.len());
            assert forall|k: int| 0 <= k < operator@.steps.len() implies (
            #[trigger] operator@.steps[k]).len() <= usize::MAX by {
                assert(operator.steps@[k].bytes.len() == operator@.steps[k].len());
            }
        }
    }
}

impl Default for KnowledgeState {
    fn default() -> (state: Self)
        ensures
            state@ == StateView::initial(),
            state@.valid(),
    {
        let nothing: Vec<u8> = Vec::new();
        let product = hash_labelled("reflex-knowledge-initial-product-v1\0", nothing.as_slice());
        let mut revisions: Vec<KnowledgeRevision> = Vec::new();
        let operators: Vec<DerivedOperator> = Vec::new();
        assert(codec::views(operators@) =~= Seq::empty());
        revisions.push(KnowledgeRevision { product, operators });
        let state = KnowledgeState { generation: 0, revisions };
        assert(state@ =~= StateView::initial());
        state
    }
}

impl KnowledgeState {
    pub fn duplicate(&self) -> (copy: Self)
        ensures
            copy@ == self@,
    {
        let mut revisions: Vec<KnowledgeRevision> = Vec::new();
        let mut index: usize = 0;
        while index < self.revisions.len()
            invariant
                index <= self.revisions@.len(),
                revisions@.len() == index,
                forall|i: int| 0 <= i < index ==> (#[trigger] revisions@[i])@ == self.revisions@[i]@,
            decreases self.revisions@.len() - index,
        {
            revisions.push(self.revisions[index].duplicate());
            index = index + 1;
        }
        let copy = KnowledgeState { generation: self.generation, revisions };
        assert(copy@ =~= self@);
        copy
    }

    pub fn generation(&self) -> (generation: u64)
        ensures
            generation == self@.generation,
    {
        self.generation
    }

    pub fn product(&self) -> (product: Digest)
        requires
            self@.revisions.len() > 0,
        ensures
            product == self@.active_product(),
    {
        self.revisions[self.revisions.len() - 1].product
    }

    /// The revision that is active now.
    pub fn pinned_revision(&self) -> (revision: &KnowledgeRevision)
        requires
            self@.revisions.len() > 0,
        ensures
            revision@ == self@.revisions.last(),
    {
        &self.revisions[self.revisions.len() - 1]
    }

    pub fn retained_revisions(&self) -> (revisions: &[KnowledgeRevision])
        ensures
            codec::views(revisions@) == self@.revisions,
    {
        self.revisions.as_slice()
    }

    /// Activates a challenger; a refusal changes nothing.
    pub fn activate_reverified_challenger(&mut self, challenger: &ConsolidationChallenger) -> (result:
        Result<(), IntelligenceError>)
        requires
            old(self)@.revisions.len() > 0,
        ensures
            match result {
                Ok(_) => old(self)@.activated(challenger@) == Ok::<StateView, IntelligenceError>(
                    final(self)@,
                ),
                Err(error) => old(self)@.activated(challenger@) == Err::<
                    StateView,
                    IntelligenceError,
                >(error) && final(self)@ == old(self)@,
            },
    {
        let active = self.product();
        if challenger.base_product != active {
            return Err(IntelligenceError::StaleTransition);
        }
        if challenger.product == active || self.generation == u64::MAX {
            return Err(IntelligenceError::InvalidKnowledge);
        }
        self.generation = self.generation + 1;
        self.revisions.push(
            KnowledgeRevision {
                product: challenger.product,
                operators: duplicate_operators(challenger.operators.as_slice()),
            },
        );
        assert(self@.revisions =~= old(self)@.activated(challenger@)->Ok_0.revisions);
        Ok(())
    }

    /// Withdraws the active product; a refusal changes nothing.
    pub fn rollback_promoted_product(&mut self, product: Digest) -> (result: Result<
        (),
        IntelligenceError,
    >)
        requires
            old(self)@.revisions.len() > 0,
        ensures
            match result {
                Ok(_) => old(self)@.rolled_back(product) == Ok::<StateView, IntelligenceError>(
                    final(self)@,
                ),
                Err(error) => old(self)@.rolled_back(product) == Err::<
                    StateView,
                    IntelligenceError,
                >(error) && final(self)@ == old(self)@,
            },
    {
        if self.product() != product {
            return Err(IntelligenceError::StaleTransition);
        }
        if self.revisions.len() <= 1 || self.generation == u64::MAX {
            return Err(IntelligenceError::InvalidKnowledge);
        }
        self.generation = self.generation + 1;
        self.revisions.pop();
        assert(self@.revisions =~= old(self)@.revisions.drop_last());
        Ok(())
    }

    pub fn encode(&self) -> (bytes: Vec<u8>)
        ensures
            bytes@ == put_state(self@),
    {
        let mut bytes: Vec<u8> = Vec::new();
        codec::write_u64(self.generation, &mut bytes);
        codec::write_list::<(), KnowledgeRevision>(&(), self.revisions.as_slice(), &mut bytes);
        assert(bytes@ =~= put_state(self@));
        bytes
    }

    pub fn decode(bytes: &[u8]) -> (result: Result<Self, ()>)
        ensures
            match result {
                Ok(state) => state_in(bytes@) == Some(state@) && state@.revisions.len() > 0,
                Err(_) => state_in(bytes@) is None,
            },
    {
        let mut input = Decoder::new(bytes);
        let generation: u64 = input.read_u64()?;
        let revisions = codec::read_list::<(), KnowledgeRevision>(
            &(),
            &mut input,
            usize::MAX,
            40,
        )?;
        if !input.is_finished() || revisions.len() == 0 {
            return Err(());
        }
        Ok(KnowledgeState { generation, revisions })
    }
}

} // verus!
