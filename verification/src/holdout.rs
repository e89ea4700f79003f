//! What a planned campaign is held out on: a root about which the product under test
//! has learnt nothing.
use vstd::prelude::*;

use crate::compiler;
use crate::compiler::{CompilerView, RecordView};
use crate::consolidation::{ConsolidationView, OperatorView};
use crate::digest::Digest;
use crate::knowledge;
use crate::order;
use crate::order::Ranked;
use crate::planning;
use crate::planning::{KnowledgeShadowRootFact, KnowledgeShadowSupportFact, PlanView};
use crate::search;
use crate::shadow::{CheckpointDigest, ShadowCampaignState};
use crate::types::{IntelligenceError, IntelligenceLimits, ResourceVector, SubjectId};

verus! {

/// The attempt supports one of the operators of the product.
pub open spec fn supports(consolidation: ConsolidationView, attempt: Digest) -> bool {
    exists|i: int|
        0 <= i < consolidation.operators.len() && (
        #[trigger] consolidation.operators[i]).support.contains(attempt)
}

/// Some fact says that an attempt which supports the product was about the claim.
pub open spec fn learnt(
    consolidation: ConsolidationView,
    facts: Seq<KnowledgeShadowSupportFact>,
    claim: SubjectId,
) -> bool {
    exists|i: int|
        0 <= i < facts.len() && (#[trigger] facts[i]).claim == claim && supports(
            consolidation,
            facts[i].attempt,
        )
}

/// The record is verified and can take the place of the active product.
pub open spec fn can_challenge(value: CompilerView, record: RecordView) -> bool {
    &&& record.status is Verified
    &&& knowledge::consolidation_of(record.challenger) matches Some(consolidation)
        && consolidation.base_product == value.active.revisions.last().product
}

/// The record in a place is the first that can take the place of the active product.
pub open spec fn next_challenger(value: CompilerView, index: int) -> bool {
    &&& 0 <= index < value.records.len()
    &&& can_challenge(value, value.records[index])
    &&& forall|i: int| 0 <= i < index ==> !can_challenge(value, #[trigger] value.records[i])
}

proof fn lemma_support_run(operators: Seq<OperatorView>, attempt: Digest)
    ensures
        planning::support_run(operators).contains(attempt) <==> exists|i: int|
            0 <= i < operators.len() && (#[trigger] operators[i]).support.contains(attempt),
    decreases operators.len(),
{
    if operators.len() > 0 {
        let front = operators.drop_last();
        let run = planning::support_run(front);
        let last = operators.last().support;
        lemma_support_run(front, attempt);
        let all = planning::support_run(operators);
        if all.contains(attempt) {
            let k = choose|k: int| 0 <= k < all.len() && all[k] == attempt;
            if k < run.len() {
                assert(run[k] == attempt);
                let i = choose|i: int|
                    0 <= i < front.len() && (#[trigger] front[i]).support.contains(attempt);
                assert(operators[i].support.contains(attempt));
            } else {
                assert(last[k - run.len()] == attempt);
                assert(operators[operators.len() - 1].support.contains(attempt));
            }
        }
        if exists|i: int|
            0 <= i < operators.len() && (#[trigger] operators[i]).support.contains(attempt) {
            let i = choose|i: int|
                0 <= i < operators.len() && (#[trigger] operators[i]).support.contains(attempt);
            if i < front.len() {
                assert(front[i].support.contains(attempt));
                let k = choose|k: int| 0 <= k < run.len() && run[k] == attempt;
                assert(all[k] == attempt);
            } else {
                let k = choose|k: int| 0 <= k < last.len() && last[k] == attempt;
                assert(all[run.len() + k] == attempt);
            }
        }
    }
}

proof fn lemma_supporting(consolidation: ConsolidationView, attempt: Digest)
    ensures
        planning::supporting(consolidation).contains(attempt) <==> supports(
            consolidation,
            attempt,
        ),
{
    lemma_support_run(consolidation.operators, attempt);
    order::lemma_collected(planning::support_run(consolidation.operators));
}

proof fn lemma_supported(
    consolidation: ConsolidationView,
    facts: Seq<KnowledgeShadowSupportFact>,
    claim: SubjectId,
)
    ensures
        planning::supported(claim, planning::supporting(consolidation), facts) <==> learnt(
            consolidation,
            facts,
            claim,
        ),
{
    let attempts = planning::supporting(consolidation);
    if planning::supported(claim, attempts, facts) {
        let i = choose|i: int|
            0 <= i < facts.len() && (#[trigger] facts[i]).claim == claim && attempts.contains(
                facts[i].attempt,
            );
        lemma_supporting(consolidation, facts[i].attempt);
    }
    if learnt(consolidation, facts, claim) {
        let i = choose|i: int|
            0 <= i < facts.len() && (#[trigger] facts[i]).claim == claim && supports(
                consolidation,
                facts[i].attempt,
            );
        lemma_supporting(consolidation, facts[i].attempt);
    }
}

proof fn lemma_next_challenger(value: CompilerView)
    ensures
        match search::first(
            value.records,
            compiler::verified_on(value.active.active_product()),
        ) {
            Some(index) => next_challenger(value, index),
            None => forall|i: int|
                0 <= i < value.records.len() ==> !can_challenge(value, #[trigger] value.records[i]),
        },
{
    let test = compiler::verified_on(value.active.active_product());
    search::lemma_first(value.records, test);
    assert forall|record: RecordView| #[trigger] test(record) == can_challenge(value, record) by {}
    if let Some(index) = search::first(value.records, test) {
        assert forall|i: int| 0 <= i < index implies !can_challenge(
            value,
            #[trigger] value.records[i],
        ) by {
            assert(!test(value.records[i]));
        }
    } else {
        assert forall|i: int| 0 <= i < value.records.len() implies !can_challenge(
            value,
            #[trigger] value.records[i],
        ) by {
            assert(!test(value.records[i]));
        }
    }
}

/// The root in a place is free for the product: no attempt that supports the product
/// was about its claim. No other free root has a lower rank, and none of the same rank
/// stands earlier.
pub open spec fn best_free_root(
    consolidation: ConsolidationView,
    roots: Seq<KnowledgeShadowRootFact>,
    facts: Seq<KnowledgeShadowSupportFact>,
    place: int,
) -> bool {
    &&& 0 <= place < roots.len()
    &&& !learnt(consolidation, facts, roots[place].claim)
    &&& forall|i: int|
        0 <= i < roots.len() && !learnt(consolidation, facts, (#[trigger] roots[i]).claim)
            ==> roots[place].preference_rank < roots[i].preference_rank
            || roots[place].preference_rank == roots[i].preference_rank && place <= i
}

/// A plan compares the first challenger that is verified on the active product with
/// that product, on the free root that is preferred. It is made while no campaign is
/// open. Its campaign starts from the given checkpoint, is about the product, allows
/// each arm what was given, and names the attempts that support the product.
pub proof fn law_plan_is_held_out(
    revision: Digest,
    limits: IntelligenceLimits,
    shadows: Seq<ShadowCampaignState>,
    value: CompilerView,
    restart: CheckpointDigest,
    context: SubjectId,
    roots: Seq<KnowledgeShadowRootFact>,
    facts: Seq<KnowledgeShadowSupportFact>,
    allowance: ResourceVector,
    plan: PlanView,
) -> (places: (int, int))
    requires
        planning::planned(
            revision,
            limits,
            shadows,
            value,
            restart,
            context,
            roots,
            facts,
            allowance,
        ) == Ok::<Option<PlanView>, IntelligenceError>(Some(plan)),
    ensures
        ({
            let (index, place) = places;
            let record = value.records[index];
            let consolidation = knowledge::consolidation_of(record.challenger)->Some_0;
            &&& next_challenger(value, index)
            &&& best_free_root(consolidation, roots, facts, place)
            &&& plan.root == roots[place].root
            &&& plan.base_revision == revision
            &&& plan.challenger == record.challenger.id
            &&& plan.campaign.checkpoint == restart
            &&& plan.campaign.subject.0 == consolidation.product
            &&& plan.campaign.resources == allowance
            &&& plan.treatment.product == consolidation.product
            &&& plan.treatment.operators == consolidation.operators
            &&& plan.control == value.active.revisions.last()
            &&& forall|attempt: Digest| #[trigger]
                plan.supporting_attempts.contains(attempt) <==> supports(consolidation, attempt)
            &&& forall|i: int, j: int|
                0 <= i < j < plan.supporting_attempts.len() ==> plan.supporting_attempts[i]
                    != plan.supporting_attempts[j]
        }),
        forall|i: int| 0 <= i < shadows.len() ==> !((#[trigger] shadows[i]).lifecycle is Open),
        allowance.verification_requests > 0,
{
    lemma_next_challenger(value);
    let index = search::first(
        value.records,
        compiler::verified_on(value.active.active_product()),
    )->Some_0;
    let record = value.records[index];
    let consolidation = knowledge::consolidation_of(record.challenger)->Some_0;
    let attempts = planning::supporting(consolidation);
    planning::law_root_is_preferred(roots, attempts, facts, roots.len());
    let place = planning::preferred(roots, attempts, facts, roots.len())->Some_0;
    lemma_supported(consolidation, facts, roots[place].claim);
    assert forall|i: int|
        0 <= i < roots.len() && !learnt(
            consolidation,
            facts,
            (#[trigger] roots[i]).claim,
        ) implies roots[place].preference_rank < roots[i].preference_rank
        || roots[place].preference_rank == roots[i].preference_rank && place <= i by {
        lemma_supported(consolidation, facts, roots[i].claim);
    }
    assert forall|attempt: Digest| #[trigger]
        plan.supporting_attempts.contains(attempt) <==> supports(consolidation, attempt) by {
        lemma_supporting(consolidation, attempt);
    }
    order::lemma_collected(planning::support_run(consolidation.operators));
    assert forall|i: int, j: int|
        0 <= i < j < plan.supporting_attempts.len() implies plan.supporting_attempts[i]
        != plan.supporting_attempts[j] by {
        assert(attempts[i].before(attempts[j]));
        Digest::lemma_ranked(attempts[i], attempts[j], attempts[i]);
    }
    (index, place)
}

/// Where facts are in order and there is no plan, a campaign is open, or nothing that
/// is verified can take the place of the active product, or the first product that can
/// has learnt about every root.
pub proof fn law_no_plan_has_a_reason(
    revision: Digest,
    limits: IntelligenceLimits,
    shadows: Seq<ShadowCampaignState>,
    value: CompilerView,
    restart: CheckpointDigest,
    context: SubjectId,
    roots: Seq<KnowledgeShadowRootFact>,
    facts: Seq<KnowledgeShadowSupportFact>,
    allowance: ResourceVector,
)
    requires
        planning::planned(
            revision,
            limits,
            shadows,
            value,
            restart,
            context,
            roots,
            facts,
            allowance,
        ) == Ok::<Option<PlanView>, IntelligenceError>(None),
    ensures
        ({
            ||| exists|i: int| 0 <= i < shadows.len() && (#[trigger] shadows[i]).lifecycle is Open
            ||| forall|i: int|
                0 <= i < value.records.len() ==> !can_challenge(value, #[trigger] value.records[i])
            ||| exists|index: int| #[trigger]
                next_challenger(value, index) && forall|i: int|
                    0 <= i < roots.len() ==> learnt(
                        knowledge::consolidation_of(value.records[index].challenger)->Some_0,
                        facts,
                        (#[trigger] roots[i]).claim,
                    )
        }),
{
    lemma_next_challenger(value);
    if let Some(index) = search::first(
        value.records,
        compiler::verified_on(value.active.active_product()),
    ) {
        let consolidation = knowledge::consolidation_of(value.records[index].challenger)->Some_0;
        planning::law_root_is_preferred(
            roots,
            planning::supporting(consolidation),
            facts,
            roots.len(),
        );
        if !planning::some_open(shadows) {
            assert forall|i: int| 0 <= i < roots.len() implies learnt(
                consolidation,
                facts,
                (#[trigger] roots[i]).claim,
            ) by {
                lemma_supported(consolidation, facts, roots[i].claim);
            }
        }
    }
}

/// Facts that a plan can be made from: as many roots and facts as are allowed, at least
/// one root, none twice, and no attempt twice.
pub open spec fn in_order(
    limits: IntelligenceLimits,
    roots: Seq<KnowledgeShadowRootFact>,
    facts: Seq<KnowledgeShadowSupportFact>,
) -> bool {
    &&& 0 < roots.len() <= limits.maximum_opportunities
    &&& facts.len() <= limits.maximum_investments * 64 && facts.len() <= usize::MAX
    &&& forall|i: int, j: int|
        0 <= i < j < roots.len() ==> (#[trigger] roots[i]).root != (#[trigger] roots[j]).root
    &&& forall|i: int, j: int|
        0 <= i < j < facts.len() ==> (#[trigger] facts[i]).attempt != (#[trigger] facts[j]).attempt
}

/// A plan is refused exactly where its facts are not in order, where the arms may make
/// no verification request, or where no campaign is open and the first product that can
/// challenge has no operator.
pub proof fn law_refused_plan_has_a_reason(
    revision: Digest,
    limits: IntelligenceLimits,
    shadows: Seq<ShadowCampaignState>,
    value: CompilerView,
    restart: CheckpointDigest,
    context: SubjectId,
    roots: Seq<KnowledgeShadowRootFact>,
    facts: Seq<KnowledgeShadowSupportFact>,
    allowance: ResourceVector,
)
    ensures
        planning::planned(
            revision,
            limits,
            shadows,
            value,
            restart,
            context,
            roots,
            facts,
            allowance,
        ) is Err <==> {
            ||| !in_order(limits, roots, facts)
            ||| allowance.verification_requests == 0
            ||| (forall|i: int|
                0 <= i < shadows.len() ==> !((#[trigger] shadows[i]).lifecycle is Open)) && exists|
                index: int,
            | #[trigger]
                next_challenger(value, index) && knowledge::consolidation_of(
                    value.records[index].challenger,
                )->Some_0.operators.len() == 0
        },
{
    lemma_next_challenger(value);
    assert(in_order(limits, roots, facts) && allowance.verification_requests > 0
        <==> planning::facts_valid(limits, roots, facts, allowance));
    let first = search::first(
        value.records,
        compiler::verified_on(value.active.active_product()),
    );
    assert forall|index: int| #[trigger] next_challenger(value, index) implies first == Some(
        index,
    ) by {
        assert(can_challenge(value, value.records[index]));
        let other = first->Some_0;
        if other < index {
            assert(!can_challenge(value, value.records[other]));
        } else if index < other {
            assert(!can_challenge(value, value.records[index]));
        }
    }
}

/// Facts about other attempts have no influence: wherever two lists of facts, both in
/// order, agree on the attempts that support the product under test, they lead to the
/// same plan.
pub proof fn law_other_facts_have_no_influence(
    revision: Digest,
    limits: IntelligenceLimits,
    shadows: Seq<ShadowCampaignState>,
    value: CompilerView,
    restart: CheckpointDigest,
    context: SubjectId,
    roots: Seq<KnowledgeShadowRootFact>,
    left: Seq<KnowledgeShadowSupportFact>,
    right: Seq<KnowledgeShadowSupportFact>,
    allowance: ResourceVector,
    index: int,
)
    requires
        in_order(limits, roots, left),
        in_order(limits, roots, right),
        next_challenger(value, index),
        forall|fact: KnowledgeShadowSupportFact|
            supports(
                knowledge::consolidation_of(value.records[index].challenger)->Some_0,
                fact.attempt,
            ) ==> (#[trigger] left.contains(fact) <==> #[trigger] right.contains(fact)),
    ensures
        planning::planned(
            revision,
            limits,
            shadows,
            value,
            restart,
            context,
            roots,
            left,
            allowance,
        ) == planning::planned(
            revision,
            limits,
            shadows,
            value,
            restart,
            context,
            roots,
            right,
            allowance,
        ),
{
    let test = compiler::verified_on(value.active.active_product());
    let consolidation = knowledge::consolidation_of(value.records[index].challenger)->Some_0;
    assert forall|i: int| 0 <= i < index implies !test(#[trigger] value.records[i]) by {
        assert(!can_challenge(value, value.records[i]));
    }
    search::lemma_is_first(value.records, test, index);
    lemma_same_preference(consolidation, roots, left, right, roots.len());
    assert(planning::facts_valid(limits, roots, left, allowance) == planning::facts_valid(
        limits,
        roots,
        right,
        allowance,
    ));
}

proof fn lemma_learnt_alike(
    consolidation: ConsolidationView,
    left: Seq<KnowledgeShadowSupportFact>,
    right: Seq<KnowledgeShadowSupportFact>,
    claim: SubjectId,
)
    requires
        forall|fact: KnowledgeShadowSupportFact|
            supports(consolidation, fact.attempt) ==> (#[trigger] left.contains(fact)
                <==> #[trigger] right.contains(fact)),
        learnt(consolidation, left, claim),
    ensures
        learnt(consolidation, right, claim),
{
    let i = choose|i: int|
        0 <= i < left.len() && (#[trigger] left[i]).claim == claim && supports(
            consolidation,
            left[i].attempt,
        );
    assert(left.contains(left[i]));
    assert(right.contains(left[i]));
    let j = choose|j: int| 0 <= j < right.len() && right[j] == left[i];
    assert(right[j].claim == claim);
}

proof fn lemma_same_preference(
    consolidation: ConsolidationView,
    roots: Seq<KnowledgeShadowRootFact>,
    left: Seq<KnowledgeShadowSupportFact>,
    right: Seq<KnowledgeShadowSupportFact>,
    count: nat,
)
    requires
        forall|fact: KnowledgeShadowSupportFact|
            supports(consolidation, fact.attempt) ==> (#[trigger] left.contains(fact)
                <==> #[trigger] right.contains(fact)),
        count <= roots.len(),
    ensures
        planning::preferred(roots, planning::supporting(consolidation), left, count)
            == planning::preferred(roots, planning::supporting(consolidation), right, count),
    decreases count,
{
    if count > 0 {
        lemma_same_preference(consolidation, roots, left, right, (count - 1) as nat);
        let claim = roots[count - 1].claim;
        lemma_supported(consolidation, left, claim);
        lemma_supported(consolidation, right, claim);
        if learnt(consolidation, left, claim) {
            lemma_learnt_alike(consolidation, left, right, claim);
        }
        if learnt(consolidation, right, claim) {
            lemma_learnt_alike(consolidation, right, left, claim);
        }
    }
}

} // verus!
