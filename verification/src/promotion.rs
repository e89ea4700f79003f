//! Promotions: what the active knowledge rests on stays earned as long as nobody
//! reviews or invalidates what is promoted and no product comes back.
use vstd::prelude::*;

use crate::challenger;
use crate::challenger::KnowledgeChallengerId;
use crate::compiler;
use crate::compiler::{CompilerView, RecordView, UpdateView};
use crate::knowledge;
use crate::ledger::LedgerView;
use crate::search;
use crate::types::{IntelligenceError, IntelligenceLimits};

verus! {

/// The records in some places, oldest first, are those that are promoted, and each
/// gave the revision that stands above the one before.
pub open spec fn stacked(state: CompilerView, stack: Seq<int>) -> bool {
    let revisions = state.active.revisions;
    &&& revisions.len() == stack.len() + 1
    &&& forall|k: int|
        0 <= k < stack.len() ==> #[trigger] rests(state, stack[k], k)
    &&& forall|i: int|
        0 <= i < state.records.len() && (#[trigger] state.records[i]).status is Promoted
            ==> stack.contains(i)
    &&& forall|i: int, j: int|
        0 <= i < j < revisions.len() ==> (#[trigger] revisions[i]).product != (
        #[trigger] revisions[j]).product
}

/// The record in a place is promoted and leads from one revision to the next.
pub open spec fn rests(state: CompilerView, place: int, level: int) -> bool {
    let record = state.records[place];
    &&& 0 <= place < state.records.len()
    &&& record.status is Promoted
    &&& match knowledge::consolidation_of(record.challenger) {
        Some(consolidation) => consolidation.product == state.active.revisions[level + 1].product
            && consolidation.base_product == state.active.revisions[level].product,
        None => false,
    }
}

/// Every promotion in some places is earned.
pub open spec fn earned(state: CompilerView, stack: Seq<int>, ledger: LedgerView) -> bool {
    forall|k: int|
        0 <= k < stack.len() ==> !compiler::unearned(
            state.records[#[trigger] stack[k]],
            ledger,
        )
}

/// Everything that is promoted is what the active knowledge rests on, and is earned.
pub open spec fn upheld(state: CompilerView, ledger: LedgerView) -> bool {
    exists|stack: Seq<int>| #[trigger] stacked(state, stack) && earned(state, stack, ledger)
}

/// Newest first.
spec fn newest_first(stack: Seq<int>, count: int) -> Seq<int> {
    Seq::new(count as nat, |j: int| stack[count - 1 - j])
}

proof fn lemma_level_found(state: CompilerView, stack: Seq<int>, level: int)
    requires
        stacked(state, stack),
        0 <= level <= stack.len(),
    ensures
        search::first(
            state.records,
            compiler::promoted_to(state.active.revisions[level].product),
        ) == (if level == 0 {
            None
        } else {
            Some(stack[level - 1])
        }),
{
    let revisions = state.active.revisions;
    let test = compiler::promoted_to(revisions[level].product);
    search::lemma_first(state.records, test);
    if level > 0 {
        assert(rests(state, stack[level - 1], level - 1));
        assert(test(state.records[stack[level - 1]]));
    }
    if let Some(i) = search::first(state.records, test) {
        assert(state.records[i].status is Promoted);
        assert(stack.contains(i));
        let k = choose|k: int| 0 <= k < stack.len() && stack[k] == i;
        assert(rests(state, stack[k], k));
        assert(revisions[k + 1].product == revisions[level].product);
        assert(k + 1 == level);
    }
}

proof fn lemma_chain(state: CompilerView, stack: Seq<int>, level: int, depth: nat)
    requires
        stacked(state, stack),
        0 <= level <= stack.len(),
        depth >= level,
    ensures
        compiler::promotions(state.records, state.active.revisions[level].product, depth)
            == newest_first(stack, level),
    decreases level,
{
    lemma_level_found(state, stack, level);
    if level == 0 {
        assert(compiler::promotions(state.records, state.active.revisions[level].product, depth)
            =~= newest_first(stack, level));
    } else {
        lemma_chain(state, stack, level - 1, (depth - 1) as nat);
        assert(rests(state, stack[level - 1], level - 1));
        assert(seq![stack[level - 1]] + newest_first(stack, level - 1) =~= newest_first(
            stack,
            level,
        ));
    }
}

proof fn lemma_stack_bounded(state: CompilerView, stack: Seq<int>)
    requires
        stacked(state, stack),
    ensures
        stack.len() <= state.records.len(),
{
    let revisions = state.active.revisions;
    assert forall|i: int, j: int| 0 <= i < stack.len() && 0 <= j < stack.len() && i != j implies
        stack[i] != stack[j] by {
        assert(rests(state, stack[i], i) && rests(state, stack[j], j));
        if i < j {
            assert(revisions[i + 1].product != revisions[j + 1].product);
        } else {
            assert(revisions[j + 1].product != revisions[i + 1].product);
        }
    }
    assert(stack.no_duplicates());
    stack.unique_seq_to_set();
    let range = vstd::set_lib::set_int_range(0, state.records.len() as int);
    vstd::set_lib::lemma_int_range(0, state.records.len() as int);
    assert(stack.to_set().subset_of(range)) by {
        assert forall|i: int| stack.to_set().contains(i) implies range.contains(i) by {
            let k = choose|k: int| 0 <= k < stack.len() && stack[k] == i;
            assert(rests(state, stack[k], k));
        }
    }
    vstd::set_lib::lemma_len_subset(stack.to_set(), range);
}

proof fn lemma_active_chain(state: CompilerView, stack: Seq<int>)
    requires
        stacked(state, stack),
    ensures
        state.active_promotions() == newest_first(stack, stack.len() as int),
{
    lemma_stack_bounded(state, stack);
    lemma_chain(state, stack, stack.len() as int, state.records.len());
}

/// From the place on from which everything is earned nothing has to be withdrawn.
proof fn lemma_withdrawals(records: Seq<RecordView>, chain: Seq<int>, ledger: LedgerView)
    ensures
        compiler::withdrawals(records, chain, ledger) <= chain.len(),
        forall|j: int|
            compiler::withdrawals(records, chain, ledger) <= j < chain.len()
                ==> !compiler::unearned(records[#[trigger] chain[j]], ledger),
        (forall|j: int|
            0 <= j < chain.len() ==> !compiler::unearned(records[#[trigger] chain[j]], ledger))
            ==> compiler::withdrawals(records, chain, ledger) == 0,
    decreases chain.len(),
{
    if chain.len() > 0 {
        let front = chain.drop_last();
        lemma_withdrawals(records, front, ledger);
        let count = compiler::withdrawals(records, chain, ledger);
        if !compiler::unearned(records[chain.last()], ledger) {
            assert forall|j: int| count <= j < chain.len() implies !compiler::unearned(
                records[#[trigger] chain[j]],
                ledger,
            ) by {
                if j < front.len() {
                    assert(front[j] == chain[j]);
                }
            }
            if forall|j: int|
                0 <= j < chain.len() ==> !compiler::unearned(records[#[trigger] chain[j]], ledger) {
                assert forall|j: int| 0 <= j < front.len() implies !compiler::unearned(
                    records[#[trigger] front[j]],
                    ledger,
                ) by {
                    assert(front[j] == chain[j]);
                }
            }
        } else {
            assert(chain[chain.len() - 1] == chain.last());
        }
    }
}

/// Where everything that is promoted is earned, nothing has to be withdrawn.
pub proof fn law_upheld_needs_no_withdrawal(state: CompilerView, ledger: LedgerView)
    requires
        upheld(state, ledger),
    ensures
        compiler::withdrawals(state.records, state.active_promotions(), ledger) == 0,
{
    let stack = choose|stack: Seq<int>| #[trigger]
        stacked(state, stack) && earned(state, stack, ledger);
    let chain = newest_first(stack, stack.len() as int);
    lemma_active_chain(state, stack);
    assert forall|j: int| 0 <= j < chain.len() implies !compiler::unearned(
        state.records[#[trigger] chain[j]],
        ledger,
    ) by {
        assert(chain[j] == stack[stack.len() - 1 - j]);
    }
    lemma_withdrawals(state.records, chain, ledger);
}

// ---------------------------------------------------------------------------
// Steps that leave promotions alone
// ---------------------------------------------------------------------------
/// Two states with the same revisions and the same promoted records in the same
/// places.
spec fn same_promotions(before: CompilerView, after: CompilerView) -> bool {
    &&& before.active == after.active
    &&& before.records.len() <= after.records.len()
    &&& forall|i: int|
        0 <= i < before.records.len() && (#[trigger] before.records[i]).status is Promoted
            ==> after.records[i] == before.records[i]
    &&& forall|i: int|
        0 <= i < after.records.len() && (#[trigger] after.records[i]).status is Promoted ==> i
            < before.records.len() && before.records[i].status is Promoted
}

proof fn lemma_promotions_kept(before: CompilerView, after: CompilerView, ledger: LedgerView)
    requires
        upheld(before, ledger),
        same_promotions(before, after),
    ensures
        upheld(after, ledger),
{
    let stack = choose|stack: Seq<int>| #[trigger]
        stacked(before, stack) && earned(before, stack, ledger);
    assert forall|k: int| 0 <= k < stack.len() implies #[trigger] rests(after, stack[k], k)
        && after.records[stack[k]] == before.records[stack[k]] by {
        assert(rests(before, stack[k], k));
    }
    assert(stacked(after, stack));
    assert forall|k: int| 0 <= k < stack.len() implies !compiler::unearned(
        after.records[#[trigger] stack[k]],
        ledger,
    ) by {
        assert(rests(after, stack[k], k));
    }
    assert(earned(after, stack, ledger));
}

/// A step neither reviews nor invalidates what is promoted, and promotes to no product
/// that the active knowledge already rests on.
pub open spec fn steady(state: CompilerView, update: UpdateView) -> bool {
    match update {
        UpdateView::Review(review) => spares(state, review.challenger),
        UpdateView::Invalidate { challenger, .. } => spares(state, challenger),
        UpdateView::EvaluatePromotion(challenger) => brings_anew(state, challenger),
        _ => true,
    }
}

/// The challenger is not promoted.
pub open spec fn spares(state: CompilerView, id: KnowledgeChallengerId) -> bool {
    state.place(id) matches Some(index) ==> !(state.records[index].status is Promoted)
}

/// The challenger's product is none that the active knowledge rests on.
pub open spec fn brings_anew(state: CompilerView, id: KnowledgeChallengerId) -> bool {
    state.place(id) matches Some(index) ==> match knowledge::consolidation_of(
        state.records[index].challenger,
    ) {
        Some(consolidation) => forall|k: int|
            0 <= k < state.active.revisions.len() ==> (#[trigger] state.active.revisions[k]).product
                != consolidation.product,
        None => true,
    }
}

proof fn lemma_promoted(
    state: CompilerView,
    id: KnowledgeChallengerId,
    ledger: LedgerView,
    next: CompilerView,
)
    requires
        upheld(state, ledger),
        brings_anew(state, id),
        state.evaluated(id, ledger) == Ok::<(CompilerView, bool), IntelligenceError>((next, true)),
    ensures
        upheld(next, ledger),
{
    let stack = choose|stack: Seq<int>| #[trigger]
        stacked(state, stack) && earned(state, stack, ledger);
    let index = state.place(id)->Some_0;
    let record = state.records[index];
    let consolidation = knowledge::consolidation_of(record.challenger)->Some_0;
    let before = state.active.revisions;
    let after = next.active.revisions;
    search::lemma_first(state.records, compiler::named(id));
    search::lemma_first(
        ledger.contrasts,
        challenger::from_satisfying_campaign(
            record.challenger.promotion,
            record.challenger.product.subject,
            ledger.contrasts,
        ),
    );
    let higher = stack.push(index);
    assert forall|k: int| 0 <= k < higher.len() implies #[trigger] rests(next, higher[k], k) by {
        if k < stack.len() {
            assert(higher[k] == stack[k]);
            assert(rests(state, stack[k], k));
            assert(stack[k] != index);
            assert(after[k] == before[k] && after[k + 1] == before[k + 1]);
        } else {
            assert(after[k] == before[k]);
            assert(before[k] == before.last());
            assert(after[k + 1].product == consolidation.product);
        }
    }
    assert forall|i: int|
        0 <= i < next.records.len() && (#[trigger] next.records[i]).status is Promoted implies
        higher.contains(i) by {
        if i == index {
            assert(higher[stack.len() as int] == index);
        } else {
            assert(state.records[i].status is Promoted);
            let k = choose|k: int| 0 <= k < stack.len() && stack[k] == i;
            assert(higher[k] == i);
        }
    }
    assert forall|i: int, j: int| 0 <= i < j < after.len() implies (
    #[trigger] after[i]).product != (#[trigger] after[j]).product by {
        if j < before.len() {
            assert(after[i] == before[i] && after[j] == before[j]);
        } else {
            assert(after[i] == before[i]);
        }
    }
    assert(stacked(next, higher));
    assert forall|k: int| 0 <= k < higher.len() implies !compiler::unearned(
        next.records[#[trigger] higher[k]],
        ledger,
    ) by {
        if k < stack.len() {
            assert(higher[k] == stack[k]);
            assert(rests(state, stack[k], k));
            assert(next.records[stack[k]] == state.records[stack[k]]);
        }
    }
    assert(earned(next, higher, ledger));
}

/// A steady step keeps what is promoted earned.
pub proof fn law_steady_step_keeps_promotions(
    state: CompilerView,
    update: UpdateView,
    ledger: LedgerView,
    limits: IntelligenceLimits,
)
    requires
        upheld(state, ledger),
        steady(state, update),
    ensures
        state.updated(update, ledger, limits) matches Ok((next, changed)) ==> upheld(next, ledger)
            && (!changed ==> next == state),
{
    if let Ok((next, changed)) = state.updated(update, ledger, limits) {
        match update {
            UpdateView::EvaluatePromotion(id) => if changed {
                lemma_promoted(state, id, ledger, next);
            },
            UpdateView::Propose(_) => {
                assert(same_promotions(state, next));
                lemma_promotions_kept(state, next, ledger);
            },
            UpdateView::Review(review) => {
                search::lemma_first(state.records, compiler::named(review.challenger));
                assert(same_promotions(state, next));
                lemma_promotions_kept(state, next, ledger);
            },
            UpdateView::Invalidate { challenger, .. } => {
                search::lemma_first(state.records, compiler::named(challenger));
                assert(same_promotions(state, next));
                lemma_promotions_kept(state, next, ledger);
            },
            UpdateView::OpenVerification { .. } => {
                assert(same_promotions(state, next));
                lemma_promotions_kept(state, next, ledger);
            },
            UpdateView::CompleteVerification(challenger) => {
                search::lemma_first(state.records, compiler::named(challenger));
                assert(same_promotions(state, next));
                lemma_promotions_kept(state, next, ledger);
            },
            UpdateView::InterruptVerification(challenger) => {
                search::lemma_first(state.records, compiler::named(challenger));
                assert(same_promotions(state, next));
                lemma_promotions_kept(state, next, ledger);
            },
        }
    }
}

/// Every step of a run is steady where it stands.
pub open spec fn steady_all(
    state: CompilerView,
    updates: Seq<UpdateView>,
    ledger: LedgerView,
    limits: IntelligenceLimits,
) -> bool
    decreases updates.len(),
{
    updates.len() > 0 ==> {
        &&& steady_all(state, updates.drop_last(), ledger, limits)
        &&& steady(state.updated_all(updates.drop_last(), ledger, limits).0, updates.last())
    }
}

/// A run of steady steps keeps what is promoted earned.
pub proof fn law_steady_steps_keep_promotions(
    state: CompilerView,
    updates: Seq<UpdateView>,
    ledger: LedgerView,
    limits: IntelligenceLimits,
)
    requires
        upheld(state, ledger),
        steady_all(state, updates, ledger, limits),
    ensures
        state.updated_all(updates, ledger, limits) matches (next, Ok(changed)) ==> upheld(
            next,
            ledger,
        ) && (!changed ==> next == state),
    decreases updates.len(),
{
    if updates.len() > 0 {
        law_steady_steps_keep_promotions(state, updates.drop_last(), ledger, limits);
        let (middle, outcome) = state.updated_all(updates.drop_last(), ledger, limits);
        if outcome is Ok {
            law_steady_step_keeps_promotions(middle, updates.last(), ledger, limits);
        }
    }
}

// ---------------------------------------------------------------------------
// Withdrawals
// ---------------------------------------------------------------------------
proof fn lemma_withdrawn(
    state: CompilerView,
    stack: Seq<int>,
    ledger: LedgerView,
    next: CompilerView,
)
    requires
        stacked(state, stack),
        stack.len() > 0,
        state.withdrawn(stack.last(), ledger) == Ok::<CompilerView, IntelligenceError>(next),
    ensures
        stacked(next, stack.drop_last()),
        forall|k: int|
            0 <= k < stack.len() - 1 ==> next.records[#[trigger] stack[k]]
                == state.records[stack[k]],
{
    let lower = stack.drop_last();
    let before = state.active.revisions;
    let after = next.active.revisions;
    let top = stack.last();
    assert(rests(state, stack[stack.len() - 1], stack.len() - 1));
    assert forall|k: int| 0 <= k < lower.len() implies #[trigger] rests(next, lower[k], k)
        && lower[k] != top by {
        assert(lower[k] == stack[k]);
        assert(rests(state, stack[k], k));
        assert(before[k + 1].product != before[stack.len() as int].product);
        assert(after[k] == before[k] && after[k + 1] == before[k + 1]);
    }
    assert forall|i: int|
        0 <= i < next.records.len() && (#[trigger] next.records[i]).status is Promoted implies
        lower.contains(i) by {
        assert(i != top);
        assert(state.records[i].status is Promoted);
        let k = choose|k: int| 0 <= k < stack.len() && stack[k] == i;
        assert(k < lower.len());
        assert(lower[k] == i);
    }
    assert forall|i: int, j: int| 0 <= i < j < after.len() implies (
    #[trigger] after[i]).product != (#[trigger] after[j]).product by {
        assert(after[i] == before[i] && after[j] == before[j]);
    }
    assert forall|k: int| 0 <= k < stack.len() - 1 implies next.records[#[trigger] stack[k]]
        == state.records[stack[k]] by {
        assert(lower[k] == stack[k]);
        assert(rests(next, lower[k], k));
    }
}

proof fn lemma_withdrawn_in_turn(
    state: CompilerView,
    stack: Seq<int>,
    ledger: LedgerView,
    count: int,
)
    requires
        stacked(state, stack),
        0 <= count <= stack.len(),
    ensures
        state.withdrawn_all(newest_first(stack, stack.len() as int).take(count), ledger) matches (
            next,
            Ok(_),
        ) ==> stacked(next, stack.take(stack.len() - count)) && forall|k: int|
            0 <= k < stack.len() - count ==> next.records[#[trigger] stack[k]]
                == state.records[stack[k]],
    decreases count,
{
    let chain = newest_first(stack, stack.len() as int);
    if count == 0 {
        assert(chain.take(0) =~= Seq::empty());
        assert(stack.take(stack.len() as int) =~= stack);
    } else {
        lemma_withdrawn_in_turn(state, stack, ledger, count - 1);
        assert(chain.take(count).drop_last() =~= chain.take(count - 1));
        assert(chain.take(count).last() == stack[stack.len() - count]);
        let (middle, outcome) = state.withdrawn_all(chain.take(count - 1), ledger);
        if outcome is Ok {
            let left = stack.take(stack.len() - (count - 1));
            assert(left.last() == stack[stack.len() - count]);
            assert(left.drop_last() =~= stack.take(stack.len() - count));
            if let Ok(next) = middle.withdrawn(left.last(), ledger) {
                lemma_withdrawn(middle, left, ledger, next);
                assert forall|k: int| 0 <= k < stack.len() - count implies next.records[
                #[trigger] stack[k]] == state.records[stack[k]] by {
                    assert(left[k] == stack[k]);
                }
            }
        }
    }
}

/// Once what is no longer earned has been withdrawn, everything that is promoted is
/// earned.
pub proof fn law_reconciled_promotions_are_earned(
    state: CompilerView,
    stack: Seq<int>,
    ledger: LedgerView,
)
    requires
        stacked(state, stack),
    ensures
        state.reconciled(ledger) matches (next, Ok(withdrew)) ==> upheld(next, ledger) && (!withdrew
            ==> next == state),
{
    let n = stack.len() as int;
    let chain = newest_first(stack, n);
    lemma_active_chain(state, stack);
    lemma_withdrawals(state.records, chain, ledger);
    let count = compiler::withdrawals(state.records, chain, ledger) as int;
    lemma_withdrawn_in_turn(state, stack, ledger, count);
    let (next, outcome) = state.withdrawn_all(chain.take(count), ledger);
    if outcome is Ok {
        let left = stack.take(n - count);
        assert forall|k: int| 0 <= k < left.len() implies !compiler::unearned(
            next.records[#[trigger] left[k]],
            ledger,
        ) by {
            assert(left[k] == stack[k]);
            assert(chain[n - 1 - k] == stack[k]);
        }
        assert(earned(next, left, ledger));
        if count == 0 {
            assert(chain.take(0) =~= Seq::empty());
        }
    }
}

} // verus!
