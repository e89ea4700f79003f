//! What a ledger takes in, and what can be read off its records.
use vstd::prelude::*;

use crate::causal::{CausalSubject, ConsequenceEdge, InvestmentOutcome, InvestmentSettlement};
use crate::evidence;
use crate::ledger;
use crate::ledger::{DeltaView, LedgerView};
use crate::receipt::{DecisionId, InvestmentReceipt};
use crate::shadow::ShadowUpdate;
use crate::standing;
use crate::types::{IntelligenceError, IntelligenceLimits, SubjectId};

verus! {

// ---------------------------------------------------------------------------
// Records
// ---------------------------------------------------------------------------
/// The outcome is a verdict.
pub open spec fn is_verdict(outcome: InvestmentOutcome) -> bool {
    match outcome {
        InvestmentOutcome::VerifiedAccepted { .. } => true,
        InvestmentOutcome::VerifiedRefuted => true,
        InvestmentOutcome::VerifiedUnknown => true,
        InvestmentOutcome::Completed => false,
        InvestmentOutcome::Failed => false,
    }
}

/// Every receipt comes with the settlement of its own decision, which is a verdict
/// exactly where a verification was paid for.
pub open spec fn paired(
    receipts: Seq<InvestmentReceipt>,
    settlements: Seq<InvestmentSettlement>,
) -> bool {
    &&& receipts.len() == settlements.len()
    &&& forall|i: int|
        0 <= i < receipts.len() ==> (#[trigger] receipts[i]).decision == settlements[i].decision
    &&& forall|i: int|
        0 <= i < receipts.len() ==> ((#[trigger] receipts[i]).tag is Verify <==> is_verdict(
            settlements[i].outcome,
        ))
}

/// No two receipts are of one decision.
pub open spec fn each_once(receipts: Seq<InvestmentReceipt>) -> bool {
    forall|i: int, j: int|
        0 <= i < receipts.len() && 0 <= j < receipts.len() && (#[trigger] receipts[i]).decision == (
        #[trigger] receipts[j]).decision ==> i == j
}

/// Some receipt is of the decision.
pub open spec fn on_file(receipts: Seq<InvestmentReceipt>, decision: DecisionId) -> bool {
    exists|i: int| 0 <= i < receipts.len() && (#[trigger] receipts[i]).decision == decision
}

/// Every consequence of a decision is one of a decision on file.
pub open spec fn all_on_file(
    consequences: Seq<ConsequenceEdge>,
    receipts: Seq<InvestmentReceipt>,
) -> bool {
    forall|i: int, decision: DecisionId|
        0 <= i < consequences.len() && (#[trigger] consequences[i]).subject
            == CausalSubject::Decision(decision) ==> #[trigger] on_file(receipts, decision)
}

/// There is room for as many entries and consequences.
pub open spec fn room_for(limits: IntelligenceLimits, entries: nat, consequences: nat) -> bool {
    &&& entries <= usize::MAX
    &&& entries <= limits.maximum_investments * 64
    &&& consequences <= usize::MAX
    &&& consequences <= limits.maximum_forecast_cells * 64
}

proof fn lemma_paired(receipts: Seq<InvestmentReceipt>, settlements: Seq<InvestmentSettlement>)
    ensures
        paired(receipts, settlements) == ledger::settled(receipts, settlements),
{
    if paired(receipts, settlements) {
        assert forall|i: int| 0 <= i < receipts.len() implies (#[trigger] receipts[i]).decision
            == settlements[i].decision && crate::causal::compatible(
            receipts[i].tag,
            settlements[i].outcome,
        ) by {}
    }
    if ledger::settled(receipts, settlements) {
        assert forall|i: int| 0 <= i < receipts.len() implies ((#[trigger] receipts[i]).tag is Verify
            <==> is_verdict(settlements[i].outcome)) by {}
    }
}

proof fn lemma_on_file(consequences: Seq<ConsequenceEdge>, receipts: Seq<InvestmentReceipt>)
    ensures
        all_on_file(consequences, receipts) == ledger::references_known(consequences, receipts),
{
    assert forall|decision: DecisionId| #[trigger] on_file(receipts, decision)
        == ledger::knows(receipts, decision) by {}
    if all_on_file(consequences, receipts) {
        assert forall|i: int| 0 <= i < consequences.len() implies ledger::reference_known(
            #[trigger] consequences[i],
            receipts,
        ) by {
            if let CausalSubject::Decision(decision) = consequences[i].subject {
                assert(on_file(receipts, decision));
            }
        }
    }
    if ledger::references_known(consequences, receipts) {
        assert forall|i: int, decision: DecisionId|
            0 <= i < consequences.len() && (#[trigger] consequences[i]).subject
                == CausalSubject::Decision(decision) implies #[trigger] on_file(
            receipts,
            decision,
        ) by {
            assert(ledger::reference_known(consequences[i], receipts));
        }
    }
}

/// What a ledger takes in is appended to it as it is, and nothing else changes: every
/// receipt with the settlement of its own decision, no decision that was settled
/// before, no consequence of an unknown decision, and no more than there is room for.
pub proof fn law_admitted_records_are_in_order(
    view: LedgerView,
    receipts: Seq<InvestmentReceipt>,
    settlements: Seq<InvestmentSettlement>,
    consequences: Seq<ConsequenceEdge>,
    updates: Seq<ShadowUpdate>,
    limits: IntelligenceLimits,
    delta: DeltaView,
)
    requires
        view.prepared(receipts, settlements, consequences, updates, limits) == Ok::<
            DeltaView,
            IntelligenceError,
        >(delta),
    ensures
        ({
            let next = view.committed(delta);
            &&& next.receipts == view.receipts + receipts
            &&& next.settlements == view.settlements + settlements
            &&& next.consequences == view.consequences + consequences
            &&& paired(receipts, settlements)
            &&& each_once(next.receipts)
            &&& all_on_file(consequences, next.receipts)
            &&& next.receipts.len() <= usize::MAX ==> next.receipts.len()
                <= limits.maximum_investments * 64
            &&& next.settlements.len() <= usize::MAX ==> next.settlements.len()
                <= limits.maximum_investments * 64
            &&& next.consequences.len() <= usize::MAX ==> next.consequences.len()
                <= limits.maximum_forecast_cells * 64
            &&& updates.len() == 0 ==> next.shadows == view.shadows && next.contrasts
                == view.contrasts
            &&& updates.len() == 1 ==> view.shadow_side().updated(
                updates[0],
                limits.shadow_limit(),
            ) == Ok::<ledger::ShadowsView, IntelligenceError>(next.shadow_side())
        }),
{
    let next = view.committed(delta);
    lemma_paired(receipts, settlements);
    lemma_on_file(consequences, view.receipts + receipts);
    assert(each_once(next.receipts)) by {
        assert(ledger::distinct_decisions(next.receipts));
    }
    if updates.len() == 1 {
        assert(updates.drop_last() =~= Seq::empty());
        assert(view.shadow_side().updated_all(updates.drop_last(), limits.shadow_limit()) == Ok::<
            ledger::ShadowsView,
            IntelligenceError,
        >(view.shadow_side()));
        assert(updates.last() == updates[0]);
        let side = delta.proposed->Some_0;
        assert(next.shadow_side() == side);
    }
}

/// Records that are not in order are refused, for the first of these reasons that
/// holds; and records in order that come without updates of campaigns are taken in.
pub proof fn law_records_are_refused_for_a_reason(
    view: LedgerView,
    receipts: Seq<InvestmentReceipt>,
    settlements: Seq<InvestmentSettlement>,
    consequences: Seq<ConsequenceEdge>,
    updates: Seq<ShadowUpdate>,
    limits: IntelligenceLimits,
)
    requires
        view.receipts.len() == view.settlements.len(),
    ensures
        ({
            let result = view.prepared(receipts, settlements, consequences, updates, limits);
            let all = view.receipts + receipts;
            if !paired(receipts, settlements) {
                result == Err::<DeltaView, IntelligenceError>(IntelligenceError::InvalidSettlement)
            } else if all.len() <= usize::MAX && (view.consequences + consequences).len()
                <= usize::MAX && !room_for(
                limits,
                all.len(),
                (view.consequences + consequences).len(),
            ) {
                result == Err::<DeltaView, IntelligenceError>(IntelligenceError::CapacityExceeded)
            } else if !room_for(limits, all.len(), (view.consequences + consequences).len()) {
                true
            } else if !each_once(all) {
                result == Err::<DeltaView, IntelligenceError>(
                    IntelligenceError::DuplicateExperience,
                )
            } else if !all_on_file(consequences, all) {
                result == Err::<DeltaView, IntelligenceError>(IntelligenceError::InvalidReference)
            } else {
                updates.len() == 0 ==> result is Ok
            }
        }),
{
    let all = view.receipts + receipts;
    lemma_paired(receipts, settlements);
    lemma_on_file(consequences, all);
    assert(each_once(all) == ledger::distinct_decisions(all)) by {
        if ledger::distinct_decisions(all) {
            assert(each_once(all));
        }
        if each_once(all) {
            assert forall|i: int, j: int| 0 <= i < j < all.len() implies (
            #[trigger] all[i]).decision != (#[trigger] all[j]).decision by {}
        }
    }
}

// ---------------------------------------------------------------------------
// What records show
// ---------------------------------------------------------------------------
/// What has authority is on record: a verification under that decision, which accepted
/// the very obligation, or which was asked about it and refuted it or left it open.
/// Where each decision is settled once, all of that has authority.
pub proof fn law_authority_is_on_record(
    view: LedgerView,
    decision: DecisionId,
    obligation: SubjectId,
)
    ensures
        match view.authority(decision, obligation) {
            Ok(InvestmentOutcome::VerifiedAccepted {
                verification_record,
            }) => verification_record == obligation && standing::accepted_on_record(
                view,
                decision,
                obligation,
            ),
            Ok(InvestmentOutcome::VerifiedRefuted) => standing::refuted_on_record(
                view,
                decision,
                obligation,
            ),
            Ok(InvestmentOutcome::VerifiedUnknown) => standing::open_on_record(
                view,
                decision,
                obligation,
            ),
            Ok(_) => false,
            Err(error) => error is InvalidReference && (view.valid() ==> !(
            standing::accepted_on_record(view, decision, obligation) || standing::refuted_on_record(
                view,
                decision,
                obligation,
            ) || standing::open_on_record(view, decision, obligation))),
        },
{
    standing::lemma_authority(view, decision, obligation);
    if view.valid() {
        standing::lemma_record(view, decision, obligation);
    }
}

/// Candidates are produced by generation, by repair and by exploration, each where it
/// was completed, and by nothing else.
pub proof fn law_who_produces(receipt: InvestmentReceipt, settlement: InvestmentSettlement)
    ensures
        !(settlement.outcome is Completed) ==> !ledger::produced(receipt, settlement),
        settlement.outcome is Completed ==> match receipt.tag {
            crate::investment::InvestmentTag::Generate => ledger::produced(receipt, settlement),
            crate::investment::InvestmentTag::Repair => ledger::produced(receipt, settlement),
            crate::investment::InvestmentTag::Explore => ledger::produced(receipt, settlement),
            _ => !ledger::produced(receipt, settlement),
        },
{
}

/// In a ledger in order nothing that was verified, failed or consolidated counts as
/// produced, and no verification counts as consolidated.
pub proof fn law_verification_is_no_production(view: LedgerView, i: int)
    requires
        view.valid(),
        0 <= i < view.receipts.len(),
    ensures
        is_verdict(view.settlements[i].outcome) ==> !ledger::produced(
            view.receipts[i],
            view.settlements[i],
        ) && !ledger::consolidated(view.receipts[i], view.settlements[i]),
        ledger::consolidated(view.receipts[i], view.settlements[i]) ==> !ledger::produced(
            view.receipts[i],
            view.settlements[i],
        ) && view.settlements[i].outcome is Completed && view.receipts[i].tag is Consolidate,
        view.settlements[i].outcome is Failed ==> !ledger::produced(
            view.receipts[i],
            view.settlements[i],
        ) && !ledger::consolidated(view.receipts[i], view.settlements[i]),
        view.settlements[i].outcome is Completed && view.receipts[i].tag is Consolidate
            ==> ledger::consolidated(view.receipts[i], view.settlements[i]),
{
    assert(view.receipts[i].decision == view.settlements[i].decision);
}

/// In a ledger in order the decisions that accepted a subject are those under which its
/// acceptance is on record.
pub proof fn law_acceptance_is_on_record(view: LedgerView, i: int, subject: SubjectId)
    requires
        view.valid(),
        0 <= i < view.receipts.len(),
    ensures
        evidence::accepts(view.receipts[i], view.settlements[i], subject)
            <==> standing::accepted_on_record(view, view.receipts[i].decision, subject),
{
    let decision = view.receipts[i].decision;
    let outcome = InvestmentOutcome::VerifiedAccepted { verification_record: subject };
    assert(view.receipts[i].decision == view.settlements[i].decision);
    if evidence::accepts(view.receipts[i], view.settlements[i], subject) {
        assert(standing::settled_as(view, decision, i, i, outcome));
    }
    if standing::accepted_on_record(view, decision, subject) {
        let (r, s) = choose|r: int, s: int| #[trigger]
            standing::settled_as(view, decision, r, s, outcome);
        assert(view.receipts[s].decision == view.settlements[s].decision);
        assert(r == i && s == i) by {
            if r < i {
                assert(view.receipts[r].decision != view.receipts[i].decision);
            }
            if s < i {
                assert(view.receipts[s].decision != view.receipts[i].decision);
            }
        }
    }
}

} // verus!
