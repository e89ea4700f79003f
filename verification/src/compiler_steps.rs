//! The byte forms of the steps of the knowledge compiler.
use vstd::prelude::*;

use crate::challenger;
use crate::challenger::{KnowledgeChallenger, KnowledgeChallengerId, KnowledgeWireFormat};
use crate::codec;
use crate::codec::{saturating_multiply, Decoder, Wire};
use crate::compiler::{KnowledgeCompiler, KnowledgeUpdate, UpdateView};
use crate::digest;
use crate::digest::write_digest;
use crate::knowledge;
use crate::knowledge::{
    KnowledgeInvalidationReason, KnowledgeReview, KnowledgeWork, PendingView,
};
use crate::receipt::{DecisionId, InvestmentReceipt, ReceiptFormat};
use crate::resident;
use crate::types;
use crate::types::{
    decode_resources, encode_resources, IntelligenceLimits, ResourceVector, SubjectId,
};

verus! {

// ---------------------------------------------------------------------------
// Open verifications
// ---------------------------------------------------------------------------
/// The bytes of an open verification.
pub open spec fn put_opened(pending: PendingView) -> Seq<u8> {
    pending.work.base_revision.bytes() + (challenger::put_challenger(
        KnowledgeWireFormat::V8,
        pending.work.challenger,
    ) + (codec::put_list::<ReceiptFormat, InvestmentReceipt>(
        ReceiptFormat::Current,
        pending.receipts,
    ) + types::put_resources(pending.reserved)))
}

/// The open verification at the front of some bytes. Its work is derived again
/// from the challenger.
pub open spec fn parse_opened(limits: IntelligenceLimits, maximum: nat, input: Seq<u8>) -> Option<
    (PendingView, Seq<u8>),
> {
    match digest::parse_digest(input) {
        None => None,
        Some((base_revision, rest)) => match challenger::parse_challenger(
            KnowledgeWireFormat::V8,
            maximum,
            rest,
        ) {
            None => None,
            Some((challenger, rest)) => match knowledge::work_from(base_revision, challenger) {
                Err(_) => None,
                Ok(work) => match codec::parse_list::<ReceiptFormat, InvestmentReceipt>(
                    ReceiptFormat::Current,
                    rest,
                    limits.maximum_investments as nat,
                    1,
                ) {
                    None => None,
                    Some((receipts, rest)) => match types::parse_resources(rest) {
                        None => None,
                        Some((reserved, rest)) => Some(
                            (PendingView { work, receipts, reserved }, rest),
                        ),
                    },
                },
            },
        },
    }
}

/// An open verification that reads back as it was written.
pub open spec fn opened_writable(
    limits: IntelligenceLimits,
    maximum: nat,
    pending: PendingView,
) -> bool {
    &&& pending.work.challenger.valid()
    &&& pending.work.challenger.product.payload_len() <= maximum
    &&& knowledge::work_from(pending.work.base_revision, pending.work.challenger) == Ok::<
        knowledge::WorkView,
        crate::types::IntelligenceError,
    >(pending.work)
    &&& codec::all_admissible::<ReceiptFormat, InvestmentReceipt>(
        ReceiptFormat::Current,
        pending.receipts,
    )
    &&& pending.receipts.len() <= limits.maximum_investments
}

#[verifier::spinoff_prover]
#[verifier::rlimit(40)]
pub proof fn lemma_opened_round_trip(
    limits: IntelligenceLimits,
    maximum: nat,
    pending: PendingView,
    rest: Seq<u8>,
)
    requires
        opened_writable(limits, maximum, pending),
    ensures
        parse_opened(limits, maximum, put_opened(pending) + rest) == Some((pending, rest)),
{
    let after_receipts = types::put_resources(pending.reserved) + rest;
    let receipts = codec::put_list::<ReceiptFormat, InvestmentReceipt>(
        ReceiptFormat::Current,
        pending.receipts,
    );
    let after_challenger = receipts + after_receipts;
    let challenger_bytes = challenger::put_challenger(
        KnowledgeWireFormat::V8,
        pending.work.challenger,
    );
    let after_base = challenger_bytes + after_challenger;
    codec::lemma_four_parts(
        pending.work.base_revision.bytes(),
        challenger_bytes,
        receipts,
        types::put_resources(pending.reserved),
        rest,
    );
    digest::lemma_parse_digest(pending.work.base_revision, after_base);
    challenger::law_challenger_reads_back(
        KnowledgeWireFormat::V8,
        pending.work.challenger,
        maximum,
        after_challenger,
    );
    codec::lemma_list_round_trip::<ReceiptFormat, InvestmentReceipt>(
        ReceiptFormat::Current,
        pending.receipts,
        limits.maximum_investments as nat,
        1,
        after_receipts,
    );
    types::lemma_resources_round_trip(pending.reserved, rest);
}

/// What is read carries no longer payload than allowed.
pub proof fn lemma_opened_payload(limits: IntelligenceLimits, maximum: nat, input: Seq<u8>)
    ensures
        parse_opened(limits, maximum, input) matches Some((pending, _))
            ==> pending.work.challenger.product.payload_len() <= maximum,
{
    match digest::parse_digest(input) {
        Some((_, rest)) => {
            challenger::lemma_parsed_payload(KnowledgeWireFormat::V8, maximum, rest);
        },
        None => {},
    }
}

pub fn write_opened(
    work: &KnowledgeWork,
    receipts: &[InvestmentReceipt],
    reserved: ResourceVector,
    output: &mut Vec<u8>,
)
    ensures
        final(output)@ == old(output)@ + put_opened(
            (PendingView { work: work@, receipts: receipts@, reserved }),
        ),
{
    write_digest(work.base_revision(), output);
    work.challenger().encode_canonical(output);
    codec::write_list::<ReceiptFormat, InvestmentReceipt>(
        &ReceiptFormat::Current,
        receipts,
        output,
    );
    encode_resources(reserved, output);
    proof {
        assert(codec::views(receipts@) =~= receipts@);
        assert(output@ =~= old(output)@ + put_opened(
            (PendingView { work: work@, receipts: receipts@, reserved }),
        ));
    }
}

pub fn read_opened(
    input: &mut Decoder<'_>,
    limits: IntelligenceLimits,
    maximum_product_bytes: usize,
) -> (result: Result<(KnowledgeWork, Vec<InvestmentReceipt>, ResourceVector), ()>)
    ensures
        match result {
            Ok((work, receipts, reserved)) => parse_opened(
                limits,
                maximum_product_bytes as nat,
                old(input)@,
            ) == Some(
                ((PendingView { work: work@, receipts: receipts@, reserved }), final(input)@),
            ),
            Err(_) => parse_opened(limits, maximum_product_bytes as nat, old(input)@) is None,
        },
{
    let base_revision = input.read_digest()?;
    let challenger = KnowledgeChallenger::decode(
        input,
        KnowledgeWireFormat::V8,
        maximum_product_bytes,
    )?;
    let work = match KnowledgeWork::from_challenger(base_revision, &challenger) {
        Ok(work) => work,
        Err(_) => return Err(()),
    };
    let receipts = codec::read_list::<ReceiptFormat, InvestmentReceipt>(
        &ReceiptFormat::Current,
        input,
        limits.maximum_investments,
        1,
    )?;
    assert(codec::views(receipts@) =~= receipts@);
    let reserved = decode_resources(input)?;
    Ok((work, receipts, reserved))
}

// ---------------------------------------------------------------------------
// One step
// ---------------------------------------------------------------------------
/// The bytes of a review.
pub open spec fn put_review(review: KnowledgeReview) -> Seq<u8> {
    review.challenger.0.bytes() + (review.obligation.0.bytes() + review.decision.0.bytes())
}

pub open spec fn parse_review(input: Seq<u8>) -> Option<(KnowledgeReview, Seq<u8>)> {
    match digest::parse_digest(input) {
        None => None,
        Some((challenger, rest)) => match digest::parse_digest(rest) {
            None => None,
            Some((obligation, rest)) => match digest::parse_digest(rest) {
                None => None,
                Some((decision, rest)) => Some(
                    (
                        KnowledgeReview {
                            challenger: KnowledgeChallengerId(challenger),
                            obligation: SubjectId(obligation),
                            decision: DecisionId(decision),
                        },
                        rest,
                    ),
                ),
            },
        },
    }
}

fn read_review(input: &mut Decoder<'_>) -> (result: Result<KnowledgeReview, ()>)
    ensures
        codec::reads(result, final(input)@, parse_review(old(input)@)),
{
    let challenger = input.read_digest()?;
    let obligation = input.read_digest()?;
    let decision = input.read_digest()?;
    Ok(
        KnowledgeReview {
            challenger: KnowledgeChallengerId(challenger),
            obligation: SubjectId(obligation),
            decision: DecisionId(decision),
        },
    )
}

pub open spec fn parse_id(input: Seq<u8>) -> Option<(KnowledgeChallengerId, Seq<u8>)> {
    match digest::parse_digest(input) {
        Some((id, rest)) => Some((KnowledgeChallengerId(id), rest)),
        None => None,
    }
}

fn read_id(input: &mut Decoder<'_>) -> (result: Result<KnowledgeChallengerId, ()>)
    ensures
        codec::reads(result, final(input)@, parse_id(old(input)@)),
{
    let id = input.read_digest()?;
    Ok(KnowledgeChallengerId(id))
}

/// The bytes of a step.
pub open spec fn put_update(update: UpdateView) -> Seq<u8> {
    match update {
        UpdateView::Propose(challenger) => codec::put_u8(1) + challenger::put_challenger(
            KnowledgeWireFormat::V8,
            challenger,
        ),
        UpdateView::Review(review) => codec::put_u8(2) + put_review(review),
        UpdateView::Invalidate { challenger, reason } => codec::put_u8(3) + (challenger.0.bytes()
            + codec::put_u8(reason.tag_spec())),
        UpdateView::EvaluatePromotion(challenger) => codec::put_u8(4) + challenger.0.bytes(),
        UpdateView::OpenVerification { work, receipts, reserved } => codec::put_u8(5) + put_opened(
            PendingView { work, receipts, reserved },
        ),
        UpdateView::CompleteVerification(challenger) => codec::put_u8(6) + challenger.0.bytes(),
        UpdateView::InterruptVerification(challenger) => codec::put_u8(7) + challenger.0.bytes(),
    }
}

/// The step at the front of some bytes. A challenger in it carries at most
/// `maximum` bytes.
#[verifier::opaque]
pub open spec fn parse_update(limits: IntelligenceLimits, maximum: nat, input: Seq<u8>) -> Option<
    (UpdateView, Seq<u8>),
> {
    match codec::parse_u8(input) {
        None => None,
        Some((tag, rest)) => if tag == 1 {
            match challenger::parse_challenger(KnowledgeWireFormat::V8, maximum, rest) {
                Some((challenger, rest)) => Some((UpdateView::Propose(challenger), rest)),
                None => None,
            }
        } else if tag == 2 {
            match parse_review(rest) {
                Some((review, rest)) => Some((UpdateView::Review(review), rest)),
                None => None,
            }
        } else if tag == 3 {
            match parse_id(rest) {
                None => None,
                Some((challenger, rest)) => match KnowledgeInvalidationReason::parse((), rest) {
                    Some((reason, rest)) => Some(
                        (UpdateView::Invalidate { challenger, reason }, rest),
                    ),
                    None => None,
                },
            }
        } else if tag == 4 {
            match parse_id(rest) {
                Some((challenger, rest)) => Some((UpdateView::EvaluatePromotion(challenger), rest)),
                None => None,
            }
        } else if tag == 5 {
            match parse_opened(limits, maximum, rest) {
                Some((pending, rest)) => Some(
                    (
                        UpdateView::OpenVerification {
                            work: pending.work,
                            receipts: pending.receipts,
                            reserved: pending.reserved,
                        },
                        rest,
                    ),
                ),
                None => None,
            }
        } else if tag == 6 {
            match parse_id(rest) {
                Some((challenger, rest)) => Some(
                    (UpdateView::CompleteVerification(challenger), rest),
                ),
                None => None,
            }
        } else if tag == 7 {
            match parse_id(rest) {
                Some((challenger, rest)) => Some(
                    (UpdateView::InterruptVerification(challenger), rest),
                ),
                None => None,
            }
        } else {
            None
        },
    }
}

/// The payload bytes that a step carries.
pub open spec fn carried(update: UpdateView) -> nat {
    match update {
        UpdateView::Propose(challenger) => challenger.product.payload_len(),
        UpdateView::OpenVerification { work, .. } => work.challenger.product.payload_len(),
        _ => 0,
    }
}

/// A step that reads back as it was written.
pub open spec fn writable(limits: IntelligenceLimits, maximum: nat, update: UpdateView) -> bool {
    match update {
        UpdateView::Propose(challenger) => challenger.valid() && challenger.product.payload_len()
            <= maximum,
        UpdateView::OpenVerification { work, receipts, reserved } => opened_writable(
            limits,
            maximum,
            (PendingView { work, receipts, reserved }),
        ),
        _ => true,
    }
}

proof fn lemma_tagged(tag: u8, body: Seq<u8>, rest: Seq<u8>)
    ensures
        codec::parse_u8((codec::put_u8(tag) + body) + rest) == Some((tag, body + rest)),
{
    codec::lemma_concat_associates(codec::put_u8(tag), body, rest);
    codec::lemma_parse_u8(tag, body + rest);
}

proof fn lemma_review_round_trip(review: KnowledgeReview, rest: Seq<u8>)
    ensures
        parse_review(put_review(review) + rest) == Some((review, rest)),
{
    let after_obligation = review.decision.0.bytes() + rest;
    let after_challenger = review.obligation.0.bytes() + after_obligation;
    assert(put_review(review) + rest =~= review.challenger.0.bytes() + after_challenger);
    digest::lemma_parse_digest(review.challenger.0, after_challenger);
    digest::lemma_parse_digest(review.obligation.0, after_obligation);
    digest::lemma_parse_digest(review.decision.0, rest);
}

proof fn lemma_update_round_trip(
    limits: IntelligenceLimits,
    maximum: nat,
    update: UpdateView,
    rest: Seq<u8>,
)
    requires
        writable(limits, maximum, update),
    ensures
        parse_update(limits, maximum, put_update(update) + rest) == Some((update, rest)),
{
    reveal(parse_update);
    match update {
        UpdateView::Propose(challenger) => {
            lemma_tagged(
                1,
                challenger::put_challenger(KnowledgeWireFormat::V8, challenger),
                rest,
            );
            challenger::law_challenger_reads_back(
                KnowledgeWireFormat::V8,
                challenger,
                maximum,
                rest,
            );
        },
        UpdateView::Review(review) => {
            lemma_tagged(2, put_review(review), rest);
            lemma_review_round_trip(review, rest);
        },
        UpdateView::Invalidate { challenger, reason } => {
            let tag = codec::put_u8(reason.tag_spec());
            lemma_tagged(3, challenger.0.bytes() + tag, rest);
            codec::lemma_concat_associates(challenger.0.bytes(), tag, rest);
            digest::lemma_parse_digest(challenger.0, tag + rest);
            KnowledgeInvalidationReason::lemma_round_trip((), reason, rest);
        },
        UpdateView::EvaluatePromotion(challenger) => {
            lemma_tagged(4, challenger.0.bytes(), rest);
            digest::lemma_parse_digest(challenger.0, rest);
        },
        UpdateView::OpenVerification { work, receipts, reserved } => {
            let pending = PendingView { work, receipts, reserved };
            lemma_tagged(5, put_opened(pending), rest);
            lemma_opened_round_trip(limits, maximum, pending, rest);
        },
        UpdateView::CompleteVerification(challenger) => {
            lemma_tagged(6, challenger.0.bytes(), rest);
            digest::lemma_parse_digest(challenger.0, rest);
        },
        UpdateView::InterruptVerification(challenger) => {
            lemma_tagged(7, challenger.0.bytes(), rest);
            digest::lemma_parse_digest(challenger.0, rest);
        },
    }
}

proof fn lemma_update_carries(limits: IntelligenceLimits, maximum: nat, input: Seq<u8>)
    ensures
        parse_update(limits, maximum, input) matches Some((update, _)) ==> carried(update)
            <= maximum,
{
    reveal(parse_update);
    match codec::parse_u8(input) {
        Some((_, rest)) => {
            challenger::lemma_parsed_payload(KnowledgeWireFormat::V8, maximum, rest);
            lemma_opened_payload(limits, maximum, rest);
        },
        None => {},
    }
}

fn write_update(update: &KnowledgeUpdate, output: &mut Vec<u8>)
    ensures
        final(output)@ == old(output)@ + put_update(update@),
{
    match update {
        KnowledgeUpdate::Propose(challenger) => {
            codec::write_u8(1, output);
            challenger.encode_canonical(output);
        },
        KnowledgeUpdate::Review(review) => {
            codec::write_u8(2, output);
            write_digest(review.challenger.0, output);
            write_digest(review.obligation.0, output);
            write_digest(review.decision.0, output);
        },
        KnowledgeUpdate::Invalidate { challenger, reason } => {
            codec::write_u8(3, output);
            write_digest(challenger.0, output);
            codec::write_u8(reason.tag(), output);
        },
        KnowledgeUpdate::EvaluatePromotion(challenger) => {
            codec::write_u8(4, output);
            write_digest(challenger.0, output);
        },
        KnowledgeUpdate::OpenVerification { work, receipts, reserved } => {
            codec::write_u8(5, output);
            write_opened(work, receipts.as_slice(), *reserved, output);
        },
        KnowledgeUpdate::CompleteVerification(challenger) => {
            codec::write_u8(6, output);
            write_digest(challenger.0, output);
        },
        KnowledgeUpdate::InterruptVerification(challenger) => {
            codec::write_u8(7, output);
            write_digest(challenger.0, output);
        },
    }
    assert(output@ =~= old(output)@ + put_update(update@));
}

fn read_update(input: &mut Decoder<'_>, limits: IntelligenceLimits, maximum: usize) -> (result:
    Result<KnowledgeUpdate, ()>)
    ensures
        codec::reads_view(
            result,
            final(input)@,
            parse_update(limits, maximum as nat, old(input)@),
        ),
{
    reveal(parse_update);
    let tag: u8 = input.read_u8()?;
    if tag == 1 {
        let challenger = KnowledgeChallenger::decode(input, KnowledgeWireFormat::V8, maximum)?;
        Ok(KnowledgeUpdate::Propose(challenger))
    } else if tag == 2 {
        let review = read_review(input)?;
        Ok(KnowledgeUpdate::Review(review))
    } else if tag == 3 {
        let challenger = read_id(input)?;
        let reason = KnowledgeInvalidationReason::read(&(), input)?;
        Ok(KnowledgeUpdate::Invalidate { challenger, reason })
    } else if tag == 4 {
        let challenger = read_id(input)?;
        Ok(KnowledgeUpdate::EvaluatePromotion(challenger))
    } else if tag == 5 {
        let (work, receipts, reserved) = read_opened(input, limits, maximum)?;
        Ok(KnowledgeUpdate::OpenVerification { work, receipts, reserved })
    } else if tag == 6 {
        let challenger = read_id(input)?;
        Ok(KnowledgeUpdate::CompleteVerification(challenger))
    } else if tag == 7 {
        let challenger = read_id(input)?;
        Ok(KnowledgeUpdate::InterruptVerification(challenger))
    } else {
        Err(())
    }
}

// ---------------------------------------------------------------------------
// Several steps
// ---------------------------------------------------------------------------
/// The bytes of some steps, one after the other.
pub open spec fn put_each(updates: Seq<UpdateView>) -> Seq<u8>
    decreases updates.len(),
{
    if updates.len() == 0 {
        Seq::empty()
    } else {
        put_each(updates.drop_last()) + put_update(updates.last())
    }
}

/// The bytes of some steps.
pub open spec fn put_updates(updates: Seq<UpdateView>) -> Seq<u8> {
    codec::put_count(updates.len()) + put_each(updates)
}

/// The payload bytes that some steps carry together.
pub open spec fn carried_all(updates: Seq<UpdateView>) -> nat
    decreases updates.len(),
{
    if updates.len() == 0 {
        0
    } else {
        carried_all(updates.drop_last()) + carried(updates.last())
    }
}

/// What is left of a budget.
pub open spec fn left(limit: usize, used: nat) -> nat {
    if used > limit {
        0
    } else {
        (limit - used) as nat
    }
}

/// `count` steps that together carry no more than the limits allow.
pub open spec fn parse_each(limits: IntelligenceLimits, count: nat, input: Seq<u8>) -> Option<
    (Seq<UpdateView>, Seq<u8>),
>
    decreases count,
{
    if count == 0 {
        Some((Seq::empty(), input))
    } else {
        match parse_each(limits, (count - 1) as nat, input) {
            None => None,
            Some((updates, rest)) => match parse_update(
                limits,
                left(limits.maximum_model_bytes, carried_all(updates)),
                rest,
            ) {
                None => None,
                Some((update, rest)) => Some((updates.push(update), rest)),
            },
        }
    }
}

/// How many steps can be read at once.
pub open spec fn update_limit(limits: IntelligenceLimits) -> nat {
    resident::capped_sum(
        codec::saturating_product(
            codec::saturating_product(limits.maximum_opportunities as nat, 16),
            3,
        ),
        codec::saturating_product(limits.maximum_investments as nat, 64),
    )
}

/// The steps at the front of some bytes.
pub open spec fn parse_updates(limits: IntelligenceLimits, input: Seq<u8>) -> Option<
    (Seq<UpdateView>, Seq<u8>),
> {
    match codec::parse_count(input, update_limit(limits), 1) {
        None => None,
        Some((count, rest)) => parse_each(limits, count, rest),
    }
}

/// Steps that read back as they were written.
pub open spec fn all_writable(limits: IntelligenceLimits, updates: Seq<UpdateView>) -> bool {
    &&& updates.len() <= update_limit(limits)
    &&& carried_all(updates) <= limits.maximum_model_bytes
    &&& forall|i: int|
        0 <= i < updates.len() ==> writable(
            limits,
            limits.maximum_model_bytes as nat,
            #[trigger] updates[i],
        )
}

proof fn lemma_each_round_trip(limits: IntelligenceLimits, updates: Seq<UpdateView>, rest: Seq<u8>)
    requires
        carried_all(updates) <= limits.maximum_model_bytes,
        forall|i: int|
            0 <= i < updates.len() ==> writable(
                limits,
                limits.maximum_model_bytes as nat,
                #[trigger] updates[i],
            ),
    ensures
        parse_each(limits, updates.len(), put_each(updates) + rest) == Some((updates, rest)),
        put_each(updates).len() >= updates.len(),
    decreases updates.len(),
{
    if updates.len() == 0 {
        assert(updates =~= Seq::empty());
        assert(put_each(updates) + rest =~= rest);
    } else {
        let front = updates.drop_last();
        let last = updates.last();
        assert forall|i: int| 0 <= i < front.len() implies writable(
            limits,
            limits.maximum_model_bytes as nat,
            #[trigger] front[i],
        ) by {
            assert(front[i] == updates[i]);
        }
        assert(writable(
            limits,
            limits.maximum_model_bytes as nat,
            updates[updates.len() - 1],
        ));
        lemma_each_round_trip(limits, front, put_update(last) + rest);
        codec::lemma_concat_associates(put_each(front), put_update(last), rest);
        lemma_update_round_trip(
            limits,
            left(limits.maximum_model_bytes, carried_all(front)),
            last,
            rest,
        );
        assert(front.push(last) =~= updates);
    }
}

/// Steps that stay within the limits read back as they were written.
pub proof fn law_updates_read_back(
    limits: IntelligenceLimits,
    updates: Seq<UpdateView>,
    rest: Seq<u8>,
)
    requires
        all_writable(limits, updates),
    ensures
        parse_updates(limits, put_updates(updates) + rest) == Some((updates, rest)),
{
    lemma_each_round_trip(limits, updates, rest);
    assert(updates.len() as u64 as nat == updates.len());
    codec::lemma_concat_associates(codec::put_count(updates.len()), put_each(updates), rest);
    codec::lemma_parse_u64(updates.len() as u64, put_each(updates) + rest);
}

proof fn lemma_each_stops(limits: IntelligenceLimits, done: nat, count: nat, input: Seq<u8>)
    requires
        done <= count,
        parse_each(limits, done, input) is None,
    ensures
        parse_each(limits, count, input) is None,
    decreases count,
{
    if done < count {
        lemma_each_stops(limits, done, (count - 1) as nat, input);
    }
}

impl KnowledgeCompiler {
    pub fn encode_updates(updates: &[KnowledgeUpdate], output: &mut Vec<u8>)
        ensures
            final(output)@ == old(output)@ + put_updates(codec::views(updates@)),
    {
        let ghost all = codec::views(updates@);
        codec::write_count(updates.len(), output);
        let ghost start = output@;
        let mut index: usize = 0;
        assert(all.take(0) =~= Seq::empty());
        assert(start + put_each(all.take(0)) =~= start);
        while index < updates.len()
            invariant
                index <= updates@.len(),
                all == codec::views(updates@),
                output@ == start + put_each(all.take(index as int)),
            decreases updates@.len() - index,
        {
            assert(all.take(index + 1).drop_last() =~= all.take(index as int));
            assert(all.take(index + 1).last() == updates@[index as int]@);
            write_update(&updates[index], output);
            proof {
                codec::lemma_concat_associates(
                    start,
                    put_each(all.take(index as int)),
                    put_update(updates@[index as int]@),
                );
            }
            index = index + 1;
        }
        assert(all.take(all.len() as int) =~= all);
        assert(output@ =~= old(output)@ + put_updates(all));
    }

    pub fn decode_updates(input: &mut Decoder<'_>, limits: IntelligenceLimits) -> (result: Result<
        Vec<KnowledgeUpdate>,
        (),
    >)
        ensures
            match result {
                Ok(updates) => parse_updates(limits, old(input)@) == Some(
                    (codec::views(updates@), final(input)@),
                ),
                Err(_) => parse_updates(limits, old(input)@) is None,
            },
    {
        let record_limit: usize = saturating_multiply(limits.maximum_opportunities, 16);
        let review_limit: usize = saturating_multiply(limits.maximum_investments, 64);
        let maximum_updates: usize = saturating_multiply(record_limit, 3).saturating_add(
            review_limit,
        );
        let count: usize = codec::read_optional_count(input, maximum_updates, 1)?;
        let ghost start = input@;
        let mut remaining: usize = limits.maximum_model_bytes;
        let mut updates: Vec<KnowledgeUpdate> = Vec::new();
        let mut index: usize = 0;
        assert(codec::views(updates@) =~= Seq::empty());
        while index < count
            invariant
                index <= count,
                updates@.len() == index,
                carried_all(codec::views(updates@)) <= limits.maximum_model_bytes,
                remaining == left(
                    limits.maximum_model_bytes,
                    carried_all(codec::views(updates@)),
                ),
                parse_each(limits, index as nat, start) == Some((codec::views(updates@), input@)),
                parse_updates(limits, old(input)@) == parse_each(limits, count as nat, start),
            decreases count - index,
        {
            let ghost before = updates@;
            let ghost place = input@;
            match read_update(input, limits, remaining) {
                Ok(update) => {
                    proof {
                        lemma_update_carries(limits, remaining as nat, place);
                    }
                    let used: usize = match &update {
                        KnowledgeUpdate::Propose(challenger) => challenger.product().heap_bytes(),
                        KnowledgeUpdate::OpenVerification { work, .. } => work.challenger().product().heap_bytes(),
                        _ => 0,
                    };
                    remaining = remaining - used;
                    updates.push(update);
                    assert(codec::views(updates@) =~= codec::views(before).push(update@));
                    assert(codec::views(updates@).drop_last() =~= codec::views(before));
                },
                Err(_) => {
                    proof {
                        lemma_each_stops(limits, (index + 1) as nat, count as nat, start);
                    }
                    return Err(());
                },
            }
            index = index + 1;
        }
        Ok(updates)
    }
}

} // verus!
