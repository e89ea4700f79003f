//! The byte forms of the knowledge compiler.
use vstd::prelude::*;

use crate::challenger;
use crate::challenger::{
    ChallengerView, KnowledgeChallenger, KnowledgeChallengerId, KnowledgeWireFormat,
};
use crate::codec;
use crate::codec::{saturating_multiply, Decoder, Wire};
use crate::compiler;
use crate::compiler::{
    has_subject, verified_status, CompilerView, KnowledgeCompiler, KnowledgeRecord,
    PendingKnowledgeVerification, RecordView,
};
use crate::compiler_steps;
use crate::compiler_steps::{read_opened, write_opened};
use crate::consolidation;
use crate::consolidation::{KnowledgeState, StateView};
use crate::digest;
use crate::digest::{hash_labelled, write_digest, Digest};
use crate::evidence::CausalEvidence;
use crate::knowledge;
use crate::knowledge::{
    cached_consolidation, valid_open_verification, KnowledgeInvalidationReason, KnowledgeReview,
    KnowledgeStatus, PendingView,
};
use crate::ledger::LedgerView;
use crate::receipt::DecisionId;
use crate::search;
use crate::shadow::ShadowCampaignId;
use crate::types::{IntelligenceLimits, SubjectId};

verus! {

// ---------------------------------------------------------------------------
// Reviews
// ---------------------------------------------------------------------------
/// A review as its record holds it: the challenger is that of the record.
impl Wire<KnowledgeChallengerId> for KnowledgeReview {
    open spec fn wire(format: KnowledgeChallengerId, value: KnowledgeReview) -> Seq<u8> {
        value.obligation.0.bytes() + value.decision.0.bytes()
    }

    open spec fn parse(format: KnowledgeChallengerId, input: Seq<u8>) -> Option<
        (KnowledgeReview, Seq<u8>),
    > {
        match digest::parse_digest(input) {
            None => None,
            Some((obligation, rest)) => match digest::parse_digest(rest) {
                None => None,
                Some((decision, rest)) => Some(
                    (
                        KnowledgeReview {
                            challenger: format,
                            obligation: SubjectId(obligation),
                            decision: DecisionId(decision),
                        },
                        rest,
                    ),
                ),
            },
        }
    }

    open spec fn admissible(format: KnowledgeChallengerId, value: KnowledgeReview) -> bool {
        value.challenger == format
    }

    open spec fn least_bytes(format: KnowledgeChallengerId) -> nat {
        64
    }

    proof fn lemma_round_trip(
        format: KnowledgeChallengerId,
        value: KnowledgeReview,
        rest: Seq<u8>,
    ) {
        broadcast use digest::group_digest;

    }

    proof fn lemma_least_bytes(format: KnowledgeChallengerId, value: KnowledgeReview) {
        broadcast use digest::group_digest;

    }

    fn write(&self, format: &KnowledgeChallengerId, output: &mut Vec<u8>) {
        write_digest(self.obligation.0, output);
        write_digest(self.decision.0, output);
        assert(output@ =~= old(output)@ + Self::wire(*format, *self));
    }

    fn read(format: &KnowledgeChallengerId, input: &mut Decoder<'_>) -> (result: Result<Self, ()>) {
        let obligation = input.read_digest()?;
        let decision = input.read_digest()?;
        Ok(
            KnowledgeReview {
                challenger: *format,
                obligation: SubjectId(obligation),
                decision: DecisionId(decision),
            },
        )
    }
}

/// Reviews of the challenger's own obligations, each by a verification of its own.
pub open spec fn reviews_hold(
    obligations: Seq<SubjectId>,
    reviews: Seq<KnowledgeReview>,
    ledger: LedgerView,
) -> bool {
    &&& forall|i: int|
        0 <= i < reviews.len() ==> obligations.contains((#[trigger] reviews[i]).obligation)
            && ledger.authority(reviews[i].decision, reviews[i].obligation) is Ok
    &&& forall|i: int, j: int|
        0 <= i < j < reviews.len() ==> (#[trigger] reviews[i]).decision != (
        #[trigger] reviews[j]).decision
}

fn check_reviews<E: CausalEvidence>(
    obligations: &[SubjectId],
    reviews: &[KnowledgeReview],
    experience: &E,
) -> (result: bool)
    requires
        experience.sound(),
    ensures
        result == reviews_hold(obligations@, reviews@, experience.evidence()),
{
    let ghost ledger = experience.evidence();
    let mut index: usize = 0;
    while index < reviews.len()
        invariant
            index <= reviews@.len(),
            experience.sound(),
            ledger == experience.evidence(),
            forall|i: int|
                0 <= i < index ==> obligations@.contains((#[trigger] reviews@[i]).obligation)
                    && ledger.authority(reviews@[i].decision, reviews@[i].obligation) is Ok,
            forall|i: int, j: int|
                0 <= i < j < index ==> (#[trigger] reviews@[i]).decision != (
                #[trigger] reviews@[j]).decision,
        decreases reviews@.len() - index,
    {
        let review = reviews[index];
        if !has_subject(obligations, review.obligation) {
            assert(!obligations@.contains(reviews@[index as int].obligation));
            return false;
        }
        match experience.authoritative_verification(review.decision, review.obligation) {
            Ok(_) => {},
            Err(_) => {
                assert(ledger.authority(
                    reviews@[index as int].decision,
                    reviews@[index as int].obligation,
                ) is Err);
                return false;
            },
        }
        let mut prior: usize = 0;
        while prior < index
            invariant
                prior <= index < reviews@.len(),
                review == reviews@[index as int],
                forall|i: int|
                    0 <= i < prior ==> (#[trigger] reviews@[i]).decision != review.decision,
            decreases index - prior,
        {
            if reviews[prior].decision == review.decision {
                assert(reviews@[prior as int].decision == reviews@[index as int].decision);
                return false;
            }
            prior = prior + 1;
        }
        index = index + 1;
    }
    true
}

// ---------------------------------------------------------------------------
// Records
// ---------------------------------------------------------------------------
/// The format that has a place for invalidations.
pub open spec fn put_invalidation(format: KnowledgeWireFormat, status: KnowledgeStatus) -> Seq<u8> {
    if format is V8 {
        match status {
            KnowledgeStatus::Invalidated(reason) => codec::put_u8(1) + codec::put_u8(
                reason.tag_spec(),
            ),
            _ => codec::put_u8(0),
        }
    } else {
        Seq::empty()
    }
}

pub open spec fn parse_invalidation(format: KnowledgeWireFormat, input: Seq<u8>) -> Option<
    (Option<KnowledgeInvalidationReason>, Seq<u8>),
> {
    if format is V8 {
        match codec::parse_u8(input) {
            None => None,
            Some((tag, rest)) => if tag == 0 {
                Some((None, rest))
            } else if tag == 1 {
                match KnowledgeInvalidationReason::parse((), rest) {
                    Some((reason, rest)) => Some((Some(reason), rest)),
                    None => None,
                }
            } else {
                None
            },
        }
    } else {
        Some((None, input))
    }
}

/// The reason that a status gives.
pub open spec fn invalidation_of(status: KnowledgeStatus) -> Option<KnowledgeInvalidationReason> {
    match status {
        KnowledgeStatus::Invalidated(reason) => Some(reason),
        _ => None,
    }
}

pub open spec fn put_promotion(promoted_by: Option<ShadowCampaignId>) -> Seq<u8> {
    match promoted_by {
        Some(campaign) => codec::put_u8(1) + campaign.0.bytes(),
        None => codec::put_u8(0),
    }
}

pub open spec fn parse_promotion(input: Seq<u8>) -> Option<(Option<ShadowCampaignId>, Seq<u8>)> {
    match codec::parse_u8(input) {
        None => None,
        Some((tag, rest)) => if tag == 0 {
            Some((None, rest))
        } else if tag == 1 {
            match digest::parse_digest(rest) {
                Some((campaign, rest)) => Some((Some(ShadowCampaignId(campaign)), rest)),
                None => None,
            }
        } else {
            None
        },
    }
}

/// The status that a record has by what is written of it.
pub open spec fn status_as_read(
    challenger: ChallengerView,
    reviews: Seq<KnowledgeReview>,
    invalidation: Option<KnowledgeInvalidationReason>,
    promoted_by: Option<ShadowCampaignId>,
    ledger: LedgerView,
) -> Option<KnowledgeStatus> {
    match invalidation {
        Some(reason) => if promoted_by is Some {
            None
        } else {
            Some(KnowledgeStatus::Invalidated(reason))
        },
        None => match knowledge::status_by_reviews(challenger.obligations, reviews, ledger) {
            Err(_) => None,
            Ok(status) => match promoted_by {
                None => Some(status),
                Some(campaign) => if status is Verified && challenger::satisfies(
                    challenger.promotion,
                    campaign,
                    challenger.product.subject,
                    ledger.contrasts,
                ) {
                    Some(KnowledgeStatus::Promoted)
                } else {
                    None
                },
            },
        },
    }
}

/// The bytes of a record.
pub open spec fn put_record(format: KnowledgeWireFormat, record: RecordView) -> Seq<u8> {
    challenger::put_challenger(format, record.challenger) + (codec::put_list::<
        KnowledgeChallengerId,
        KnowledgeReview,
    >(record.challenger.id, record.reviews) + (put_invalidation(format, record.status)
        + put_promotion(record.promoted_by)))
}

/// The record at the front of some bytes, as far as the evidence bears it out.
pub open spec fn parse_record(
    format: KnowledgeWireFormat,
    limits: IntelligenceLimits,
    ledger: LedgerView,
    maximum: nat,
    input: Seq<u8>,
) -> Option<(RecordView, Seq<u8>)> {
    match challenger::parse_challenger(format, maximum, input) {
        None => None,
        Some((challenger, rest)) => match codec::parse_list::<
            KnowledgeChallengerId,
            KnowledgeReview,
        >(
            challenger.id,
            rest,
            codec::saturating_product(limits.maximum_investments as nat, 64),
            64,
        ) {
            None => None,
            Some((reviews, rest)) => match parse_invalidation(format, rest) {
                None => None,
                Some((invalidation, rest)) => match parse_promotion(rest) {
                    None => None,
                    Some((promoted_by, rest)) => if !reviews_hold(
                        challenger.obligations,
                        reviews,
                        ledger,
                    ) || knowledge::announced(challenger) is Err {
                        None
                    } else {
                        match status_as_read(
                            challenger,
                            reviews,
                            invalidation,
                            promoted_by,
                            ledger,
                        ) {
                            None => None,
                            Some(status) => Some(
                                (RecordView { challenger, reviews, promoted_by, status }, rest),
                            ),
                        }
                    },
                },
            },
        },
    }
}

/// A record that reads back as it was written.
pub open spec fn record_writable(
    format: KnowledgeWireFormat,
    limits: IntelligenceLimits,
    ledger: LedgerView,
    record: RecordView,
) -> bool {
    &&& record.challenger.valid()
    &&& record.challenger.product.fits(format)
    &&& format is V8 || !(record.status is Invalidated)
    &&& forall|i: int|
        0 <= i < record.reviews.len() ==> (#[trigger] record.reviews[i]).challenger
            == record.challenger.id
    &&& record.reviews.len() <= codec::saturating_product(limits.maximum_investments as nat, 64)
    &&& reviews_hold(record.challenger.obligations, record.reviews, ledger)
    &&& knowledge::announced(record.challenger) is Ok
    &&& status_as_read(
        record.challenger,
        record.reviews,
        invalidation_of(record.status),
        record.promoted_by,
        ledger,
    ) == Some(record.status)
}

proof fn lemma_invalidation_round_trip(
    format: KnowledgeWireFormat,
    status: KnowledgeStatus,
    rest: Seq<u8>,
)
    requires
        format is V8 || !(status is Invalidated),
    ensures
        parse_invalidation(format, put_invalidation(format, status) + rest) == Some(
            (invalidation_of(status), rest),
        ),
{
    if format is V8 {
        match status {
            KnowledgeStatus::Invalidated(reason) => {
                let tag = codec::put_u8(reason.tag_spec());
                codec::lemma_concat_associates(codec::put_u8(1), tag, rest);
                codec::lemma_parse_u8(1, tag + rest);
                KnowledgeInvalidationReason::lemma_round_trip((), reason, rest);
            },
            _ => {
                codec::lemma_parse_u8(0, rest);
            },
        }
    } else {
        assert(put_invalidation(format, status) + rest =~= rest);
    }
}

proof fn lemma_promotion_round_trip(promoted_by: Option<ShadowCampaignId>, rest: Seq<u8>)
    ensures
        parse_promotion(put_promotion(promoted_by) + rest) == Some((promoted_by, rest)),
{
    match promoted_by {
        Some(campaign) => {
            codec::lemma_concat_associates(codec::put_u8(1), campaign.0.bytes(), rest);
            codec::lemma_parse_u8(1, campaign.0.bytes() + rest);
            digest::lemma_parse_digest(campaign.0, rest);
        },
        None => {
            codec::lemma_parse_u8(0, rest);
        },
    }
}

proof fn lemma_record_round_trip(
    format: KnowledgeWireFormat,
    limits: IntelligenceLimits,
    ledger: LedgerView,
    maximum: nat,
    record: RecordView,
    rest: Seq<u8>,
)
    requires
        record_writable(format, limits, ledger, record),
        record.challenger.product.payload_len() <= maximum,
    ensures
        parse_record(format, limits, ledger, maximum, put_record(format, record) + rest) == Some(
            (record, rest),
        ),
{
    let promotion = put_promotion(record.promoted_by);
    let invalidation = put_invalidation(format, record.status);
    let reviews = codec::put_list::<KnowledgeChallengerId, KnowledgeReview>(
        record.challenger.id,
        record.reviews,
    );
    let front = challenger::put_challenger(format, record.challenger);
    let after_invalidation = promotion + rest;
    let after_reviews = invalidation + after_invalidation;
    let after_challenger = reviews + after_reviews;
    codec::lemma_four_parts(front, reviews, invalidation, promotion, rest);
    challenger::law_challenger_reads_back(format, record.challenger, maximum, after_challenger);
    codec::lemma_list_round_trip::<KnowledgeChallengerId, KnowledgeReview>(
        record.challenger.id,
        record.reviews,
        codec::saturating_product(limits.maximum_investments as nat, 64),
        64,
        after_reviews,
    );
    lemma_invalidation_round_trip(format, record.status, after_invalidation);
    lemma_promotion_round_trip(record.promoted_by, rest);
}

proof fn lemma_record_length(format: KnowledgeWireFormat, record: RecordView)
    requires
        record.challenger.valid(),
        record.challenger.product.fits(format),
    ensures
        put_record(format, record).len() >= 148,
{
    let front = challenger::put_challenger(format, record.challenger);
    let reviews = codec::put_list::<KnowledgeChallengerId, KnowledgeReview>(
        record.challenger.id,
        record.reviews,
    );
    let invalidation = put_invalidation(format, record.status);
    let promotion = put_promotion(record.promoted_by);
    challenger::lemma_challenger_length(format, record.challenger);
    assert(reviews.len() >= 8 && promotion.len() >= 1 && (format is V8 ==> invalidation.len()
        >= 1)) by {
        broadcast use digest::group_digest;

    }
    assert(put_record(format, record).len() == front.len() + reviews.len() + invalidation.len()
        + promotion.len());
}

fn write_invalidation(
    status: KnowledgeStatus,
    format: KnowledgeWireFormat,
    output: &mut Vec<u8>,
)
    ensures
        final(output)@ == old(output)@ + put_invalidation(format, status),
{
    if format == KnowledgeWireFormat::V8 {
        match status {
            KnowledgeStatus::Invalidated(reason) => {
                codec::write_u8(1, output);
                codec::write_u8(reason.tag(), output);
            },
            _ => codec::write_u8(0, output),
        }
    }
    assert(output@ =~= old(output)@ + put_invalidation(format, status));
}

fn write_promotion(promoted_by: Option<ShadowCampaignId>, output: &mut Vec<u8>)
    ensures
        final(output)@ == old(output)@ + put_promotion(promoted_by),
{
    match promoted_by {
        Some(campaign) => {
            codec::write_u8(1, output);
            write_digest(campaign.0, output);
        },
        None => codec::write_u8(0, output),
    }
    assert(output@ =~= old(output)@ + put_promotion(promoted_by));
}

fn write_record(record: &KnowledgeRecord, format: KnowledgeWireFormat, output: &mut Vec<u8>) -> (result:
    Result<(), ()>)
    ensures
        match result {
            Ok(_) => expressible(format, record@) && final(output)@ == old(output)@ + put_record(
                format,
                record@,
            ),
            Err(_) => !expressible(format, record@),
        },
{
    if format != KnowledgeWireFormat::V8 {
        if matches!(record.status(), KnowledgeStatus::Invalidated(_)) {
            return Err(());
        }
    }
    let ghost start = output@;
    record.challenger().encode(format, output)?;
    codec::write_list::<KnowledgeChallengerId, KnowledgeReview>(
        &record.challenger().id(),
        record.reviews(),
        output,
    );
    write_invalidation(record.status(), format, output);
    write_promotion(record.promoted_by(), output);
    proof {
        assert(codec::views(record@.reviews) =~= record@.reviews);
        codec::lemma_four_written(
            start,
            challenger::put_challenger(format, record@.challenger),
            codec::put_list::<KnowledgeChallengerId, KnowledgeReview>(
                record@.challenger.id,
                record@.reviews,
            ),
            put_invalidation(format, record@.status),
            put_promotion(record@.promoted_by),
        );
    }
    Ok(())
}

/// The format can express the record.
pub open spec fn expressible(format: KnowledgeWireFormat, record: RecordView) -> bool {
    &&& record.challenger.product.fits(format)
    &&& format is V8 || !(record.status is Invalidated)
}

fn read_invalidation(input: &mut Decoder<'_>, format: KnowledgeWireFormat) -> (result: Result<
    Option<KnowledgeInvalidationReason>,
    (),
>)
    ensures
        codec::reads(result, final(input)@, parse_invalidation(format, old(input)@)),
{
    if format != KnowledgeWireFormat::V8 {
        return Ok(None);
    }
    let tag: u8 = input.read_u8()?;
    if tag == 0 {
        Ok(None)
    } else if tag == 1 {
        let reason = KnowledgeInvalidationReason::read(&(), input)?;
        Ok(Some(reason))
    } else {
        Err(())
    }
}

fn read_promotion(input: &mut Decoder<'_>) -> (result: Result<Option<ShadowCampaignId>, ()>)
    ensures
        codec::reads(result, final(input)@, parse_promotion(old(input)@)),
{
    let tag: u8 = input.read_u8()?;
    if tag == 0 {
        Ok(None)
    } else if tag == 1 {
        let campaign = input.read_digest()?;
        Ok(Some(ShadowCampaignId(campaign)))
    } else {
        Err(())
    }
}

fn read_status<E: CausalEvidence>(
    challenger: &KnowledgeChallenger,
    reviews: &[KnowledgeReview],
    invalidation: Option<KnowledgeInvalidationReason>,
    promoted_by: Option<ShadowCampaignId>,
    experience: &E,
) -> (status: Option<KnowledgeStatus>)
    requires
        experience.sound(),
    ensures
        status == status_as_read(
            challenger@,
            reviews@,
            invalidation,
            promoted_by,
            experience.evidence(),
        ),
{
    if let Some(reason) = invalidation {
        if promoted_by.is_some() {
            return None;
        }
        return Some(KnowledgeStatus::Invalidated(reason));
    }
    let status = match verified_status(challenger.obligations(), reviews, experience) {
        Ok(status) => status,
        Err(_) => return None,
    };
    match promoted_by {
        None => Some(status),
        Some(campaign) => if status == KnowledgeStatus::Verified
            && challenger.promotion().campaign_satisfies(
            campaign,
            challenger.product().subject(),
            experience.contrasts(),
        ) {
            Some(KnowledgeStatus::Promoted)
        } else {
            None
        },
    }
}

fn read_record<E: CausalEvidence>(
    input: &mut Decoder<'_>,
    format: KnowledgeWireFormat,
    limits: IntelligenceLimits,
    experience: &E,
    maximum: usize,
) -> (result: Result<KnowledgeRecord, ()>)
    requires
        experience.sound(),
    ensures
        codec::reads_view(
            result,
            final(input)@,
            parse_record(
                format,
                limits,
                experience.evidence(),
                maximum as nat,
                old(input)@,
            ),
        ),
{
    let challenger = KnowledgeChallenger::decode(input, format, maximum)?;
    let reviews = codec::read_list::<KnowledgeChallengerId, KnowledgeReview>(
        &challenger.id(),
        input,
        saturating_multiply(limits.maximum_investments, 64),
        64,
    )?;
    assert(codec::views(reviews@) =~= reviews@);
    let invalidation = read_invalidation(input, format)?;
    let promoted_by = read_promotion(input)?;
    if !check_reviews(challenger.obligations(), reviews.as_slice(), experience) {
        return Err(());
    }
    match cached_consolidation(&challenger) {
        Ok(_) => {},
        Err(_) => return Err(()),
    }
    match read_status(&challenger, reviews.as_slice(), invalidation, promoted_by, experience) {
        Some(status) => Ok(KnowledgeRecord::new(challenger, reviews, promoted_by, status)),
        None => Err(()),
    }
}

/// The bytes of some records, one after the other.
pub open spec fn put_each_record(format: KnowledgeWireFormat, records: Seq<RecordView>) -> Seq<u8>
    decreases records.len(),
{
    if records.len() == 0 {
        Seq::empty()
    } else {
        put_each_record(format, records.drop_last()) + put_record(format, records.last())
    }
}

/// The bytes of some records.
pub open spec fn put_records(format: KnowledgeWireFormat, records: Seq<RecordView>) -> Seq<u8> {
    codec::put_count(records.len()) + put_each_record(format, records)
}

/// `count` records of different challengers that together carry no more than
/// the limits allow.
pub open spec fn parse_each_record(
    format: KnowledgeWireFormat,
    limits: IntelligenceLimits,
    ledger: LedgerView,
    count: nat,
    input: Seq<u8>,
) -> Option<(Seq<RecordView>, Seq<u8>)>
    decreases count,
{
    if count == 0 {
        Some((Seq::empty(), input))
    } else {
        match parse_each_record(format, limits, ledger, (count - 1) as nat, input) {
            None => None,
            Some((records, rest)) => match parse_record(
                format,
                limits,
                ledger,
                compiler_steps::left(
                    limits.maximum_model_bytes,
                    compiler::payload_bytes(records),
                ),
                rest,
            ) {
                None => None,
                Some((record, rest)) => if search::first(
                    records,
                    compiler::named(record.challenger.id),
                ) is Some {
                    None
                } else {
                    Some((records.push(record), rest))
                },
            },
        }
    }
}

/// The records at the front of some bytes.
pub open spec fn parse_records(
    format: KnowledgeWireFormat,
    limits: IntelligenceLimits,
    ledger: LedgerView,
    input: Seq<u8>,
) -> Option<(Seq<RecordView>, Seq<u8>)> {
    match codec::parse_count(
        input,
        codec::saturating_product(limits.maximum_opportunities as nat, 16),
        148,
    ) {
        None => None,
        Some((count, rest)) => parse_each_record(format, limits, ledger, count, rest),
    }
}

/// Records of different challengers.
pub open spec fn distinct_records(records: Seq<RecordView>) -> bool {
    forall|i: int, j: int|
        0 <= i < j < records.len() ==> (#[trigger] records[i]).challenger.id != (
        #[trigger] records[j]).challenger.id
}

/// Records that read back as they were written.
pub open spec fn records_writable(
    format: KnowledgeWireFormat,
    limits: IntelligenceLimits,
    ledger: LedgerView,
    records: Seq<RecordView>,
) -> bool {
    &&& records.len() <= codec::saturating_product(limits.maximum_opportunities as nat, 16)
    &&& distinct_records(records)
    &&& compiler::payload_bytes(records) <= limits.maximum_model_bytes
    &&& forall|i: int|
        0 <= i < records.len() ==> record_writable(
            format,
            limits,
            ledger,
            #[trigger] records[i],
        )
}

proof fn lemma_each_record_round_trip(
    format: KnowledgeWireFormat,
    limits: IntelligenceLimits,
    ledger: LedgerView,
    records: Seq<RecordView>,
    rest: Seq<u8>,
)
    requires
        distinct_records(records),
        compiler::payload_bytes(records) <= limits.maximum_model_bytes,
        forall|i: int|
            0 <= i < records.len() ==> record_writable(
                format,
                limits,
                ledger,
                #[trigger] records[i],
            ),
    ensures
        parse_each_record(
            format,
            limits,
            ledger,
            records.len(),
            put_each_record(format, records) + rest,
        ) == Some((records, rest)),
        put_each_record(format, records).len() >= records.len() * 148,
    decreases records.len(),
{
    if records.len() == 0 {
        assert(records =~= Seq::empty());
        assert(put_each_record(format, records) + rest =~= rest);
    } else {
        let front = records.drop_last();
        let last = records.last();
        assert forall|i: int| 0 <= i < front.len() implies record_writable(
            format,
            limits,
            ledger,
            #[trigger] front[i],
        ) by {
            assert(front[i] == records[i]);
        }
        assert forall|i: int, j: int| 0 <= i < j < front.len() implies (
        #[trigger] front[i]).challenger.id != (#[trigger] front[j]).challenger.id by {
            assert(front[i] == records[i] && front[j] == records[j]);
        }
        assert(record_writable(format, limits, ledger, records[records.len() - 1]));
        lemma_each_record_round_trip(format, limits, ledger, front, put_record(format, last) + rest);
        codec::lemma_concat_associates(
            put_each_record(format, front),
            put_record(format, last),
            rest,
        );
        lemma_record_round_trip(
            format,
            limits,
            ledger,
            compiler_steps::left(
                limits.maximum_model_bytes,
                compiler::payload_bytes(front),
            ),
            last,
            rest,
        );
        lemma_record_length(format, last);
        assert forall|i: int| 0 <= i < front.len() implies !compiler::named(last.challenger.id)(
            #[trigger] front[i],
        ) by {
            assert(front[i] == records[i]);
            assert(records[i].challenger.id != records[records.len() - 1].challenger.id);
        }
        search::lemma_is_none(front, compiler::named(last.challenger.id));
        assert(front.push(last) =~= records);
    }
}

proof fn lemma_records_round_trip(
    format: KnowledgeWireFormat,
    limits: IntelligenceLimits,
    ledger: LedgerView,
    records: Seq<RecordView>,
    rest: Seq<u8>,
)
    requires
        records_writable(format, limits, ledger, records),
    ensures
        parse_records(
            format,
            limits,
            ledger,
            put_records(format, records) + rest,
        ) == Some((records, rest)),
{
    lemma_each_record_round_trip(format, limits, ledger, records, rest);
    assert(records.len() as u64 as nat == records.len());
    codec::lemma_concat_associates(
        codec::put_count(records.len()),
        put_each_record(format, records),
        rest,
    );
    codec::lemma_parse_u64(records.len() as u64, put_each_record(format, records) + rest);
}

proof fn lemma_each_record_stops(
    format: KnowledgeWireFormat,
    limits: IntelligenceLimits,
    ledger: LedgerView,
    done: nat,
    count: nat,
    input: Seq<u8>,
)
    requires
        done <= count,
        parse_each_record(format, limits, ledger, done, input) is None,
    ensures
        parse_each_record(format, limits, ledger, count, input) is None,
    decreases count,
{
    if done < count {
        lemma_each_record_stops(format, limits, ledger, done, (count - 1) as nat, input);
    }
}

proof fn lemma_record_payload(
    format: KnowledgeWireFormat,
    limits: IntelligenceLimits,
    ledger: LedgerView,
    maximum: nat,
    input: Seq<u8>,
)
    ensures
        parse_record(format, limits, ledger, maximum, input) matches Some((record, _))
            ==> record.challenger.product.payload_len() <= maximum,
{
    challenger::lemma_parsed_payload(format, maximum, input);
}

fn write_records(
    records: &[KnowledgeRecord],
    format: KnowledgeWireFormat,
    output: &mut Vec<u8>,
) -> (result: Result<(), ()>)
    ensures
        match result {
            Ok(_) => all_expressible(format, codec::views(records@)) && final(output)@
                == old(output)@ + put_records(format, codec::views(records@)),
            Err(_) => !all_expressible(format, codec::views(records@)),
        },
{
    let ghost all = codec::views(records@);
    codec::write_count(records.len(), output);
    let ghost start = output@;
    let mut index: usize = 0;
    assert(all.take(0) =~= Seq::empty());
    assert(start + put_each_record(format, all.take(0)) =~= start);
    while index < records.len()
        invariant
            index <= records@.len(),
            all == codec::views(records@),
            forall|i: int| 0 <= i < index ==> expressible(format, #[trigger] all[i]),
            output@ == start + put_each_record(format, all.take(index as int)),
        decreases records@.len() - index,
    {
        assert(all.take(index + 1).drop_last() =~= all.take(index as int));
        assert(all.take(index + 1).last() == records@[index as int]@);
        match write_record(&records[index], format, output) {
            Ok(_) => {},
            Err(_) => {
                assert(!expressible(format, all[index as int]));
                return Err(());
            },
        }
        proof {
            codec::lemma_concat_associates(
                start,
                put_each_record(format, all.take(index as int)),
                put_record(format, records@[index as int]@),
            );
        }
        index = index + 1;
    }
    assert(all.take(all.len() as int) =~= all);
    assert(output@ =~= old(output)@ + put_records(format, all));
    Ok(())
}

/// The format can express every record.
pub open spec fn all_expressible(format: KnowledgeWireFormat, records: Seq<RecordView>) -> bool {
    forall|i: int| 0 <= i < records.len() ==> expressible(format, #[trigger] records[i])
}

fn has_record(records: &[KnowledgeRecord], id: KnowledgeChallengerId) -> (result: bool)
    ensures
        result == search::first(codec::views(records@), compiler::named(id)) is Some,
{
    let ghost all = codec::views(records@);
    let mut index: usize = 0;
    while index < records.len()
        invariant
            index <= records@.len(),
            all == codec::views(records@),
            forall|i: int| 0 <= i < index ==> !compiler::named(id)(#[trigger] all[i]),
        decreases records@.len() - index,
    {
        assert(all[index as int] == records@[index as int]@);
        if records[index].challenger().id() == id {
            proof {
                search::lemma_is_first(all, compiler::named(id), index as int);
            }
            return true;
        }
        index = index + 1;
    }
    proof {
        search::lemma_is_none(all, compiler::named(id));
    }
    false
}

fn read_records<E: CausalEvidence>(
    input: &mut Decoder<'_>,
    format: KnowledgeWireFormat,
    limits: IntelligenceLimits,
    experience: &E,
) -> (result: Result<Vec<KnowledgeRecord>, ()>)
    requires
        experience.sound(),
    ensures
        match result {
            Ok(records) => parse_records(
                format,
                limits,
                experience.evidence(),
                old(input)@,
            ) == Some((codec::views(records@), final(input)@)),
            Err(_) => parse_records(format, limits, experience.evidence(), old(input)@) is None,
        },
{
    let ghost ledger = experience.evidence();
    let limit: usize = saturating_multiply(limits.maximum_opportunities, 16);
    let count: usize = codec::read_optional_count(input, limit, 148)?;
    let ghost start = input@;
    let mut remaining: usize = limits.maximum_model_bytes;
    let mut records: Vec<KnowledgeRecord> = Vec::new();
    let mut index: usize = 0;
    assert(codec::views(records@) =~= Seq::empty());
    while index < count
        invariant
            index <= count,
            records@.len() == index,
            experience.sound(),
            ledger == experience.evidence(),
            compiler::payload_bytes(codec::views(records@)) <= limits.maximum_model_bytes,
            remaining == compiler_steps::left(
                limits.maximum_model_bytes,
                compiler::payload_bytes(codec::views(records@)),
            ),
            parse_each_record(format, limits, ledger, index as nat, start) == Some(
                (codec::views(records@), input@),
            ),
            parse_records(format, limits, ledger, old(input)@) == parse_each_record(
                format,
                limits,
                ledger,
                count as nat,
                start,
            ),
        decreases count - index,
    {
        let ghost before = records@;
        let ghost place = input@;
        match read_record(input, format, limits, experience, remaining) {
            Ok(record) => {
                if has_record(records.as_slice(), record.challenger().id()) {
                    proof {
                        lemma_each_record_stops(
                            format,
                            limits,
                            ledger,
                            (index + 1) as nat,
                            count as nat,
                            start,
                        );
                    }
                    return Err(());
                }
                proof {
                    lemma_record_payload(format, limits, ledger, remaining as nat, place);
                }
                remaining = remaining - record.challenger().product().heap_bytes();
                records.push(record);
                assert(codec::views(records@) =~= codec::views(before).push(record@));
                assert(codec::views(records@).drop_last() =~= codec::views(before));
            },
            Err(_) => {
                proof {
                    lemma_each_record_stops(
                        format,
                        limits,
                        ledger,
                        (index + 1) as nat,
                        count as nat,
                        start,
                    );
                }
                return Err(());
            },
        }
        index = index + 1;
    }
    Ok(records)
}

// ---------------------------------------------------------------------------
// The compiler
// ---------------------------------------------------------------------------
/// The bytes of an active state.
pub open spec fn put_active(active: StateView) -> Seq<u8> {
    codec::put_sized(consolidation::put_state(active))
}

/// The active state at the front of some bytes.
pub open spec fn parse_active(limits: IntelligenceLimits, input: Seq<u8>) -> Option<
    (StateView, Seq<u8>),
> {
    match codec::parse_u64(input) {
        None => None,
        Some((count, rest)) => if count == 0 || count > limits.maximum_model_bytes {
            None
        } else {
            match codec::parse_bytes(rest, count as nat) {
                None => None,
                Some((bytes, rest)) => match consolidation::state_in(bytes) {
                    Some(state) => Some((state, rest)),
                    None => None,
                },
            }
        },
    }
}

proof fn lemma_active_round_trip(limits: IntelligenceLimits, active: StateView, rest: Seq<u8>)
    requires
        active.valid(),
        consolidation::put_state(active).len() <= limits.maximum_model_bytes,
    ensures
        parse_active(limits, put_active(active) + rest) == Some((active, rest)),
{
    let bytes = consolidation::put_state(active);
    consolidation::law_state_reads_back(active);
    consolidation::lemma_state_has_bytes(active);
    assert(bytes.len() as u64 as nat == bytes.len());
    codec::lemma_concat_associates(codec::put_count(bytes.len()), bytes, rest);
    codec::lemma_parse_u64(bytes.len() as u64, bytes + rest);
    codec::lemma_parse_bytes(bytes, bytes.len(), rest);
}

fn read_active(input: &mut Decoder<'_>, limits: IntelligenceLimits) -> (result: Result<
    KnowledgeState,
    (),
>)
    ensures
        codec::reads_view(result, final(input)@, parse_active(limits, old(input)@)),
        result matches Ok(state) ==> state@.revisions.len() > 0,
{
    let count: u64 = input.read_u64()?;
    if count == 0 || count > limits.maximum_model_bytes as u64 {
        return Err(());
    }
    let bytes = input.take(count as usize)?;
    KnowledgeState::decode(bytes)
}

/// The bytes of what may be open.
pub open spec fn put_pending(pending: Option<PendingView>) -> Seq<u8> {
    match pending {
        Some(pending) => codec::put_u8(1) + compiler_steps::put_opened(pending),
        None => codec::put_u8(0),
    }
}

/// What may be open at the front of some bytes: it fits beside the rest and is
/// not recorded yet.
pub open spec fn parse_pending(
    limits: IntelligenceLimits,
    active: StateView,
    records: Seq<RecordView>,
    input: Seq<u8>,
) -> Option<(Option<PendingView>, Seq<u8>)> {
    let used = consolidation::put_state(active).len() + compiler::payload_bytes(records);
    match codec::parse_u8(input) {
        None => None,
        Some((tag, rest)) => if tag == 0 {
            Some((None, rest))
        } else if tag == 1 {
            if used > limits.maximum_model_bytes {
                None
            } else {
                match compiler_steps::parse_opened(
                    limits,
                    (limits.maximum_model_bytes - used) as nat,
                    rest,
                ) {
                    None => None,
                    Some((pending, rest)) => if search::first(
                        records,
                        compiler::named(pending.work.challenger.id),
                    ) is None && knowledge::open_is_valid(
                        pending.work,
                        pending.receipts,
                        pending.reserved,
                    ) {
                        Some((Some(pending), rest))
                    } else {
                        None
                    },
                }
            }
        } else {
            None
        },
    }
}

/// The bytes of a compiler.
pub open spec fn put_compiler(value: CompilerView) -> Seq<u8> {
    put_active(value.active) + (put_records(KnowledgeWireFormat::V8, value.records) + put_pending(
        value.pending,
    ))
}

/// The bytes of a compiler without what is open.
pub open spec fn put_settled_compiler(value: CompilerView) -> Seq<u8> {
    put_active(value.active) + put_records(KnowledgeWireFormat::V8, value.records)
}

/// The compiler at the front of some bytes.
pub open spec fn parse_compiler(
    limits: IntelligenceLimits,
    ledger: LedgerView,
    input: Seq<u8>,
) -> Option<(CompilerView, Seq<u8>)> {
    match parse_active(limits, input) {
        None => None,
        Some((active, rest)) => match parse_records(
            KnowledgeWireFormat::V8,
            limits,
            ledger,
            rest,
        ) {
            None => None,
            Some((records, rest)) => match parse_pending(limits, active, records, rest) {
                None => None,
                Some((pending, rest)) => {
                    let compiler = CompilerView { active, records, pending };
                    if compiler.fits(limits) && compiler.aligned() {
                        Some((compiler, rest))
                    } else {
                        None
                    }
                },
            },
        },
    }
}

/// The compiler at the front of some bytes that hold nothing open.
pub open spec fn parse_settled_compiler(
    limits: IntelligenceLimits,
    ledger: LedgerView,
    input: Seq<u8>,
) -> Option<(CompilerView, Seq<u8>)> {
    match parse_active(limits, input) {
        None => None,
        Some((active, rest)) => match parse_records(
            KnowledgeWireFormat::V8,
            limits,
            ledger,
            rest,
        ) {
            None => None,
            Some((records, rest)) => {
                let compiler = CompilerView { active, records, pending: None };
                if compiler.fits(limits) && compiler.aligned() {
                    Some((compiler, rest))
                } else {
                    None
                }
            },
        },
    }
}

/// The compiler at the front of some bytes that hold nothing but records.
pub open spec fn parse_recorded_compiler(
    format: KnowledgeWireFormat,
    limits: IntelligenceLimits,
    ledger: LedgerView,
    input: Seq<u8>,
) -> Option<(CompilerView, Seq<u8>)> {
    match parse_records(format, limits, ledger, input) {
        None => None,
        Some((records, rest)) => Some(
            (CompilerView { active: StateView::initial(), records, pending: None }, rest),
        ),
    }
}

/// A compiler that reads back as it was written. What is open must not be
/// recorded already.
pub open spec fn compiler_writable(
    limits: IntelligenceLimits,
    ledger: LedgerView,
    value: CompilerView,
) -> bool {
    &&& value.active.valid()
    &&& records_writable(KnowledgeWireFormat::V8, limits, ledger, value.records)
    &&& value.fits(limits)
    &&& value.aligned()
    &&& value.pending matches Some(pending) ==> value.place(pending.work.challenger.id) is None
        && compiler_steps::opened_writable(
        limits,
        limits.maximum_model_bytes as nat,
        pending,
    )
}

proof fn lemma_pending_round_trip(
    limits: IntelligenceLimits,
    value: CompilerView,
    rest: Seq<u8>,
)
    requires
        value.fits(limits),
        value.pending matches Some(pending) ==> value.place(pending.work.challenger.id) is None
            && compiler_steps::opened_writable(
            limits,
            limits.maximum_model_bytes as nat,
            pending,
        ),
    ensures
        parse_pending(limits, value.active, value.records, put_pending(value.pending) + rest)
            == Some((value.pending, rest)),
{
    match value.pending {
        Some(open) => {
            let used = consolidation::put_state(value.active).len() + compiler::payload_bytes(
                value.records,
            );
            let body = compiler_steps::put_opened(open);
            codec::lemma_concat_associates(codec::put_u8(1), body, rest);
            codec::lemma_parse_u8(1, body + rest);
            compiler_steps::lemma_opened_round_trip(
                limits,
                (limits.maximum_model_bytes - used) as nat,
                open,
                rest,
            );
        },
        None => {
            codec::lemma_parse_u8(0, rest);
        },
    }
}

/// A compiler that is borne out by the evidence and within the limits reads back
/// as it was written.
pub proof fn law_compiler_reads_back(
    limits: IntelligenceLimits,
    ledger: LedgerView,
    value: CompilerView,
    rest: Seq<u8>,
)
    requires
        compiler_writable(limits, ledger, value),
    ensures
        parse_compiler(limits, ledger, put_compiler(value) + rest) == Some((value, rest)),
{
    let active = put_active(value.active);
    let records = put_records(KnowledgeWireFormat::V8, value.records);
    let pending = put_pending(value.pending);
    codec::lemma_concat_associates(active, records + pending, rest);
    codec::lemma_concat_associates(records, pending, rest);
    lemma_active_round_trip(limits, value.active, records + (pending + rest));
    lemma_records_round_trip(KnowledgeWireFormat::V8, limits, ledger, value.records, pending + rest);
    lemma_pending_round_trip(limits, value, rest);
}

/// Knowledge of which nothing is open reads back from the bytes that say nothing of
/// what is open.
pub proof fn law_settled_compiler_reads_back(
    limits: IntelligenceLimits,
    ledger: LedgerView,
    value: CompilerView,
    rest: Seq<u8>,
)
    requires
        compiler_writable(limits, ledger, value),
        value.pending is None,
    ensures
        parse_settled_compiler(limits, ledger, put_settled_compiler(value) + rest) == Some(
            (value, rest),
        ),
{
    let active = put_active(value.active);
    let records = put_records(KnowledgeWireFormat::V8, value.records);
    codec::lemma_concat_associates(active, records, rest);
    lemma_active_round_trip(limits, value.active, records + rest);
    lemma_records_round_trip(KnowledgeWireFormat::V8, limits, ledger, value.records, rest);
    assert((CompilerView { active: value.active, records: value.records, pending: None })
        =~= value);
}

/// Knowledge that has its records and nothing else reads back from them.
pub proof fn law_recorded_compiler_reads_back(
    format: KnowledgeWireFormat,
    limits: IntelligenceLimits,
    ledger: LedgerView,
    value: CompilerView,
    rest: Seq<u8>,
)
    requires
        records_writable(format, limits, ledger, value.records),
        value.active == StateView::initial(),
        value.pending is None,
    ensures
        parse_recorded_compiler(
            format,
            limits,
            ledger,
            put_records(format, value.records) + rest,
        ) == Some((value, rest)),
{
    lemma_records_round_trip(format, limits, ledger, value.records, rest);
    assert((CompilerView { active: value.active, records: value.records, pending: None })
        =~= value);
}

fn read_pending(
    input: &mut Decoder<'_>,
    limits: IntelligenceLimits,
    settled: &KnowledgeCompiler,
) -> (result: Result<Option<PendingKnowledgeVerification>, ()>)
    ensures
        match result {
            Ok(pending) => parse_pending(
                limits,
                settled@.active,
                settled@.records,
                old(input)@,
            ) == Some(
                (
                    match pending {
                        Some(pending) => Some(pending@),
                        None => None,
                    },
                    final(input)@,
                ),
            ),
            Err(_) => parse_pending(
                limits,
                settled@.active,
                settled@.records,
                old(input)@,
            ) is None,
        },
{
    let tag: u8 = input.read_u8()?;
    if tag == 0 {
        return Ok(None);
    }
    if tag != 1 {
        return Err(());
    }
    let encoded: usize = settled.active().encode().len();
    if encoded > limits.maximum_model_bytes {
        return Err(());
    }
    let products: usize = settled.product_bytes();
    if products > limits.maximum_model_bytes - encoded {
        return Err(());
    }
    let (work, receipts, reserved) = read_opened(
        input,
        limits,
        limits.maximum_model_bytes - encoded - products,
    )?;
    if settled.contains(work.id()) {
        return Err(());
    }
    if !valid_open_verification(&work, receipts.as_slice(), reserved) {
        return Err(());
    }
    Ok(Some(PendingKnowledgeVerification::new(work, receipts, reserved)))
}

/// The root of a compiler is named after its bytes.
pub open spec fn compiler_root(bytes: Seq<u8>) -> Digest {
    digest::labelled("reflex-knowledge-compiler-root-v1\0", bytes)
}

impl KnowledgeCompiler {
    pub fn encode_canonical(&self, output: &mut Vec<u8>)
        ensures
            final(output)@ == old(output)@ + put_compiler(self@),
    {
        let ghost start = output@;
        self.encode_legacy_v14(output);
        match self.pending() {
            Some(pending) => {
                codec::write_u8(1, output);
                write_opened(pending.work(), pending.receipts(), pending.reserved(), output);
                assert(pending@ =~= (PendingView {
                    work: pending@.work,
                    receipts: pending@.receipts,
                    reserved: pending@.reserved,
                }));
            },
            None => codec::write_u8(0, output),
        }
        assert(output@ =~= start + put_compiler(self@));
    }

    pub fn encode_legacy_v14(&self, output: &mut Vec<u8>)
        ensures
            final(output)@ == old(output)@ + put_settled_compiler(self@),
    {
        let ghost start = output@;
        let active = self.active().encode();
        codec::write_sized(active.as_slice(), output);
        self.encode_legacy_v13(output);
        assert(output@ =~= start + put_settled_compiler(self@));
    }

    pub fn encode_legacy_v13(&self, output: &mut Vec<u8>)
        ensures
            final(output)@ == old(output)@ + put_records(KnowledgeWireFormat::V8, self@.records),
    {
        let _written = write_records(self.records(), KnowledgeWireFormat::V8, output);
    }

    pub fn encode_legacy_v7(&self, output: &mut Vec<u8>) -> (result: Result<(), ()>)
        ensures
            match result {
                Ok(_) => all_expressible(KnowledgeWireFormat::LegacyV7, self@.records)
                    && final(output)@ == old(output)@ + put_records(
                    KnowledgeWireFormat::LegacyV7,
                    self@.records,
                ),
                Err(_) => !all_expressible(KnowledgeWireFormat::LegacyV7, self@.records),
            },
    {
        write_records(self.records(), KnowledgeWireFormat::LegacyV7, output)
    }

    pub fn encode_legacy_v6(&self, output: &mut Vec<u8>) -> (result: Result<(), ()>)
        ensures
            match result {
                Ok(_) => all_expressible(KnowledgeWireFormat::LegacyV6, self@.records)
                    && final(output)@ == old(output)@ + put_records(
                    KnowledgeWireFormat::LegacyV6,
                    self@.records,
                ),
                Err(_) => !all_expressible(KnowledgeWireFormat::LegacyV6, self@.records),
            },
    {
        write_records(self.records(), KnowledgeWireFormat::LegacyV6, output)
    }

    pub fn canonical_root(&self) -> (root: Digest)
        ensures
            root == compiler_root(put_compiler(self@)),
    {
        let mut bytes: Vec<u8> = Vec::new();
        self.encode_canonical(&mut bytes);
        assert(bytes@ =~= put_compiler(self@));
        hash_labelled("reflex-knowledge-compiler-root-v1\0", bytes.as_slice())
    }

    pub fn legacy_v14_canonical_root(&self) -> (root: Digest)
        ensures
            root == compiler_root(put_settled_compiler(self@)),
    {
        let mut bytes: Vec<u8> = Vec::new();
        self.encode_legacy_v14(&mut bytes);
        assert(bytes@ =~= put_settled_compiler(self@));
        hash_labelled("reflex-knowledge-compiler-root-v1\0", bytes.as_slice())
    }

    pub fn legacy_v13_canonical_root(&self) -> (root: Digest)
        ensures
            root == compiler_root(put_records(KnowledgeWireFormat::V8, self@.records)),
    {
        let mut bytes: Vec<u8> = Vec::new();
        self.encode_legacy_v13(&mut bytes);
        assert(bytes@ =~= put_records(KnowledgeWireFormat::V8, self@.records));
        hash_labelled("reflex-knowledge-compiler-root-v1\0", bytes.as_slice())
    }

    pub fn decode_canonical<E: CausalEvidence>(
        input: &mut Decoder<'_>,
        experience: &E,
        limits: IntelligenceLimits,
    ) -> (result: Result<Self, ()>)
        requires
            experience.sound(),
        ensures
            codec::reads_view(
                result,
                final(input)@,
                parse_compiler(limits, experience.evidence(), old(input)@),
            ),
            result matches Ok(compiler) ==> compiler@.well_formed(),
    {
        let active = read_active(input, limits)?;
        let records = read_records(input, KnowledgeWireFormat::V8, limits, experience)?;
        let settled = KnowledgeCompiler::assembled(active, records, None);
        let compiler = match read_pending(input, limits, &settled)? {
            Some(pending) => settled.with_pending(pending),
            None => settled,
        };
        if !compiler.fits_limits(limits) || !compiler.active_aligns_with_promotions() {
            return Err(());
        }
        Ok(compiler)
    }

    pub fn decode_legacy_v14<E: CausalEvidence>(
        input: &mut Decoder<'_>,
        experience: &E,
        limits: IntelligenceLimits,
    ) -> (result: Result<Self, ()>)
        requires
            experience.sound(),
        ensures
            codec::reads_view(
                result,
                final(input)@,
                parse_settled_compiler(limits, experience.evidence(), old(input)@),
            ),
            result matches Ok(compiler) ==> compiler@.well_formed(),
    {
        let active = read_active(input, limits)?;
        let records = read_records(input, KnowledgeWireFormat::V8, limits, experience)?;
        let compiler = KnowledgeCompiler::assembled(active, records, None);
        if !compiler.fits_limits(limits) || !compiler.active_aligns_with_promotions() {
            return Err(());
        }
        Ok(compiler)
    }

    /// Reads records in a format that holds nothing else.
    pub fn decode<E: CausalEvidence>(
        input: &mut Decoder<'_>,
        experience: &E,
        limits: IntelligenceLimits,
        format: KnowledgeWireFormat,
    ) -> (result: Result<Self, ()>)
        requires
            experience.sound(),
        ensures
            codec::reads_view(
                result,
                final(input)@,
                parse_recorded_compiler(format, limits, experience.evidence(), old(input)@),
            ),
            result matches Ok(compiler) ==> compiler@.well_formed(),
    {
        let records = read_records(input, format, limits, experience)?;
        Ok(KnowledgeCompiler::assembled(KnowledgeState::default(), records, None))
    }

    pub fn decode_legacy_v13<E: CausalEvidence>(
        input: &mut Decoder<'_>,
        experience: &E,
        limits: IntelligenceLimits,
    ) -> (result: Result<Self, ()>)
        requires
            experience.sound(),
        ensures
            codec::reads_view(
                result,
                final(input)@,
                parse_recorded_compiler(
                    KnowledgeWireFormat::V8,
                    limits,
                    experience.evidence(),
                    old(input)@,
                ),
            ),
            result matches Ok(compiler) ==> compiler@.well_formed(),
    {
        KnowledgeCompiler::decode(input, experience, limits, KnowledgeWireFormat::V8)
    }

    pub fn decode_legacy_v7<E: CausalEvidence>(
        input: &mut Decoder<'_>,
        experience: &E,
        limits: IntelligenceLimits,
    ) -> (result: Result<Self, ()>)
        requires
            experience.sound(),
        ensures
            codec::reads_view(
                result,
                final(input)@,
                parse_recorded_compiler(
                    KnowledgeWireFormat::LegacyV7,
                    limits,
                    experience.evidence(),
                    old(input)@,
                ),
            ),
            result matches Ok(compiler) ==> compiler@.well_formed(),
    {
        KnowledgeCompiler::decode(input, experience, limits, KnowledgeWireFormat::LegacyV7)
    }

    pub fn decode_legacy_v6<E: CausalEvidence>(
        input: &mut Decoder<'_>,
        experience: &E,
        limits: IntelligenceLimits,
    ) -> (result: Result<Self, ()>)
        requires
            experience.sound(),
        ensures
            codec::reads_view(
                result,
                final(input)@,
                parse_recorded_compiler(
                    KnowledgeWireFormat::LegacyV6,
                    limits,
                    experience.evidence(),
                    old(input)@,
                ),
            ),
            result matches Ok(compiler) ==> compiler@.well_formed(),
    {
        KnowledgeCompiler::decode(input, experience, limits, KnowledgeWireFormat::LegacyV6)
    }
}

} // verus!
