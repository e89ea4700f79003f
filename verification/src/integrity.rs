//! What the seal of a checkpoint vouches for: two checkpoints under one seal are the
//! same checkpoint, or two messages with one hash have been found.
use vstd::prelude::*;

use crate::checkpoint;
use crate::checkpoint::{CheckpointWire, CHECKPOINT_HEADER_BYTES};
use crate::codec;
use crate::continuity;
use crate::digest;
use crate::digest::Digest;
use crate::intelligence::CoreView;
use crate::policy::PolicyEngine;
use crate::replay;
use crate::replay::ReplayView;
use crate::restore;
use crate::transition::{FrameView, TransitionView};
use crate::types::{IntelligenceError, IntelligenceLimits};

verus! {

// ---------------------------------------------------------------------------
// Bytes that are read are the bytes that would be written
// ---------------------------------------------------------------------------
proof fn lemma_u64_exact(input: Seq<u8>)
    ensures
        codec::parse_u64(input) matches Some((value, rest)) ==> input == codec::put_u64(value)
            + rest,
{
    reveal(codec::parse_u64);
    vstd::bytes::lemma_auto_spec_u64_to_from_le_bytes();
    if input.len() >= 8 {
        assert(input =~= input.take(8) + input.skip(8));
    }
}

proof fn lemma_sized_exact(input: Seq<u8>)
    ensures
        checkpoint::parse_sized(input) matches Some((bytes, rest)) ==> input == codec::put_sized(
            bytes,
        ) + rest,
{
    lemma_u64_exact(input);
    reveal(codec::parse_bytes);
    match checkpoint::parse_size(input) {
        Some((length, rest)) => if rest.len() >= length {
            let bytes = rest.take(length as int);
            assert(bytes.len() as u64 == length as u64);
            assert(codec::put_sized(bytes) + rest.skip(length as int) =~= codec::put_u64(
                length as u64,
            ) + rest);
        },
        None => {},
    }
}

proof fn lemma_u8_exact(input: Seq<u8>)
    ensures
        codec::parse_u8(input) matches Some((value, rest)) ==> input == codec::put_u8(value) + rest
            && input.len() == rest.len() + 1,
{
    reveal(codec::parse_u8);
    if input.len() >= 1 {
        assert(input =~= codec::put_u8(input[0]) + input.skip(1));
    }
}

proof fn lemma_part_exact(present: bool, input: Seq<u8>)
    ensures
        replay::parse_part(present, input) matches Some((part, rest)) ==> input
            == checkpoint::put_part(part) + rest && present == (part is Some),
{
    lemma_sized_exact(input);
    assert(checkpoint::put_part(None) + input =~= input);
}

proof fn lemma_five_parts(
    tag: Seq<u8>,
    a: Seq<u8>,
    b: Seq<u8>,
    c: Seq<u8>,
    d: Seq<u8>,
    rest: Seq<u8>,
)
    ensures
        tag + (a + (b + (c + (d + rest)))) == (tag + (a + (b + (c + d)))) + rest,
{
    assert(tag + (a + (b + (c + (d + rest)))) =~= (tag + (a + (b + (c + d)))) + rest);
}

proof fn lemma_snapshot_exact(wire: CheckpointWire, input: Seq<u8>)
    ensures
        replay::parse_snapshot_runs(wire, input) matches Some((e, x, k, p, rest))
            ==> codec::put_u8(1) + input == checkpoint::framed_snapshot(e, x, k, p) + rest,
{
    lemma_sized_exact(input);
    match checkpoint::parse_sized(input) {
        None => {},
        Some((e, rest)) => {
            lemma_sized_exact(rest);
            match checkpoint::parse_sized(rest) {
                None => {},
                Some((x, rest)) => {
                    lemma_sized_exact(rest);
                    match checkpoint::parse_sized(rest) {
                        None => {},
                        Some((k, rest)) => {
                            lemma_sized_exact(rest);
                            let none = Seq::<u8>::empty();
                            assert(none + rest =~= rest);
                            lemma_five_parts(
                                codec::put_u8(1),
                                codec::put_sized(e),
                                codec::put_sized(x),
                                codec::put_sized(k),
                                none,
                                rest,
                            );
                            match checkpoint::parse_sized(rest) {
                                None => {},
                                Some((p, behind)) => lemma_five_parts(
                                    codec::put_u8(1),
                                    codec::put_sized(e),
                                    codec::put_sized(x),
                                    codec::put_sized(k),
                                    codec::put_sized(p),
                                    behind,
                                ),
                            }
                        },
                    }
                },
            }
        },
    }
}

proof fn lemma_flags(flags: u8)
    requires
        flags <= 7,
    ensures
        checkpoint::part_flags(flags % 2 == 1, flags / 2 % 2 == 1, flags / 4 % 2 == 1) == flags,
{
}

proof fn lemma_step_parts(
    flags: Seq<u8>,
    a: Seq<u8>,
    b: Seq<u8>,
    c: Seq<u8>,
    d: Seq<u8>,
    rest: Seq<u8>,
)
    ensures
        codec::put_u8(2) + (flags + (a + (b + (c + (d + rest))))) == (codec::put_u8(2) + (flags + (a
            + (b + (c + d))))) + rest,
{
    assert(codec::put_u8(2) + (flags + (a + (b + (c + (d + rest))))) =~= (codec::put_u8(2) + (flags
        + (a + (b + (c + d))))) + rest);
}

proof fn lemma_step_exact(wire: CheckpointWire, input: Seq<u8>)
    ensures
        replay::parse_step_runs(wire, input) matches Some((e, x, k, p, rest)) ==> codec::put_u8(2)
            + input == checkpoint::step_record(e, x, k, p) + rest,
{
    lemma_u8_exact(input);
    if let Some((flags, first)) = codec::parse_u8(input) {
        if flags <= 7 {
            lemma_flags(flags);
            lemma_part_exact(flags % 2 == 1, first);
            if let Some((e, second)) = replay::parse_part(flags % 2 == 1, first) {
                lemma_sized_exact(second);
                if let Some((x, third)) = checkpoint::parse_sized(second) {
                    lemma_part_exact(flags / 2 % 2 == 1, third);
                    if let Some((k, fourth)) = replay::parse_part(flags / 2 % 2 == 1, third) {
                        lemma_part_exact(flags / 4 % 2 == 1, fourth);
                        if let Some((p, rest)) = replay::parse_part(flags / 4 % 2 == 1, fourth) {
                            lemma_step_parts(
                                codec::put_u8(flags),
                                checkpoint::put_part(e),
                                codec::put_sized(x),
                                checkpoint::put_part(k),
                                checkpoint::put_part(p),
                                rest,
                            );
                        }
                    }
                }
            }
        }
    }
}

// ---------------------------------------------------------------------------
// The records of a checkpoint
// ---------------------------------------------------------------------------
/// Some records, one behind the other.
pub open spec fn joined(records: Seq<Seq<u8>>) -> Seq<u8>
    decreases records.len(),
{
    if records.len() == 0 {
        Seq::empty()
    } else {
        joined(records.drop_last()) + records.last()
    }
}

/// The log after some records.
pub open spec fn chained(start: Digest, records: Seq<Seq<u8>>) -> Digest
    decreases records.len(),
{
    if records.len() == 0 {
        start
    } else {
        checkpoint::logged(chained(start, records.drop_last()), records.last())
    }
}

/// The records of the steps at the front of some bytes.
pub open spec fn steps_of<P: PolicyEngine>(
    wire: CheckpointWire,
    limits: IntelligenceLimits,
    state: ReplayView,
    input: Seq<u8>,
) -> Seq<Seq<u8>>
    decreases input.len(),
{
    match codec::parse_u8(input) {
        Some((2, rest)) => match replay::stepped::<P>(wire, limits, state, rest) {
            Some((next, behind)) => if behind.len() < input.len() {
                seq![input.take(input.len() - behind.len())] + steps_of::<P>(
                    wire,
                    limits,
                    next,
                    behind,
                )
            } else {
                Seq::empty()
            },
            None => Seq::empty(),
        },
        _ => Seq::empty(),
    }
}

/// The records of a checkpoint: that of its snapshot, and those of its steps.
pub open spec fn records_of<P: PolicyEngine>(wire: CheckpointWire, input: Seq<u8>) -> Seq<Seq<u8>> {
    match replay::opened::<P>(wire, input) {
        None => Seq::empty(),
        Some((limits, state, rest)) => seq![
            input.subrange(CHECKPOINT_HEADER_BYTES as int, input.len() - rest.len()),
        ] + steps_of::<P>(wire, limits, state, rest),
    }
}

proof fn lemma_joined_in_turn(first: Seq<u8>, more: Seq<Seq<u8>>)
    ensures
        joined(seq![first] + more) == first + joined(more),
    decreases more.len(),
{
    let all = seq![first] + more;
    if more.len() == 0 {
        assert(all.drop_last() =~= Seq::empty());
        reveal_with_fuel(joined, 2);
        assert(joined(all) =~= first + joined(more));
    } else {
        lemma_joined_in_turn(first, more.drop_last());
        assert(all.drop_last() =~= seq![first] + more.drop_last());
        assert(all.last() == more.last());
        assert(joined(all) =~= first + joined(more));
    }
}

proof fn lemma_chained_in_turn(start: Digest, first: Seq<u8>, more: Seq<Seq<u8>>)
    ensures
        chained(start, seq![first] + more) == chained(checkpoint::logged(start, first), more),
    decreases more.len(),
{
    let all = seq![first] + more;
    if more.len() == 0 {
        assert(all.drop_last() =~= Seq::empty());
        reveal_with_fuel(chained, 2);
    } else {
        lemma_chained_in_turn(start, first, more.drop_last());
        assert(all.drop_last() =~= seq![first] + more.drop_last());
        assert(all.last() == more.last());
    }
}

proof fn lemma_front_taken(record: Seq<u8>, rest: Seq<u8>)
    ensures
        (record + rest).take((record + rest).len() - rest.len()) == record,
{
    assert((record + rest).take((record + rest).len() - rest.len()) =~= record);
}

proof fn lemma_step_taken<P: PolicyEngine>(
    wire: CheckpointWire,
    limits: IntelligenceLimits,
    state: ReplayView,
    input: Seq<u8>,
)
    ensures
        match codec::parse_u8(input) {
            Some((2, rest)) => replay::stepped::<P>(wire, limits, state, rest) matches Some(
                (next, behind),
            ) ==> {
                let record = input.take(input.len() - behind.len());
                &&& behind.len() < input.len()
                &&& input == record + behind
                &&& next.log_root == checkpoint::logged(state.log_root, record)
                &&& next.records == state.records + 1
            },
            _ => true,
        },
{
    lemma_u8_exact(input);
    if let Some((2, rest)) = codec::parse_u8(input) {
        lemma_step_exact(wire, rest);
        reveal(replay::stepped);
        if let Some((e, x, k, p, behind)) = replay::parse_step_runs(wire, rest) {
            lemma_front_taken(checkpoint::step_record(e, x, k, p), behind);
        }
    }
}

proof fn lemma_steps_taken<P: PolicyEngine>(
    wire: CheckpointWire,
    limits: IntelligenceLimits,
    state: ReplayView,
    input: Seq<u8>,
)
    ensures
        replay::replayed::<P>(wire, limits, state, input) matches Some((last, rest)) ==> {
            let records = steps_of::<P>(wire, limits, state, input);
            &&& input == joined(records) + (codec::put_u8(0) + rest)
            &&& last.log_root == chained(state.log_root, records)
            &&& last.records == state.records + records.len()
        },
    decreases input.len(),
{
    lemma_u8_exact(input);
    lemma_step_taken::<P>(wire, limits, state, input);
    if let Some((tag, rest)) = codec::parse_u8(input) {
        if tag == 0 {
            assert(joined(Seq::empty()) + input =~= input);
        } else if tag == 2 {
            if let Some((next, behind)) = replay::stepped::<P>(wire, limits, state, rest) {
                let record = input.take(input.len() - behind.len());
                let more = steps_of::<P>(wire, limits, next, behind);
                lemma_steps_taken::<P>(wire, limits, next, behind);
                lemma_joined_in_turn(record, more);
                lemma_chained_in_turn(state.log_root, record, more);
                if let Some((_, left)) = replay::replayed::<P>(wire, limits, next, behind) {
                    codec::lemma_concat_associates(
                        record,
                        joined(more),
                        codec::put_u8(0) + left,
                    );
                }
            }
        }
    }
}

proof fn lemma_sizes_rest(input: Seq<u8>, count: nat)
    ensures
        checkpoint::parse_sizes(input, count) matches Some((_, rest)) ==> input.len() >= 8 * count
            && rest == input.skip(8 * count as int),
    decreases count,
{
    if count == 0 {
        assert(input.skip(0) =~= input);
    } else {
        lemma_sizes_rest(input, (count - 1) as nat);
        reveal(codec::parse_u64);
        if let Some((_, rest)) = checkpoint::parse_sizes(input, (count - 1) as nat) {
            if rest.len() >= 8 {
                assert(rest.skip(8) =~= input.skip(8 * count as int));
            }
        }
    }
}

proof fn lemma_opening_taken<P: PolicyEngine>(wire: CheckpointWire, input: Seq<u8>)
    requires
        input.len() >= 5,
    ensures
        replay::opened::<P>(wire, input) matches Some((limits, state, rest)) ==> {
            let header = input.take(CHECKPOINT_HEADER_BYTES as int);
            let record = input.subrange(CHECKPOINT_HEADER_BYTES as int, input.len() - rest.len());
            &&& input.len() >= CHECKPOINT_HEADER_BYTES + rest.len()
            &&& input == header + (record + rest)
            &&& state.log_root == checkpoint::logged(checkpoint::header_root(header), record)
            &&& state.records == 1
        },
{
    reveal(replay::opened);
    if let Some((limits, behind)) = replay::parse_limits(input.skip(5)) {
        lemma_sizes_rest(input.skip(5), 7);
        assert(behind =~= input.skip(CHECKPOINT_HEADER_BYTES as int));
        lemma_u8_exact(behind);
        if let Some((1, runs)) = codec::parse_u8(behind) {
            lemma_snapshot_exact(wire, runs);
            if let Some((e, x, k, p, rest)) = replay::parse_snapshot_runs(wire, runs) {
                let record = checkpoint::framed_snapshot(e, x, k, p);
                assert(behind == record + rest);
                assert(input =~= input.take(CHECKPOINT_HEADER_BYTES as int) + behind);
                assert(input.subrange(CHECKPOINT_HEADER_BYTES as int, input.len() - rest.len())
                    =~= record);
            }
        }
    }
}

/// A checkpoint is its header, its records and its footer, and the footer names the
/// log that the records lead to.
proof fn lemma_whole_apart<P: PolicyEngine>(wire: CheckpointWire, input: Seq<u8>)
    requires
        input.len() >= 5,
    ensures
        replay::whole::<P>(wire, input) matches Some((limits, state)) ==> {
            let header = input.take(CHECKPOINT_HEADER_BYTES as int);
            let records = records_of::<P>(wire, input);
            &&& input.len() >= CHECKPOINT_HEADER_BYTES
            &&& input == header + (joined(records) + (codec::put_u8(0) + replay::seal(
                wire,
                limits,
                state,
            )))
            &&& state.log_root == chained(checkpoint::header_root(header), records)
            &&& state.records == records.len()
        },
{
    lemma_opening_taken::<P>(wire, input);
    if let Some((limits, state, rest)) = replay::opened::<P>(wire, input) {
        let header = input.take(CHECKPOINT_HEADER_BYTES as int);
        let record = input.subrange(CHECKPOINT_HEADER_BYTES as int, input.len() - rest.len());
        let more = steps_of::<P>(wire, limits, state, rest);
        lemma_steps_taken::<P>(wire, limits, state, rest);
        lemma_joined_in_turn(record, more);
        lemma_chained_in_turn(checkpoint::header_root(header), record, more);
        if let Some((last, tail)) = replay::replayed::<P>(wire, limits, state, rest) {
            codec::lemma_concat_associates(record, joined(more), codec::put_u8(0) + tail);
        }
    }
}

// ---------------------------------------------------------------------------
// The messages that are hashed
// ---------------------------------------------------------------------------
/// Two messages with one hash.
pub open spec fn clash(left: Seq<u8>, right: Seq<u8>) -> bool {
    left != right && digest::hash(left) == digest::hash(right)
}

/// What is hashed to begin a log.
pub open spec fn header_message(header: Seq<u8>) -> Seq<u8> {
    digest::label_bytes("reflex-intelligence-checkpoint-header-v1\0") + header
}

/// What is hashed to log a record.
pub open spec fn record_message(previous: Digest, record: Seq<u8>) -> Seq<u8> {
    digest::label_bytes("reflex-intelligence-checkpoint-log-v1\0") + (previous.bytes()
        + codec::put_sized(record))
}

/// What is hashed to seal a checkpoint whose footer has this content.
pub open spec fn footer_message(with_policy: bool, content: Seq<u8>) -> Seq<u8> {
    if with_policy {
        digest::label_bytes("reflex-intelligence-checkpoint-footer-v2\0") + content
    } else {
        digest::label_bytes("reflex-intelligence-checkpoint-footer-v1\0") + content
    }
}

/// How long the content of a footer is.
pub open spec fn content_len(with_policy: bool) -> int {
    if with_policy {
        200
    } else {
        168
    }
}

/// The content of the footer that some bytes end with.
pub open spec fn content_of(with_policy: bool, bytes: Seq<u8>) -> Seq<u8> {
    bytes.subrange(bytes.len() - 32 - content_len(with_policy), bytes.len() - 32)
}

/// The messages that are hashed to log some records.
pub open spec fn log_messages(header: Seq<u8>, records: Seq<Seq<u8>>) -> Seq<Seq<u8>>
    decreases records.len(),
{
    if records.len() == 0 {
        seq![header_message(header)]
    } else {
        log_messages(header, records.drop_last()).push(
            record_message(
                chained(checkpoint::header_root(header), records.drop_last()),
                records.last(),
            ),
        )
    }
}

/// The messages that are hashed to vouch for a header, some records and the content
/// of a footer.
pub open spec fn messages(
    with_policy: bool,
    header: Seq<u8>,
    records: Seq<Seq<u8>>,
    content: Seq<u8>,
) -> Seq<Seq<u8>> {
    log_messages(header, records).push(footer_message(with_policy, content))
}

/// The messages that are hashed to vouch for a checkpoint.
pub open spec fn authenticated<P: PolicyEngine>(bytes: Seq<u8>) -> Seq<Seq<u8>> {
    match restore::wire_of(bytes) {
        Some(wire) => messages(
            wire.includes_policy,
            bytes.take(CHECKPOINT_HEADER_BYTES as int),
            records_of::<P>(wire, bytes),
            content_of(wire.includes_policy, bytes),
        ),
        None => seq![bytes.take(bytes.len() - 32)],
    }
}

/// A message of the one kind and a message of the other have one hash.
pub open spec fn clashing(left: Seq<Seq<u8>>, right: Seq<Seq<u8>>) -> bool {
    exists|i: int, j: int|
        0 <= i < left.len() && 0 <= j < right.len() && clash(
            #[trigger] left[i],
            #[trigger] right[j],
        )
}

/// Among the messages that vouch for two checkpoints there are two with one hash.
pub open spec fn collide<P: PolicyEngine>(left: Seq<u8>, right: Seq<u8>) -> bool {
    clashing(authenticated::<P>(left), authenticated::<P>(right))
}

/// The seal of a checkpoint: what it ends with.
pub open spec fn seal_of(bytes: Seq<u8>) -> Seq<u8> {
    bytes.skip(bytes.len() - 32)
}

proof fn lemma_prefix_cancels(prefix: Seq<u8>, left: Seq<u8>, right: Seq<u8>)
    requires
        prefix + left == prefix + right,
    ensures
        left == right,
{
    assert((prefix + left).skip(prefix.len() as int) =~= left);
    assert((prefix + right).skip(prefix.len() as int) =~= right);
}

proof fn lemma_record_message_apart(
    left: Digest,
    first: Seq<u8>,
    right: Digest,
    second: Seq<u8>,
)
    requires
        record_message(left, first) == record_message(right, second),
    ensures
        left == right,
        first == second,
{
    let label = digest::label_bytes("reflex-intelligence-checkpoint-log-v1\0");
    let a = left.bytes() + codec::put_sized(first);
    let b = right.bytes() + codec::put_sized(second);
    lemma_prefix_cancels(label, a, b);
    digest::lemma_digest_len(left);
    digest::lemma_digest_len(right);
    assert(a.take(32) =~= left.bytes());
    assert(b.take(32) =~= right.bytes());
    digest::lemma_bytes_injective(left, right);
    codec::lemma_put_u64_len(first.len() as u64);
    codec::lemma_put_u64_len(second.len() as u64);
    assert(a.skip(40) =~= first);
    assert(b.skip(40) =~= second);
}

/// Logs of equal length that end alike have the same header and the same records, or
/// two of their messages clash.
proof fn lemma_logs_agree(
    left: Seq<u8>,
    first: Seq<Seq<u8>>,
    right: Seq<u8>,
    second: Seq<Seq<u8>>,
)
    requires
        first.len() == second.len(),
        chained(checkpoint::header_root(left), first) == chained(
            checkpoint::header_root(right),
            second,
        ),
    ensures
        log_messages(left, first).len() == first.len() + 1,
        log_messages(right, second).len() == second.len() + 1,
        left == right && first == second || exists|i: int|
            0 <= i <= first.len() && clash(
                #[trigger] log_messages(left, first)[i],
                log_messages(right, second)[i],
            ),
    decreases first.len(),
{
    let n = first.len() as int;
    if n == 0 {
        let a = header_message(left);
        let b = header_message(right);
        assert(log_messages(left, first)[0] == a && log_messages(right, second)[0] == b);
        if a == b {
            lemma_prefix_cancels(
                digest::label_bytes("reflex-intelligence-checkpoint-header-v1\0"),
                left,
                right,
            );
            assert(first =~= second);
        } else {
            assert(clash(log_messages(left, first)[0], log_messages(right, second)[0]));
        }
    } else {
        let p = chained(checkpoint::header_root(left), first.drop_last());
        let q = chained(checkpoint::header_root(right), second.drop_last());
        let a = record_message(p, first.last());
        let b = record_message(q, second.last());
        lemma_log_lengths(left, first);
        lemma_log_lengths(right, second);
        lemma_log_lengths(left, first.drop_last());
        lemma_log_lengths(right, second.drop_last());
        assert(log_messages(left, first)[n] == a && log_messages(right, second)[n] == b);
        if a == b {
            lemma_record_message_apart(p, first.last(), q, second.last());
            lemma_logs_agree(left, first.drop_last(), right, second.drop_last());
            if left == right && first.drop_last() == second.drop_last() {
                assert(first =~= first.drop_last().push(first.last()));
                assert(second =~= second.drop_last().push(second.last()));
            } else {
                let i = choose|i: int|
                    0 <= i <= n - 1 && clash(
                        #[trigger] log_messages(left, first.drop_last())[i],
                        log_messages(right, second.drop_last())[i],
                    );
                assert(log_messages(left, first)[i] == log_messages(left, first.drop_last())[i]);
                assert(log_messages(right, second)[i] == log_messages(
                    right,
                    second.drop_last(),
                )[i]);
            }
        } else {
            assert(clash(log_messages(left, first)[n], log_messages(right, second)[n]));
        }
    }
}

proof fn lemma_log_lengths(header: Seq<u8>, records: Seq<Seq<u8>>)
    ensures
        log_messages(header, records).len() == records.len() + 1,
    decreases records.len(),
{
    if records.len() > 0 {
        lemma_log_lengths(header, records.drop_last());
    }
}

// ---------------------------------------------------------------------------
// Seals
// ---------------------------------------------------------------------------
proof fn lemma_footer_labels()
    ensures
        ({
            let second = digest::label_bytes("reflex-intelligence-checkpoint-footer-v2\0");
            &&& second.len() == 41
            &&& second[0] == 114
            &&& second[1] == 101
            &&& second[20] == 99
            &&& second[39] == 50
        }),
        ({
            let first = digest::label_bytes("reflex-intelligence-checkpoint-footer-v1\0");
            &&& first.len() == 41
            &&& first[0] == 114
            &&& first[1] == 101
            &&& first[39] == 49
        }),
{
    let second = "reflex-intelligence-checkpoint-footer-v2\0";
    let first = "reflex-intelligence-checkpoint-footer-v1\0";
    reveal_strlit("reflex-intelligence-checkpoint-footer-v2\0");
    reveal_strlit("reflex-intelligence-checkpoint-footer-v1\0");
    assert(vstd::utf8::is_ascii_chars(second@));
    assert(vstd::utf8::is_ascii_chars(first@));
    vstd::utf8::is_ascii_chars_encode_utf8(second@);
    vstd::utf8::is_ascii_chars_encode_utf8(first@);
    assert(second@[0] == 'r' && second@[1] == 'e' && second@[20] == 'c' && second@[39] == '2');
    assert(first@[0] == 'r' && first@[1] == 'e' && first@[39] == '1');
}

/// A checkpoint with segments ends with the content of its footer and its hash.
proof fn lemma_sealed<P: PolicyEngine>(wire: CheckpointWire, input: Seq<u8>)
    requires
        input.len() >= 5,
    ensures
        replay::whole::<P>(wire, input) matches Some((limits, state)) ==> {
            let content = content_of(wire.includes_policy, input);
            &&& input.len() >= 32 + content_len(wire.includes_policy)
            &&& content == checkpoint::footer_content(
                wire.includes_policy,
                state.records,
                state.checked,
                checkpoint::revision_of(wire.includes_policy, limits, state.checked),
                state.log_root,
            )
            &&& seal_of(input) == digest::hash(
                footer_message(wire.includes_policy, content),
            ).bytes()
        },
{
    lemma_whole_apart::<P>(wire, input);
    if let Some((limits, state)) = replay::whole::<P>(wire, input) {
        let revision = checkpoint::revision_of(wire.includes_policy, limits, state.checked);
        let content = checkpoint::footer_content(
            wire.includes_policy,
            state.records,
            state.checked,
            revision,
            state.log_root,
        );
        let seal = digest::hash(footer_message(wire.includes_policy, content)).bytes();
        let front = input.take(CHECKPOINT_HEADER_BYTES as int) + joined(
            records_of::<P>(wire, input),
        ) + codec::put_u8(0);
        lemma_content_ends(
            wire.includes_policy,
            state.records,
            state.checked,
            revision,
            state.log_root,
        );
        digest::lemma_digest_len(digest::hash(footer_message(wire.includes_policy, content)));
        assert(input =~= front + (content + seal));
        lemma_ends_apart(front, content, seal, content_len(wire.includes_policy));
    }
}

proof fn lemma_ends_apart(front: Seq<u8>, content: Seq<u8>, seal: Seq<u8>, length: int)
    requires
        content.len() == length,
        seal.len() == 32,
    ensures
        ({
            let bytes = front + (content + seal);
            &&& bytes.len() >= 32 + length
            &&& bytes.subrange(bytes.len() - 32 - length, bytes.len() - 32) == content
            &&& bytes.skip(bytes.len() - 32) == seal
        }),
{
    let bytes = front + (content + seal);
    assert(bytes.subrange(bytes.len() - 32 - length, bytes.len() - 32) =~= content);
    assert(bytes.skip(bytes.len() - 32) =~= seal);
}

/// Some bytes are a checkpoint of a header and some records: its footer counts the
/// records and names the log that they lead to, and behind it stands its hash.
pub open spec fn vouches(
    bytes: Seq<u8>,
    with_policy: bool,
    header: Seq<u8>,
    records: Seq<Seq<u8>>,
) -> bool {
    let content = content_of(with_policy, bytes);
    &&& bytes.len() >= 32 + content_len(with_policy)
    &&& header.len() == CHECKPOINT_HEADER_BYTES
    &&& bytes == header + (joined(records) + (codec::put_u8(0) + (content + seal_of(bytes))))
    &&& seal_of(bytes) == digest::hash(footer_message(with_policy, content)).bytes()
    &&& records.len() <= u64::MAX
    &&& content.take(8) == codec::put_u64(records.len() as u64)
    &&& content.skip(content.len() - 32) == chained(
        checkpoint::header_root(header),
        records,
    ).bytes()
}

proof fn lemma_content_ends(
    with_policy: bool,
    records: u64,
    roots: checkpoint::ComponentRoots,
    revision: Digest,
    log_root: Digest,
)
    ensures
        ({
            let content = checkpoint::footer_content(
                with_policy,
                records,
                roots,
                revision,
                log_root,
            );
            &&& content.len() == content_len(with_policy)
            &&& content.take(8) == codec::put_u64(records)
            &&& content.skip(content.len() - 32) == log_root.bytes()
        }),
{
    let content = checkpoint::footer_content(with_policy, records, roots, revision, log_root);
    codec::lemma_put_u64_len(records);
    digest::lemma_digest_len(roots.ecology);
    digest::lemma_digest_len(roots.experience);
    digest::lemma_digest_len(roots.knowledge);
    digest::lemma_digest_len(roots.policy);
    digest::lemma_digest_len(revision);
    digest::lemma_digest_len(log_root);
    assert(content.take(8) =~= codec::put_u64(records));
    assert(content.skip(content.len() - 32) =~= log_root.bytes());
}

/// A checkpoint that can be read vouches for its records.
proof fn lemma_whole_vouches<P: PolicyEngine>(wire: CheckpointWire, input: Seq<u8>)
    requires
        input.len() >= 5,
        replay::whole::<P>(wire, input) is Some,
    ensures
        vouches(
            input,
            wire.includes_policy,
            input.take(CHECKPOINT_HEADER_BYTES as int),
            records_of::<P>(wire, input),
        ),
{
    let (limits, state) = replay::whole::<P>(wire, input)->Some_0;
    lemma_whole_apart::<P>(wire, input);
    lemma_sealed::<P>(wire, input);
    lemma_content_ends(
        wire.includes_policy,
        state.records,
        state.checked,
        checkpoint::revision_of(wire.includes_policy, limits, state.checked),
        state.log_root,
    );
}

/// Two checkpoints under one seal have the same content in their footers, or the
/// messages of their footers clash.
proof fn lemma_footers_agree(with_policy: bool, a: Seq<u8>, other: bool, b: Seq<u8>)
    requires
        digest::hash(footer_message(with_policy, a)).bytes() == digest::hash(
            footer_message(other, b),
        ).bytes(),
    ensures
        with_policy == other && a == b || clash(
            footer_message(with_policy, a),
            footer_message(other, b),
        ),
{
    let x = footer_message(with_policy, a);
    let y = footer_message(other, b);
    digest::lemma_bytes_injective(digest::hash(x), digest::hash(y));
    if x == y {
        lemma_footer_labels();
        assert(with_policy == other) by {
            assert(x[39] == y[39]);
        }
        lemma_footer_contents(with_policy, a, b);
    }
}

/// Two checkpoints with records under one seal are the same, or two of the messages
/// that vouch for them clash.
proof fn lemma_vouched_agree(
    left: Seq<u8>,
    with_policy: bool,
    header: Seq<u8>,
    records: Seq<Seq<u8>>,
    right: Seq<u8>,
    other: bool,
    head: Seq<u8>,
    more: Seq<Seq<u8>>,
)
    requires
        vouches(left, with_policy, header, records),
        vouches(right, other, head, more),
        seal_of(left) == seal_of(right),
    ensures
        left == right || clashing(
            messages(with_policy, header, records, content_of(with_policy, left)),
            messages(other, head, more, content_of(other, right)),
        ),
{
    let a = content_of(with_policy, left);
    let b = content_of(other, right);
    let ours = messages(with_policy, header, records, a);
    let theirs = messages(other, head, more, b);
    let n = records.len() as int + 1;
    let m = more.len() as int + 1;
    lemma_log_lengths(header, records);
    lemma_log_lengths(head, more);
    lemma_footers_agree(with_policy, a, other, b);
    assert(ours[n] == footer_message(with_policy, a));
    assert(theirs[m] == footer_message(other, b));
    if clash(footer_message(with_policy, a), footer_message(other, b)) {
        assert(clash(ours[n], theirs[m]));
    } else {
        codec::lemma_parse_u64(records.len() as u64, Seq::empty());
        codec::lemma_parse_u64(more.len() as u64, Seq::empty());
        assert(records.len() == more.len());
        digest::lemma_bytes_injective(
            chained(checkpoint::header_root(header), records),
            chained(checkpoint::header_root(head), more),
        );
        lemma_logs_agree(header, records, head, more);
        if !(header == head && records == more) {
            let i = choose|i: int|
                0 <= i <= records.len() && clash(
                    #[trigger] log_messages(header, records)[i],
                    log_messages(head, more)[i],
                );
            assert(ours[i] == log_messages(header, records)[i]);
            assert(theirs[i] == log_messages(head, more)[i]);
            assert(clash(ours[i], theirs[i]));
        }
    }
}

/// Two checkpoints with segments under one seal.
proof fn lemma_segmented_agree<P: PolicyEngine>(
    wire: CheckpointWire,
    left: Seq<u8>,
    other: CheckpointWire,
    right: Seq<u8>,
)
    requires
        left.len() >= 5,
        right.len() >= 5,
        restore::wire_of(left) == Some(wire),
        restore::wire_of(right) == Some(other),
        replay::whole::<P>(wire, left) is Some,
        replay::whole::<P>(other, right) is Some,
        seal_of(left) == seal_of(right),
    ensures
        left == right || collide::<P>(left, right),
{
    lemma_whole_vouches::<P>(wire, left);
    lemma_whole_vouches::<P>(other, right);
    lemma_vouched_agree(
        left,
        wire.includes_policy,
        left.take(CHECKPOINT_HEADER_BYTES as int),
        records_of::<P>(wire, left),
        right,
        other.includes_policy,
        right.take(CHECKPOINT_HEADER_BYTES as int),
        records_of::<P>(other, right),
    );
}

proof fn lemma_footer_contents(with_policy: bool, left: Seq<u8>, right: Seq<u8>)
    requires
        footer_message(with_policy, left) == footer_message(with_policy, right),
    ensures
        left == right,
{
    if with_policy {
        lemma_prefix_cancels(
            digest::label_bytes("reflex-intelligence-checkpoint-footer-v2\0"),
            left,
            right,
        );
    } else {
        lemma_prefix_cancels(
            digest::label_bytes("reflex-intelligence-checkpoint-footer-v1\0"),
            left,
            right,
        );
    }
}

/// A checkpoint without segments is sealed with the hash of what stands before.
proof fn lemma_plain_sealed<P: PolicyEngine>(bytes: Seq<u8>)
    requires
        restore::wire_of(bytes) is None,
        restore::restored::<P>(bytes) is Ok,
    ensures
        bytes.len() >= 37,
        bytes[0] == 82,
        authenticated::<P>(bytes) == seq![bytes.take(bytes.len() - 32)],
        seal_of(bytes) == digest::hash(bytes.take(bytes.len() - 32)).bytes(),
{
    let payload = bytes.take(bytes.len() - 32);
    assert(payload[0] == bytes[0]);
}

/// A seal of either kind cannot stand under the other without a clash.
proof fn lemma_kinds_apart(
    left: Seq<u8>,
    with_policy: bool,
    header: Seq<u8>,
    records: Seq<Seq<u8>>,
    right: Seq<u8>,
)
    requires
        vouches(left, with_policy, header, records),
        right.len() >= 37,
        right[0] == 82 || right[1] == 70,
        digest::hash(right.take(right.len() - 32)).bytes() == seal_of(right),
        seal_of(left) == seal_of(right),
    ensures
        ({
            let ours = messages(with_policy, header, records, content_of(with_policy, left));
            let theirs = seq![right.take(right.len() - 32)];
            clashing(ours, theirs) && clashing(theirs, ours)
        }),
{
    let payload = right.take(right.len() - 32);
    let content = content_of(with_policy, left);
    let ours = messages(with_policy, header, records, content);
    let theirs = seq![payload];
    let message = footer_message(with_policy, content);
    let n = records.len() as int + 1;
    lemma_log_lengths(header, records);
    lemma_footer_labels();
    digest::lemma_bytes_injective(digest::hash(message), digest::hash(payload));
    assert(message[0] == 114 && message[1] == 101);
    assert(payload[0] == right[0] && payload[1] == right[1]);
    assert(ours[n] == message && theirs[0] == payload);
    assert(message != payload);
    assert(clash(ours[n], theirs[0]));
    assert(clash(theirs[0], ours[n]));
}

proof fn lemma_sealed_payload(left: Seq<u8>, right: Seq<u8>)
    requires
        left.len() >= 32,
        right.len() >= 32,
        left.take(left.len() - 32) == right.take(right.len() - 32),
        seal_of(left) == seal_of(right),
    ensures
        left == right,
{
    assert(left =~= left.take(left.len() - 32) + seal_of(left));
    assert(right =~= right.take(right.len() - 32) + seal_of(right));
}

proof fn lemma_payloads_clash<P: PolicyEngine>(
    left: Seq<u8>,
    right: Seq<u8>,
    first: Seq<u8>,
    second: Seq<u8>,
)
    requires
        authenticated::<P>(left) == seq![first],
        authenticated::<P>(right) == seq![second],
        clash(first, second),
    ensures
        collide::<P>(left, right),
{
    let messages = authenticated::<P>(left);
    let others = authenticated::<P>(right);
    assert(messages.len() == 1 && others.len() == 1);
    assert(clash(messages[0], others[0]));
}

proof fn lemma_plain_agree<P: PolicyEngine>(left: Seq<u8>, right: Seq<u8>)
    requires
        restore::wire_of(left) is None,
        restore::wire_of(right) is None,
        restore::restored::<P>(left) is Ok,
        restore::restored::<P>(right) is Ok,
        seal_of(left) == seal_of(right),
    ensures
        left == right || collide::<P>(left, right),
{
    lemma_plain_sealed::<P>(left);
    lemma_plain_sealed::<P>(right);
    let a = left.take(left.len() - 32);
    let b = right.take(right.len() - 32);
    digest::lemma_bytes_injective(digest::hash(a), digest::hash(b));
    if a == b {
        lemma_sealed_payload(left, right);
    } else {
        lemma_payloads_clash::<P>(left, right, a, b);
    }
}

proof fn lemma_restored_is_whole<P: PolicyEngine>(wire: CheckpointWire, bytes: Seq<u8>)
    requires
        restore::wire_of(bytes) == Some(wire),
        restore::restored::<P>(bytes) is Ok,
    ensures
        bytes.len() >= 5,
        replay::whole::<P>(wire, bytes) is Some,
{
}

proof fn lemma_other_kind<P: PolicyEngine>(wire: CheckpointWire, left: Seq<u8>, right: Seq<u8>)
    requires
        restore::wire_of(left) == Some(wire),
        restore::wire_of(right) is None,
        restore::restored::<P>(left) is Ok,
        restore::restored::<P>(right) is Ok,
        seal_of(left) == seal_of(right),
    ensures
        collide::<P>(left, right),
        collide::<P>(right, left),
{
    lemma_restored_is_whole::<P>(wire, left);
    lemma_whole_vouches::<P>(wire, left);
    lemma_plain_sealed::<P>(right);
    lemma_kinds_apart(
        left,
        wire.includes_policy,
        left.take(CHECKPOINT_HEADER_BYTES as int),
        records_of::<P>(wire, left),
        right,
    );
}

/// Two checkpoints that can be restored and end with the same seal are the same
/// checkpoint, or two messages with one SHA-256 hash are among those that vouch for
/// them.
pub proof fn law_one_seal_one_checkpoint<P: PolicyEngine>(left: Seq<u8>, right: Seq<u8>)
    requires
        restore::restored::<P>(left) is Ok,
        restore::restored::<P>(right) is Ok,
        seal_of(left) == seal_of(right),
    ensures
        left == right || collide::<P>(left, right),
{
    if let Some(wire) = restore::wire_of(left) {
        if let Some(other) = restore::wire_of(right) {
            lemma_restored_is_whole::<P>(wire, left);
            lemma_restored_is_whole::<P>(other, right);
            lemma_segmented_agree::<P>(wire, left, other, right);
        } else {
            lemma_other_kind::<P>(wire, left, right);
        }
    } else if let Some(wire) = restore::wire_of(right) {
        lemma_other_kind::<P>(wire, right, left);
    } else {
        lemma_plain_agree::<P>(left, right);
    }
}

// ---------------------------------------------------------------------------
// The checkpoint of a core
// ---------------------------------------------------------------------------
/// The checkpoint of a core is a header, some records and the core's own footer, and
/// the log of the core is what they lead to.
pub open spec fn written(core: CoreView, header: Seq<u8>, records: Seq<Seq<u8>>) -> bool {
    &&& header.len() == CHECKPOINT_HEADER_BYTES
    &&& restore::version_of(header) == Some(17u8)
    &&& core.checkpoint == header + (joined(records) + checkpoint::footer(
        true,
        core.records,
        core.roots,
        core.revision,
        core.log_root,
    ))
    &&& core.log_root == chained(checkpoint::header_root(header), records)
    &&& core.records == records.len()
    &&& core.revision == checkpoint::revision_of(true, core.limits, core.roots)
    &&& core.roots.experience == core.components.ledger.root()
}

/// The messages that are hashed to vouch for the checkpoint of a core.
pub open spec fn vouching(core: CoreView, header: Seq<u8>, records: Seq<Seq<u8>>) -> Seq<Seq<u8>> {
    messages(true, header, records, content_of(true, core.checkpoint))
}

/// A core that is assembled has written its snapshot and nothing else.
pub proof fn law_assembled_core_is_written(
    limits: IntelligenceLimits,
    components: checkpoint::ComponentsView,
    policy_import: bool,
    ftrl_import: bool,
    knowledge_import: bool,
)
    ensures
        written(
            CoreView::assembled(limits, components, policy_import, ftrl_import, knowledge_import),
            checkpoint::header(17, limits),
            seq![checkpoint::snapshot_record(CheckpointWire::current_spec(), components)],
        ),
{
    let wire = CheckpointWire::current_spec();
    let core = CoreView::assembled(
        limits,
        components,
        policy_import,
        ftrl_import,
        knowledge_import,
    );
    let header = checkpoint::header(17, limits);
    let record = checkpoint::snapshot_record(wire, components);
    let none = Seq::<Seq<u8>>::empty();
    checkpoint::lemma_header_len(17, limits);
    lemma_joined_in_turn(record, none);
    lemma_chained_in_turn(checkpoint::header_root(header), record, none);
    assert(seq![record] + none =~= seq![record]);
    assert(record + joined(none) =~= record);
    codec::lemma_concat_associates(
        header,
        record,
        checkpoint::footer(true, core.records, core.roots, core.revision, core.log_root),
    );
}

/// The checkpoint of a core that leads to itself can be read.
proof fn lemma_faithful_is_whole<P: PolicyEngine>(core: CoreView)
    requires
        continuity::faithful::<P>(core),
    ensures
        replay::whole::<P>(CheckpointWire::current_spec(), core.checkpoint) == Some(
            (core.limits, core.replay()),
        ),
        core.checkpoint.len() >= checkpoint::CHECKPOINT_FOOTER_BYTES + 5,
        restore::version_of(core.checkpoint) == Some(17u8),
{
    let wire = CheckpointWire::current_spec();
    let body = checkpoint::body(core.checkpoint);
    let tail = replay::seal(wire, core.limits, core.replay());
    codec::lemma_parse_u8(0, tail);
    assert(core.checkpoint == body + (codec::put_u8(0) + tail));
    assert(replay::replayed::<P>(wire, core.limits, core.replay(), codec::put_u8(0) + tail)
        == Some((core.replay(), tail)));
    assert(replay::whole::<P>(wire, core.checkpoint) == Some((core.limits, core.replay()))) by {
        reveal(continuity::leads_to);
    }
    assert(restore::version_of(core.checkpoint) == Some(17u8)) by {
        assert(forall|i: int| 0 <= i < 5 ==> core.checkpoint[i] == body[i]);
    }
    checkpoint::lemma_footer_len(core.records, core.roots, core.revision, core.log_root);
}

/// A core that leads to itself has written the records that are read from its
/// checkpoint.
pub proof fn law_faithful_core_is_written<P: PolicyEngine>(core: CoreView)
    requires
        continuity::faithful::<P>(core),
    ensures
        written(
            core,
            core.checkpoint.take(CHECKPOINT_HEADER_BYTES as int),
            records_of::<P>(CheckpointWire::current_spec(), core.checkpoint),
        ),
{
    lemma_faithful_is_whole::<P>(core);
    lemma_whole_apart::<P>(CheckpointWire::current_spec(), core.checkpoint);
}

/// A core that takes a step writes the record of the step, where it has one, behind
/// those that it has written.
pub proof fn law_step_is_written<P: PolicyEngine>(
    core: CoreView,
    header: Seq<u8>,
    records: Seq<Seq<u8>>,
    frame: FrameView,
    step: TransitionView,
)
    requires
        written(core, header, records),
        core.staged::<P>(frame) == Ok::<TransitionView, IntelligenceError>(step),
    ensures
        written(
            core.committed(step),
            header,
            if step.record.len() == 0 {
                records
            } else {
                records.push(step.record)
            },
        ),
{
    let next = core.committed(step);
    continuity::lemma_step_recorded::<P>(core, frame, step);
    if step.record.len() > 0 {
        let all = records.push(step.record);
        let footer = checkpoint::footer(
            true,
            core.records,
            core.roots,
            core.revision,
            core.log_root,
        );
        let more = checkpoint::footer(true, step.records, step.roots, step.revision, step.log_root);
        checkpoint::lemma_footer_len(core.records, core.roots, core.revision, core.log_root);
        assert(all.drop_last() =~= records);
        assert(checkpoint::body(core.checkpoint) =~= header + joined(records));
        assert(next.checkpoint == (header + joined(records)) + step.record + more);
        assert(next.checkpoint =~= header + (joined(all) + more));
    }
}

/// The checkpoint of a core vouches for what the core has written.
proof fn lemma_written_vouches(core: CoreView, header: Seq<u8>, records: Seq<Seq<u8>>)
    requires
        written(core, header, records),
    ensures
        vouches(core.checkpoint, true, header, records),
        content_of(true, core.checkpoint) == checkpoint::footer_content(
            true,
            core.records,
            core.roots,
            core.revision,
            core.log_root,
        ),
        restore::version_of(core.checkpoint) == Some(17u8),
{
    let content = checkpoint::footer_content(
        true,
        core.records,
        core.roots,
        core.revision,
        core.log_root,
    );
    let seal = digest::hash(footer_message(true, content)).bytes();
    let front = header + joined(records) + codec::put_u8(0);
    lemma_content_ends(true, core.records, core.roots, core.revision, core.log_root);
    digest::lemma_digest_len(digest::hash(footer_message(true, content)));
    assert(core.checkpoint =~= front + (content + seal));
    lemma_ends_apart(front, content, seal, content_len(true));
    assert(forall|i: int| 0 <= i < 5 ==> core.checkpoint[i] == header[i]);
}

// ---------------------------------------------------------------------------
// Changed checkpoints
// ---------------------------------------------------------------------------
proof fn lemma_announced_again(bytes: Seq<u8>, index: int, value: u8)
    requires
        5 <= index < bytes.len(),
    ensures
        restore::version_of(bytes.update(index, value)) == restore::version_of(bytes),
{
    assert(forall|i: int| 0 <= i < 5 ==> bytes.update(index, value)[i] == bytes[i]);
}

/// A checkpoint whose seal was changed is not read.
proof fn lemma_changed_seal_is_refused<P: PolicyEngine>(
    core: CoreView,
    header: Seq<u8>,
    records: Seq<Seq<u8>>,
    index: int,
    value: u8,
)
    requires
        written(core, header, records),
        core.checkpoint.len() - 32 <= index < core.checkpoint.len(),
        value != core.checkpoint[index],
    ensures
        restore::restored::<P>(core.checkpoint.update(index, value)) == Err::<
            CoreView,
            IntelligenceError,
        >(IntelligenceError::CorruptState),
{
    let wire = CheckpointWire::current_spec();
    let bytes = core.checkpoint;
    let changed = bytes.update(index, value);
    lemma_written_vouches(core, header, records);
    lemma_announced_again(bytes, index, value);
    lemma_sealed::<P>(wire, changed);
    assert(content_of(true, changed) =~= content_of(true, bytes));
    let place = index - (bytes.len() - 32);
    assert(seal_of(changed)[place] == value);
    assert(seal_of(bytes)[place] == bytes[index]);
}

/// The checkpoint of a core with one byte changed is refused as corrupt, or one of the
/// messages that vouch for it has the SHA-256 hash of another that is read from the
/// changed bytes.
pub proof fn law_changed_checkpoint_is_refused<P: PolicyEngine>(
    core: CoreView,
    header: Seq<u8>,
    records: Seq<Seq<u8>>,
    index: int,
    value: u8,
)
    requires
        written(core, header, records),
        0 <= index < core.checkpoint.len(),
        value != core.checkpoint[index],
    ensures
        restore::restored::<P>(core.checkpoint.update(index, value)) == Err::<
            CoreView,
            IntelligenceError,
        >(IntelligenceError::CorruptState) || clashing(
            vouching(core, header, records),
            authenticated::<P>(core.checkpoint.update(index, value)),
        ),
{
    let changed = core.checkpoint.update(index, value);
    lemma_written_vouches(core, header, records);
    if index >= core.checkpoint.len() - 32 {
        lemma_changed_seal_is_refused::<P>(core, header, records, index, value);
    } else {
        assert(seal_of(changed) =~= seal_of(core.checkpoint));
        assert(changed[index] != core.checkpoint[index]);
        match restore::wire_of(changed) {
            Some(wire) => if restore::restored::<P>(changed) is Ok {
                lemma_restored_is_whole::<P>(wire, changed);
                lemma_whole_vouches::<P>(wire, changed);
                lemma_vouched_agree(
                    core.checkpoint,
                    true,
                    header,
                    records,
                    changed,
                    wire.includes_policy,
                    changed.take(CHECKPOINT_HEADER_BYTES as int),
                    records_of::<P>(wire, changed),
                );
            },
            None => if restore::restored::<P>(changed) != Err::<CoreView, IntelligenceError>(
                IntelligenceError::CorruptState,
            ) {
                lemma_kinds_apart(core.checkpoint, true, header, records, changed);
            },
        }
    }
}

proof fn lemma_revision_label()
    ensures
        ({
            let label = digest::label_bytes("reflex-intelligence-revision-v5\0");
            label.len() == 32 && label[20] == 114
        }),
{
    let label = "reflex-intelligence-revision-v5\0";
    reveal_strlit("reflex-intelligence-revision-v5\0");
    assert(vstd::utf8::is_ascii_chars(label@));
    vstd::utf8::is_ascii_chars_encode_utf8(label@);
    assert(label@[20] == 'r');
}

/// What a revision is the hash of.
pub open spec fn revision_message(core: CoreView) -> Seq<u8> {
    digest::label_bytes("reflex-intelligence-revision-v5\0") + (checkpoint::put_sizes(
        checkpoint::limit_list(core.limits),
    ) + checkpoint::put_roots(true, core.roots))
}

/// The checkpoint of a core ends with the identity of its footer, which is not the
/// revision of the core, unless the two messages that they are the SHA-256 hashes of
/// clash.
pub proof fn law_identity_is_not_the_revision(
    core: CoreView,
    header: Seq<u8>,
    records: Seq<Seq<u8>>,
)
    requires
        written(core, header, records),
    ensures
        ({
            let message = footer_message(true, content_of(true, core.checkpoint));
            &&& seal_of(core.checkpoint) == digest::hash(message).bytes()
            &&& seal_of(core.checkpoint) != core.revision.bytes() || clash(
                message,
                revision_message(core),
            )
        }),
{
    let message = footer_message(true, content_of(true, core.checkpoint));
    lemma_written_vouches(core, header, records);
    lemma_footer_labels();
    lemma_revision_label();
    assert(core.revision == digest::hash(revision_message(core)));
    if seal_of(core.checkpoint) == core.revision.bytes() {
        digest::lemma_bytes_injective(digest::hash(message), core.revision);
        assert(message[20] == 99 && revision_message(core)[20] == 114);
    }
}

} // verus!
