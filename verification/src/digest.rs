//! Thirty-two byte identities and the hash that produces them.
use sha2::{Digest as _, Sha256};
use vstd::prelude::*;

use crate::codec;
use crate::codec::{Decoder, Wire};

verus! {

/// How many bytes an identity takes.
pub const DIGEST_BYTES: usize = 32;

/// A thirty-two byte identity, held as four little-endian words.
#[derive(Clone, Copy, Debug, PartialEq, Eq, Hash, Structural)]
pub struct Digest {
    pub first: u64,
    pub second: u64,
    pub third: u64,
    pub fourth: u64,
}

impl View for Digest {
    type V = Digest;

    open spec fn view(&self) -> Digest {
        *self
    }
}

impl Digest {
    /// The thirty-two bytes.
    pub open spec fn bytes(self) -> Seq<u8> {
        codec::put_u64(self.first) + (codec::put_u64(self.second) + (codec::put_u64(self.third)
            + codec::put_u64(self.fourth)))
    }

    /// The identity with the given bytes.
    pub fn new(bytes: [u8; 32]) -> (digest: Self)
        ensures
            digest.bytes() == bytes@,
            digest == digest_of(bytes@),
    {
        let mut input = Decoder::new(bytes.as_slice());
        proof {
            reveal(parse_digest);
            lemma_digest_of(bytes@);
        }
        match read_digest(&mut input) {
            Ok(digest) => digest,
            Err(_) => Digest { first: 0, second: 0, third: 0, fourth: 0 },
        }
    }

    pub fn to_bytes(self) -> (bytes: [u8; 32])
        ensures
            bytes@ == self.bytes(),
    {
        broadcast use codec::group_codec;

        let mut output: Vec<u8> = Vec::new();
        write_digest(self, &mut output);
        proof {
            lemma_digest_len(self);
            assert(output@ =~= self.bytes());
        }
        let mut bytes = [0u8; 32];
        let mut index: usize = 0;
        while index < 32
            invariant
                index <= 32,
                output@.len() == 32,
                forall|i: int| 0 <= i < index ==> bytes@[i] == output@[i],
            decreases 32 - index,
        {
            bytes[index] = output[index];
            index = index + 1;
        }
        assert(bytes@ =~= output@);
        bytes
    }

    /// Whether the bytes of `self` come before those of `other`, compared from
    /// the first byte on.
    pub fn precedes(self, other: Self) -> (before: bool)
        ensures
            before == lexicographic(self.bytes(), other.bytes()),
    {
        let left = self.to_bytes();
        let right = other.to_bytes();
        let mut index: usize = 0;
        while index < 32
            invariant
                index <= 32,
                left@.len() == 32,
                right@.len() == 32,
                left@ == self.bytes(),
                right@ == other.bytes(),
                forall|i: int| 0 <= i < index ==> left@[i] == right@[i],
            decreases 32 - index,
        {
            if left[index] < right[index] {
                assert(agree_below(left@, right@, index as int));
                return true;
            }
            if left[index] > right[index] {
                return false;
            }
            index = index + 1;
        }
        false
    }
}

/// Byte order: the first difference decides, and a proper prefix comes first.
pub open spec fn lexicographic(left: Seq<u8>, right: Seq<u8>) -> bool {
    exists|i: int|
        0 <= i <= left.len() && i <= right.len() && #[trigger] agree_below(left, right, i) && (if i
            == left.len() {
            i < right.len()
        } else {
            i < right.len() && left[i] < right[i]
        })
}

/// The two sequences agree on their first `count` bytes.
pub open spec fn agree_below(left: Seq<u8>, right: Seq<u8>, count: int) -> bool {
    forall|i: int| 0 <= i < count ==> left[i] == right[i]
}

/// Byte order on identities is strict, transitive and total.
pub proof fn lemma_order(left: Digest, middle: Digest, right: Digest)
    ensures
        !lexicographic(left.bytes(), left.bytes()),
        lexicographic(left.bytes(), middle.bytes()) ==> !lexicographic(
            middle.bytes(),
            left.bytes(),
        ),
        lexicographic(left.bytes(), middle.bytes()) && lexicographic(middle.bytes(), right.bytes())
            ==> lexicographic(left.bytes(), right.bytes()),
        left != middle ==> lexicographic(left.bytes(), middle.bytes()) || lexicographic(
            middle.bytes(),
            left.bytes(),
        ),
{
    let (a, b, c) = (left.bytes(), middle.bytes(), right.bytes());
    lemma_digest_len(left);
    lemma_digest_len(middle);
    lemma_digest_len(right);
    if lexicographic(a, b) && lexicographic(b, c) {
        let i = first_difference(a, b);
        let j = first_difference(b, c);
        let k = if i < j {
            i
        } else {
            j
        };
        assert(agree_below(a, c, k)) by {
            assert forall|n: int| 0 <= n < k implies a[n] == c[n] by {
                assert(a[n] == b[n]);
                assert(b[n] == c[n]);
            }
        }
    }
    if lexicographic(a, b) && lexicographic(b, a) {
        let i = first_difference(a, b);
        let j = first_difference(b, a);
        assert(i < j || j < i || i == j);
    }
    if left != middle {
        if a == b {
            lemma_bytes_injective(left, middle);
        }
        lemma_some_difference(a, b, 0);
    }
}

/// Where one sequence comes before another, the place that decides it.
spec fn first_difference(left: Seq<u8>, right: Seq<u8>) -> int {
    choose|i: int|
        0 <= i <= left.len() && i <= right.len() && #[trigger] agree_below(left, right, i) && (if i
            == left.len() {
            i < right.len()
        } else {
            i < right.len() && left[i] < right[i]
        })
}

proof fn lemma_some_difference(left: Seq<u8>, right: Seq<u8>, from: int)
    requires
        left.len() == right.len(),
        0 <= from <= left.len(),
        agree_below(left, right, from),
        left != right,
    ensures
        lexicographic(left, right) || lexicographic(right, left),
    decreases left.len() - from,
{
    if from == left.len() {
        assert(left =~= right);
    } else if left[from] == right[from] {
        lemma_some_difference(left, right, from + 1);
    } else {
        assert(agree_below(right, left, from));
    }
}

/// The identity whose bytes stand at the front of `bytes`.
pub open spec fn digest_of(bytes: Seq<u8>) -> Digest {
    Digest {
        first: vstd::bytes::spec_u64_from_le_bytes(bytes.subrange(0, 8)),
        second: vstd::bytes::spec_u64_from_le_bytes(bytes.subrange(8, 16)),
        third: vstd::bytes::spec_u64_from_le_bytes(bytes.subrange(16, 24)),
        fourth: vstd::bytes::spec_u64_from_le_bytes(bytes.subrange(24, 32)),
    }
}

/// Reads an identity.
#[verifier::opaque]
pub open spec fn parse_digest(input: Seq<u8>) -> Option<(Digest, Seq<u8>)> {
    if input.len() < 32 {
        None
    } else {
        Some((digest_of(input), input.skip(32)))
    }
}

pub broadcast proof fn lemma_digest_len(digest: Digest)
    ensures
        #[trigger] digest.bytes().len() == 32,
{
    broadcast use codec::group_codec;

}

pub proof fn lemma_digest_of(bytes: Seq<u8>)
    requires
        bytes.len() == 32,
    ensures
        digest_of(bytes).bytes() == bytes,
{
    vstd::bytes::lemma_auto_spec_u64_to_from_le_bytes();
    assert(digest_of(bytes).bytes() =~= bytes.subrange(0, 8) + (bytes.subrange(8, 16) + (
    bytes.subrange(16, 24) + bytes.subrange(24, 32))));
    assert(bytes.subrange(0, 8) + (bytes.subrange(8, 16) + (bytes.subrange(16, 24)
        + bytes.subrange(24, 32))) =~= bytes);
}

pub broadcast proof fn lemma_parse_digest(digest: Digest, rest: Seq<u8>)
    ensures
        #[trigger] parse_digest(digest.bytes() + rest) == Some((digest, rest)),
{
    reveal(parse_digest);
    vstd::bytes::lemma_auto_spec_u64_to_from_le_bytes();
    lemma_digest_len(digest);
    let input = digest.bytes() + rest;
    assert(input.subrange(0, 8) =~= codec::put_u64(digest.first));
    assert(input.subrange(8, 16) =~= codec::put_u64(digest.second));
    assert(input.subrange(16, 24) =~= codec::put_u64(digest.third));
    assert(input.subrange(24, 32) =~= codec::put_u64(digest.fourth));
    assert(input.skip(32) =~= rest);
}

/// Two identities with the same bytes are the same identity.
pub proof fn lemma_bytes_injective(left: Digest, right: Digest)
    requires
        left.bytes() == right.bytes(),
    ensures
        left == right,
{
    lemma_parse_digest(left, Seq::empty());
    lemma_parse_digest(right, Seq::empty());
}

pub broadcast group group_digest {
    codec::lemma_concat_associates,
    codec::lemma_concat_empty,
    codec::lemma_parse_bytes,
    codec::lemma_parse_u8,
    codec::lemma_parse_u32,
    codec::lemma_parse_u64,
    codec::lemma_put_u32_len,
    codec::lemma_put_u64_len,
    lemma_digest_len,
    lemma_parse_digest,
}

pub fn write_digest(digest: Digest, output: &mut Vec<u8>)
    ensures
        final(output)@ == old(output)@ + digest.bytes(),
{
    broadcast use codec::group_codec;

    codec::write_u64(digest.first, output);
    codec::write_u64(digest.second, output);
    codec::write_u64(digest.third, output);
    codec::write_u64(digest.fourth, output);
}

pub fn read_digest(input: &mut Decoder<'_>) -> (result: Result<Digest, ()>)
    ensures
        codec::reads(result, final(input)@, parse_digest(old(input)@)),
{
    proof {
        reveal(parse_digest);
        reveal(codec::parse_bytes);
        reveal(codec::parse_u64);
    }
    let bytes = match input.take(32) {
        Ok(bytes) => bytes,
        Err(_) => return Err(()),
    };
    let ghost head = old(input)@.take(32);
    let mut words = Decoder::new(bytes);
    let first: u64 = words.read_u64()?;
    let second: u64 = words.read_u64()?;
    let third: u64 = words.read_u64()?;
    let fourth: u64 = words.read_u64()?;
    assert(head.take(8) =~= old(input)@.subrange(0, 8));
    assert(head.skip(8).take(8) =~= old(input)@.subrange(8, 16));
    assert(head.skip(8).skip(8).take(8) =~= old(input)@.subrange(16, 24));
    assert(head.skip(8).skip(8).skip(8).take(8) =~= old(input)@.subrange(24, 32));
    Ok(Digest { first, second, third, fourth })
}

impl<'a> Decoder<'a> {
    /// Reads an identity.
    pub fn read_digest(&mut self) -> (result: Result<Digest, ()>)
        ensures
            codec::reads(result, final(self)@, parse_digest(old(self)@)),
    {
        read_digest(self)
    }
}

impl Wire<()> for Digest {
    open spec fn wire(format: (), value: Digest) -> Seq<u8> {
        value.bytes()
    }

    open spec fn parse(format: (), input: Seq<u8>) -> Option<(Digest, Seq<u8>)> {
        parse_digest(input)
    }

    open spec fn admissible(format: (), value: Digest) -> bool {
        true
    }

    open spec fn least_bytes(format: ()) -> nat {
        32
    }

    proof fn lemma_round_trip(format: (), value: Digest, rest: Seq<u8>) {
        lemma_parse_digest(value, rest);
    }

    proof fn lemma_least_bytes(format: (), value: Digest) {
        lemma_digest_len(value);
    }

    fn write(&self, format: &(), output: &mut Vec<u8>) {
        write_digest(*self, output);
    }

    fn read(format: &(), input: &mut Decoder<'_>) -> (result: Result<Self, ()>) {
        read_digest(input)
    }
}

// ---------------------------------------------------------------------------
// Hashing
// ---------------------------------------------------------------------------
/// The thirty-two bytes that SHA-256 assigns to a message.
pub uninterp spec fn sha256(message: Seq<u8>) -> Seq<u8>;

/// Calls `sha2::Sha256::digest` and turns its output into an array. The claim is
/// that the bytes are a function of the message alone, named [`sha256`]; that
/// there are thirty-two of them is the array's length.
#[verifier::external_body]
fn sha256_digest(message: &[u8]) -> (bytes: [u8; 32])
    ensures
        bytes@ == sha256(message@),
{
    Sha256::digest(message).into()
}

/// The SHA-256 identity of a message.
pub open spec fn hash(message: Seq<u8>) -> Digest {
    digest_of(sha256(message))
}

pub fn hash_bytes(message: &[u8]) -> (digest: Digest)
    ensures
        digest == hash(message@),
        digest.bytes() == sha256(message@),
{
    Digest::new(sha256_digest(message))
}

/// The bytes of a domain label.
pub open spec fn label_bytes(label: &str) -> Seq<u8> {
    vstd::utf8::encode_utf8(label@)
}

/// The identity of some content under a domain label.
pub open spec fn labelled(label: &str, content: Seq<u8>) -> Digest {
    hash(label_bytes(label) + content)
}

/// Hashes a domain label and the content behind it.
pub fn hash_labelled(label: &str, content: &[u8]) -> (digest: Digest)
    ensures
        digest == labelled(label, content@),
{
    let mut message: Vec<u8> = Vec::new();
    codec::write_bytes(label.as_bytes(), &mut message);
    codec::write_bytes(content, &mut message);
    assert(message@ =~= label_bytes(label) + content@);
    hash_bytes(message.as_slice())
}

} // verus!
