//! Canonical little-endian byte codec: primitive writers, a bounded reader and
//! the contract every encodable type meets.
use vstd::bytes::{u16_from_le_bytes, u32_from_le_bytes, u32_to_le_bytes, u64_from_le_bytes, u64_to_le_bytes};
use vstd::prelude::*;

verus! {

// ---------------------------------------------------------------------------
// Sequences of bytes
// ---------------------------------------------------------------------------
/// Concatenation is associative; used as a rewrite rule to the right.
pub broadcast proof fn lemma_concat_associates(a: Seq<u8>, b: Seq<u8>, c: Seq<u8>)
    ensures
        #[trigger] ((a + b) + c) == a + (b + c),
{
    assert((a + b) + c =~= a + (b + c));
}

/// Appending nothing changes nothing.
pub broadcast proof fn lemma_concat_empty(a: Seq<u8>)
    ensures
        #[trigger] (a + Seq::<u8>::empty()) == a,
{
    assert(a + Seq::<u8>::empty() =~= a);
}

/// The views of a sequence of values.
pub open spec fn views<T: View>(items: Seq<T>) -> Seq<T::V> {
    Seq::new(items.len(), |i: int| items[i]@)
}

// ---------------------------------------------------------------------------
// Primitive grammar
// ---------------------------------------------------------------------------
/// Splits the first `count` bytes off.
#[verifier::opaque]
pub open spec fn parse_bytes(input: Seq<u8>, count: nat) -> Option<(Seq<u8>, Seq<u8>)> {
    if input.len() < count {
        None
    } else {
        Some((input.take(count as int), input.skip(count as int)))
    }
}

/// Reads one byte.
#[verifier::opaque]
pub open spec fn parse_u8(input: Seq<u8>) -> Option<(u8, Seq<u8>)> {
    if input.len() < 1 {
        None
    } else {
        Some((input[0], input.skip(1)))
    }
}

/// Reads a little-endian `u16`.
#[verifier::opaque]
pub open spec fn parse_u16(input: Seq<u8>) -> Option<(u16, Seq<u8>)> {
    if input.len() < 2 {
        None
    } else {
        Some((vstd::bytes::spec_u16_from_le_bytes(input.take(2)), input.skip(2)))
    }
}

/// Reads a little-endian `u32`.
#[verifier::opaque]
pub open spec fn parse_u32(input: Seq<u8>) -> Option<(u32, Seq<u8>)> {
    if input.len() < 4 {
        None
    } else {
        Some((vstd::bytes::spec_u32_from_le_bytes(input.take(4)), input.skip(4)))
    }
}

/// Reads a little-endian `u64`.
#[verifier::opaque]
pub open spec fn parse_u64(input: Seq<u8>) -> Option<(u64, Seq<u8>)> {
    if input.len() < 8 {
        None
    } else {
        Some((vstd::bytes::spec_u64_from_le_bytes(input.take(8)), input.skip(8)))
    }
}

/// One byte.
pub open spec fn put_u8(value: u8) -> Seq<u8> {
    seq![value]
}

/// Four little-endian bytes.
pub open spec fn put_u32(value: u32) -> Seq<u8> {
    vstd::bytes::spec_u32_to_le_bytes(value)
}

/// Eight little-endian bytes.
pub open spec fn put_u64(value: u64) -> Seq<u8> {
    vstd::bytes::spec_u64_to_le_bytes(value)
}

/// A length prefix.
pub open spec fn put_count(count: nat) -> Seq<u8> {
    put_u64(count as u64)
}

/// A run of bytes behind its length.
pub open spec fn put_sized(bytes: Seq<u8>) -> Seq<u8> {
    put_count(bytes.len()) + bytes
}

/// Four runs with more behind them, taken apart from the front.
pub proof fn lemma_four_parts(a: Seq<u8>, b: Seq<u8>, c: Seq<u8>, d: Seq<u8>, rest: Seq<u8>)
    ensures
        (a + (b + (c + d))) + rest == a + (b + (c + (d + rest))),
{
    assert((a + (b + (c + d))) + rest =~= a + (b + (c + (d + rest))));
}

/// Four runs written one after the other.
pub proof fn lemma_four_written(start: Seq<u8>, a: Seq<u8>, b: Seq<u8>, c: Seq<u8>, d: Seq<u8>)
    ensures
        (((start + a) + b) + c) + d == start + (a + (b + (c + d))),
{
    assert((((start + a) + b) + c) + d =~= start + (a + (b + (c + d))));
}

pub broadcast proof fn lemma_parse_bytes(value: Seq<u8>, count: nat, rest: Seq<u8>)
    requires
        value.len() == count,
    ensures
        #[trigger] parse_bytes(value + rest, count) == Some((value, rest)),
{
    reveal(parse_bytes);
    assert((value + rest).take(value.len() as int) =~= value);
    assert((value + rest).skip(value.len() as int) =~= rest);
}

pub broadcast proof fn lemma_parse_u8(value: u8, rest: Seq<u8>)
    ensures
        #[trigger] parse_u8(put_u8(value) + rest) == Some((value, rest)),
{
    reveal(parse_u8);
    assert((put_u8(value) + rest).skip(1) =~= rest);
}

pub broadcast proof fn lemma_parse_u32(value: u32, rest: Seq<u8>)
    ensures
        #[trigger] parse_u32(put_u32(value) + rest) == Some((value, rest)),
{
    reveal(parse_u32);
    vstd::bytes::lemma_auto_spec_u32_to_from_le_bytes();
    assert((put_u32(value) + rest).take(4) =~= put_u32(value));
    assert((put_u32(value) + rest).skip(4) =~= rest);
}

pub broadcast proof fn lemma_parse_u64(value: u64, rest: Seq<u8>)
    ensures
        #[trigger] parse_u64(put_u64(value) + rest) == Some((value, rest)),
{
    reveal(parse_u64);
    vstd::bytes::lemma_auto_spec_u64_to_from_le_bytes();
    assert((put_u64(value) + rest).take(8) =~= put_u64(value));
    assert((put_u64(value) + rest).skip(8) =~= rest);
}

pub broadcast proof fn lemma_put_u32_len(value: u32)
    ensures
        (#[trigger] put_u32(value)).len() == 4,
{
    vstd::bytes::lemma_auto_spec_u32_to_from_le_bytes();
}

pub broadcast proof fn lemma_put_u64_len(value: u64)
    ensures
        (#[trigger] put_u64(value)).len() == 8,
{
    vstd::bytes::lemma_auto_spec_u64_to_from_le_bytes();
}

/// Everything a round-trip proof over the primitive grammar needs.
pub broadcast group group_codec {
    lemma_concat_associates,
    lemma_concat_empty,
    lemma_parse_bytes,
    lemma_parse_u8,
    lemma_parse_u32,
    lemma_parse_u64,
    lemma_put_u32_len,
    lemma_put_u64_len,
}

// ---------------------------------------------------------------------------
// Reader
// ---------------------------------------------------------------------------
/// A cursor over bytes that have not been read yet.
pub struct Decoder<'a> {
    input: &'a [u8],
}

impl<'a> View for Decoder<'a> {
    type V = Seq<u8>;

    closed spec fn view(&self) -> Seq<u8> {
        self.input@
    }
}

/// What a reader owes its grammar: the parsed value and what is left, or a
/// refusal exactly where the grammar has none.
pub open spec fn reads<T>(
    result: Result<T, ()>,
    after: Seq<u8>,
    expected: Option<(T, Seq<u8>)>,
) -> bool {
    match result {
        Ok(value) => expected == Some((value, after)),
        Err(_) => expected is None,
    }
}

/// As [`reads`], for values that are compared by their views.
pub open spec fn reads_view<T: View>(
    result: Result<T, ()>,
    after: Seq<u8>,
    expected: Option<(T::V, Seq<u8>)>,
) -> bool {
    match result {
        Ok(value) => expected == Some((value@, after)),
        Err(_) => expected is None,
    }
}

impl<'a> Decoder<'a> {
    pub fn new(input: &'a [u8]) -> (decoder: Self)
        ensures
            decoder@ == input@,
    {
        Self { input }
    }

    /// Takes the next `count` bytes; a short input is left as it was.
    pub fn take(&mut self, count: usize) -> (result: Result<&'a [u8], ()>)
        ensures
            match result {
                Ok(bytes) => parse_bytes(old(self)@, count as nat) == Some((bytes@, final(self)@)),
                Err(_) => parse_bytes(old(self)@, count as nat) is None && final(self)@ == old(
                    self,
                )@,
            },
    {
        proof {
            reveal(parse_bytes);
        }
        if self.input.len() < count {
            return Err(());
        }
        let (value, remainder) = self.input.split_at(count);
        self.input = remainder;
        assert(value@ =~= old(self)@.take(count as int));
        assert(remainder@ =~= old(self)@.skip(count as int));
        Ok(value)
    }

    pub fn read_u8(&mut self) -> (result: Result<u8, ()>)
        ensures
            reads(result, final(self)@, parse_u8(old(self)@)),
    {
        proof {
            reveal(parse_bytes);
            reveal(parse_u8);
        }
        match self.take(1) {
            Ok(bytes) => Ok(bytes[0]),
            Err(_) => Err(()),
        }
    }

    pub fn read_u16(&mut self) -> (result: Result<u16, ()>)
        ensures
            reads(result, final(self)@, parse_u16(old(self)@)),
    {
        proof {
            reveal(parse_bytes);
            reveal(parse_u16);
        }
        match self.take(2) {
            Ok(bytes) => Ok(u16_from_le_bytes(bytes)),
            Err(_) => Err(()),
        }
    }

    pub fn read_u32(&mut self) -> (result: Result<u32, ()>)
        ensures
            reads(result, final(self)@, parse_u32(old(self)@)),
    {
        proof {
            reveal(parse_bytes);
            reveal(parse_u32);
        }
        match self.take(4) {
            Ok(bytes) => Ok(u32_from_le_bytes(bytes)),
            Err(_) => Err(()),
        }
    }

    pub fn read_u64(&mut self) -> (result: Result<u64, ()>)
        ensures
            reads(result, final(self)@, parse_u64(old(self)@)),
    {
        proof {
            reveal(parse_bytes);
            reveal(parse_u64);
        }
        match self.take(8) {
            Ok(bytes) => Ok(u64_from_le_bytes(bytes)),
            Err(_) => Err(()),
        }
    }

    /// What has not been read yet.
    pub fn rest(&self) -> (rest: &'a [u8])
        ensures
            rest@ == self@,
    {
        self.input
    }

    pub fn remaining(&self) -> (count: usize)
        ensures
            count == self@.len(),
    {
        self.input.len()
    }

    pub fn is_finished(&self) -> (finished: bool)
        ensures
            finished == (self@.len() == 0),
    {
        self.input.len() == 0
    }
}

// ---------------------------------------------------------------------------
// Writers
// ---------------------------------------------------------------------------
pub fn write_u8(value: u8, output: &mut Vec<u8>)
    ensures
        final(output)@ == old(output)@ + put_u8(value),
{
    output.push(value);
    assert(output@ =~= old(output)@ + put_u8(value));
}

pub fn write_u32(value: u32, output: &mut Vec<u8>)
    ensures
        final(output)@ == old(output)@ + put_u32(value),
{
    let mut bytes = u32_to_le_bytes(value);
    output.append(&mut bytes);
}

pub fn write_u64(value: u64, output: &mut Vec<u8>)
    ensures
        final(output)@ == old(output)@ + put_u64(value),
{
    let mut bytes = u64_to_le_bytes(value);
    output.append(&mut bytes);
}

pub fn write_count(count: usize, output: &mut Vec<u8>)
    ensures
        final(output)@ == old(output)@ + put_count(count as nat),
{
    write_u64(count as u64, output);
}

pub fn write_bytes(bytes: &[u8], output: &mut Vec<u8>)
    ensures
        final(output)@ == old(output)@ + bytes@,
{
    output.extend_from_slice(bytes);
    assert(output@ =~= old(output)@ + bytes@);
}

pub fn write_sized(bytes: &[u8], output: &mut Vec<u8>)
    ensures
        final(output)@ == old(output)@ + put_sized(bytes@),
{
    broadcast use group_codec;

    write_count(bytes.len(), output);
    write_bytes(bytes, output);
}

// ---------------------------------------------------------------------------
// Bounded counts
// ---------------------------------------------------------------------------
/// A count that is within `limit` and leaves at least `minimum_bytes` of input
/// for each item it announces.
pub open spec fn parse_count(input: Seq<u8>, limit: nat, minimum_bytes: nat) -> Option<
    (nat, Seq<u8>),
> {
    match parse_u64(input) {
        Some((count, rest)) => if count > usize::MAX || count > limit || minimum_bytes == 0 && count > 0
            || count * minimum_bytes > rest.len() {
            None
        } else {
            Some((count as nat, rest))
        },
        None => None,
    }
}

/// Reads a count that may be zero.
pub fn read_optional_count(
    input: &mut Decoder<'_>,
    limit: usize,
    minimum_bytes: usize,
) -> (result: Result<usize, ()>)
    ensures
        match result {
            Ok(count) => parse_count(old(input)@, limit as nat, minimum_bytes as nat) == Some(
                (count as nat, final(input)@),
            ),
            Err(_) => parse_count(old(input)@, limit as nat, minimum_bytes as nat) is None,
        },
{
    let count: u64 = match input.read_u64() {
        Ok(count) => count,
        Err(_) => return Err(()),
    };
    if count > usize::MAX as u64 {
        return Err(());
    }
    let count: usize = count as usize;
    if count > limit {
        return Err(());
    }
    let available: usize = match input.remaining().checked_div(minimum_bytes) {
        Some(available) => available,
        None => 0,
    };
    if minimum_bytes > 0 {
        proof {
            lemma_quotient_bounds(input@.len(), minimum_bytes as nat, count as nat);
        }
    }
    if count > available {
        return Err(());
    }
    Ok(count)
}

proof fn lemma_quotient_bounds(length: nat, width: nat, count: nat)
    requires
        width > 0,
    ensures
        count <= length / width <==> count * width <= length,
{
    vstd::arithmetic::div_mod::lemma_fundamental_div_mod(length as int, width as int);
    vstd::arithmetic::div_mod::lemma_mod_bound(length as int, width as int);
    let quotient = length / width;
    assert(count <= quotient ==> count * width <= quotient * width) by (nonlinear_arith);
    assert(count > quotient ==> count * width >= (quotient + 1) * width) by (nonlinear_arith);
    assert((quotient + 1) * width == width * quotient + width) by (nonlinear_arith);
    assert(quotient * width == width * quotient) by (nonlinear_arith);
}

/// Reads a count that must not be zero.
pub fn read_count(input: &mut Decoder<'_>, limit: usize, minimum_bytes: usize) -> (result: Result<
    usize,
    (),
>)
    ensures
        match result {
            Ok(count) => count > 0 && parse_count(old(input)@, limit as nat, minimum_bytes as nat)
                == Some((count as nat, final(input)@)),
            Err(_) => match parse_count(old(input)@, limit as nat, minimum_bytes as nat) {
                Some((count, _)) => count == 0,
                None => true,
            },
        },
{
    match read_optional_count(input, limit, minimum_bytes) {
        Ok(count) => if count == 0 {
            Err(())
        } else {
            Ok(count)
        },
        Err(_) => Err(()),
    }
}

/// `usize` multiplication that stops at the largest value.
pub open spec fn saturating_product(left: nat, right: nat) -> nat {
    if left * right > usize::MAX {
        usize::MAX as nat
    } else {
        left * right
    }
}

pub fn saturating_multiply(left: usize, right: usize) -> (product: usize)
    ensures
        product == saturating_product(left as nat, right as nat),
{
    match left.checked_mul(right) {
        Some(product) => product,
        None => usize::MAX,
    }
}

// ---------------------------------------------------------------------------
// Encodable types
// ---------------------------------------------------------------------------
/// A type with a canonical byte form under a wire format `F`.
pub trait Wire<F>: Sized + View {
    /// The bytes of a value.
    spec fn wire(format: F, value: Self::V) -> Seq<u8>;

    /// The value at the front of some bytes, and what follows it.
    spec fn parse(format: F, input: Seq<u8>) -> Option<(Self::V, Seq<u8>)>;

    /// The values that the format carries without loss.
    spec fn admissible(format: F, value: Self::V) -> bool;

    /// A lower bound on the length of every byte form.
    spec fn least_bytes(format: F) -> nat;

    proof fn lemma_round_trip(format: F, value: Self::V, rest: Seq<u8>)
        requires
            Self::admissible(format, value),
        ensures
            Self::parse(format, Self::wire(format, value) + rest) == Some((value, rest)),
    ;

    proof fn lemma_least_bytes(format: F, value: Self::V)
        ensures
            Self::wire(format, value).len() >= Self::least_bytes(format),
    ;

    fn write(&self, format: &F, output: &mut Vec<u8>)
        ensures
            final(output)@ == old(output)@ + Self::wire(*format, self@),
    ;

    fn read(format: &F, input: &mut Decoder<'_>) -> (result: Result<Self, ()>)
        ensures
            reads_view(result, final(input)@, Self::parse(*format, old(input)@)),
    ;
}

impl Wire<()> for u32 {
    open spec fn wire(format: (), value: u32) -> Seq<u8> {
        put_u32(value)
    }

    open spec fn parse(format: (), input: Seq<u8>) -> Option<(u32, Seq<u8>)> {
        parse_u32(input)
    }

    open spec fn admissible(format: (), value: u32) -> bool {
        true
    }

    open spec fn least_bytes(format: ()) -> nat {
        4
    }

    proof fn lemma_round_trip(format: (), value: u32, rest: Seq<u8>) {
        broadcast use group_codec;

    }

    proof fn lemma_least_bytes(format: (), value: u32) {
        broadcast use group_codec;

    }

    fn write(&self, format: &(), output: &mut Vec<u8>) {
        write_u32(*self, output);
    }

    fn read(format: &(), input: &mut Decoder<'_>) -> (result: Result<Self, ()>) {
        input.read_u32()
    }
}

/// The byte forms of a list, one after the other.
pub open spec fn wire_all<F, T: Wire<F>>(format: F, values: Seq<T::V>) -> Seq<u8>
    decreases values.len(),
{
    if values.len() == 0 {
        Seq::empty()
    } else {
        wire_all::<F, T>(format, values.drop_last()) + T::wire(format, values.last())
    }
}

/// `count` values, one after the other.
pub open spec fn parse_all<F, T: Wire<F>>(format: F, input: Seq<u8>, count: nat) -> Option<
    (Seq<T::V>, Seq<u8>),
>
    decreases count,
{
    if count == 0 {
        Some((Seq::empty(), input))
    } else {
        match parse_all::<F, T>(format, input, (count - 1) as nat) {
            Some((values, rest)) => match T::parse(format, rest) {
                Some((value, rest)) => Some((values.push(value), rest)),
                None => None,
            },
            None => None,
        }
    }
}

/// A list behind its length.
pub open spec fn put_list<F, T: Wire<F>>(format: F, values: Seq<T::V>) -> Seq<u8> {
    put_count(values.len()) + wire_all::<F, T>(format, values)
}

/// A list behind a bounded length.
pub open spec fn parse_list<F, T: Wire<F>>(
    format: F,
    input: Seq<u8>,
    limit: nat,
    minimum_bytes: nat,
) -> Option<(Seq<T::V>, Seq<u8>)> {
    match parse_count(input, limit, minimum_bytes) {
        Some((count, rest)) => parse_all::<F, T>(format, rest, count),
        None => None,
    }
}

/// Every value of a list is carried without loss.
pub open spec fn all_admissible<F, T: Wire<F>>(format: F, values: Seq<T::V>) -> bool {
    forall|i: int| 0 <= i < values.len() ==> T::admissible(format, #[trigger] values[i])
}

/// A list reads back as it was written.
pub proof fn lemma_all_round_trip<F, T: Wire<F>>(format: F, values: Seq<T::V>, rest: Seq<u8>)
    requires
        all_admissible::<F, T>(format, values),
    ensures
        parse_all::<F, T>(format, wire_all::<F, T>(format, values) + rest, values.len()) == Some(
            (values, rest),
        ),
    decreases values.len(),
{
    broadcast use group_codec;

    if values.len() > 0 {
        let front = values.drop_last();
        let last = values.last();
        assert(T::admissible(format, values[values.len() - 1]));
        lemma_all_round_trip::<F, T>(format, front, T::wire(format, last) + rest);
        T::lemma_round_trip(format, last, rest);
        assert(front.push(last) =~= values);
    } else {
        assert(values =~= Seq::empty());
        assert(wire_all::<F, T>(format, values) + rest =~= rest);
    }
}

/// The byte form of a list has room for every item.
pub proof fn lemma_all_least_bytes<F, T: Wire<F>>(format: F, values: Seq<T::V>)
    ensures
        wire_all::<F, T>(format, values).len() >= values.len() * T::least_bytes(format),
    decreases values.len(),
{
    if values.len() > 0 {
        lemma_all_least_bytes::<F, T>(format, values.drop_last());
        T::lemma_least_bytes(format, values.last());
        let least = T::least_bytes(format);
        let count = values.len();
        assert(count * least == (count - 1) * least + least) by (nonlinear_arith)
            requires
                count > 0,
        ;
    } else {
        assert(0 * T::least_bytes(format) == 0) by (nonlinear_arith);
    }
}

/// Items of one width make a list of known length.
pub proof fn lemma_all_fixed_width<F, T: Wire<F>>(format: F, values: Seq<T::V>, width: nat)
    requires
        forall|i: int|
            0 <= i < values.len() ==> T::wire(format, #[trigger] values[i]).len() == width,
    ensures
        wire_all::<F, T>(format, values).len() == values.len() * width,
    decreases values.len(),
{
    if values.len() > 0 {
        let front = values.drop_last();
        assert forall|i: int| 0 <= i < front.len() implies T::wire(
            format,
            #[trigger] front[i],
        ).len() == width by {
            assert(front[i] == values[i]);
        }
        lemma_all_fixed_width::<F, T>(format, front, width);
        assert(T::wire(format, values[values.len() - 1]).len() == width);
        let count = values.len();
        assert(count * width == (count - 1) * width + width) by (nonlinear_arith)
            requires
                count > 0,
        ;
    } else {
        assert(0 * width == 0) by (nonlinear_arith);
    }
}

/// A counted list reads back as it was written, when its bounds admit it.
pub proof fn lemma_list_round_trip<F, T: Wire<F>>(
    format: F,
    values: Seq<T::V>,
    limit: nat,
    minimum_bytes: nat,
    rest: Seq<u8>,
)
    requires
        all_admissible::<F, T>(format, values),
        values.len() <= limit,
        values.len() <= usize::MAX,
        0 < minimum_bytes <= T::least_bytes(format),
    ensures
        parse_list::<F, T>(format, put_list::<F, T>(format, values) + rest, limit, minimum_bytes)
            == Some((values, rest)),
{
    broadcast use group_codec;

    lemma_all_round_trip::<F, T>(format, values, rest);
    lemma_all_least_bytes::<F, T>(format, values);
    let count = values.len();
    let least = T::least_bytes(format);
    assert(count * minimum_bytes <= count * least) by (nonlinear_arith)
        requires
            minimum_bytes <= least,
    ;
    assert(count as u64 as nat == count);
}

/// Once a prefix of a list cannot be read, neither can the list.
pub proof fn lemma_parse_all_stops<F, T: Wire<F>>(format: F, input: Seq<u8>, done: nat, count: nat)
    requires
        done <= count,
        parse_all::<F, T>(format, input, done) is None,
    ensures
        parse_all::<F, T>(format, input, count) is None,
    decreases count,
{
    if done < count {
        lemma_parse_all_stops::<F, T>(format, input, done, (count - 1) as nat);
    }
}

/// Writes every item in order.
pub fn write_all<F, T: Wire<F>>(format: &F, items: &[T], output: &mut Vec<u8>)
    ensures
        final(output)@ == old(output)@ + wire_all::<F, T>(*format, views(items@)),
{
    broadcast use group_codec;

    let mut index: usize = 0;
    while index < items.len()
        invariant
            index <= items@.len(),
            output@ == old(output)@ + wire_all::<F, T>(*format, views(items@.take(index as int))),
        decreases items@.len() - index,
    {
        items[index].write(format, output);
        assert(views(items@.take(index + 1)).drop_last() =~= views(items@.take(index as int)));
        assert(views(items@.take(index + 1)).last() == items@[index as int]@);
        index = index + 1;
    }
    assert(items@.take(items@.len() as int) =~= items@);
}

/// Writes the length and then every item.
pub fn write_list<F, T: Wire<F>>(format: &F, items: &[T], output: &mut Vec<u8>)
    ensures
        final(output)@ == old(output)@ + put_list::<F, T>(*format, views(items@)),
{
    broadcast use group_codec;

    write_count(items.len(), output);
    write_all::<F, T>(format, items, output);
}

/// Reads exactly `count` items.
pub fn read_all<F, T: Wire<F>>(format: &F, input: &mut Decoder<'_>, count: usize) -> (result:
    Result<Vec<T>, ()>)
    ensures
        match result {
            Ok(items) => parse_all::<F, T>(*format, old(input)@, count as nat) == Some(
                (views(items@), final(input)@),
            ),
            Err(_) => parse_all::<F, T>(*format, old(input)@, count as nat) is None,
        },
{
    let mut items: Vec<T> = Vec::new();
    let mut index: usize = 0;
    assert(views(items@) =~= Seq::<T::V>::empty());
    while index < count
        invariant
            index <= count,
            items@.len() == index,
            parse_all::<F, T>(*format, old(input)@, index as nat) == Some((views(items@), input@)),
        decreases count - index,
    {
        let ghost before = items@;
        match T::read(format, input) {
            Ok(item) => {
                items.push(item);
                assert(views(items@) =~= views(before).push(item@));
            },
            Err(_) => {
                proof {
                    lemma_parse_all_stops::<F, T>(
                        *format,
                        old(input)@,
                        (index + 1) as nat,
                        count as nat,
                    );
                }
                return Err(());
            },
        }
        index = index + 1;
    }
    Ok(items)
}

/// Reads a bounded length and then that many items.
pub fn read_list<F, T: Wire<F>>(
    format: &F,
    input: &mut Decoder<'_>,
    limit: usize,
    minimum_bytes: usize,
) -> (result: Result<Vec<T>, ()>)
    ensures
        match result {
            Ok(items) => parse_list::<F, T>(
                *format,
                old(input)@,
                limit as nat,
                minimum_bytes as nat,
            ) == Some((views(items@), final(input)@)),
            Err(_) => parse_list::<F, T>(
                *format,
                old(input)@,
                limit as nat,
                minimum_bytes as nat,
            ) is None,
        },
{
    match read_optional_count(input, limit, minimum_bytes) {
        Ok(count) => read_all::<F, T>(format, input, count),
        Err(_) => Err(()),
    }
}

} // verus!
