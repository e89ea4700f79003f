//! How much memory lists occupy, counted with what has been allocated for them.
use vstd::prelude::*;

use crate::codec;
use crate::codec::saturating_multiply;
use crate::types::IntelligenceError;

verus! {

/// `Vec::capacity`: how many items fit before the list has to grow. It is at
/// least the length; how much more the allocator gave is left open.
#[verifier::external_body]
pub(crate) fn capacity_of<T>(values: &Vec<T>) -> (capacity: usize)
    ensures
        capacity >= values@.len(),
{
    values.capacity()
}

/// `Vec::try_reserve_exact`: makes room for further items, or tells that there is
/// none. What the list holds stays as it is; how much room results is left open.
#[verifier::external_body]
pub(crate) fn reserve_exactly<T>(values: &mut Vec<T>, additional: usize) -> (reserved: bool)
    ensures
        final(values)@ == old(values)@,
{
    values.try_reserve_exact(additional).is_ok()
}

/// The bytes that `capacity` items of a type take, or the largest count.
pub open spec fn room<T>(capacity: nat) -> nat {
    codec::saturating_product(capacity, vstd::layout::size_of::<T>())
}

pub fn bytes_for<T>(capacity: usize) -> (bytes: usize)
    ensures
        bytes == room::<T>(capacity as nat),
{
    saturating_multiply(capacity, core::mem::size_of::<T>())
}

/// Bytes that a list may occupy: those of some capacity that holds it.
pub open spec fn occupies<T>(bytes: usize, length: nat) -> bool {
    exists|capacity: usize| capacity >= length && bytes == #[trigger] room::<T>(capacity as nat)
}

/// The bytes allocated for a list.
pub fn vector_heap_bytes<T>(values: &Vec<T>) -> (bytes: usize)
    ensures
        occupies::<T>(bytes, values@.len()),
{
    bytes_for::<T>(capacity_of(values))
}

/// The count, or the largest one.
pub open spec fn capped(count: nat) -> nat {
    if count > usize::MAX {
        usize::MAX as nat
    } else {
        count
    }
}

/// The sum, or the largest count.
pub open spec fn capped_sum(left: nat, right: nat) -> nat {
    if left + right > usize::MAX {
        usize::MAX as nat
    } else {
        left + right
    }
}

/// The bytes by which a list grows when items are added: nothing while they fit,
/// else up to twice the capacity, the needed length or a minimum, whichever is
/// largest.
pub open spec fn growth<T>(length: nat, capacity: nat, additional: nat) -> nat {
    let required = capped_sum(length, additional);
    let minimum: nat = if vstd::layout::size_of::<T>() == 1 {
        8
    } else {
        4
    };
    let doubled = codec::saturating_product(capacity, 2);
    let target = if doubled >= required && doubled >= minimum {
        doubled
    } else if required >= minimum {
        required
    } else {
        minimum
    };
    if required <= capacity {
        0
    } else {
        room::<T>((target - capacity) as nat)
    }
}

pub fn growth_bytes<T>(length: usize, capacity: usize, additional: usize) -> (bytes: usize)
    ensures
        bytes == growth::<T>(length as nat, capacity as nat, additional as nat),
{
    let required: usize = length.saturating_add(additional);
    if required <= capacity {
        return 0;
    }
    let minimum: usize = if core::mem::size_of::<T>() == 1 {
        8
    } else {
        4
    };
    let mut target: usize = saturating_multiply(capacity, 2);
    if target < required {
        target = required;
    }
    if target < minimum {
        target = minimum;
    }
    bytes_for::<T>(target - capacity)
}

/// A count as a `u64`, or the largest one.
pub fn resident_u64(bytes: usize) -> (count: u64)
    ensures
        count == bytes,
{
    bytes as u64
}

/// An empty list with room for `capacity` items; refused where there is none. Room
/// for nothing is always there.
pub fn reserved<T>(capacity: usize) -> (result: Result<Vec<T>, IntelligenceError>)
    ensures
        match result {
            Ok(values) => values@ == Seq::<T>::empty(),
            Err(error) => error is CapacityExceeded && capacity > 0,
        },
{
    let mut values: Vec<T> = Vec::new();
    if capacity == 0 || reserve_exactly(&mut values, capacity) {
        Ok(values)
    } else {
        Err(IntelligenceError::CapacityExceeded)
    }
}

} // verus!
