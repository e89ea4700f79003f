//! Short lists in fixed arrays whose unused slots hold one agreed value.
use vstd::prelude::*;

verus! {

/// The array holds the list and, behind it, nothing but `pad`.
pub open spec fn holds<T, const N: usize>(array: [T; N], list: Seq<T>, pad: T) -> bool {
    &&& list.len() <= N
    &&& forall|i: int| 0 <= i < list.len() ==> array@[i] == list[i]
    &&& forall|i: int| list.len() <= i < N ==> array@[i] == pad
}

/// The array that holds a list.
pub open spec fn padded<T, const N: usize>(list: Seq<T>, pad: T) -> [T; N] {
    choose|array: [T; N]| holds(array, list, pad)
}

/// Only one array holds a list.
pub proof fn lemma_padded<T, const N: usize>(array: [T; N], list: Seq<T>, pad: T)
    requires
        holds(array, list, pad),
    ensures
        padded::<T, N>(list, pad) == array,
{
    let chosen: [T; N] = padded::<T, N>(list, pad);
    assert(holds(chosen, list, pad));
    assert(chosen =~= array) by {
        assert forall|i: int| 0 <= i < N implies chosen[i] == array[i] by {
            if i < list.len() {
                assert(chosen@[i] == list[i]);
                assert(array@[i] == list[i]);
            } else {
                assert(chosen@[i] == pad);
                assert(array@[i] == pad);
            }
        }
    }
}

/// Puts a list into an array.
pub fn pad_list<T: Copy, const N: usize>(items: &[T], pad: T) -> (array: [T; N])
    requires
        items@.len() <= N,
    ensures
        holds(array, items@, pad),
        array == padded::<T, N>(items@, pad),
{
    let mut array: [T; N] = [pad;N];
    let mut index: usize = 0;
    while index < items.len()
        invariant
            index <= items@.len() <= N,
            array@.len() == N,
            forall|i: int| 0 <= i < index ==> array@[i] == items@[i],
            forall|i: int| index <= i < N ==> array@[i] == pad,
        decreases items@.len() - index,
    {
        array[index] = items[index];
        index = index + 1;
    }
    proof {
        lemma_padded::<T, N>(array, items@, pad);
    }
    array
}

/// The list that an array holds in its first `count` slots, or in all of them.
pub open spec fn listed<T, const N: usize>(array: [T; N], count: u8) -> Seq<T> {
    if count <= N {
        array@.take(count as int)
    } else {
        array@
    }
}

/// The used part of an array.
pub fn used<T, const N: usize>(array: &[T; N], count: u8) -> (items: &[T])
    ensures
        items@ == listed(*array, count),
{
    if count as usize <= N {
        let (items, _unused) = array.as_slice().split_at(count as usize);
        assert(items@ =~= listed(*array, count));
        items
    } else {
        array.as_slice()
    }
}

} // verus!
