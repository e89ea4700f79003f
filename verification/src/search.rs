//! The first item of a list that passes a test.
use vstd::prelude::*;

verus! {

/// The place of the first item that passes.
pub open spec fn first<T>(items: Seq<T>, test: spec_fn(T) -> bool) -> Option<int>
    decreases items.len(),
{
    if items.len() == 0 {
        None
    } else {
        match first(items.drop_last(), test) {
            Some(index) => Some(index),
            None => if test(items.last()) {
                Some(items.len() - 1)
            } else {
                None
            },
        }
    }
}

/// The found item passes and none before it does; where nothing is found,
/// nothing passes.
pub proof fn lemma_first<T>(items: Seq<T>, test: spec_fn(T) -> bool)
    ensures
        match first(items, test) {
            Some(index) => 0 <= index < items.len() && test(items[index]) && forall|i: int|
                0 <= i < index ==> !test(#[trigger] items[i]),
            None => forall|i: int| 0 <= i < items.len() ==> !test(#[trigger] items[i]),
        },
    decreases items.len(),
{
    if items.len() > 0 {
        lemma_first(items.drop_last(), test);
        let front = items.drop_last();
        match first(front, test) {
            Some(index) => {
                assert forall|i: int| 0 <= i < index implies !test(#[trigger] items[i]) by {
                    assert(front[i] == items[i]);
                }
            },
            None => {
                assert forall|i: int| 0 <= i < items.len() - 1 implies !test(
                    #[trigger] items[i],
                ) by {
                    assert(front[i] == items[i]);
                }
            },
        }
    }
}

/// An item that passes, with none before it that does, is the first.
pub proof fn lemma_is_first<T>(items: Seq<T>, test: spec_fn(T) -> bool, index: int)
    requires
        0 <= index < items.len(),
        test(items[index]),
        forall|i: int| 0 <= i < index ==> !test(#[trigger] items[i]),
    ensures
        first(items, test) == Some(index),
{
    lemma_first(items, test);
}

/// Where nothing passes, nothing is found.
pub proof fn lemma_is_none<T>(items: Seq<T>, test: spec_fn(T) -> bool)
    requires
        forall|i: int| 0 <= i < items.len() ==> !test(#[trigger] items[i]),
    ensures
        first(items, test) is None,
{
    lemma_first(items, test);
}

} // verus!
