//! Short lists without repetition, kept in ascending order.
use vstd::prelude::*;

use crate::arena::OpportunityKind;
use crate::digest;
use crate::digest::Digest;
use crate::forecast::ForecastAxis;
use crate::search;
use crate::types::{FeatureSchemaId, RoutingFamilyId, SpecialistRevisionId};

verus! {

/// A type with a strict total order.
pub trait Ranked: Copy {
    spec fn before(self, other: Self) -> bool;

    proof fn lemma_ranked(left: Self, middle: Self, right: Self)
        ensures
            !left.before(left),
            left.before(middle) ==> !middle.before(left),
            left.before(middle) && middle.before(right) ==> left.before(right),
            left != middle ==> left.before(middle) || middle.before(left),
    ;

    fn precedes(self, other: Self) -> (result: bool)
        ensures
            result == self.before(other),
    ;

    fn same(self, other: Self) -> (result: bool)
        ensures
            result == (self == other),
    ;
}

impl Ranked for ForecastAxis {
    open spec fn before(self, other: Self) -> bool {
        self.tag_spec() < other.tag_spec()
    }

    proof fn lemma_ranked(left: Self, middle: Self, right: Self) {
    }

    fn precedes(self, other: Self) -> (result: bool) {
        self.tag() < other.tag()
    }

    fn same(self, other: Self) -> (result: bool) {
        self == other
    }
}

impl Ranked for OpportunityKind {
    open spec fn before(self, other: Self) -> bool {
        self.tag_spec() < other.tag_spec()
    }

    proof fn lemma_ranked(left: Self, middle: Self, right: Self) {
    }

    fn precedes(self, other: Self) -> (result: bool) {
        self.tag() < other.tag()
    }

    fn same(self, other: Self) -> (result: bool) {
        self == other
    }
}

impl Ranked for FeatureSchemaId {
    open spec fn before(self, other: Self) -> bool {
        digest::lexicographic(self.0.bytes(), other.0.bytes())
    }

    proof fn lemma_ranked(left: Self, middle: Self, right: Self) {
        digest::lemma_order(left.0, middle.0, right.0);
    }

    fn precedes(self, other: Self) -> (result: bool) {
        self.0.precedes(other.0)
    }

    fn same(self, other: Self) -> (result: bool) {
        self == other
    }
}

impl Ranked for RoutingFamilyId {
    open spec fn before(self, other: Self) -> bool {
        digest::lexicographic(self.0.bytes(), other.0.bytes())
    }

    proof fn lemma_ranked(left: Self, middle: Self, right: Self) {
        digest::lemma_order(left.0, middle.0, right.0);
    }

    fn precedes(self, other: Self) -> (result: bool) {
        self.0.precedes(other.0)
    }

    fn same(self, other: Self) -> (result: bool) {
        self == other
    }
}

impl Ranked for SpecialistRevisionId {
    open spec fn before(self, other: Self) -> bool {
        digest::lexicographic(self.0.bytes(), other.0.bytes())
    }

    proof fn lemma_ranked(left: Self, middle: Self, right: Self) {
        digest::lemma_order(left.0, middle.0, right.0);
    }

    fn precedes(self, other: Self) -> (result: bool) {
        self.0.precedes(other.0)
    }

    fn same(self, other: Self) -> (result: bool) {
        self == other
    }
}

impl Ranked for Digest {
    open spec fn before(self, other: Self) -> bool {
        digest::lexicographic(self.bytes(), other.bytes())
    }

    proof fn lemma_ranked(left: Self, middle: Self, right: Self) {
        digest::lemma_order(left, middle, right);
    }

    fn precedes(self, other: Self) -> (result: bool) {
        Digest::precedes(self, other)
    }

    fn same(self, other: Self) -> (result: bool) {
        self == other
    }
}

/// Nothing occurs twice.
pub open spec fn distinct<T>(values: Seq<T>) -> bool {
    forall|i: int, j: int| 0 <= i < j < values.len() ==> #[trigger] values[i] != #[trigger] values[j]
}

/// Every value comes before all later ones.
pub open spec fn ascending<T: Ranked>(values: Seq<T>) -> bool {
    forall|i: int, j: int|
        0 <= i < j < values.len() ==> (#[trigger] values[i]).before(#[trigger] values[j])
}

pub open spec fn after<T: Ranked>(value: T) -> spec_fn(T) -> bool {
    |other: T| value.before(other)
}

/// Where a value belongs in an ascending list.
pub open spec fn place<T: Ranked>(values: Seq<T>, value: T) -> int {
    match search::first(values, after(value)) {
        Some(index) => index,
        None => values.len() as int,
    }
}

/// The list with one value more, in its place.
pub open spec fn inserted<T: Ranked>(values: Seq<T>, value: T) -> Seq<T> {
    values.insert(place(values, value), value)
}

/// The values in ascending order.
pub open spec fn sorted<T: Ranked>(values: Seq<T>) -> Seq<T>
    decreases values.len(),
{
    if values.len() == 0 {
        Seq::empty()
    } else {
        inserted(sorted(values.drop_last()), values.last())
    }
}

proof fn lemma_place<T: Ranked>(values: Seq<T>, value: T)
    ensures
        0 <= place(values, value) <= values.len(),
        forall|i: int| 0 <= i < place(values, value) ==> !value.before(#[trigger] values[i]),
        place(values, value) < values.len() ==> value.before(values[place(values, value)]),
{
    search::lemma_first(values, after(value));
    assert forall|i: int| 0 <= i < place(values, value) implies !value.before(
        #[trigger] values[i],
    ) by {
        assert(!after(value)(values[i]));
    }
}

/// Sorting keeps the values.
pub proof fn lemma_sorted_permutes<T: Ranked>(values: Seq<T>)
    ensures
        sorted(values).to_multiset() == values.to_multiset(),
        sorted(values).len() == values.len(),
    decreases values.len(),
{
    broadcast use vstd::seq_lib::group_to_multiset_ensures;

    if values.len() > 0 {
        let front = values.drop_last();
        lemma_sorted_permutes(front);
        lemma_place(sorted(front), values.last());
        sorted(front).insert_ensures(place(sorted(front), values.last()), values.last());
        vstd::seq_lib::to_multiset_insert(
            sorted(front),
            place(sorted(front), values.last()),
            values.last(),
        );
        assert(front.push(values.last()) =~= values);
    } else {
        assert(values =~= Seq::empty());
    }
}

/// A sorted list has the values it was made of.
pub proof fn lemma_sorted_contains<T: Ranked>(values: Seq<T>, value: T)
    ensures
        sorted(values).contains(value) <==> values.contains(value),
{
    broadcast use vstd::seq_lib::group_to_multiset_ensures;

    lemma_sorted_permutes(values);
    assert(sorted(values).contains(value) <==> sorted(values).to_multiset().count(value) > 0);
    assert(values.contains(value) <==> values.to_multiset().count(value) > 0);
}

/// Distinct values end up in ascending order.
pub proof fn lemma_sorted_ascends<T: Ranked>(values: Seq<T>)
    requires
        distinct(values),
    ensures
        ascending(sorted(values)),
    decreases values.len(),
{
    if values.len() > 0 {
        let front = values.drop_last();
        let value = values.last();
        let list = sorted(front);
        assert(distinct(front)) by {
            assert forall|i: int, j: int| 0 <= i < j < front.len() implies #[trigger] front[i]
                != #[trigger] front[j] by {
                assert(values[i] != values[j]);
            }
        }
        lemma_sorted_ascends(front);
        lemma_place(list, value);
        let at = place(list, value);
        let next = inserted(list, value);
        assert forall|i: int| 0 <= i < list.len() implies #[trigger] list[i] != value by {
            lemma_sorted_contains(front, list[i]);
            assert(list.contains(list[i]));
            let k = choose|k: int| 0 <= k < front.len() && front[k] == list[i];
            assert(values[k] != values[values.len() - 1]);
        }
        assert forall|i: int, j: int| 0 <= i < j < next.len() implies (#[trigger] next[i]).before(
            #[trigger] next[j],
        ) by {
            if j < at {
                assert(list[i].before(list[j]));
            } else if j == at {
                T::lemma_ranked(value, list[i], list[i]);
            } else if i == at {
                if at < j - 1 {
                    assert(list[at].before(list[j - 1]));
                    T::lemma_ranked(value, list[at], list[j - 1]);
                }
            } else if i < at {
                assert(list[i].before(list[j - 1]));
            } else {
                assert(list[i - 1].before(list[j - 1]));
            }
        }
    }
}

/// A list in ascending order is left as it is.
pub proof fn lemma_sorted_keeps<T: Ranked>(values: Seq<T>)
    requires
        ascending(values),
    ensures
        sorted(values) == values,
        distinct(values),
    decreases values.len(),
{
    assert forall|i: int, j: int| 0 <= i < j < values.len() implies #[trigger] values[i]
        != #[trigger] values[j] by {
        assert(values[i].before(values[j]));
        T::lemma_ranked(values[i], values[j], values[j]);
    }
    if values.len() > 0 {
        let front = values.drop_last();
        let value = values.last();
        assert(ascending(front)) by {
            assert forall|i: int, j: int| 0 <= i < j < front.len() implies (
            #[trigger] front[i]).before(#[trigger] front[j]) by {
                assert(values[i].before(values[j]));
            }
        }
        lemma_sorted_keeps(front);
        assert forall|i: int| 0 <= i < front.len() implies !after(value)(#[trigger] front[i]) by {
            assert(values[i].before(values[values.len() - 1]));
            T::lemma_ranked(front[i], value, value);
        }
        search::lemma_is_none(front, after(value));
        assert(inserted(front, value) =~= values);
    } else {
        assert(values =~= Seq::empty());
    }
}

/// Whether nothing occurs twice.
pub fn is_distinct<T: Ranked>(values: &[T]) -> (result: bool)
    ensures
        result == distinct(values@),
{
    let mut index: usize = 0;
    while index < values.len()
        invariant
            index <= values@.len(),
            forall|i: int, j: int|
                0 <= i < j < index ==> #[trigger] values@[i] != #[trigger] values@[j],
        decreases values@.len() - index,
    {
        let mut earlier: usize = 0;
        while earlier < index
            invariant
                earlier <= index < values@.len(),
                forall|i: int| 0 <= i < earlier ==> #[trigger] values@[i] != values@[index as int],
            decreases index - earlier,
        {
            if values[earlier].same(values[index]) {
                assert(values@[earlier as int] == values@[index as int]);
                return false;
            }
            earlier = earlier + 1;
        }
        index = index + 1;
    }
    true
}

/// Whether there is a value, and none twice.
pub fn unique_nonempty<T: Ranked>(values: &[T]) -> (result: bool)
    ensures
        result == (values@.len() > 0 && distinct(values@)),
{
    values.len() > 0 && is_distinct(values)
}

/// Whether a value is in a list.
pub fn contains<T: Ranked>(values: &[T], value: T) -> (result: bool)
    ensures
        result == values@.contains(value),
{
    let mut index: usize = 0;
    while index < values.len()
        invariant
            index <= values@.len(),
            forall|i: int| 0 <= i < index ==> #[trigger] values@[i] != value,
        decreases values@.len() - index,
    {
        if values[index].same(value) {
            assert(values@[index as int] == value);
            return true;
        }
        index = index + 1;
    }
    false
}

/// The values in ascending order.
pub fn sort<T: Ranked>(values: &[T]) -> (result: Vec<T>)
    ensures
        result@ == sorted(values@),
{
    let mut result: Vec<T> = Vec::new();
    let mut index: usize = 0;
    assert(values@.take(0) =~= Seq::empty());
    while index < values.len()
        invariant
            index <= values@.len(),
            result@.len() == index,
            result@ == sorted(values@.take(index as int)),
        decreases values@.len() - index,
    {
        let value = values[index];
        let ghost list = result@;
        let mut at: usize = 0;
        while at < result.len() && !value.precedes(result[at])
            invariant
                at <= result@.len(),
                result@ == list,
                forall|i: int| 0 <= i < at ==> !after(value)(#[trigger] list[i]),
            decreases result@.len() - at,
        {
            at = at + 1;
        }
        proof {
            if at < list.len() {
                search::lemma_is_first(list, after(value), at as int);
            } else {
                search::lemma_is_none(list, after(value));
            }
        }
        result.insert(at, value);
        assert(values@.take(index + 1).drop_last() =~= values@.take(index as int));
        assert(values@.take(index + 1).last() == value);
        proof {
            lemma_place(list, value);
        }
        index = index + 1;
    }
    assert(values@.take(values@.len() as int) =~= values@);
    result
}

/// The values that occur, each once, in ascending order.
pub open spec fn collected<T: Ranked>(values: Seq<T>) -> Seq<T>
    decreases values.len(),
{
    if values.len() == 0 {
        Seq::empty()
    } else {
        let front = collected(values.drop_last());
        if front.contains(values.last()) {
            front
        } else {
            inserted(front, values.last())
        }
    }
}

/// What is collected ascends and has exactly the values that occur.
pub proof fn lemma_collected<T: Ranked>(values: Seq<T>)
    ensures
        ascending(collected(values)),
        forall|value: T| #[trigger] collected(values).contains(value) <==> values.contains(value),
    decreases values.len(),
{
    if values.len() > 0 {
        let front = collected(values.drop_last());
        let value = values.last();
        lemma_collected(values.drop_last());
        lemma_place(front, value);
        let at = place(front, value);
        let next = collected(values);
        if !front.contains(value) {
            assert forall|i: int, j: int| 0 <= i < j < next.len() implies (
            #[trigger] next[i]).before(#[trigger] next[j]) by {
                if j < at {
                    assert(front[i].before(front[j]));
                } else if j == at {
                    assert(front.contains(front[i]));
                    T::lemma_ranked(value, front[i], front[i]);
                } else if i == at {
                    if at < j - 1 {
                        assert(front[at].before(front[j - 1]));
                        T::lemma_ranked(value, front[at], front[j - 1]);
                    }
                } else if i < at {
                    assert(front[i].before(front[j - 1]));
                } else {
                    assert(front[i - 1].before(front[j - 1]));
                }
            }
        }
        assert forall|other: T| #[trigger] next.contains(other) <==> values.contains(other) by {
            let rest = values.drop_last();
            if values.contains(other) {
                let k = choose|k: int| 0 <= k < values.len() && values[k] == other;
                if k < rest.len() {
                    assert(rest[k] == other);
                    assert(front.contains(other));
                    let m = choose|m: int| 0 <= m < front.len() && front[m] == other;
                    if !front.contains(value) {
                        if m < at {
                            assert(next[m] == other);
                        } else {
                            assert(next[m + 1] == other);
                        }
                    }
                } else if !front.contains(value) {
                    assert(next[at] == other);
                }
            }
            if next.contains(other) {
                let m = choose|m: int| 0 <= m < next.len() && next[m] == other;
                if front.contains(value) {
                    assert(rest.contains(other));
                } else if m == at {
                    assert(values[values.len() - 1] == other);
                } else if m < at {
                    assert(front.contains(front[m]));
                    assert(rest.contains(other));
                } else {
                    assert(front.contains(front[m - 1]));
                    assert(rest.contains(other));
                }
                if rest.contains(other) {
                    let k = choose|k: int| 0 <= k < rest.len() && rest[k] == other;
                    assert(values[k] == other);
                }
            }
        }
    }
}

/// The values that occur, each once, in ascending order.
pub fn collect<T: Ranked>(values: &[T]) -> (result: Vec<T>)
    ensures
        result@ == collected(values@),
{
    let mut result: Vec<T> = Vec::new();
    let mut index: usize = 0;
    assert(values@.take(0) =~= Seq::empty());
    while index < values.len()
        invariant
            index <= values@.len(),
            result@ == collected(values@.take(index as int)),
        decreases values@.len() - index,
    {
        let value = values[index];
        let ghost list = result@;
        assert(values@.take(index + 1).drop_last() =~= values@.take(index as int));
        assert(values@.take(index + 1).last() == value);
        if !contains(result.as_slice(), value) {
            let mut at: usize = 0;
            while at < result.len() && !value.precedes(result[at])
                invariant
                    at <= result@.len(),
                    result@ == list,
                    forall|i: int| 0 <= i < at ==> !after(value)(#[trigger] list[i]),
                decreases result@.len() - at,
            {
                at = at + 1;
            }
            proof {
                if at < list.len() {
                    search::lemma_is_first(list, after(value), at as int);
                } else {
                    search::lemma_is_none(list, after(value));
                }
                lemma_place(list, value);
            }
            result.insert(at, value);
        }
        index = index + 1;
    }
    assert(values@.take(values@.len() as int) =~= values@);
    result
}

} // verus!
