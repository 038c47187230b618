//! The order of the expanded hunks, and parts of sequences that keep an order.
use std::ops::Range;
use vstd::prelude::*;

use crate::anchor::Anchor;
use crate::expanded::ranges_of;
use crate::hunk::ExpandedHunk;

verus! {

/// Whether hunks are in the order of the text, each starting after the one before. The
/// text is given by the position at which each anchor stands in it.
pub open spec fn sorted_by(hunks: Seq<ExpandedHunk>, position: spec_fn(Anchor) -> int) -> bool {
    ranges_sorted_by(ranges_of(hunks), position)
}

/// Whether ranges are in the order of the text, by their starts.
pub open spec fn ranges_sorted_by(
    ranges: Seq<Range<Anchor>>,
    position: spec_fn(Anchor) -> int,
) -> bool {
    forall|i: int, j: int|
        #![trigger ranges[i], ranges[j]]
        0 <= i < j < ranges.len() ==> position(ranges[i].start) < position(ranges[j].start)
}

/// Whether `part` is made of the elements of `whole` at the given indices, which ascend.
pub open spec fn picks<T>(part: Seq<T>, whole: Seq<T>, indices: Seq<int>) -> bool {
    &&& indices.len() == part.len()
    &&& forall|i: int|
        #![trigger indices[i]]
        0 <= i < indices.len() ==> 0 <= indices[i] < whole.len() && part[i] == whole[indices[i]]
    &&& forall|i: int, j: int|
        #![trigger indices[i], indices[j]]
        0 <= i < j < indices.len() ==> indices[i] < indices[j]
}

/// Whether `part` is what is left of `whole` without some of its elements.
pub open spec fn is_part_of<T>(part: Seq<T>, whole: Seq<T>) -> bool {
    exists|indices: Seq<int>| picks(part, whole, indices)
}

/// The elements among the first `count` of a sequence whose indices are chosen.
pub open spec fn chosen<T>(elements: Seq<T>, choice: spec_fn(int) -> bool, count: nat) -> Seq<T>
    decreases count,
{
    if count == 0 {
        Seq::empty()
    } else {
        let before = chosen(elements, choice, (count - 1) as nat);
        if choice(count - 1) {
            before.push(elements[count - 1])
        } else {
            before
        }
    }
}

/// Two choices that agree choose the same.
pub proof fn lemma_chosen_agree<T>(
    elements: Seq<T>,
    others: Seq<T>,
    choice: spec_fn(int) -> bool,
    other_choice: spec_fn(int) -> bool,
    count: nat,
)
    requires
        forall|i: int| 0 <= i < count ==> #[trigger] choice(i) == other_choice(i),
        forall|i: int| 0 <= i < count && #[trigger] choice(i) ==> elements[i] == others[i],
    ensures
        chosen(elements, choice, count) == chosen(others, other_choice, count),
    decreases count,
{
    if count > 0 {
        lemma_chosen_agree(elements, others, choice, other_choice, (count - 1) as nat);
        assert(choice(count - 1) == other_choice(count - 1));
    }
}

/// What is chosen, if all is, is all.
pub proof fn lemma_chosen_all<T>(elements: Seq<T>, choice: spec_fn(int) -> bool, count: nat)
    requires
        count <= elements.len(),
        forall|i: int| 0 <= i < count ==> #[trigger] choice(i),
    ensures
        chosen(elements, choice, count) == elements.take(count as int),
    decreases count,
{
    if count > 0 {
        lemma_chosen_all(elements, choice, (count - 1) as nat);
        assert(choice(count - 1));
        assert(elements.take(count as int) =~= elements.take(count - 1).push(elements[count - 1]));
    } else {
        assert(elements.take(0) =~= Seq::empty());
    }
}

/// What is chosen, if nothing is, is nothing.
pub proof fn lemma_chosen_none<T>(elements: Seq<T>, choice: spec_fn(int) -> bool, count: nat)
    requires
        forall|i: int| 0 <= i < count ==> !#[trigger] choice(i),
    ensures
        chosen(elements, choice, count) == Seq::<T>::empty(),
    decreases count,
{
    if count > 0 {
        lemma_chosen_none(elements, choice, (count - 1) as nat);
        assert(!choice(count - 1));
    }
}

/// An element more on both sides keeps a part a part.
pub proof fn lemma_part_push<T>(part: Seq<T>, whole: Seq<T>, element: T)
    requires
        is_part_of(part, whole),
    ensures
        is_part_of(part.push(element), whole.push(element)),
        is_part_of(part, whole.push(element)),
{
    let indices = choose|indices: Seq<int>| picks(part, whole, indices);
    assert(picks(part, whole.push(element), indices));
    assert(picks(part.push(element), whole.push(element), indices.push(whole.len() as int)));
}

/// A part of what is sorted is sorted.
pub proof fn lemma_part_sorted(
    part: Seq<Range<Anchor>>,
    whole: Seq<Range<Anchor>>,
    position: spec_fn(Anchor) -> int,
)
    requires
        is_part_of(part, whole),
        ranges_sorted_by(whole, position),
    ensures
        ranges_sorted_by(part, position),
{
    let indices = choose|indices: Seq<int>| picks(part, whole, indices);
    assert forall|i: int, j: int|
        #![trigger part[i], part[j]]
        0 <= i < j < part.len() implies position(part[i].start) < position(part[j].start) by {
        assert(indices[i] < indices[j]);
        assert(part[i] == whole[indices[i]] && part[j] == whole[indices[j]]);
    }
}

} // verus!
