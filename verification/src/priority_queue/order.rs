//! The heap order of a sequence laid out as a d-ary tree.

use vstd::prelude::*;
use vstd::multiset::Multiset;
use vstd::std_specs::cmp::PartialEqSpec;
use super::pair::Pair;

verus! {

/// The index of the parent of the node at `index`.
pub open spec fn parent_of(index: int, branching: int) -> int {
    (index - 1) / branching
}

/// The index of the first child of the node at `index`.
pub open spec fn first_child_of(index: int, branching: int) -> int {
    branching * index + 1
}

/// The node at `child` has no higher priority than its parent.
pub open spec fn heap_edge<T>(heap: Seq<Pair<T>>, branching: int, child: int) -> bool {
    heap[parent_of(child, branching)].priority >= heap[child].priority
}

/// The node at `grandchild` has no higher priority than the parent of its
/// parent.
pub open spec fn heap_skip<T>(heap: Seq<Pair<T>>, branching: int, grandchild: int) -> bool {
    heap[parent_of(parent_of(grandchild, branching), branching)].priority
        >= heap[grandchild].priority
}

/// Every node whose parent lies at `low` or above has no higher priority than
/// its parent.
pub open spec fn ordered_from<T>(heap: Seq<Pair<T>>, branching: int, low: int) -> bool {
    forall|child: int|
        1 <= child < heap.len() && parent_of(child, branching) >= low ==> #[trigger] heap_edge(
            heap,
            branching,
            child,
        )
}

/// No node has a higher priority than its parent.
pub open spec fn ordered<T>(heap: Seq<Pair<T>>, branching: int) -> bool {
    ordered_from(heap, branching, 0)
}

/// No pair of the heap has a higher priority than `top`.
pub open spec fn is_highest<T>(heap: Seq<Pair<T>>, top: usize) -> bool {
    forall|i: int| 0 <= i < heap.len() ==> (#[trigger] heap[i]).priority <= top
}

/// The first index at or after `from` whose element equals `value`.
pub open spec fn first_equal<T: PartialEq>(heap: Seq<Pair<T>>, value: T, from: int) -> Option<int>
    decreases heap.len() - from,
{
    if from < 0 || from >= heap.len() {
        None
    } else if heap[from].element.eq_spec(&value) {
        Some(from)
    } else {
        first_equal(heap, value, from + 1)
    }
}

/// The heap after the pair at `index` took the priority `priority`, as a
/// multiset.
pub open spec fn reprioritised<T>(heap: Seq<Pair<T>>, index: int, priority: usize) -> Multiset<
    Pair<T>,
> {
    heap.to_multiset().remove(heap[index]).insert(
        Pair { priority, element: heap[index].element },
    )
}

/// Where `first_equal` finds an index, the element there equals `value` and
/// none before it does; where it finds none, no element from `from` on equals
/// `value`.
pub proof fn lemma_first_equal<T: PartialEq>(heap: Seq<Pair<T>>, value: T, from: int)
    requires
        0 <= from,
    ensures
        match first_equal(heap, value, from) {
            Some(index) => from <= index < heap.len() && heap[index].element.eq_spec(&value)
                && forall|k: int| from <= k < index ==> !(#[trigger] heap[k]).element.eq_spec(&value),
            None => forall|k: int| from <= k < heap.len() ==> !(#[trigger] heap[k]).element.eq_spec(
                &value,
            ),
        },
    decreases heap.len() - from,
{
    if from < heap.len() && !heap[from].element.eq_spec(&value) {
        lemma_first_equal(heap, value, from + 1);
    }
}

/// A parent comes before its child.
pub proof fn lemma_parent_before(index: int, branching: int)
    requires
        index >= 1,
        branching >= 1,
    ensures
        0 <= parent_of(index, branching) < index,
{
    assert(0 <= (index - 1) / branching <= index - 1) by (nonlinear_arith)
        requires
            index >= 1,
            branching >= 1,
    ;
}

/// The children of a node are the `branching` indices after `branching` times
/// its own index.
pub proof fn lemma_children(child: int, parent: int, branching: int)
    requires
        child >= 1,
        parent >= 0,
        branching >= 1,
    ensures
        parent_of(child, branching) == parent <==> branching * parent + 1 <= child <= branching
            * parent + branching,
{
    assert((child - 1) / branching == parent <==> branching * parent <= child - 1 < branching
        * parent + branching) by (nonlinear_arith)
        requires
            child >= 1,
            parent >= 0,
            branching >= 1,
    ;
}

/// A later node's parent is no earlier.
pub proof fn lemma_parent_monotone(first: int, second: int, branching: int)
    requires
        1 <= first <= second,
        branching >= 1,
    ensures
        parent_of(first, branching) <= parent_of(second, branching),
{
    assert((first - 1) / branching <= (second - 1) / branching) by (nonlinear_arith)
        requires
            0 <= first - 1 <= second - 1,
            branching >= 1,
    ;
}

/// In an ordered heap no pair has a higher priority than the root.
pub proof fn lemma_root_is_highest<T>(heap: Seq<Pair<T>>, branching: int, index: int)
    requires
        branching >= 1,
        ordered(heap, branching),
        0 <= index < heap.len(),
    ensures
        heap[index].priority <= heap[0].priority,
    decreases index,
{
    if index >= 1 {
        lemma_parent_before(index, branching);
        assert(heap_edge(heap, branching, index));
        lemma_root_is_highest(heap, branching, parent_of(index, branching));
    }
}

/// Exchanging two entries keeps what the sequence holds.
pub proof fn lemma_swap_keeps_multiset<T>(heap: Seq<Pair<T>>, first: int, second: int)
    requires
        0 <= first < heap.len(),
        0 <= second < heap.len(),
    ensures
        heap.update(first, heap[second]).update(second, heap[first]).to_multiset()
            == heap.to_multiset(),
{
    broadcast use {vstd::seq_lib::to_multiset_update, vstd::multiset::group_multiset_axioms};

    heap.to_multiset_ensures();
    let once = heap.update(first, heap[second]);
    let twice = once.update(second, heap[first]);
    once.to_multiset_ensures();
    assert(heap.to_multiset().count(heap[first]) > 0);
    assert(heap.to_multiset().count(heap[second]) > 0);
    if first == second {
        assert(twice =~= heap);
    } else {
        assert(once.to_multiset() =~= heap.to_multiset().insert(heap[second]).remove(heap[first]));
        assert(twice.to_multiset() =~= once.to_multiset().insert(heap[first]).remove(
            heap[second],
        ));
        assert(twice.to_multiset() =~= heap.to_multiset());
    }
}

/// No two pairs of the heap hold equal elements.
pub open spec fn distinct<T: PartialEq>(heap: Seq<Pair<T>>) -> bool {
    forall|i: int, j: int|
        0 <= i < heap.len() && 0 <= j < heap.len() && i != j ==> !(#[trigger] heap[i]).element.eq_spec(
            &(#[trigger] heap[j]).element,
        )
}

/// No pair of the heap holds an element that `value` equals, or that equals
/// `value`.
pub open spec fn absent<T: PartialEq>(heap: Seq<Pair<T>>, value: T) -> bool {
    forall|k: int|
        0 <= k < heap.len() ==> !(#[trigger] heap[k]).element.eq_spec(&value) && !value.eq_spec(
            &heap[k].element,
        )
}

/// Whether equality of elements does not depend on the side.
pub open spec fn symmetric_eq<T: PartialEq>() -> bool {
    forall|a: T, b: T| #[trigger] a.eq_spec(&b) == b.eq_spec(&a)
}

/// A heap of distinct elements in which one pair took another priority has
/// distinct elements.
pub proof fn law_reprioritised_is_distinct<T: PartialEq>(
    before: Seq<Pair<T>>,
    after: Seq<Pair<T>>,
    index: int,
    priority: usize,
)
    requires
        0 <= index < before.len(),
        distinct(before),
        after.to_multiset() == reprioritised(before, index, priority),
    ensures
        distinct(after),
{
    broadcast use vstd::multiset::group_multiset_axioms;

    let renewed = Pair { priority, element: before[index].element };
    let changed = before.update(index, renewed);
    before.to_multiset_ensures();
    vstd::seq_lib::to_multiset_update(before, index, renewed);
    assert(changed.to_multiset() =~= after.to_multiset());
    assert(distinct(changed)) by {
        assert forall|i: int, j: int|
            0 <= i < changed.len() && 0 <= j < changed.len() && i != j implies !(
        #[trigger] changed[i]).element.eq_spec(&(#[trigger] changed[j]).element) by {
            assert(changed[i].element == before[i].element);
            assert(changed[j].element == before[j].element);
            assert(!before[i].element.eq_spec(&before[j].element));
        }
    }
    lemma_distinct_stays(changed, after);
}

/// A value that a sequence holds twice as a multiset stands at two places of
/// it.
pub proof fn lemma_twice<A>(s: Seq<A>, value: A)
    requires
        s.to_multiset().count(value) >= 2,
    ensures
        exists|a: int, b: int| 0 <= a < b < s.len() && s[a] == value && s[b] == value,
    decreases s.len(),
{
    broadcast use vstd::multiset::group_multiset_axioms;

    if s.len() == 0 {
        s.to_multiset_ensures();
        vstd::seq_lib::to_multiset_len(s);
    } else {
        let front = s.drop_last();
        assert(s =~= front.push(s.last()));
        vstd::seq_lib::to_multiset_build(front, s.last());
        if s.last() == value {
            assert(front.to_multiset().count(value) >= 1);
            vstd::seq_lib::to_multiset_contains(front, value);
            let a = choose|a: int| 0 <= a < front.len() && front[a] == value;
            assert(s[a] == value && s[s.len() - 1] == value);
        } else {
            lemma_twice(front, value);
            let (a, b) = choose|a: int, b: int|
                0 <= a < b < front.len() && front[a] == value && front[b] == value;
            assert(s[a] == value && s[b] == value);
        }
    }
}

/// A heap that holds what a heap of distinct elements holds has distinct
/// elements.
pub proof fn lemma_distinct_stays<T: PartialEq>(before: Seq<Pair<T>>, after: Seq<Pair<T>>)
    requires
        distinct(before),
        forall|pair: Pair<T>| after.to_multiset().count(pair) <= before.to_multiset().count(pair),
    ensures
        distinct(after),
{
    assert forall|i: int, j: int|
        0 <= i < after.len() && 0 <= j < after.len() && i != j implies !(
    #[trigger] after[i]).element.eq_spec(&(#[trigger] after[j]).element) by {
        after.to_multiset_ensures();
        if after[i] == after[j] {
            lemma_count_two(after, i, j);
            lemma_twice(before, after[i]);
            let (a, b) = choose|a: int, b: int|
                0 <= a < b < before.len() && before[a] == after[i] && before[b] == after[i];
            assert(!before[a].element.eq_spec(&before[b].element));
        } else {
            vstd::seq_lib::to_multiset_contains(before, after[i]);
            vstd::seq_lib::to_multiset_contains(before, after[j]);
            assert(after.to_multiset().count(after[i]) > 0);
            assert(after.to_multiset().count(after[j]) > 0);
            let a = choose|a: int| 0 <= a < before.len() && before[a] == after[i];
            let b = choose|b: int| 0 <= b < before.len() && before[b] == after[j];
            assert(!before[a].element.eq_spec(&before[b].element));
        }
    }
}

/// A value that stands at two places of a sequence is held twice.
pub proof fn lemma_count_two<A>(s: Seq<A>, first: int, second: int)
    requires
        0 <= first < s.len(),
        0 <= second < s.len(),
        first != second,
        s[first] == s[second],
    ensures
        s.to_multiset().count(s[first]) >= 2,
{
    broadcast use vstd::multiset::group_multiset_axioms;

    let low = if first < second {
        first
    } else {
        second
    };
    let high = if first < second {
        second
    } else {
        first
    };
    let rest = s.remove(high);
    vstd::seq_lib::to_multiset_remove(s, high);
    assert(rest[low] == s[first]);
    vstd::seq_lib::to_multiset_contains(rest, s[first]);
    assert(rest.contains(s[first]));
    s.to_multiset_ensures();
}

/// After the first pair of a heap of distinct elements left, the heap holds
/// its element no more, and its elements are distinct.
pub proof fn law_taken_is_gone<T: PartialEq>(before: Seq<Pair<T>>, after: Seq<Pair<T>>)
    requires
        before.len() > 0,
        distinct(before),
        after.to_multiset() == before.to_multiset().remove(before[0]),
    ensures
        distinct(after),
        forall|k: int|
            0 <= k < after.len() ==> !(#[trigger] after[k]).element.eq_spec(&before[0].element),
{
    broadcast use vstd::multiset::group_multiset_axioms;

    before.to_multiset_ensures();
    lemma_distinct_stays(before, after);
    assert forall|k: int| 0 <= k < after.len() implies !(#[trigger] after[k]).element.eq_spec(
        &before[0].element,
    ) by {
        after.to_multiset_ensures();
        assert(after.to_multiset().count(after[k]) > 0);
        if after[k] == before[0] {
            assert(before.to_multiset().count(before[0]) >= 2);
            lemma_twice(before, before[0]);
            let first = before[0];
            let (a, b) = choose|a: int, b: int|
                0 <= a < b < before.len() && before[a] == first && before[b] == first;
            assert(!before[a].element.eq_spec(&before[b].element));
            assert(!before[b].element.eq_spec(&before[0].element));
        } else {
            vstd::seq_lib::to_multiset_contains(before, after[k]);
            let a = choose|a: int| 0 <= a < before.len() && before[a] == after[k];
            assert(a != 0);
            assert(!before[a].element.eq_spec(&before[0].element));
        }
    }
}

/// A heap of distinct elements that takes in a pair whose element it does not
/// hold has distinct elements.
pub proof fn law_new_element_is_distinct<T: PartialEq>(
    before: Seq<Pair<T>>,
    after: Seq<Pair<T>>,
    pair: Pair<T>,
)
    requires
        distinct(before),
        absent(before, pair.element),
        after.to_multiset() == before.to_multiset().insert(pair),
    ensures
        distinct(after),
{
    broadcast use vstd::multiset::group_multiset_axioms;

    let joined = before.push(pair);
    vstd::seq_lib::to_multiset_build(before, pair);
    assert(distinct(joined)) by {
        assert forall|i: int, j: int|
            0 <= i < joined.len() && 0 <= j < joined.len() && i != j implies !(
        #[trigger] joined[i]).element.eq_spec(&(#[trigger] joined[j]).element) by {
            if i < before.len() && j < before.len() {
                assert(!before[i].element.eq_spec(&before[j].element));
            } else if i < before.len() {
                assert(!before[i].element.eq_spec(&pair.element));
            } else {
                assert(!pair.element.eq_spec(&before[j].element));
            }
        }
    }
    lemma_distinct_stays(joined, after);
}

} // verus!
