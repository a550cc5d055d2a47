//! The d-ary max-heap.

use vstd::prelude::*;
use vstd::std_specs::cmp::PartialEqSpec;
use super::order::{
    distinct,
    first_child_of,
    first_equal,
    heap_edge,
    heap_skip,
    is_highest,
    lemma_children,
    lemma_first_equal,
    lemma_parent_before,
    lemma_parent_monotone,
    lemma_root_is_highest,
    absent,
    law_new_element_is_distinct,
    law_reprioritised_is_distinct,
    law_taken_is_gone,
    lemma_distinct_stays,
    symmetric_eq,
    lemma_swap_keeps_multiset,
    ordered,
    ordered_from,
    parent_of,
    reprioritised,
};
use super::pair::Pair;

verus! {

/// Why an insertion was refused.
#[derive(Clone, Copy, Debug, PartialEq, Eq, Structural)]
pub enum DHeapError {
    /// The element is in the heap already.
    ElementAlreadyExists,
    /// The highest priority is kept for removals.
    UnavailablePriority,
}

/// A max-heap in which every node has up to `branching_factor` children.
#[derive(Debug)]
pub struct DHeap<T> {
    data: Vec<Pair<T>>,
    branching_factor: usize,
}

impl<T> View for DHeap<T> {
    type V = Seq<Pair<T>>;

    closed spec fn view(&self) -> Seq<Pair<T>> {
        self.data@
    }
}

/// `<[T]>::swap` of the standard library: the two entries change places and
/// the others stay.
#[verifier::external_body]
fn swap_entries<T>(data: &mut Vec<Pair<T>>, first_index: usize, second_index: usize)
    requires
        first_index < old(data).len(),
        second_index < old(data).len(),
    ensures
        final(data)@ == old(data)@.update(first_index as int, old(data)@[second_index as int]).update(
            second_index as int,
            old(data)@[first_index as int],
        ),
{
    data.swap(first_index, second_index);
}

impl<T> DHeap<T> {
    /// How many children a node has at most.
    pub closed spec fn spec_branching_factor(&self) -> usize {
        self.branching_factor
    }

    /// The heap has a branching factor and is in heap order.
    pub closed spec fn wf(&self) -> bool {
        &&& self.branching_factor >= 1
        &&& ordered(self.data@, self.branching_factor as int)
    }

    /// In a valid heap no pair has a higher priority than the first.
    pub proof fn lemma_top_is_highest(&self)
        requires
            self.wf(),
            self@.len() > 0,
        ensures
            is_highest(self@, self@[0].priority),
            self.spec_branching_factor() >= 1,
            ordered(self@, self.spec_branching_factor() as int),
    {
        assert forall|i: int| 0 <= i < self@.len() implies (#[trigger] self@[i]).priority
            <= self@[0].priority by {
            lemma_root_is_highest(self@, self.branching_factor as int, i);
        }
    }

    /// An empty heap. The branching factor is four where none is given.
    pub fn new(initial_capacity: Option<usize>, branching_factor: Option<usize>) -> (heap: Self)
        requires
            branching_factor != Some(0usize),
        ensures
            heap.wf(),
            heap@ == Seq::<Pair<T>>::empty(),
            heap.spec_branching_factor() == match branching_factor {
                Some(factor) => factor,
                None => 4,
            },
    {
        let factor = match branching_factor {
            Some(factor) => factor,
            None => 4,
        };
        match initial_capacity {
            Some(capacity) => DHeap { data: Vec::with_capacity(capacity), branching_factor: factor },
            None => DHeap { data: Vec::new(), branching_factor: factor },
        }
    }

    /// How many children a node has at most.
    pub fn branching_factor(&self) -> (factor: usize)
        ensures
            factor == self.spec_branching_factor(),
    {
        self.branching_factor
    }

    /// The number of pairs in the heap.
    pub fn len(&self) -> (length: usize)
        ensures
            length == self@.len(),
    {
        self.data.len()
    }

    /// The pair of the highest priority, which stays in the heap; `None` where
    /// the heap is empty.
    pub fn peek(&self) -> (top: Option<&Pair<T>>)
        requires
            self.wf(),
        ensures
            self@.len() == 0 ==> top is None,
            self@.len() > 0 ==> top is Some && *top.unwrap() == self@[0] && is_highest(
                self@,
                top.unwrap().priority,
            ),
    {
        if self.data.len() == 0 {
            None
        } else {
            proof {
                self.lemma_top_is_highest();
            }
            Some(&self.data[0])
        }
    }

    /// The index of the parent of the node at `index`.
    fn get_parent_index(&self, index: usize) -> (parent: usize)
        requires
            index >= 1,
            self.spec_branching_factor() >= 1,
        ensures
            parent == parent_of(index as int, self.spec_branching_factor() as int),
            parent < index,
    {
        proof {
            lemma_parent_before(index as int, self.branching_factor as int);
        }
        (index - 1) / self.branching_factor
    }

    /// Exchanges the pairs at the two indices.
    fn swap(&mut self, first_index: usize, second_index: usize)
        requires
            first_index < old(self)@.len(),
            second_index < old(self)@.len(),
        ensures
            final(self).spec_branching_factor() == old(self).spec_branching_factor(),
            final(self)@ == old(self)@.update(
                first_index as int,
                old(self)@[second_index as int],
            ).update(second_index as int, old(self)@[first_index as int]),
            final(self)@.to_multiset() == old(self)@.to_multiset(),
    {
        proof {
            lemma_swap_keeps_multiset(self.data@, first_index as int, second_index as int);
        }
        swap_entries(&mut self.data, first_index, second_index);
    }

    /// Whether the heap is in order but for the node at `index`, which may have
    /// a higher priority than its parent, while its children have none higher
    /// than that parent.
    pub open spec fn ordered_but_up(heap: Seq<Pair<T>>, branching: int, index: int) -> bool {
        &&& forall|child: int|
            1 <= child < heap.len() && child != index ==> #[trigger] heap_edge(
                heap,
                branching,
                child,
            )
        &&& forall|child: int|
            1 <= child < heap.len() && index >= 1 && parent_of(child, branching) == index
                ==> #[trigger] heap_skip(heap, branching, child)
    }

    /// Moves the pair at `index`, the last one where none is given, towards
    /// the root until its parent has no lower priority.
    fn bubble_up(&mut self, index: Option<usize>)
        requires
            old(self).spec_branching_factor() >= 1,
            old(self)@.len() >= 1,
            index is Some ==> index.unwrap() < old(self)@.len(),
            Self::ordered_but_up(
                old(self)@,
                old(self).spec_branching_factor() as int,
                match index {
                    Some(index) => index as int,
                    None => old(self)@.len() - 1,
                },
            ),
        ensures
            final(self).wf(),
            final(self).spec_branching_factor() == old(self).spec_branching_factor(),
            final(self)@.to_multiset() == old(self)@.to_multiset(),
            final(self)@.len() == old(self)@.len(),
    {
        let mut current = match index {
            Some(index) => index,
            None => self.data.len() - 1,
        };
        let ghost branching = self.branching_factor as int;
        while current > 0
            invariant
                branching == self.branching_factor,
                branching >= 1,
                self.branching_factor == old(self).branching_factor,
                current < self.data@.len(),
                self.data@.len() == old(self).data@.len(),
                self.data@.to_multiset() == old(self).data@.to_multiset(),
                Self::ordered_but_up(self.data@, branching, current as int),
            ensures
                self.branching_factor == old(self).branching_factor,
                branching == self.branching_factor,
                self.data@.len() == old(self).data@.len(),
                self.data@.to_multiset() == old(self).data@.to_multiset(),
                ordered(self.data@, branching),
            decreases current,
        {
            let parent = self.get_parent_index(current);
            if self.data[parent].priority < self.data[current].priority {
                let ghost before = self.data@;
                self.swap(current, parent);
                proof {
                    let after = self.data@;
                    assert forall|child: int|
                        1 <= child < after.len() && child != parent implies #[trigger] heap_edge(
                        after,
                        branching,
                        child,
                    ) by {
                        lemma_parent_before(child, branching);
                        if child == current {
                        } else if parent_of(child, branching) == current {
                            assert(heap_skip(before, branching, child));
                        } else {
                            assert(heap_edge(before, branching, child));
                        }
                    }
                    assert forall|child: int|
                        1 <= child < after.len() && parent >= 1 && parent_of(child, branching)
                            == parent implies #[trigger] heap_skip(after, branching, child) by {
                        lemma_parent_before(child, branching);
                        lemma_parent_before(parent as int, branching);
                        assert(heap_edge(before, branching, parent as int));
                        if child != current {
                            assert(heap_edge(before, branching, child));
                        }
                    }
                }
                current = parent;
            } else {
                assert forall|child: int|
                    1 <= child < self.data@.len() && parent_of(child, branching)
                        >= 0 implies #[trigger] heap_edge(self.data@, branching, child) by {
                    if child != current {
                        assert(heap_edge(self.data@, branching, child));
                    }
                }
                break ;
            }
        }
    }

    /// Appends `element` and moves it up to its place.
    fn insert_pair_for_update(&mut self, element: Pair<T>)
        requires
            old(self).wf(),
        ensures
            final(self).wf(),
            final(self).spec_branching_factor() == old(self).spec_branching_factor(),
            final(self)@.to_multiset() == old(self)@.to_multiset().insert(element),
            final(self)@.len() == old(self)@.len() + 1,
    {
        broadcast use vstd::seq_lib::to_multiset_build;

        let ghost before = self.data@;
        let ghost branching = self.branching_factor as int;
        self.data.push(element);
        proof {
            let after = self.data@;
            let last = after.len() - 1;
            assert forall|child: int| 1 <= child < after.len() && child != last implies #[trigger] heap_edge(
                after,
                branching,
                child,
            ) by {
                lemma_parent_before(child, branching);
                assert(heap_edge(before, branching, child));
            }
            assert forall|child: int|
                1 <= child < after.len() && last >= 1 && parent_of(child, branching)
                    == last implies #[trigger] heap_skip(after, branching, child) by {
                lemma_parent_before(child, branching);
            }
        }
        self.bubble_up(None);
    }

    /// Puts `element` into the heap.
    pub fn insert(&mut self, element: Pair<T>)
        requires
            old(self).wf(),
        ensures
            final(self).wf(),
            final(self).spec_branching_factor() == old(self).spec_branching_factor(),
            final(self)@.to_multiset() == old(self)@.to_multiset().insert(element),
            final(self)@.len() == old(self)@.len() + 1,
    {
        self.insert_pair_for_update(element)
    }

    /// The index of the first node without children.
    fn first_leaf_index(&self) -> (first_leaf: usize)
        requires
            self.spec_branching_factor() >= 1,
        ensures
            first_leaf <= self@.len(),
            forall|index: int|
                0 <= index < first_leaf ==> #[trigger] first_child_of(
                    index,
                    self.spec_branching_factor() as int,
                ) < self@.len(),
            forall|child: int|
                1 <= child < self@.len() ==> #[trigger] parent_of(
                    child,
                    self.spec_branching_factor() as int,
                ) < first_leaf,
    {
        let length = self.data.len();
        let ghost branching = self.branching_factor as int;
        if length < 2 {
            return 0;
        }
        let last_parent = (length - 2) / self.branching_factor;
        proof {
            assert(last_parent <= length - 2 && branching * last_parent <= length - 2)
                by (nonlinear_arith)
                requires
                    last_parent == (length - 2) / branching,
                    branching >= 1,
                    length >= 2,
            ;
            assert forall|index: int| 0 <= index < last_parent + 1 implies #[trigger] first_child_of(
                index,
                branching,
            ) < length by {
                assert(branching * index <= branching * last_parent) by (nonlinear_arith)
                    requires
                        0 <= index <= last_parent,
                        branching >= 1,
                ;
            }
            assert forall|child: int| 1 <= child < length implies #[trigger] parent_of(
                child,
                branching,
            ) < last_parent + 1 by {
                lemma_parent_monotone(child, length - 1, branching);
            }
        }
        last_parent + 1
    }

    /// The index of the highest priority among the node at `index` and its
    /// children: the first child above all before it, or `index` itself where
    /// no child has a higher priority than the node.
    pub fn highest_priority_child_index(&self, index: usize) -> (highest: usize)
        requires
            self.spec_branching_factor() >= 1,
        ensures
            index >= self@.len() ==> highest == index,
            index < self@.len() ==> {
                &&& highest < self@.len()
                &&& highest == index || (highest > index && parent_of(
                    highest as int,
                    self.spec_branching_factor() as int,
                ) == index)
                &&& self@[index as int].priority <= self@[highest as int].priority
                &&& highest != index ==> self@[index as int].priority
                    < self@[highest as int].priority
                &&& forall|child: int|
                    1 <= child < self@.len() && parent_of(
                        child,
                        self.spec_branching_factor() as int,
                    ) == index ==> (#[trigger] self@[child]).priority
                        <= self@[highest as int].priority
                &&& forall|child: int|
                    1 <= child < highest && parent_of(child, self.spec_branching_factor() as int)
                        == index ==> (#[trigger] self@[child]).priority
                        < self@[highest as int].priority
            },
    {
        let length = self.data.len();
        if index >= length {
            return index;
        }
        let first_leaf = self.first_leaf_index();
        if index >= first_leaf {
            return index;
        }
        let ghost branching = self.branching_factor as int;
        assert(first_child_of(index as int, branching) < length);
        assert(branching * index >= index) by (nonlinear_arith)
            requires
                branching >= 1,
                index >= 0,
        ;
        let first_child = self.branching_factor * index + 1;
        let mut highest = index;
        let mut child = first_child;
        while child < length && child - first_child < self.branching_factor
            invariant
                branching == self.branching_factor,
                branching >= 1,
                length == self.data@.len(),
                index < length,
                first_child == branching * index + 1,
                first_child <= child <= length,
                child - first_child <= branching,
                highest == index || first_child <= highest < child,
                self.data@[index as int].priority <= self.data@[highest as int].priority,
                highest != index ==> self.data@[index as int].priority
                    < self.data@[highest as int].priority,
                forall|c: int|
                    first_child <= c < child ==> (#[trigger] self.data@[c]).priority
                        <= self.data@[highest as int].priority,
                forall|c: int|
                    first_child <= c < highest ==> (#[trigger] self.data@[c]).priority
                        < self.data@[highest as int].priority,
            decreases length - child,
        {
            if self.data[child].priority > self.data[highest].priority {
                highest = child;
            }
            child = child + 1;
        }
        proof {
            if highest != index {
                lemma_children(highest as int, index as int, branching);
            }
            assert forall|c: int|
                1 <= c < length && parent_of(c, branching) == index implies first_child <= c
                < child by {
                lemma_children(c, index as int, branching);
            }
        }
        highest
    }

    /// Whether the heap is in order from the node `low` on but for the children
    /// of the node at `index`, which may have a higher priority than it and
    /// have none higher than its parent.
    pub open spec fn ordered_but_down(heap: Seq<Pair<T>>, branching: int, low: int, index: int)
        -> bool {
        &&& forall|child: int|
            1 <= child < heap.len() && parent_of(child, branching) >= low && parent_of(
                child,
                branching,
            ) != index ==> #[trigger] heap_edge(heap, branching, child)
        &&& forall|child: int|
            1 <= child < heap.len() && index > low && parent_of(child, branching) == index
                ==> #[trigger] heap_skip(heap, branching, child)
    }

    /// Moves the pair at `initial_index`, the root where none is given, towards
    /// the leaves until none of its children has a higher priority. Where the
    /// nodes after it were in heap order, the nodes from it on are afterwards.
    fn push_down_optimized(&mut self, initial_index: Option<usize>)
        requires
            old(self).spec_branching_factor() >= 1,
            match initial_index {
                Some(index) => index < old(self)@.len(),
                None => 0 < old(self)@.len(),
            },
            ordered_from(
                old(self)@,
                old(self).spec_branching_factor() as int,
                match initial_index {
                    Some(index) => index + 1,
                    None => 1,
                },
            ),
        ensures
            final(self).spec_branching_factor() == old(self).spec_branching_factor(),
            final(self)@.to_multiset() == old(self)@.to_multiset(),
            final(self)@.len() == old(self)@.len(),
            ordered_from(
                final(self)@,
                old(self).spec_branching_factor() as int,
                match initial_index {
                    Some(index) => index as int,
                    None => 0,
                },
            ),
    {
        let start = match initial_index {
            Some(index) => index,
            None => 0,
        };
        let mut index = start;
        let ghost branching = self.branching_factor as int;
        assert(Self::ordered_but_down(self.data@, branching, start as int, index as int));
        loop
            invariant_except_break
                Self::ordered_but_down(self.data@, branching, start as int, index as int),
            invariant
                branching == self.branching_factor,
                branching >= 1,
                self.branching_factor == old(self).branching_factor,
                start <= index < self.data@.len(),
                self.data@.len() == old(self).data@.len(),
                self.data@.to_multiset() == old(self).data@.to_multiset(),
            ensures
                ordered_from(self.data@, branching, start as int),
            decreases self.data@.len() - index,
        {
            let first_leaf = self.first_leaf_index();
            if index >= first_leaf {
                assert forall|child: int|
                    1 <= child < self.data@.len() && parent_of(child, branching)
                        >= start implies #[trigger] heap_edge(self.data@, branching, child) by {
                    assert(parent_of(child, self.spec_branching_factor() as int) < first_leaf);
                }
                break ;
            }
            let highest = self.highest_priority_child_index(index);
            if self.data[index].priority < self.data[highest].priority {
                let ghost before = self.data@;
                self.swap(index, highest);
                proof {
                    let after = self.data@;
                    assert forall|child: int|
                        1 <= child < after.len() && parent_of(child, branching) >= start
                            && parent_of(child, branching) != highest implies #[trigger] heap_edge(
                        after,
                        branching,
                        child,
                    ) by {
                        lemma_parent_before(child, branching);
                        if child == highest {
                        } else if child == index {
                            lemma_parent_before(index as int, branching);
                            assert(heap_skip(before, branching, highest as int));
                        } else if parent_of(child, branching) == index {
                            assert(before[child].priority <= before[highest as int].priority);
                        } else {
                            assert(heap_edge(before, branching, child));
                        }
                    }
                    assert forall|child: int|
                        1 <= child < after.len() && highest > start && parent_of(child, branching)
                            == highest implies #[trigger] heap_skip(after, branching, child) by {
                        lemma_parent_before(child, branching);
                        assert(heap_edge(before, branching, child));
                    }
                }
                index = highest;
            } else {
                assert forall|child: int|
                    1 <= child < self.data@.len() && parent_of(child, branching)
                        >= start implies #[trigger] heap_edge(self.data@, branching, child) by {
                    if parent_of(child, branching) == index {
                        assert(self.data@[child].priority <= self.data@[highest as int].priority);
                    }
                }
                break ;
            }
        }
    }

    /// Puts the pairs into heap order, whatever order they were in.
    pub fn heapify(&mut self)
        requires
            old(self).spec_branching_factor() >= 1,
        ensures
            final(self).wf(),
            final(self).spec_branching_factor() == old(self).spec_branching_factor(),
            final(self)@.to_multiset() == old(self)@.to_multiset(),
            final(self)@.len() == old(self)@.len(),
    {
        let length = self.data.len();
        if length == 0 {
            return ;
        }
        let ghost branching = self.branching_factor as int;
        let mut max_index = (length - 1) / self.branching_factor;
        proof {
            assert(max_index <= length - 1) by (nonlinear_arith)
                requires
                    max_index == (length - 1) / branching,
                    branching >= 1,
                    length >= 1,
            ;
            assert forall|child: int|
                1 <= child < length && parent_of(child, branching) >= max_index
                    + 1 implies #[trigger] heap_edge(self.data@, branching, child) by {
                lemma_parent_monotone(child, length as int, branching);
            }
        }
        while max_index != 0
            invariant
                branching == self.branching_factor,
                branching >= 1,
                self.branching_factor == old(self).branching_factor,
                length == self.data@.len(),
                self.data@.len() == old(self).data@.len(),
                max_index < length,
                self.data@.to_multiset() == old(self).data@.to_multiset(),
                ordered_from(self.data@, branching, max_index + 1),
            decreases max_index,
        {
            self.push_down_optimized(Some(max_index));
            max_index = max_index - 1;
        }
        self.push_down_optimized(None);
    }

    /// Takes the last pair off the array; `None` where the heap is empty.
    fn remove_last(&mut self) -> (last: Option<Pair<T>>)
        ensures
            final(self).spec_branching_factor() == old(self).spec_branching_factor(),
            old(self)@.len() == 0 ==> last is None && final(self)@ == old(self)@,
            old(self)@.len() > 0 ==> last == Some(old(self)@.last()) && final(self)@ == old(
                self,
            )@.drop_last(),
    {
        if self.data.len() == 0 {
            None
        } else {
            self.data.pop()
        }
    }
}

impl<T: PartialEq> DHeap<T> {
    /// Makes a heap of `data`. Fails where a pair has the highest priority
    /// there is, which is kept for removals. The heap keeps the array of
    /// `data` with the capacity it has, whatever capacity is asked for.
    pub fn with_pairs(
        data: Vec<Pair<T>>,
        initial_capacity: Option<usize>,
        branching_factor: Option<usize>,
    ) -> (made: Result<Self, DHeapError>)
        requires
            branching_factor != Some(0usize),
        ensures
            is_highest(data@, (usize::MAX - 1) as usize) ==> made is Ok && made.unwrap().wf()
                && made.unwrap()@.to_multiset() == data@.to_multiset()
                && made.unwrap().spec_branching_factor() == match branching_factor {
                Some(factor) => factor,
                None => 4,
            },
            !is_highest(data@, (usize::MAX - 1) as usize) ==> made matches Err(
                DHeapError::UnavailablePriority,
            ),
            made is Ok && distinct(data@) ==> distinct(made.unwrap()@),
    {
        let mut checked: usize = 0;
        while checked < data.len()
            invariant
                checked <= data.len(),
                forall|i: int| 0 <= i < checked ==> (#[trigger] data@[i]).priority <= usize::MAX - 1,
            decreases data.len() - checked,
        {
            if data[checked].priority == usize::MAX {
                return Err(DHeapError::UnavailablePriority);
            }
            checked = checked + 1;
        }
        let factor = match branching_factor {
            Some(factor) => factor,
            None => 4,
        };
        let ghost given = data@;
        let mut heap = DHeap { data, branching_factor: factor };
        heap.heapify();
        proof {
            if distinct(given) {
                lemma_distinct_stays(given, heap@);
            }
        }
        Ok(heap)
    }

    /// Takes the pair of the highest priority out of the heap; `None` where the
    /// heap is empty.
    pub fn top(&mut self) -> (top: Option<Pair<T>>)
        requires
            old(self).wf(),
        ensures
            final(self).wf(),
            final(self).spec_branching_factor() == old(self).spec_branching_factor(),
            old(self)@.len() == 0 ==> top is None && final(self)@ == old(self)@,
            old(self)@.len() > 0 ==> top == Some(old(self)@[0]) && is_highest(
                old(self)@,
                old(self)@[0].priority,
            ) && final(self)@.to_multiset() == old(self)@.to_multiset().remove(old(self)@[0])
                && final(self)@.len() == old(self)@.len() - 1,
            distinct(old(self)@) ==> distinct(final(self)@),
            old(self)@.len() > 0 && distinct(old(self)@) ==> forall|k: int|
                0 <= k < final(self)@.len() ==> !(#[trigger] final(self)@[k]).element.eq_spec(
                    &old(self)@[0].element,
                ),
    {
        broadcast use {
            vstd::seq_lib::to_multiset_update,
            vstd::seq_lib::to_multiset_remove,
            vstd::multiset::group_multiset_axioms,
        };

        let length = self.data.len();
        if length == 0 {
            return None;
        }
        proof {
            self.lemma_top_is_highest();
            self.data@.to_multiset_ensures();
        }
        let ghost before = self.data@;
        let ghost branching = self.branching_factor as int;
        if length == 1 {
            let last = self.remove_last();
            proof {
                assert(before.drop_last() =~= before.remove(0));
                vstd::seq_lib::to_multiset_remove(before, 0);
                if distinct(before) {
                    law_taken_is_gone(before, self.data@);
                }
            }
            return last;
        }
        let root = self.data.swap_remove(0);
        proof {
            let moved = before.update(0, before.last());
            let after = self.data@;
            assert(after =~= moved.remove(length - 1));
            moved.to_multiset_ensures();
            assert(after.to_multiset() =~= before.to_multiset().remove(before[0]));
            assert forall|child: int|
                1 <= child < after.len() && parent_of(child, branching) >= 1 implies #[trigger] heap_edge(
                after,
                branching,
                child,
            ) by {
                lemma_parent_before(child, branching);
                assert(heap_edge(before, branching, child));
            }
        }
        self.push_down_optimized(None);
        proof {
            if distinct(before) {
                law_taken_is_gone(before, self.data@);
            }
        }
        Some(root)
    }

    /// The index of the first pair whose element equals `old_value`.
    fn find_index(&self, old_value: &T) -> (found: Option<usize>)
        ensures
            found is Some ==> found.unwrap() < self@.len(),
            T::obeys_eq_spec() ==> match first_equal(self@, *old_value, 0) {
                Some(index) => found is Some && found.unwrap() as int == index,
                None => found is None,
            },
    {
        let mut index: usize = 0;
        while index < self.data.len()
            invariant
                index <= self.data@.len(),
                T::obeys_eq_spec() ==> first_equal(self.data@, *old_value, 0) == first_equal(
                    self.data@,
                    *old_value,
                    index as int,
                ),
            decreases self.data@.len() - index,
        {
            if *self.data[index].get_element() == *old_value {
                return Some(index);
            }
            index = index + 1;
        }
        None
    }

    /// Whether a pair of the heap holds `element`.
    pub fn contains(&self, element: &T) -> (held: bool)
        ensures
            T::obeys_eq_spec() ==> held == first_equal(self@, *element, 0) is Some,
    {
        self.find_index(element).is_some()
    }

    /// Gives the first pair whose element equals `old_value` the priority
    /// `new_priority`. Nothing changes where no element equals it.
    pub fn update_priority(&mut self, old_value: T, new_priority: usize)
        requires
            old(self).wf(),
        ensures
            final(self).wf(),
            final(self).spec_branching_factor() == old(self).spec_branching_factor(),
            final(self)@.len() == old(self)@.len(),
            T::obeys_eq_spec() ==> match first_equal(old(self)@, old_value, 0) {
                Some(index) => final(self)@.to_multiset() == reprioritised(
                    old(self)@,
                    index,
                    new_priority,
                ),
                None => final(self)@ == old(self)@,
            },
            !T::obeys_eq_spec() ==> final(self)@ == old(self)@ || exists|index: int|
                0 <= index < old(self)@.len() && final(self)@.to_multiset()
                    == #[trigger] reprioritised(old(self)@, index, new_priority),
            distinct(old(self)@) ==> distinct(final(self)@),
    {
        broadcast use {vstd::seq_lib::to_multiset_build, vstd::seq_lib::to_multiset_remove};

        if let Some(index) = self.find_index(&old_value) {
            let ghost before = self.data@;
            let temp = self.data.remove(index);
            let updated_pair = Pair::new(temp.element, new_priority);
            self.data.push(updated_pair);
            assert(self.data@.to_multiset() == reprioritised(before, index as int, new_priority));
            self.heapify();
            proof {
                if distinct(before) {
                    law_reprioritised_is_distinct(
                        before,
                        self.data@,
                        index as int,
                        new_priority,
                    );
                }
            }
        }
    }

    /// Takes the first pair whose element equals `element` out of the heap: it
    /// gets the highest priority there is and leaves as the top. `None`, and no
    /// change, where no element equals it. The pair that leaves is that one
    /// where no other pair has the highest priority there is.
    pub fn remove(&mut self, element: T) -> (removed: Option<Pair<T>>)
        requires
            old(self).wf(),
        ensures
            final(self).wf(),
            final(self).spec_branching_factor() == old(self).spec_branching_factor(),
            T::obeys_eq_spec() ==> match first_equal(old(self)@, element, 0) {
                None => removed is None && final(self)@ == old(self)@,
                Some(index) => {
                    &&& removed is Some
                    &&& removed.unwrap().priority == usize::MAX
                    &&& final(self)@.to_multiset() == reprioritised(
                        old(self)@,
                        index,
                        usize::MAX,
                    ).remove(removed.unwrap())
                    &&& is_highest(old(self)@, (usize::MAX - 1) as usize) ==> removed.unwrap()
                        == (Pair { priority: usize::MAX, element: old(self)@[index].element })
                        && final(self)@.to_multiset() == old(self)@.to_multiset().remove(
                        old(self)@[index],
                    )
                },
            },
            distinct(old(self)@) ==> distinct(final(self)@),
            distinct(old(self)@) && removed is Some ==> forall|k: int|
                0 <= k < final(self)@.len() ==> !(#[trigger] final(self)@[k]).element.eq_spec(
                    &removed.unwrap().element,
                ),
    {
        broadcast use {vstd::seq_lib::to_multiset_contains, vstd::multiset::group_multiset_axioms};

        if !self.contains(&element) {
            return None;
        }
        let ghost before = self.data@;
        let ghost found = first_equal(before, element, 0);
        proof {
            lemma_first_equal(before, element, 0);
        }
        self.update_priority(element, usize::MAX);
        let ghost updated = self.data@;
        let removed = self.top();
        proof {
            if T::obeys_eq_spec() {
                let index = found.unwrap();
                let raised = Pair { priority: usize::MAX, element: before[index].element };
                assert(updated.to_multiset().count(raised) > 0);
                assert(updated.contains(raised));
                let at = choose|at: int| 0 <= at < updated.len() && updated[at] == raised;
                assert(updated[at].priority <= updated[0].priority);
                if is_highest(before, (usize::MAX - 1) as usize) {
                    if updated[0] != raised {
                        assert(updated.contains(updated[0]));
                        assert(updated.to_multiset().count(updated[0]) > 0);
                        assert(before.to_multiset().count(updated[0]) > 0);
                        assert(before.contains(updated[0]));
                        let origin = choose|origin: int|
                            0 <= origin < before.len() && before[origin] == updated[0];
                        assert(before[origin].priority <= usize::MAX - 1);
                    }
                    assert(self.data@.to_multiset() =~= before.to_multiset().remove(
                        before[index],
                    ));
                }
            }
        }
        removed
    }

    /// Puts `element` with `priority` into the heap. Fails where the heap
    /// holds the element already, or the priority is the highest there is.
    pub fn insert_value(&mut self, element: T, priority: usize) -> (done: Result<(), DHeapError>)
        requires
            old(self).wf(),
        ensures
            final(self).wf(),
            final(self).spec_branching_factor() == old(self).spec_branching_factor(),
            done is Err ==> final(self)@ == old(self)@,
            done is Ok ==> final(self)@.to_multiset() == old(self)@.to_multiset().insert(
                Pair { priority, element },
            ) && final(self)@.len() == old(self)@.len() + 1,
            T::obeys_eq_spec() ==> done == (if first_equal(old(self)@, element, 0) is Some {
                Err::<(), DHeapError>(DHeapError::ElementAlreadyExists)
            } else if priority == usize::MAX {
                Err::<(), DHeapError>(DHeapError::UnavailablePriority)
            } else {
                Ok::<(), DHeapError>(())
            }),
            T::obeys_eq_spec() && symmetric_eq::<T>() && distinct(old(self)@) ==> distinct(
                final(self)@,
            ),
    {
        if self.contains(&element) {
            return Err(DHeapError::ElementAlreadyExists);
        }
        if priority == usize::MAX {
            return Err(DHeapError::UnavailablePriority);
        }
        proof {
            lemma_first_equal(self@, element, 0);
        }
        let pair = Pair::new(element, priority);
        let ghost before = self@;
        self.insert_pair_for_update(pair);
        proof {
            if T::obeys_eq_spec() && symmetric_eq::<T>() && distinct(before) {
                assert(absent(before, pair.element));
                law_new_element_is_distinct(before, self@, pair);
            }
        }
        Ok(())
    }

    /// Puts `element` into the heap. Fails where the heap holds its element
    /// already, or its priority is the highest there is.
    pub fn insert_pair(&mut self, element: Pair<T>) -> (done: Result<(), DHeapError>)
        requires
            old(self).wf(),
        ensures
            final(self).wf(),
            final(self).spec_branching_factor() == old(self).spec_branching_factor(),
            done is Err ==> final(self)@ == old(self)@,
            done is Ok ==> final(self)@.to_multiset() == old(self)@.to_multiset().insert(element)
                && final(self)@.len() == old(self)@.len() + 1,
            T::obeys_eq_spec() ==> done == (if first_equal(old(self)@, element.element, 0)
                is Some {
                Err::<(), DHeapError>(DHeapError::ElementAlreadyExists)
            } else if element.priority == usize::MAX {
                Err::<(), DHeapError>(DHeapError::UnavailablePriority)
            } else {
                Ok::<(), DHeapError>(())
            }),
            T::obeys_eq_spec() && symmetric_eq::<T>() && distinct(old(self)@) ==> distinct(
                final(self)@,
            ),
    {
        if self.contains(element.get_element()) {
            return Err(DHeapError::ElementAlreadyExists);
        }
        if element.priority == usize::MAX {
            return Err(DHeapError::UnavailablePriority);
        }
        proof {
            lemma_first_equal(self@, element.element, 0);
        }
        let ghost before = self@;
        let ghost pair = element;
        self.insert_pair_for_update(element);
        proof {
            if T::obeys_eq_spec() && symmetric_eq::<T>() && distinct(before) {
                assert(absent(before, pair.element));
                law_new_element_is_distinct(before, self@, pair);
            }
        }
        Ok(())
    }
}

} // verus!
