//! Circular index arithmetic over a table of `size` slots.

use vstd::prelude::*;

verus! {

/// The index that follows `i` on a ring of `size` positions.
pub open spec fn ring_next(i: int, size: int) -> int {
    if i + 1 >= size {
        0
    } else {
        i + 1
    }
}

/// The index that precedes `i` on a ring of `size` positions.
pub open spec fn ring_prev(i: int, size: int) -> int {
    if i <= 0 {
        size - 1
    } else {
        i - 1
    }
}

/// How many forward steps lead from `from` to `to`.
pub open spec fn ring_distance(from: int, to: int, size: int) -> int {
    if from <= to {
        to - from
    } else {
        to + size - from
    }
}

/// The index reached from `i` after `steps` forward steps, for `steps <= size`.
pub open spec fn ring_advance(i: int, steps: int, size: int) -> int {
    if i + steps >= size {
        i + steps - size
    } else {
        i + steps
    }
}

/// On valid indices `ring_next` is the successor modulo the size.
pub proof fn lemma_ring_next_is_mod(i: int, size: int)
    requires
        0 <= i < size,
    ensures
        ring_next(i, size) == (i + 1) % size,
        0 <= ring_next(i, size) < size,
{
    if i + 1 == size {
        assert((i + 1) % size == 0) by (nonlinear_arith)
            requires
                i + 1 == size,
                size > 0,
        ;
    } else {
        assert((i + 1) % size == i + 1) by (nonlinear_arith)
            requires
                0 <= i + 1 < size,
        ;
    }
}

/// Stepping forward and then back returns to the start, and conversely.
pub proof fn law_ring_steps_cancel(i: int, size: int)
    requires
        0 <= i < size,
    ensures
        ring_prev(ring_next(i, size), size) == i,
        ring_next(ring_prev(i, size), size) == i,
{
}

/// One forward step shortens the distance to a different target by one.
pub proof fn lemma_ring_distance_step(from: int, to: int, size: int)
    requires
        0 <= from < size,
        0 <= to < size,
        from != to,
    ensures
        ring_distance(ring_next(from, size), to, size) == ring_distance(from, to, size) - 1,
        0 < ring_distance(from, to, size) < size,
{
}

/// Moves one slot forward, wrapping from the last index to the first.
pub fn index_up(i: usize, size: usize) -> (next: usize)
    requires
        i < size,
    ensures
        next as int == ring_next(i as int, size as int),
        next as int == (i + 1) % (size as int),
        next < size,
{
    proof {
        lemma_ring_next_is_mod(i as int, size as int);
    }
    (i + 1) % size
}

/// Moves one slot backward, wrapping from the first index to the last.
pub fn index_down(i: usize, size: usize) -> (prev: usize)
    requires
        i < size,
    ensures
        prev as int == ring_prev(i as int, size as int),
        prev < size,
{
    if i == 0 {
        size - 1
    } else {
        i - 1
    }
}

/// The number of forward steps from `from` to `to`.
pub fn distance(from: usize, to: usize, size: usize) -> (steps: usize)
    requires
        from < size,
        to < size,
    ensures
        steps as int == ring_distance(from as int, to as int, size as int),
        steps < size,
{
    if from <= to {
        to - from
    } else {
        size - from + to
    }
}

/// The index reached from `i` after `steps` forward steps.
pub fn advance(i: usize, steps: usize, size: usize) -> (index: usize)
    requires
        i < size,
        steps <= size,
    ensures
        index as int == ring_advance(i as int, steps as int, size as int),
        index < size,
{
    if steps >= size - i {
        steps - (size - i)
    } else {
        i + steps
    }
}

} // verus!
