//! Counters in a flat array, and what an update does to them.

use vstd::prelude::*;

verus! {

/// The counters after the one at `index` grew by `by`.
pub open spec fn bumped(counters: Seq<u64>, index: int, by: u64) -> Seq<u64> {
    counters.update(index, (counters[index] + by) as u64)
}

/// Every counter can grow by `by` without overflow.
pub open spec fn headroom(counters: Seq<u64>, by: int) -> bool {
    forall|i: int| 0 <= i < counters.len() ==> #[trigger] counters[i] + by <= u64::MAX
}

/// The smaller of two counts.
pub open spec fn least(a: u64, b: u64) -> u64 {
    if b < a {
        b
    } else {
        a
    }
}

/// A counter that grows keeps its place, and no counter shrinks.
pub proof fn lemma_bumped(counters: Seq<u64>, index: int, by: u64, other: int)
    requires
        0 <= index < counters.len(),
        0 <= other < counters.len(),
        counters[index] + by <= u64::MAX,
    ensures
        bumped(counters, index, by).len() == counters.len(),
        bumped(counters, index, by)[other] == if other == index {
            counters[other] + by
        } else {
            counters[other] as int
        },
{
}

/// Adds `by` to the counter at `index`.
pub fn bump(counters: &mut Vec<u64>, index: usize, by: u64)
    requires
        index < old(counters).len(),
        old(counters)[index as int] + by <= u64::MAX,
    ensures
        final(counters)@ == bumped(old(counters)@, index as int, by),
{
    let value = counters[index];
    counters.set(index, value + by);
}

/// Whether every counter can grow by `by` without overflow.
pub fn has_headroom(counters: &Vec<u64>, by: u64) -> (roomy: bool)
    ensures
        roomy == headroom(counters@, by as int),
{
    let mut i: usize = 0;
    while i < counters.len()
        invariant
            i <= counters.len(),
            forall|k: int| 0 <= k < i ==> #[trigger] counters@[k] + by <= u64::MAX,
        decreases counters.len() - i,
    {
        if counters[i] > u64::MAX - by {
            return false;
        }
        i = i + 1;
    }
    true
}

/// A vector of `length` counters, all zero.
pub fn zeroed(length: usize) -> (counters: Vec<u64>)
    ensures
        counters@ == Seq::new(length as nat, |i: int| 0u64),
{
    let mut counters: Vec<u64> = Vec::with_capacity(length);
    let mut filled: usize = 0;
    while filled < length
        invariant
            filled <= length,
            counters@ == Seq::new(filled as nat, |i: int| 0u64),
        decreases length - filled,
    {
        counters.push(0);
        filled = filled + 1;
        assert(counters@ =~= Seq::new(filled as nat, |i: int| 0u64));
    }
    counters
}

} // verus!
