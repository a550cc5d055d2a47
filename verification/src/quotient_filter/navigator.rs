//! Walks over the table: to the anchor of a cluster, to the head of the next
//! run, past unoccupied slots, to the next free slot.

use vstd::prelude::*;
use super::ring::{index_down, index_up, ring_advance, ring_distance, ring_next, ring_prev};
use super::slot::{MetadataType, Slot};

verus! {

/// What a walk over the table looks for.
#[derive(Clone, Copy, Debug)]
pub enum Probe {
    /// A slot whose remainder sits at its own quotient's index.
    Unshifted,
    /// A slot that does not continue a run.
    RunHead,
    /// A slot that continues a run.
    Continued,
    /// A slot whose index is the quotient of a stored element.
    Occupied,
    /// A slot that holds nothing: it was never written, or it was deleted
    /// and belongs to no cluster.
    Free,
}

/// Whether a walk that looks for `kind` ends at `slot`.
pub open spec fn probe_stops(kind: Probe, slot: Slot) -> bool {
    match kind {
        Probe::Unshifted => !slot.has(MetadataType::IsShifted),
        Probe::RunHead => !slot.has(MetadataType::RunContinued),
        Probe::Continued => slot.has(MetadataType::RunContinued),
        Probe::Occupied => slot.has(MetadataType::BucketOccupied),
        Probe::Free => slot.free(),
    }
}

/// The first index at which a forward walk from `from` stops, looking at no
/// more than `fuel` slots.
pub open spec fn walk_up(table: Seq<Slot>, from: int, fuel: nat, kind: Probe) -> Option<int>
    decreases fuel,
{
    if fuel == 0 {
        None
    } else if probe_stops(kind, table[from]) {
        Some(from)
    } else {
        walk_up(table, ring_next(from, table.len() as int), (fuel - 1) as nat, kind)
    }
}

/// The first index at which a backward walk from `from` stops, looking at no
/// more than `fuel` slots.
pub open spec fn walk_down(table: Seq<Slot>, from: int, fuel: nat, kind: Probe) -> Option<int>
    decreases fuel,
{
    if fuel == 0 {
        None
    } else if probe_stops(kind, table[from]) {
        Some(from)
    } else {
        walk_down(table, ring_prev(from, table.len() as int), (fuel - 1) as nat, kind)
    }
}

/// The first cluster anchor at index `from` or above it, without wrapping.
pub open spec fn anchor_from(table: Seq<Slot>, from: int) -> Option<int>
    decreases table.len() - from,
{
    if from < 0 || from >= table.len() {
        None
    } else if table[from].cluster_start() {
        Some(from)
    } else {
        anchor_from(table, from + 1)
    }
}

/// Where a forward walk stops, the slot is what the walk looked for, it lies
/// fewer than `fuel` steps ahead, and no slot before it is.
pub proof fn lemma_walk_up_found(table: Seq<Slot>, from: int, fuel: nat, kind: Probe)
    requires
        0 <= from < table.len(),
        fuel <= table.len(),
        walk_up(table, from, fuel, kind) is Some,
    ensures
        ({
            let at = walk_up(table, from, fuel, kind).unwrap();
            &&& 0 <= at < table.len()
            &&& probe_stops(kind, table[at])
            &&& ring_distance(from, at, table.len() as int) < fuel
            &&& forall|k: int|
                0 <= k < ring_distance(from, at, table.len() as int) ==> !probe_stops(
                    kind,
                    #[trigger] table[ring_advance(from, k, table.len() as int)],
                )
        }),
    decreases fuel,
{
    let size = table.len() as int;
    if !probe_stops(kind, table[from]) {
        let next = ring_next(from, size);
        lemma_walk_up_found(table, next, (fuel - 1) as nat, kind);
        let at = walk_up(table, from, fuel, kind).unwrap();
        assert(at != from);
        assert(ring_distance(from, at, size) == ring_distance(next, at, size) + 1);
        assert forall|k: int| 0 <= k < ring_distance(from, at, size) implies !probe_stops(
            kind,
            #[trigger] table[ring_advance(from, k, size)],
        ) by {
            if k > 0 {
                assert(ring_advance(from, k, size) == ring_advance(next, k - 1, size));
            }
        }
    }
}

/// A forward walk over the whole table finds a slot of the kind it looks for
/// whenever the table holds one.
pub proof fn lemma_walk_up_finds(table: Seq<Slot>, from: int, fuel: nat, kind: Probe, at: int)
    requires
        0 <= from < table.len(),
        0 <= at < table.len(),
        probe_stops(kind, table[at]),
        ring_distance(from, at, table.len() as int) < fuel,
        fuel <= table.len(),
    ensures
        walk_up(table, from, fuel, kind) is Some,
        ring_distance(from, walk_up(table, from, fuel, kind).unwrap(), table.len() as int)
            <= ring_distance(from, at, table.len() as int),
    decreases fuel,
{
    let size = table.len() as int;
    if !probe_stops(kind, table[from]) {
        let next = ring_next(from, size);
        lemma_walk_up_finds(table, next, (fuel - 1) as nat, kind, at);
        lemma_walk_up_found(table, next, (fuel - 1) as nat, kind);
    }
}

/// Walks forward from `from` over at most `fuel` slots to the first slot of
/// the kind looked for.
pub fn probe_up(table: &Vec<Slot>, from: usize, fuel: usize, kind: Probe) -> (found: Option<usize>)
    requires
        from < table.len(),
    ensures
        found is Some == walk_up(table@, from as int, fuel as nat, kind) is Some,
        found is Some ==> found.unwrap() as int == walk_up(
            table@,
            from as int,
            fuel as nat,
            kind,
        ).unwrap() && found.unwrap() < table.len(),
{
    let size = table.len();
    let mut index = from;
    let mut left = fuel;
    while left > 0
        invariant
            size == table.len(),
            index < size,
            walk_up(table@, from as int, fuel as nat, kind) == walk_up(
                table@,
                index as int,
                left as nat,
                kind,
            ),
        decreases left,
    {
        let slot = table[index];
        let stop = match kind {
            Probe::Unshifted => !slot.is_shifted(),
            Probe::RunHead => !slot.is_run_continued(),
            Probe::Continued => slot.is_run_continued(),
            Probe::Occupied => slot.is_occupied(),
            Probe::Free => slot.is_free(),
        };
        if stop {
            return Some(index);
        }
        index = index_up(index, size);
        left = left - 1;
    }
    None
}

/// Walks backward from `from` over at most `fuel` slots to the first slot of
/// the kind looked for.
pub fn probe_down(table: &Vec<Slot>, from: usize, fuel: usize, kind: Probe) -> (found: Option<
    usize,
>)
    requires
        from < table.len(),
    ensures
        found is Some == walk_down(table@, from as int, fuel as nat, kind) is Some,
        found is Some ==> found.unwrap() as int == walk_down(
            table@,
            from as int,
            fuel as nat,
            kind,
        ).unwrap() && found.unwrap() < table.len(),
{
    let size = table.len();
    let mut index = from;
    let mut left = fuel;
    while left > 0
        invariant
            size == table.len(),
            index < size,
            walk_down(table@, from as int, fuel as nat, kind) == walk_down(
                table@,
                index as int,
                left as nat,
                kind,
            ),
        decreases left,
    {
        let slot = table[index];
        let stop = match kind {
            Probe::Unshifted => !slot.is_shifted(),
            Probe::RunHead => !slot.is_run_continued(),
            Probe::Continued => slot.is_run_continued(),
            Probe::Occupied => slot.is_occupied(),
            Probe::Free => slot.is_free(),
        };
        if stop {
            return Some(index);
        }
        index = index_down(index, size);
        left = left - 1;
    }
    None
}

/// The anchor of the cluster that holds `start_index`: the first slot at or
/// before it that is not shifted. `None` when every slot is shifted.
pub fn get_start_of_the_cluster(table: &Vec<Slot>, start_index: usize) -> (anchor: Option<usize>)
    requires
        start_index < table.len(),
    ensures
        anchor is Some == walk_down(table@, start_index as int, table@.len(), Probe::Unshifted)
            is Some,
        anchor is Some ==> anchor.unwrap() < table.len() && anchor.unwrap() as int == walk_down(
            table@,
            start_index as int,
            table@.len(),
            Probe::Unshifted,
        ).unwrap(),
{
    probe_down(table, start_index, table.len(), Probe::Unshifted)
}

/// The first slot at or after `start_index` that does not continue a run.
/// `None` when every slot continues one.
pub fn get_lowest_of_run(table: &Vec<Slot>, start_index: usize) -> (head: Option<usize>)
    requires
        start_index < table.len(),
    ensures
        head is Some == walk_up(table@, start_index as int, table@.len(), Probe::RunHead)
            is Some,
        head is Some ==> head.unwrap() < table.len() && head.unwrap() as int == walk_up(
            table@,
            start_index as int,
            table@.len(),
            Probe::RunHead,
        ).unwrap(),
{
    probe_up(table, start_index, table.len(), Probe::RunHead)
}

/// The first occupied slot at or after `start_index`. `None` when no slot is
/// occupied.
pub fn skip_empty_slots(table: &Vec<Slot>, start_index: usize) -> (occupied: Option<usize>)
    requires
        start_index < table.len(),
    ensures
        occupied is Some == walk_up(table@, start_index as int, table@.len(), Probe::Occupied)
            is Some,
        occupied is Some ==> occupied.unwrap() < table.len() && occupied.unwrap() as int
            == walk_up(table@, start_index as int, table@.len(), Probe::Occupied).unwrap(),
{
    probe_up(table, start_index, table.len(), Probe::Occupied)
}

/// The first occupied slot strictly after `cache`, looking at every other slot
/// once. `None` when no other slot is occupied.
pub fn get_next_occupied(table: &Vec<Slot>, cache: usize) -> (occupied: Option<usize>)
    requires
        cache < table.len(),
    ensures
        occupied is Some == walk_up(
            table@,
            ring_next(cache as int, table@.len() as int),
            (table@.len() - 1) as nat,
            Probe::Occupied,
        ) is Some,
        occupied is Some ==> occupied.unwrap() < table.len() && occupied.unwrap() as int
            == walk_up(
            table@,
            ring_next(cache as int, table@.len() as int),
            (table@.len() - 1) as nat,
            Probe::Occupied,
        ).unwrap(),
{
    let size = table.len();
    let first = index_up(cache, size);
    probe_up(table, first, size - 1, Probe::Occupied)
}

/// The first slot at or after `index`, up to the end of the table, that starts
/// a cluster.
pub fn get_next_anchor(table: &Vec<Slot>, index: usize) -> (anchor: Option<usize>)
    ensures
        anchor is Some == anchor_from(table@, index as int) is Some,
        anchor is Some ==> index <= anchor.unwrap() < table.len() && anchor.unwrap() as int
            == anchor_from(table@, index as int).unwrap(),
{
    let size = table.len();
    let mut i = index;
    while i < size
        invariant
            size == table.len(),
            index <= i,
            anchor_from(table@, index as int) == anchor_from(table@, i as int),
        decreases size - i,
    {
        if table[i].is_cluster_start() {
            return Some(i);
        }
        i = i + 1;
    }
    None
}

} // verus!
