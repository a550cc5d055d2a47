//! Where an insertion puts its slot, and the move of the slots that are in
//! the way.

use vstd::prelude::*;
use super::filter::walk_to_run;
use super::model::{inserted_slot, moved, placement, run_position, shifted_table, Placement};
use super::navigator::{get_start_of_the_cluster, probe_up, Probe};
use super::ring::{distance, index_down, index_up, ring_advance, ring_distance, ring_prev};
use super::slot::{MetadataType, Slot};

verus! {

/// The place of `remainder` within the run that starts at `run`: the first
/// slot of the run that stores no smaller remainder, or the slot behind the
/// run.
pub fn find_position(table: &Vec<Slot>, run: usize, remainder: u64) -> (found: Option<usize>)
    requires
        run < table.len(),
    ensures
        found is Some == run_position(table@, run as int, run as int, remainder, table@.len())
            is Some,
        found is Some ==> found.unwrap() < table.len() && found.unwrap() as int == run_position(
            table@,
            run as int,
            run as int,
            remainder,
            table@.len(),
        ).unwrap(),
{
    let size = table.len();
    let mut at = run;
    let mut left = size;
    while left > 0
        invariant
            size == table.len(),
            at < size,
            run < size,
            run_position(table@, run as int, run as int, remainder, size as nat) == run_position(
                table@,
                run as int,
                at as int,
                remainder,
                left as nat,
            ),
        decreases left,
    {
        let slot = table[at];
        if slot.is_vacant() || (at != run && !slot.is_run_continued()) || slot.get_remainder()
            >= remainder {
            return Some(at);
        }
        at = index_up(at, size);
        left = left - 1;
    }
    None
}

/// Finds the index for a new slot with `remainder` whose home slot `quotient`
/// is in use and already marked occupied, the first slot from there on that
/// holds nothing, whether the new slot continues a run, and whether it takes
/// the place of the head of its run.
pub fn plan(table: &Vec<Slot>, quotient: usize, remainder: u64, was_occupied: bool) -> (planned:
    Option<(usize, usize, bool, bool)>)
    requires
        quotient < table.len(),
    ensures
        planned is Some == placement(table@, quotient as int, remainder, was_occupied) is Some,
        planned is Some ==> planned.unwrap().0 < table.len() && planned.unwrap().1 < table.len()
            && placement(table@, quotient as int, remainder, was_occupied).unwrap()
            == (Placement {
            index: planned.unwrap().0 as int,
            gap: planned.unwrap().1 as int,
            continues: planned.unwrap().2,
            heads: planned.unwrap().3,
        }),
{
    let size = table.len();
    let anchor = match get_start_of_the_cluster(table, quotient) {
        Some(anchor) => anchor,
        None => {
            return None;
        },
    };
    let run = match walk_to_run(table, quotient, anchor) {
        Some(run) => run,
        None => {
            return None;
        },
    };
    let index = if was_occupied {
        match find_position(table, run, remainder) {
            Some(index) => index,
            None => {
                return None;
            },
        }
    } else {
        run
    };
    match probe_up(table, index, size, Probe::Free) {
        Some(gap) => Some((index, gap, was_occupied && index != run, was_occupied && index == run)),
        None => None,
    }
}

/// The slot as an insertion leaves it one place further up, at the place of
/// `target`.
pub fn move_slot(slot: Slot, target: Slot, follows_new_head: bool) -> (result: Slot)
    ensures
        result == moved(slot, target, follows_new_head),
{
    let mut result = slot;
    result.set_metadata(MetadataType::IsShifted);
    if follows_new_head {
        result.set_metadata(MetadataType::RunContinued);
    }
    if target.is_occupied() {
        result.set_metadata(MetadataType::BucketOccupied);
    } else {
        result.clear_metadata(MetadataType::BucketOccupied);
    }
    result
}

/// Moves the slots from `index` up to the slot at `gap` one place up and
/// writes the new slot for `remainder` at `index`.
pub fn shift_in(
    table: &mut Vec<Slot>,
    quotient: usize,
    remainder: u64,
    index: usize,
    gap: usize,
    continues: bool,
    heads: bool,
)
    requires
        quotient < old(table).len(),
        index < old(table).len(),
        gap < old(table).len(),
    ensures
        final(table)@ == shifted_table(
            old(table)@,
            Placement { index: index as int, gap: gap as int, continues, heads },
            inserted_slot(
                old(table)@,
                quotient as int,
                remainder,
                Placement { index: index as int, gap: gap as int, continues, heads },
            ),
        ),
{
    let size = table.len();
    let ghost before = table@;
    let ghost place = Placement { index: index as int, gap: gap as int, continues, heads };
    let span = distance(index, gap, size);
    let mut steps = span;
    let mut at = gap;
    while steps > 0
        invariant
            size == table.len(),
            size == before.len(),
            index < size,
            gap < size,
            at < size,
            span == ring_distance(index as int, gap as int, size as int),
            steps <= span,
            at as int == ring_advance(index as int, steps as int, size as int),
            forall|k: int|
                0 <= k < size ==> #[trigger] table@[k] == (if k != index && steps < ring_distance(
                    index as int,
                    k,
                    size as int,
                ) <= span {
                    moved(
                        before[ring_prev(k, size as int)],
                        before[k],
                        heads && ring_prev(k, size as int) == index,
                    )
                } else {
                    before[k]
                }),
        decreases steps,
    {
        let from = index_down(at, size);
        let source = table[from];
        let target = table[at];
        let slot = move_slot(source, target, heads && from == index);
        table.set(at, slot);
        at = from;
        steps = steps - 1;
    }
    let mut slot = Slot::new_with_remainder(remainder);
    if index != quotient {
        slot.set_metadata(MetadataType::IsShifted);
    }
    if continues {
        slot.set_metadata(MetadataType::RunContinued);
    }
    if table[index].is_occupied() {
        slot.set_metadata(MetadataType::BucketOccupied);
    }
    table.set(index, slot);
    assert(table@ =~= shifted_table(
        before,
        place,
        inserted_slot(before, quotient as int, remainder, place),
    ));
}

} // verus!
